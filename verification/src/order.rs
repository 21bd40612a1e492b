//! The dictionary order on texts, and sequences kept in that order.

use crate::text::chars_of;
use crate::text::texts;
use vstd::prelude::*;

verus! {

/// Strict dictionary order on texts, character by character.
pub open spec fn lex_lt(a: Seq<char>, b: Seq<char>) -> bool
    decreases a.len(),
{
    if b.len() == 0 {
        false
    } else if a.len() == 0 {
        true
    } else if a[0] != b[0] {
        a[0] < b[0]
    } else {
        lex_lt(a.skip(1), b.skip(1))
    }
}

/// No text comes before itself.
pub proof fn lemma_lex_irreflexive(a: Seq<char>)
    ensures
        !lex_lt(a, a),
    decreases a.len(),
{
    if a.len() > 0 {
        lemma_lex_irreflexive(a.skip(1));
    }
}

/// The dictionary order is transitive.
pub proof fn lemma_lex_transitive(a: Seq<char>, b: Seq<char>, c: Seq<char>)
    requires
        lex_lt(a, b),
        lex_lt(b, c),
    ensures
        lex_lt(a, c),
    decreases a.len(),
{
    if a.len() > 0 && a[0] == b[0] && b[0] == c[0] {
        lemma_lex_transitive(a.skip(1), b.skip(1), c.skip(1));
    }
}

/// Of two different texts one comes before the other.
pub proof fn lemma_lex_total(a: Seq<char>, b: Seq<char>)
    ensures
        lex_lt(a, b) || a == b || lex_lt(b, a),
    decreases a.len(),
{
    if a.len() == 0 || b.len() == 0 {
        assert(a.len() == 0 && b.len() == 0 ==> a =~= b);
    } else if a[0] == b[0] {
        lemma_lex_total(a.skip(1), b.skip(1));
        if a.skip(1) == b.skip(1) {
            assert(a =~= seq![a[0]] + a.skip(1));
            assert(b =~= seq![b[0]] + b.skip(1));
        }
    }
}

/// True when `a` comes strictly before `b` in dictionary order.
#[verifier::loop_isolation(false)]
pub fn text_lt(a: &str, b: &str) -> (r: bool)
    ensures
        r == lex_lt(a@, b@),
{
    let ca = chars_of(a);
    let cb = chars_of(b);
    let mut i: usize = 0;
    assert(ca@.skip(0) =~= ca@ && cb@.skip(0) =~= cb@);
    while i < ca.len() && i < cb.len()
        invariant
            i <= ca.len(),
            i <= cb.len(),
            lex_lt(ca@, cb@) == lex_lt(ca@.skip(i as int), cb@.skip(i as int)),
        decreases ca.len() - i,
    {
        let ghost ra = ca@.skip(i as int);
        let ghost rb = cb@.skip(i as int);
        assert(ra.skip(1) =~= ca@.skip(i + 1));
        assert(rb.skip(1) =~= cb@.skip(i + 1));
        assert(ra[0] == ca@[i as int] && rb[0] == cb@[i as int]);
        if ca[i] != cb[i] {
            return ca[i] < cb[i];
        }
        i += 1;
    }
    i < cb.len()
}

/// True when no element of `s` comes before an earlier one.
pub open spec fn sorted(s: Seq<Seq<char>>) -> bool {
    forall|i: int, j: int| 0 <= i < j < s.len() ==> !lex_lt(#[trigger] s[j], #[trigger] s[i])
}

/// True when each element of `s` comes strictly before the next ones.
pub open spec fn strictly_sorted(s: Seq<Seq<char>>) -> bool {
    forall|i: int, j: int| 0 <= i < j < s.len() ==> lex_lt(#[trigger] s[i], #[trigger] s[j])
}

/// The number of leading elements of `s` that come strictly before `x`.
pub open spec fn lower_bound(s: Seq<Seq<char>>, x: Seq<char>) -> int
    decreases s.len(),
{
    if s.len() == 0 {
        0
    } else if lex_lt(s[0], x) {
        1 + lower_bound(s.skip(1), x)
    } else {
        0
    }
}

/// The elements before the lower bound come before `x`; the one at it does not.
pub proof fn lemma_lower_bound(s: Seq<Seq<char>>, x: Seq<char>)
    ensures
        0 <= lower_bound(s, x) <= s.len(),
        forall|j: int| 0 <= j < lower_bound(s, x) ==> lex_lt(#[trigger] s[j], x),
        lower_bound(s, x) < s.len() ==> !lex_lt(s[lower_bound(s, x)], x),
    decreases s.len(),
{
    if s.len() > 0 && lex_lt(s[0], x) {
        lemma_lower_bound(s.skip(1), x);
        assert forall|j: int| 0 <= j < lower_bound(s, x) implies lex_lt(#[trigger] s[j], x) by {
            if j > 0 {
                assert(s.skip(1)[j - 1] == s[j]);
            }
        }
    }
}

/// `s` with `x` put in at its lower bound.
pub open spec fn ordered_insert(s: Seq<Seq<char>>, x: Seq<char>) -> Seq<Seq<char>> {
    s.insert(lower_bound(s, x), x)
}

/// The elements of `s` in dictionary order.
pub open spec fn sort(s: Seq<Seq<char>>) -> Seq<Seq<char>>
    decreases s.len(),
{
    if s.len() == 0 {
        Seq::empty()
    } else {
        ordered_insert(sort(s.drop_last()), s.last())
    }
}

/// Putting an element into a sorted sequence at its lower bound keeps it sorted.
pub proof fn lemma_ordered_insert_sorted(s: Seq<Seq<char>>, x: Seq<char>)
    requires
        sorted(s),
    ensures
        sorted(ordered_insert(s, x)),
{
    lemma_lower_bound(s, x);
    let p = lower_bound(s, x);
    let r = ordered_insert(s, x);
    assert forall|i: int, j: int| 0 <= i < j < r.len() implies !lex_lt(
        #[trigger] r[j],
        #[trigger] r[i],
    ) by {
        if j == p {
            // r[i] = s[i] comes before x
            assert(lex_lt(s[i], x));
            if lex_lt(x, s[i]) {
                lemma_lex_transitive(x, s[i], x);
                lemma_lex_irreflexive(x);
            }
        } else if i == p {
            // r[j] = s[j - 1], at or after the bound
            let y = s[j - 1];
            if lex_lt(y, x) {
                lemma_lex_total(s[p], x);
                if j - 1 > p {
                    assert(!lex_lt(s[j - 1], s[p]));
                }
                if lex_lt(x, s[p]) {
                    lemma_lex_transitive(y, x, s[p]);
                }
            }
        } else {
            let ii = if i < p {
                i
            } else {
                i - 1
            };
            let jj = if j < p {
                j
            } else {
                j - 1
            };
            assert(r[i] == s[ii] && r[j] == s[jj]);
            assert(!lex_lt(s[jj], s[ii]));
        }
    }
}

/// Sorting gives a sorted sequence with the same elements, each as often as before.
pub proof fn lemma_sort_sorted(s: Seq<Seq<char>>)
    ensures
        sorted(sort(s)),
        sort(s).len() == s.len(),
        sort(s).to_multiset() == s.to_multiset(),
    decreases s.len(),
{
    broadcast use vstd::seq_lib::group_to_multiset_ensures;

    if s.len() > 0 {
        let rest = s.drop_last();
        lemma_sort_sorted(rest);
        lemma_ordered_insert_sorted(sort(rest), s.last());
        lemma_lower_bound(sort(rest), s.last());
        assert(s =~= rest.push(s.last()));
        assert(rest.push(s.last()).to_multiset() == rest.to_multiset().insert(s.last()));
        let p = lower_bound(sort(rest), s.last());
        let r = sort(rest).insert(p, s.last());
        assert(r.remove(p) =~= sort(rest));
        assert(r[p] == s.last());
        assert(r.to_multiset().count(s.last()) > 0) by {
            assert(r.contains(s.last()));
        }
        assert(r.to_multiset() =~= r.to_multiset().remove(s.last()).insert(s.last()));
    } else {
        assert(s =~= Seq::<Seq<char>>::empty());
    }
}

/// Puts `x` into `v` at its lower bound.
pub fn insert_ordered(v: &mut Vec<String>, x: String)
    ensures
        texts(final(v)@) == ordered_insert(texts(old(v)@), x@),
{
    let ghost keys = texts(v@);
    let mut i: usize = 0;
    assert(keys.skip(0) =~= keys);
    while i < v.len() && text_lt(v[i].as_str(), x.as_str())
        invariant
            i <= v.len(),
            keys == texts(v@),
            lower_bound(keys, x@) == i + lower_bound(keys.skip(i as int), x@),
        decreases v.len() - i,
    {
        assert(keys.skip(i as int)[0] == v@[i as int]@);
        assert(keys.skip(i as int).skip(1) =~= keys.skip(i + 1));
        i += 1;
    }
    assert(i < v.len() ==> keys.skip(i as int)[0] == v@[i as int]@);
    v.insert(i, x);
    assert(texts(v@) =~= ordered_insert(keys, x@));
}

/// The strings of `v` in dictionary order.
pub fn sort_texts(v: Vec<String>) -> (r: Vec<String>)
    ensures
        texts(r@) == sort(texts(v@)),
{
    let mut out: Vec<String> = Vec::new();
    let mut i: usize = 0;
    assert(texts(v@).take(0) =~= Seq::<Seq<char>>::empty());
    assert(texts(out@) =~= Seq::<Seq<char>>::empty());
    while i < v.len()
        invariant
            i <= v.len(),
            texts(out@) == sort(texts(v@).take(i as int)),
        decreases v.len() - i,
    {
        assert(texts(v@).take(i + 1).drop_last() =~= texts(v@).take(i as int));
        insert_ordered(&mut out, v[i].clone());
        i += 1;
    }
    assert(texts(v@).take(v.len() as int) =~= texts(v@));
    out
}

} // verus!
