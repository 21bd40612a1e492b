//! Canonical texts tell values apart: two well-formed values have the same
//! canonical text exactly when they are identical.

use crate::mirror::lemma_same_paths_same_list;
use crate::mirror::lemma_sorted_distinct;
use crate::order::sort;
use crate::policy::canonical;
use crate::policy::canonical_members;
use crate::policy::canonicals;
use crate::policy::concat;
use crate::policy::float_text;
use crate::policy::framed;
use crate::policy::keys_of;
use crate::policy::number_text;
use crate::swap::lemma_identical_symmetric;
use crate::text::decimal;
use crate::text::is_digit;
use crate::text::lemma_decimal_value;
use crate::value::NumberView;
use crate::value::ValueView;
use crate::value::find_key;
use crate::value::identical;
use crate::value::lemma_find_key;
use crate::value::lemma_find_own_key;
use crate::value::member;
use crate::value::same_member;
use crate::value::well_formed;
use vstd::prelude::*;

verus! {

// ---------------------------------------------------------------------------
// Frames
// ---------------------------------------------------------------------------

/// The tag of the canonical text of a value.
pub open spec fn tag_of(v: ValueView) -> Seq<char> {
    match v {
        ValueView::Null => "null:"@,
        ValueView::Bool(_) => "bool:"@,
        ValueView::Number(NumberView::Float(_)) => "float:"@,
        ValueView::Number(_) => "int:"@,
        ValueView::String(_) => "str:"@,
        ValueView::Array(_) => "list:"@,
        ValueView::Object(_) => "dict:"@,
    }
}

/// What the frame of the canonical text of a value holds.
pub open spec fn content_of(v: ValueView) -> Seq<char> {
    match v {
        ValueView::Null => Seq::empty(),
        ValueView::Bool(b) => if b {
            "true"@
        } else {
            "false"@
        },
        ValueView::Number(NumberView::Float(t)) => float_text(t),
        ValueView::Number(n) => number_text(n),
        ValueView::String(s) => s,
        ValueView::Array(items) => concat(canonicals(items)),
        ValueView::Object(members) => concat(canonical_members(members)),
    }
}

/// The number of the type that a tag stands for.
spec fn tag_number(v: ValueView) -> int {
    match v {
        ValueView::Null => 0,
        ValueView::Bool(_) => 1,
        ValueView::Number(NumberView::Float(_)) => 3,
        ValueView::Number(_) => 2,
        ValueView::String(_) => 4,
        ValueView::Array(_) => 5,
        ValueView::Object(_) => 6,
    }
}

/// The canonical text of a value is the frame of its content under its tag,
/// and tags that begin alike are the same tag.
proof fn lemma_shape(a: ValueView, b: ValueView)
    ensures
        canonical(a) == framed(tag_of(a), content_of(a)),
        tag_of(a).len() > 0,
        tag_of(a)[0] == tag_of(b)[0] ==> tag_number(a) == tag_number(b) && tag_of(a) == tag_of(b),
{
    reveal_strlit("null:");
    reveal_strlit("bool:");
    reveal_strlit("int:");
    reveal_strlit("float:");
    reveal_strlit("str:");
    reveal_strlit("list:");
    reveal_strlit("dict:");
}

/// A numeral followed by a colon tells where it ends.
proof fn lemma_numeral_ends(n1: nat, r1: Seq<char>, n2: nat, r2: Seq<char>)
    requires
        decimal(n1) + ":"@ + r1 == decimal(n2) + ":"@ + r2,
    ensures
        n1 == n2,
        r1 == r2,
{
    reveal_strlit(":");
    let d1 = decimal(n1);
    let d2 = decimal(n2);
    let t = d1 + ":"@ + r1;
    let u = d2 + ":"@ + r2;
    lemma_decimal_value(n1);
    lemma_decimal_value(n2);
    assert(t[d1.len() as int] == ':');
    assert(u[d2.len() as int] == ':');
    if d1.len() < d2.len() {
        assert(u[d1.len() as int] == d2[d1.len() as int]);
        assert(is_digit(d2[d1.len() as int]));
    } else if d2.len() < d1.len() {
        assert(t[d2.len() as int] == d1[d2.len() as int]);
        assert(is_digit(d1[d2.len() as int]));
    }
    assert(d1 =~= d2) by {
        assert forall|i: int| 0 <= i < d1.len() implies d1[i] == d2[i] by {
            assert(t[i] == d1[i]);
            assert(u[i] == d2[i]);
        }
    }
    assert(r1 =~= r2) by {
        assert(r1.len() == r2.len()) by {
            assert(t.len() == d1.len() + 1 + r1.len());
            assert(u.len() == d2.len() + 1 + r2.len());
        }
        assert forall|i: int| 0 <= i < r1.len() implies r1[i] == r2[i] by {
            assert(t[d1.len() + 1 + i] == r1[i]);
            assert(u[d2.len() + 1 + i] == r2[i]);
        }
    }
}

/// A frame tells where it ends: two texts that begin with frames of one tag
/// and are the same text hold the same content and go on alike.
proof fn lemma_frame_ends(tag: Seq<char>, c1: Seq<char>, s1: Seq<char>, c2: Seq<char>, s2: Seq<char>)
    requires
        framed(tag, c1) + s1 == framed(tag, c2) + s2,
    ensures
        c1 == c2,
        s1 == s2,
{
    let x1 = decimal(c1.len()) + ":"@ + (c1 + s1);
    let x2 = decimal(c2.len()) + ":"@ + (c2 + s2);
    assert(framed(tag, c1) + s1 =~= tag + x1);
    assert(framed(tag, c2) + s2 =~= tag + x2);
    assert(x1 =~= (tag + x1).skip(tag.len() as int));
    assert(x2 =~= (tag + x2).skip(tag.len() as int));
    lemma_numeral_ends(c1.len(), c1 + s1, c2.len(), c2 + s2);
    assert(c1 =~= (c1 + s1).take(c1.len() as int));
    assert(c2 =~= (c2 + s2).take(c2.len() as int));
    assert(s1 =~= (c1 + s1).skip(c1.len() as int));
    assert(s2 =~= (c2 + s2).skip(c2.len() as int));
}

/// The parts one after the other are the first part and then the others.
proof fn lemma_concat_front(parts: Seq<Seq<char>>)
    requires
        parts.len() > 0,
    ensures
        concat(parts) == parts[0] + concat(parts.skip(1)),
    decreases parts.len(),
{
    if parts.len() == 1 {
        assert(parts.drop_last() =~= Seq::<Seq<char>>::empty());
        assert(parts.skip(1) =~= Seq::<Seq<char>>::empty());
        assert(concat(parts) =~= parts[0] + concat(parts.skip(1)));
    } else {
        let shorter = parts.drop_last();
        lemma_concat_front(shorter);
        assert(parts.skip(1).drop_last() =~= shorter.skip(1));
        assert(parts.skip(1).last() == parts.last());
        assert(concat(parts) =~= parts[0] + concat(parts.skip(1)));
    }
}

// ---------------------------------------------------------------------------
// Different values, different texts
// ---------------------------------------------------------------------------

/// Two numbers with the same content in their frames are the same number.
proof fn lemma_number_content(x: NumberView, y: NumberView)
    requires
        well_formed(ValueView::Number(x)),
        well_formed(ValueView::Number(y)),
        tag_number(ValueView::Number(x)) == tag_number(ValueView::Number(y)),
        content_of(ValueView::Number(x)) == content_of(ValueView::Number(y)),
    ensures
        crate::value::same_number(x, y),
{
    reveal_strlit("-");
    reveal_strlit("0.0");
    reveal_strlit("-0.0");
    match (x, y) {
        (NumberView::PosInt(u), NumberView::PosInt(w)) => {
            lemma_decimal_value(u as nat);
            lemma_decimal_value(w as nat);
        },
        (NumberView::NegInt(i), NumberView::NegInt(j)) => {
            let di = decimal((-i) as nat);
            let dj = decimal((-j) as nat);
            assert(di =~= ("-"@ + di).skip(1));
            assert(dj =~= ("-"@ + dj).skip(1));
            lemma_decimal_value((-i) as nat);
            lemma_decimal_value((-j) as nat);
        },
        (NumberView::PosInt(u), NumberView::NegInt(j)) => {
            lemma_decimal_value(u as nat);
            assert(is_digit(decimal(u as nat)[0]));
            assert(("-"@ + decimal((-j) as nat))[0] == '-');
        },
        (NumberView::NegInt(i), NumberView::PosInt(w)) => {
            lemma_decimal_value(w as nat);
            assert(is_digit(decimal(w as nat)[0]));
            assert(("-"@ + decimal((-i) as nat))[0] == '-');
        },
        _ => {},
    }
}

/// The member that the `j`-th canonical text of an object is written for.
proof fn lemma_member_part(members: Seq<(Seq<char>, ValueView)>, j: int)
    requires
        well_formed(ValueView::Object(members)),
        0 <= j < members.len(),
    ensures
        sort(keys_of(members)).len() == members.len(),
        find_key(members, sort(keys_of(members))[j], 0) matches Some(i) && 0 <= i < members.len()
            && members[i].0 == sort(keys_of(members))[j] && canonical_members(members)[j]
            == framed("key:"@, members[i].0) + canonical(members[i].1),
{
    let keys = keys_of(members);
    lemma_distinct_key_list(members);
    lemma_sorted_distinct(keys);
    let key = sort(keys)[j];
    assert(sort(keys).contains(key));
    assert(keys.contains(key));
    let at = choose|at: int| 0 <= at < keys.len() && keys[at] == key;
    assert(members[at].0 == key);
    lemma_find_key(members, key, 0);
}

/// The keys of a well-formed object hold no key twice.
proof fn lemma_distinct_key_list(members: Seq<(Seq<char>, ValueView)>)
    requires
        well_formed(ValueView::Object(members)),
    ensures
        keys_of(members).no_duplicates(),
{
    let keys = keys_of(members);
    assert forall|i: int, j: int| 0 <= i < keys.len() && 0 <= j < keys.len() && i != j implies keys[i]
        != keys[j] by {
        if i < j {
            assert(members[i].0 != members[j].0);
        } else {
            assert(members[j].0 != members[i].0);
        }
    }
}

/// Two texts that begin with the canonical texts of two well-formed values
/// and are the same text: the values are identical, and the texts go on alike.
proof fn lemma_text_ends(a: ValueView, b: ValueView, s: Seq<char>, t: Seq<char>)
    requires
        well_formed(a),
        well_formed(b),
        canonical(a) + s == canonical(b) + t,
    ensures
        identical(a, b),
        s == t,
    decreases a, 0nat, 0nat,
{
    lemma_shape(a, b);
    lemma_shape(b, a);
    assert((canonical(a) + s)[0] == tag_of(a)[0]);
    assert((canonical(b) + t)[0] == tag_of(b)[0]);
    lemma_frame_ends(tag_of(a), content_of(a), s, content_of(b), t);
    reveal_strlit("true");
    reveal_strlit("false");
    match (a, b) {
        (ValueView::Number(x), ValueView::Number(y)) => {
            lemma_number_content(x, y);
        },
        (ValueView::Array(x), ValueView::Array(y)) => {
            assert(canonicals(x).skip(0) =~= canonicals(x));
            assert(canonicals(y).skip(0) =~= canonicals(y));
            lemma_items_end(x, y, 0);
        },
        (ValueView::Object(x), ValueView::Object(y)) => {
            assert(canonical_members(x).skip(0) =~= canonical_members(x));
            assert(canonical_members(y).skip(0) =~= canonical_members(y));
            lemma_members_end(x, y, 0);
            lemma_distinct_key_list(x);
            lemma_sorted_distinct(keys_of(x));
            assert forall|i: int| 0 <= i < x.len() implies same_member(#[trigger] x[i], y) by {
                let key = x[i].0;
                assert(keys_of(x)[i] == key);
                assert(keys_of(x).contains(key));
                assert(sort(keys_of(x)).contains(key));
                let j = choose|j: int|
                    0 <= j < sort(keys_of(x)).len() && sort(keys_of(x))[j] == key;
                lemma_find_own_key(x, i);
                assert(same_at(x, y, j));
            }
        },
        _ => {},
    }
}

/// Two arrays whose canonical texts from the `k`-th item on make the same
/// text have the same length and identical items from there on.
proof fn lemma_items_end(x: Seq<ValueView>, y: Seq<ValueView>, k: int)
    requires
        forall|i: int| 0 <= i < x.len() ==> well_formed(#[trigger] x[i]),
        forall|i: int| 0 <= i < y.len() ==> well_formed(#[trigger] y[i]),
        0 <= k <= x.len(),
        k <= y.len(),
        concat(canonicals(x).skip(k)) == concat(canonicals(y).skip(k)),
    ensures
        x.len() == y.len(),
        forall|i: int| k <= i < x.len() ==> identical(#[trigger] x[i], y[i]),
    decreases x, x.len() - k, 0nat,
{
    let cx = canonicals(x).skip(k);
    let cy = canonicals(y).skip(k);
    if k < x.len() {
        lemma_concat_front(cx);
        lemma_shape(x[k], x[k]);
        assert(cx[0] == canonical(x[k]));
    }
    if k < y.len() {
        lemma_concat_front(cy);
        lemma_shape(y[k], y[k]);
        assert(cy[0] == canonical(y[k]));
    }
    if k < x.len() && k < y.len() {
        assert(cx.skip(1) =~= canonicals(x).skip(k + 1));
        assert(cy.skip(1) =~= canonicals(y).skip(k + 1));
        lemma_text_ends(x[k], y[k], concat(cx.skip(1)), concat(cy.skip(1)));
        lemma_items_end(x, y, k + 1);
        assert forall|i: int| k <= i < x.len() implies identical(#[trigger] x[i], y[i]) by {
            if i > k {
            }
        }
    } else if k < x.len() {
        assert(concat(cy) =~= Seq::<char>::empty());
        assert(concat(cx).len() >= cx[0].len());
    } else if k < y.len() {
        assert(concat(cx) =~= Seq::<char>::empty());
        assert(concat(cy).len() >= cy[0].len());
    }
}

/// True when the `j`-th keys of two objects, in dictionary order, are the same
/// key and the values under it are identical.
spec fn same_at(x: Seq<(Seq<char>, ValueView)>, y: Seq<(Seq<char>, ValueView)>, j: int) -> bool {
    let key = sort(keys_of(x))[j];
    &&& sort(keys_of(y))[j] == key
    &&& member(x, key) is Some
    &&& member(y, key) is Some
    &&& identical(member(x, key)->0, member(y, key)->0)
}

/// Two objects whose canonical texts from the `k`-th key on make the same
/// text have the same number of members and, from there on, the same keys
/// with identical values.
proof fn lemma_members_end(
    x: Seq<(Seq<char>, ValueView)>,
    y: Seq<(Seq<char>, ValueView)>,
    k: int,
)
    requires
        well_formed(ValueView::Object(x)),
        well_formed(ValueView::Object(y)),
        0 <= k <= x.len(),
        k <= y.len(),
        concat(canonical_members(x).skip(k)) == concat(canonical_members(y).skip(k)),
    ensures
        x.len() == y.len(),
        forall|j: int| k <= j < x.len() ==> #[trigger] same_at(x, y, j),
    decreases x, x.len() - k, 0nat,
{
    reveal_strlit("key:");
    let cx = canonical_members(x).skip(k);
    let cy = canonical_members(y).skip(k);
    if k < x.len() {
        lemma_concat_front(cx);
        lemma_member_part(x, k);
        assert(cx[0] == canonical_members(x)[k]);
    }
    if k < y.len() {
        lemma_concat_front(cy);
        lemma_member_part(y, k);
        assert(cy[0] == canonical_members(y)[k]);
    }
    if k < x.len() && k < y.len() {
        assert(cx.skip(1) =~= canonical_members(x).skip(k + 1));
        assert(cy.skip(1) =~= canonical_members(y).skip(k + 1));
        let kx = sort(keys_of(x))[k];
        let ky = sort(keys_of(y))[k];
        let ix = find_key(x, kx, 0)->0;
        let iy = find_key(y, ky, 0)->0;
        let rx = concat(cx.skip(1));
        let ry = concat(cy.skip(1));
        assert(framed("key:"@, kx) + (canonical(x[ix].1) + rx) =~= cx[0] + rx);
        assert(framed("key:"@, ky) + (canonical(y[iy].1) + ry) =~= cy[0] + ry);
        lemma_frame_ends("key:"@, kx, canonical(x[ix].1) + rx, ky, canonical(y[iy].1) + ry);
        assert(well_formed(x[ix].1));
        assert(well_formed(y[iy].1));
        lemma_text_ends(x[ix].1, y[iy].1, rx, ry);
        lemma_members_end(x, y, k + 1);
        assert(same_at(x, y, k));
        assert forall|j: int| k <= j < x.len() implies #[trigger] same_at(x, y, j) by {
            if j > k {
            }
        }
    } else if k < x.len() {
        assert(concat(cy) =~= Seq::<char>::empty());
        assert(concat(cx).len() >= cx[0].len());
        assert(cx[0].len() > 0);
    } else if k < y.len() {
        assert(concat(cx) =~= Seq::<char>::empty());
        assert(concat(cy).len() >= cy[0].len());
        assert(cy[0].len() > 0);
    }
}

// ---------------------------------------------------------------------------
// Identical values, same text
// ---------------------------------------------------------------------------

/// Identical well-formed values have the same canonical text.
proof fn lemma_identical_same_text(a: ValueView, b: ValueView)
    requires
        well_formed(a),
        well_formed(b),
        identical(a, b),
    ensures
        canonical(a) == canonical(b),
    decreases a,
{
    match (a, b) {
        (ValueView::Array(x), ValueView::Array(y)) => {
            assert(canonicals(x) =~= canonicals(y)) by {
                assert forall|i: int| 0 <= i < x.len() implies canonicals(x)[i] == canonicals(y)[i] by {
                    assert(identical(x[i], y[i]));
                    lemma_identical_same_text(x[i], y[i]);
                }
            }
        },
        (ValueView::Object(x), ValueView::Object(y)) => {
            lemma_identical_symmetric(a, b);
            let kx = keys_of(x);
            let ky = keys_of(y);
            lemma_distinct_key_list(x);
            lemma_distinct_key_list(y);
            lemma_sorted_distinct(kx);
            lemma_sorted_distinct(ky);
            assert forall|key: Seq<char>| sort(kx).contains(key) <==> sort(ky).contains(key) by {
                if kx.contains(key) {
                    let i = choose|i: int| 0 <= i < kx.len() && kx[i] == key;
                    assert(same_member(x[i], y));
                    lemma_find_key(y, key, 0);
                    let j = find_key(y, key, 0)->0;
                    assert(ky[j] == key);
                }
                if ky.contains(key) {
                    let i = choose|i: int| 0 <= i < ky.len() && ky[i] == key;
                    assert(same_member(y[i], x));
                    lemma_find_key(x, key, 0);
                    let j = find_key(x, key, 0)->0;
                    assert(kx[j] == key);
                }
            }
            lemma_same_paths_same_list(sort(kx), sort(ky));
            assert(canonical_members(x) =~= canonical_members(y)) by {
                assert forall|j: int| 0 <= j < x.len() implies canonical_members(x)[j]
                    == canonical_members(y)[j] by {
                    lemma_member_part(x, j);
                    lemma_member_part(y, j);
                    let key = sort(kx)[j];
                    let ix = find_key(x, key, 0)->0;
                    let iy = find_key(y, key, 0)->0;
                    assert(same_member(x[ix], y));
                    assert(well_formed(x[ix].1));
                    assert(well_formed(y[iy].1));
                    lemma_identical_same_text(x[ix].1, y[iy].1);
                }
            }
        },
        _ => {},
    }
}

/// Two well-formed values have the same canonical text exactly when they are
/// identical: equal trees give equal texts whatever the order of the members
/// of their objects, and different trees give different texts.
pub proof fn lemma_canonical_tells_apart(a: ValueView, b: ValueView)
    requires
        well_formed(a),
        well_formed(b),
    ensures
        canonical(a) == canonical(b) <==> identical(a, b),
{
    if canonical(a) == canonical(b) {
        lemma_text_ends(a, b, Seq::empty(), Seq::empty());
    }
    if identical(a, b) {
        lemma_identical_same_text(a, b);
    }
}

} // verus!
