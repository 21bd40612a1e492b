//! Swapping the two values mirrors the changes that the walk records.

use crate::engine::Record;
use crate::engine::added_keys;
use crate::engine::extra;
use crate::engine::item_record;
use crate::engine::kept_keys;
use crate::engine::leaf_record;
use crate::engine::member_records;
use crate::engine::paired;
use crate::engine::records;
use crate::engine::shorter;
use crate::engine::surplus;
use crate::engine::unmatched;
use crate::options::OptionsView;
use crate::path::bracketed;
use crate::path::key_text;
use crate::policy::equal_under;
use crate::policy::keys_of;
use crate::value::ValueView;
use crate::value::find_key;
use crate::value::identical;
use crate::value::lemma_find_key;
use crate::value::lemma_find_own_key;
use crate::value::member;
use crate::value::same_member;
use crate::value::well_formed;
use vstd::prelude::*;

verus! {

// ---------------------------------------------------------------------------
// Swapping the two values
// ---------------------------------------------------------------------------

/// The change seen from the other side: old and new value swapped, added for
/// removed and removed for added, at the same path.
pub open spec fn mirror(r: Record) -> Record {
    match r {
        Record::ValueChanged { path, old, new } => Record::ValueChanged { path, old: new, new: old },
        Record::TypeChanged { path, old, new } => Record::TypeChanged { path, old: new, new: old },
        Record::KeyAdded { path } => Record::KeyRemoved { path },
        Record::KeyRemoved { path } => Record::KeyAdded { path },
        Record::ItemAdded { path, value } => Record::ItemRemoved { path, value },
        Record::ItemRemoved { path, value } => Record::ItemAdded { path, value },
    }
}

pub(crate) proof fn lemma_identical_symmetric(a: ValueView, b: ValueView)
    requires
        well_formed(a),
        well_formed(b),
        identical(a, b),
    ensures
        identical(b, a),
    decreases a,
{
    match (a, b) {
        (ValueView::Array(x), ValueView::Array(y)) => {
            assert forall|i: int| 0 <= i < y.len() implies identical(#[trigger] y[i], x[i]) by {
                assert(identical(x[i], y[i]));
                lemma_identical_symmetric(x[i], y[i]);
            }
        },
        (ValueView::Object(x), ValueView::Object(y)) => {
            let kx = keys_of(x);
            let ky = keys_of(y);
            assert(kx.no_duplicates()) by {
                assert forall|i: int, j: int| 0 <= i < kx.len() && 0 <= j < kx.len() && i != j implies kx[i]
                    != kx[j] by {
                    if i < j {
                        assert(x[i].0 != x[j].0);
                    } else {
                        assert(x[j].0 != x[i].0);
                    }
                }
            }
            assert(ky.no_duplicates()) by {
                assert forall|i: int, j: int| 0 <= i < ky.len() && 0 <= j < ky.len() && i != j implies ky[i]
                    != ky[j] by {
                    if i < j {
                        assert(y[i].0 != y[j].0);
                    } else {
                        assert(y[j].0 != y[i].0);
                    }
                }
            }
            kx.unique_seq_to_set();
            ky.unique_seq_to_set();
            vstd::seq_lib::seq_to_set_is_finite(kx);
            vstd::seq_lib::seq_to_set_is_finite(ky);
            assert(kx.to_set().subset_of(ky.to_set())) by {
                assert forall|e: Seq<char>| kx.to_set().contains(e) implies ky.to_set().contains(
                    e,
                ) by {
                    let i = choose|i: int| 0 <= i < kx.len() && kx[i] == e;
                    assert(same_member(x[i], y));
                    lemma_find_key(y, x[i].0, 0);
                    let j = find_key(y, x[i].0, 0)->0;
                    assert(ky[j] == e);
                }
            }
            vstd::set_lib::lemma_subset_equality(kx.to_set(), ky.to_set());
            assert forall|j: int| 0 <= j < y.len() implies same_member(#[trigger] y[j], x) by {
                assert(ky[j] == y[j].0);
                assert(ky.to_set().contains(ky[j]));
                assert(kx.to_set().contains(ky[j]));
                let i = choose|i: int| 0 <= i < kx.len() && kx[i] == ky[j];
                assert(x[i].0 == y[j].0);
                lemma_find_own_key(x, i);
                lemma_find_own_key(y, j);
                assert(same_member(x[i], y));
                assert(identical(x[i].1, y[j].1));
                lemma_identical_symmetric(x[i].1, y[j].1);
            }
        },
        _ => {},
    }
}

proof fn lemma_equal_under_symmetric(a: ValueView, b: ValueView, o: OptionsView)
    requires
        well_formed(a),
        well_formed(b),
    ensures
        equal_under(a, b, o) == equal_under(b, a, o),
{
    if identical(a, b) {
        lemma_identical_symmetric(a, b);
    }
    if identical(b, a) {
        lemma_identical_symmetric(b, a);
    }
}

pub(crate) proof fn lemma_contains_concat(s: Seq<Record>, t: Seq<Record>, r: Record)
    ensures
        (s + t).contains(r) <==> s.contains(r) || t.contains(r),
{
    if s.contains(r) {
        let i = choose|i: int| 0 <= i < s.len() && s[i] == r;
        assert((s + t)[i] == r);
    }
    if t.contains(r) {
        let i = choose|i: int| 0 <= i < t.len() && t[i] == r;
        assert((s + t)[s.len() + i] == r);
    }
    if (s + t).contains(r) {
        let i = choose|i: int| 0 <= i < (s + t).len() && (s + t)[i] == r;
        if i < s.len() {
            assert(s[i] == r);
        } else {
            assert(t[i - s.len()] == r);
        }
    }
}

pub(crate) proof fn lemma_contains_push(s: Seq<Record>, x: Record, r: Record)
    ensures
        s.push(x).contains(r) <==> s.contains(r) || r == x,
{
    if s.contains(r) {
        let i = choose|i: int| 0 <= i < s.len() && s[i] == r;
        assert(s.push(x)[i] == r);
    }
    if r == x {
        assert(s.push(x)[s.len() as int] == r);
    }
    if s.push(x).contains(r) {
        let i = choose|i: int| 0 <= i < s.push(x).len() && s.push(x)[i] == r;
        if i < s.len() {
            assert(s[i] == r);
        }
    }
}

pub(crate) proof fn lemma_kept_keys_members(
    x: Seq<(Seq<char>, ValueView)>,
    y: Seq<(Seq<char>, ValueView)>,
    path: Seq<char>,
    o: OptionsView,
    n: int,
    r: Record,
)
    requires
        0 <= n <= x.len(),
    ensures
        kept_keys(x, y, path, o, n).contains(r) <==> exists|i: int|
            0 <= i < n && (#[trigger] member_records(x[i], y, path, o)).contains(r),
    decreases n,
{
    if n > 0 {
        lemma_kept_keys_members(x, y, path, o, n - 1, r);
        lemma_contains_concat(
            kept_keys(x, y, path, o, n - 1),
            member_records(x[n - 1], y, path, o),
            r,
        );
        if kept_keys(x, y, path, o, n).contains(r) {
            if member_records(x[n - 1], y, path, o).contains(r) {
            } else {
                let i = choose|i: int|
                    0 <= i < n - 1 && (#[trigger] member_records(x[i], y, path, o)).contains(r);
                assert(0 <= i < n && member_records(x[i], y, path, o).contains(r));
            }
        }
    }
}

/// Whether the member at `j` of `y` is reported as an added key.
pub open spec fn is_added(
    x: Seq<(Seq<char>, ValueView)>,
    y: Seq<(Seq<char>, ValueView)>,
    path: Seq<char>,
    j: int,
    r: Record,
) -> bool {
    member(x, y[j].0) is None && r == (Record::KeyAdded { path: path + key_text(y[j].0) })
}

pub(crate) proof fn lemma_added_keys_members(
    x: Seq<(Seq<char>, ValueView)>,
    y: Seq<(Seq<char>, ValueView)>,
    path: Seq<char>,
    n: int,
    r: Record,
)
    requires
        0 <= n <= y.len(),
    ensures
        added_keys(x, y, path, n).contains(r) <==> exists|j: int|
            0 <= j < n && #[trigger] is_added(x, y, path, j, r),
    decreases n,
{
    if n > 0 {
        lemma_added_keys_members(x, y, path, n - 1, r);
        let rest = added_keys(x, y, path, n - 1);
        let rec = Record::KeyAdded { path: path + key_text(y[n - 1].0) };
        lemma_contains_push(rest, rec, r);
        if added_keys(x, y, path, n).contains(r) {
            if member(x, y[n - 1].0) is None && r == rec {
                assert(is_added(x, y, path, n - 1, r));
            } else {
                let j = choose|j: int| 0 <= j < n - 1 && #[trigger] is_added(x, y, path, j, r);
                assert(0 <= j < n && is_added(x, y, path, j, r));
            }
        }
        if exists|j: int| 0 <= j < n && #[trigger] is_added(x, y, path, j, r) {
            let j = choose|j: int| 0 <= j < n && #[trigger] is_added(x, y, path, j, r);
            if j < n - 1 {
                assert(rest.contains(r));
            }
        }
    } else {
        assert(added_keys(x, y, path, n) =~= Seq::<Record>::empty());
    }
}

pub(crate) proof fn lemma_paired_members(
    x: Seq<ValueView>,
    y: Seq<ValueView>,
    path: Seq<char>,
    o: OptionsView,
    n: int,
    r: Record,
)
    requires
        0 <= n <= x.len(),
        n <= y.len(),
    ensures
        paired(x, y, path, o, n).contains(r) <==> exists|i: int|
            0 <= i < n && (#[trigger] records(x[i], y[i], path + bracketed(i as nat), o)).contains(
                r,
            ),
    decreases n,
{
    if n > 0 {
        lemma_paired_members(x, y, path, o, n - 1, r);
        lemma_contains_concat(
            paired(x, y, path, o, n - 1),
            records(x[n - 1], y[n - 1], path + bracketed((n - 1) as nat), o),
            r,
        );
        if paired(x, y, path, o, n).contains(r) {
            if records(x[n - 1], y[n - 1], path + bracketed((n - 1) as nat), o).contains(r) {
            } else {
                let i = choose|i: int|
                    0 <= i < n - 1 && (#[trigger] records(
                        x[i],
                        y[i],
                        path + bracketed(i as nat),
                        o,
                    )).contains(r);
                assert(0 <= i < n && records(x[i], y[i], path + bracketed(i as nat), o).contains(r));
            }
        }
    }
}

/// Whether the item at `i` of `x` is reported as a record of the given kind.
pub open spec fn is_item(x: Seq<ValueView>, path: Seq<char>, removed: bool, i: int, r: Record) -> bool {
    r == item_record(removed, path + bracketed(i as nat), x[i])
}

pub(crate) proof fn lemma_extra_members(
    x: Seq<ValueView>,
    path: Seq<char>,
    removed: bool,
    from: int,
    n: int,
    r: Record,
)
    requires
        0 <= from,
        0 <= n <= x.len(),
    ensures
        extra(x, path, removed, from, n).contains(r) <==> exists|i: int|
            from <= i < n && #[trigger] is_item(x, path, removed, i, r),
    decreases n,
{
    if n > from && n > 0 {
        lemma_extra_members(x, path, removed, from, n - 1, r);
        let rest = extra(x, path, removed, from, n - 1);
        let rec = item_record(removed, path + bracketed((n - 1) as nat), x[n - 1]);
        lemma_contains_push(rest, rec, r);
        if extra(x, path, removed, from, n).contains(r) {
            if r == rec {
                assert(is_item(x, path, removed, n - 1, r));
            } else {
                let i = choose|i: int| from <= i < n - 1 && #[trigger] is_item(x, path, removed, i, r);
                assert(from <= i < n && is_item(x, path, removed, i, r));
            }
        }
        if exists|i: int| from <= i < n && #[trigger] is_item(x, path, removed, i, r) {
            let i = choose|i: int| from <= i < n && #[trigger] is_item(x, path, removed, i, r);
            if i < n - 1 {
                assert(rest.contains(r));
            }
        }
    } else {
        assert(extra(x, path, removed, from, n) =~= Seq::<Record>::empty());
    }
}

/// Whether the item at `i` of `x` is without partner and reported as `r`.
pub open spec fn is_surplus(
    x: Seq<ValueView>,
    y: Seq<ValueView>,
    path: Seq<char>,
    removed: bool,
    i: int,
    r: Record,
) -> bool {
    unmatched(x, y, i) && r == item_record(removed, path + bracketed(i as nat), x[i])
}

pub(crate) proof fn lemma_surplus_members(
    x: Seq<ValueView>,
    y: Seq<ValueView>,
    path: Seq<char>,
    removed: bool,
    n: int,
    r: Record,
)
    requires
        0 <= n <= x.len(),
    ensures
        surplus(x, y, path, removed, n).contains(r) <==> exists|i: int|
            0 <= i < n && #[trigger] is_surplus(x, y, path, removed, i, r),
    decreases n,
{
    if n > 0 {
        lemma_surplus_members(x, y, path, removed, n - 1, r);
        let rest = surplus(x, y, path, removed, n - 1);
        let rec = item_record(removed, path + bracketed((n - 1) as nat), x[n - 1]);
        lemma_contains_push(rest, rec, r);
        if surplus(x, y, path, removed, n).contains(r) {
            if unmatched(x, y, n - 1) && r == rec {
                assert(is_surplus(x, y, path, removed, n - 1, r));
            } else {
                let i = choose|i: int|
                    0 <= i < n - 1 && #[trigger] is_surplus(x, y, path, removed, i, r);
                assert(0 <= i < n && is_surplus(x, y, path, removed, i, r));
            }
        }
        if exists|i: int| 0 <= i < n && #[trigger] is_surplus(x, y, path, removed, i, r) {
            let i = choose|i: int| 0 <= i < n && #[trigger] is_surplus(x, y, path, removed, i, r);
            if i < n - 1 {
                assert(rest.contains(r));
            }
        }
    } else {
        assert(surplus(x, y, path, removed, n) =~= Seq::<Record>::empty());
    }
}

proof fn lemma_mirror_forward(a: ValueView, b: ValueView, path: Seq<char>, o: OptionsView, r: Record)
    requires
        well_formed(a),
        well_formed(b),
        records(a, b, path, o).contains(r),
    ensures
        records(b, a, path, o).contains(mirror(r)),
    decreases a,
{
    lemma_equal_under_symmetric(a, b, o);
    let m = mirror(r);
    match (a, b) {
        (ValueView::Object(x), ValueView::Object(y)) => {
            let k1 = kept_keys(x, y, path, o, x.len() as int);
            let k2 = added_keys(x, y, path, y.len() as int);
            let w1 = kept_keys(y, x, path, o, y.len() as int);
            let w2 = added_keys(y, x, path, x.len() as int);
            lemma_contains_concat(k1, k2, r);
            lemma_contains_concat(w1, w2, m);
            lemma_kept_keys_members(y, x, path, o, y.len() as int, m);
            lemma_added_keys_members(y, x, path, x.len() as int, m);
            if k1.contains(r) {
                lemma_kept_keys_members(x, y, path, o, x.len() as int, r);
                let i = choose|i: int|
                    0 <= i < x.len() && (#[trigger] member_records(x[i], y, path, o)).contains(r);
                lemma_find_key(y, x[i].0, 0);
                match find_key(y, x[i].0, 0) {
                    Some(j) => {
                        assert(well_formed(x[i].1));
                        assert(well_formed(y[j].1));
                        lemma_mirror_forward(x[i].1, y[j].1, path + key_text(x[i].0), o, r);
                        lemma_find_own_key(x, i);
                        assert(member(x, y[j].0) == Some(x[i].1));
                        assert(member_records(y[j], x, path, o).contains(m));
                    },
                    None => {
                        let one = seq![Record::KeyRemoved { path: path + key_text(x[i].0) }];
                        assert(member_records(x[i], y, path, o) == one);
                        let q = choose|q: int| 0 <= q < one.len() && one[q] == r;
                        assert(is_added(y, x, path, i, m));
                    },
                }
            } else {
                lemma_added_keys_members(x, y, path, y.len() as int, r);
                let j = choose|j: int| 0 <= j < y.len() && #[trigger] is_added(x, y, path, j, r);
                let one = seq![Record::KeyRemoved { path: path + key_text(y[j].0) }];
                assert(member_records(y[j], x, path, o) == one);
                assert(one[0] == m);
                assert(member_records(y[j], x, path, o).contains(m));
            }
        },
        (ValueView::Array(x), ValueView::Array(y)) => {
            if o.ignore_order {
                let s1 = surplus(x, y, path, true, x.len() as int);
                let s2 = surplus(y, x, path, false, y.len() as int);
                let w1 = surplus(y, x, path, true, y.len() as int);
                let w2 = surplus(x, y, path, false, x.len() as int);
                lemma_contains_concat(s1, s2, r);
                lemma_contains_concat(w1, w2, m);
                lemma_surplus_members(y, x, path, true, y.len() as int, m);
                lemma_surplus_members(x, y, path, false, x.len() as int, m);
                if s1.contains(r) {
                    lemma_surplus_members(x, y, path, true, x.len() as int, r);
                    let i = choose|i: int|
                        0 <= i < x.len() && #[trigger] is_surplus(x, y, path, true, i, r);
                    assert(is_surplus(x, y, path, false, i, m));
                } else {
                    lemma_surplus_members(y, x, path, false, y.len() as int, r);
                    let i = choose|i: int|
                        0 <= i < y.len() && #[trigger] is_surplus(y, x, path, false, i, r);
                    assert(is_surplus(y, x, path, true, i, m));
                }
            } else {
                let n = shorter(x.len() as int, y.len() as int);
                let p1 = paired(x, y, path, o, n);
                let e1 = extra(x, path, true, y.len() as int, x.len() as int);
                let e2 = extra(y, path, false, x.len() as int, y.len() as int);
                let q1 = paired(y, x, path, o, n);
                let f1 = extra(y, path, true, x.len() as int, y.len() as int);
                let f2 = extra(x, path, false, y.len() as int, x.len() as int);
                lemma_contains_concat(p1 + e1, e2, r);
                lemma_contains_concat(p1, e1, r);
                lemma_contains_concat(q1 + f1, f2, m);
                lemma_contains_concat(q1, f1, m);
                lemma_paired_members(y, x, path, o, n, m);
                lemma_extra_members(y, path, true, x.len() as int, y.len() as int, m);
                lemma_extra_members(x, path, false, y.len() as int, x.len() as int, m);
                if p1.contains(r) {
                    lemma_paired_members(x, y, path, o, n, r);
                    let i = choose|i: int|
                        0 <= i < n && (#[trigger] records(
                            x[i],
                            y[i],
                            path + bracketed(i as nat),
                            o,
                        )).contains(r);
                    lemma_mirror_forward(x[i], y[i], path + bracketed(i as nat), o, r);
                    assert(records(y[i], x[i], path + bracketed(i as nat), o).contains(m));
                } else if e1.contains(r) {
                    lemma_extra_members(x, path, true, y.len() as int, x.len() as int, r);
                    let i = choose|i: int|
                        y.len() <= i < x.len() && #[trigger] is_item(x, path, true, i, r);
                    assert(is_item(x, path, false, i, m));
                } else {
                    lemma_extra_members(y, path, false, x.len() as int, y.len() as int, r);
                    let i = choose|i: int|
                        x.len() <= i < y.len() && #[trigger] is_item(y, path, false, i, r);
                    assert(is_item(y, path, true, i, m));
                }
            }
        },
        _ => {
            let one = seq![leaf_record(a, b, path, o)];
            let q = choose|q: int| 0 <= q < one.len() && one[q] == r;
            assert(r == leaf_record(a, b, path, o));
            let other = seq![leaf_record(b, a, path, o)];
            assert(crate::policy::compatible(a, b, o) == crate::policy::compatible(b, a, o));
            assert(other[0] == m);
        },
    }
}

/// Swapping the two values mirrors the changes: every addition becomes a
/// removal at the same path and every removal an addition, and every changed
/// value or type has its old and new value swapped. This is stated of the
/// changes that the walk records, for well-formed values.
pub proof fn lemma_swap_mirrors(a: ValueView, b: ValueView, path: Seq<char>, o: OptionsView)
    requires
        well_formed(a),
        well_formed(b),
    ensures
        forall|r: Record| #[trigger]
            records(a, b, path, o).contains(r) <==> records(b, a, path, o).contains(mirror(r)),
{
    assert forall|r: Record| #[trigger]
        records(a, b, path, o).contains(r) <==> records(b, a, path, o).contains(mirror(r)) by {
        if records(a, b, path, o).contains(r) {
            lemma_mirror_forward(a, b, path, o, r);
        }
        if records(b, a, path, o).contains(mirror(r)) {
            lemma_mirror_forward(b, a, path, o, mirror(r));
            assert(mirror(mirror(r)) == r);
        }
    }
}

} // verus!
