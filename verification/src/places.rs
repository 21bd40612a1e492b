//! The paths of the recorded changes: each is the text of a path that can be
//! read back, leads to what the change tells, and is recorded once.

use crate::engine::Record;
use crate::engine::added_keys;
use crate::engine::extra;
use crate::engine::item_record;
use crate::engine::kept_keys;
use crate::engine::leaf_record;
use crate::engine::member_records;
use crate::engine::paired;
use crate::engine::records;
use crate::engine::shorter;
use crate::engine::surplus;
use crate::engine::unmatched;
use crate::options::OptionsView;
use crate::path::bracketed;
use crate::path::key_text;
use crate::policy::equal_under;
use crate::swap::is_added;
use crate::swap::is_item;
use crate::swap::is_surplus;
use crate::swap::lemma_added_keys_members;
use crate::swap::lemma_contains_concat;
use crate::swap::lemma_extra_members;
use crate::swap::lemma_kept_keys_members;
use crate::swap::lemma_paired_members;
use crate::swap::lemma_surplus_members;
use crate::value::ValueView;
use crate::value::find_key;
use crate::value::lemma_find_key;
use crate::value::lemma_find_own_key;
use crate::value::member;
use crate::value::well_formed;
use vstd::prelude::*;

verus! {

// ---------------------------------------------------------------------------
// The paths of the changes
// ---------------------------------------------------------------------------

/// The path at which a change was found.
pub open spec fn path_of(r: Record) -> Seq<char> {
    match r {
        Record::ValueChanged { path, .. } => path,
        Record::TypeChanged { path, .. } => path,
        Record::KeyAdded { path } => path,
        Record::KeyRemoved { path } => path,
        Record::ItemAdded { path, .. } => path,
        Record::ItemRemoved { path, .. } => path,
    }
}

/// True when, throughout the value, no key holds `']`, the mark that ends a
/// key in a path, and no array has more items than there are indices.
pub open spec fn addressable(v: ValueView) -> bool
    decreases v,
{
    match v {
        ValueView::Array(items) => items.len() <= usize::MAX && forall|i: int|
            0 <= i < items.len() ==> addressable(#[trigger] items[i]),
        ValueView::Object(members) => forall|i: int|
            0 <= i < members.len() ==> !crate::path::holds_key_end((#[trigger] members[i]).0)
                && addressable(members[i].1),
        _ => true,
    }
}

/// True when `q` is the path of `r`, can be read back, and begins with `p`.
pub open spec fn leads_to(q: Seq<crate::path::SegmentView>, p: Seq<crate::path::SegmentView>, r: Record) -> bool {
    crate::path::path_text(q) == path_of(r) && crate::path::readable(q) && p.is_prefix_of(q)
}

proof fn lemma_step(p: Seq<crate::path::SegmentView>, s: crate::path::SegmentView)
    requires
        crate::path::readable(p),
        s matches crate::path::SegmentView::Key(k) ==> !crate::path::holds_key_end(k),
    ensures
        crate::path::path_text(p.push(s)) == crate::path::path_text(p) + crate::path::segment_text(
            s,
        ),
        crate::path::readable(p.push(s)),
        p.is_prefix_of(p.push(s)),
{
    assert(p.push(s).drop_last() =~= p);
    assert(p.push(s).subrange(0, p.len() as int) =~= p);
    assert forall|i: int| 0 <= i < p.push(s).len() implies (#[trigger] p.push(s)[i] matches crate::path::SegmentView::Key(
        k,
    ) ==> !crate::path::holds_key_end(k)) by {
        if i < p.len() {
            assert(p.push(s)[i] == p[i]);
        }
    }
}

proof fn lemma_prefix_chain(
    p: Seq<crate::path::SegmentView>,
    m: Seq<crate::path::SegmentView>,
    q: Seq<crate::path::SegmentView>,
)
    requires
        p.is_prefix_of(m),
        m.is_prefix_of(q),
    ensures
        p.is_prefix_of(q),
{
    assert(q.subrange(0, p.len() as int) =~= m.subrange(0, p.len() as int));
}

proof fn lemma_record_path(
    a: ValueView,
    b: ValueView,
    p: Seq<crate::path::SegmentView>,
    o: OptionsView,
    r: Record,
)
    requires
        addressable(a),
        addressable(b),
        crate::path::readable(p),
        records(a, b, crate::path::path_text(p), o).contains(r),
    ensures
        exists|q: Seq<crate::path::SegmentView>| #[trigger] leads_to(q, p, r),
    decreases a,
{
    let path = crate::path::path_text(p);
    match (a, b) {
        (ValueView::Object(x), ValueView::Object(y)) => {
            let k1 = kept_keys(x, y, path, o, x.len() as int);
            let k2 = added_keys(x, y, path, y.len() as int);
            lemma_contains_concat(k1, k2, r);
            if k1.contains(r) {
                lemma_kept_keys_members(x, y, path, o, x.len() as int, r);
                let i = choose|i: int|
                    0 <= i < x.len() && (#[trigger] member_records(x[i], y, path, o)).contains(r);
                let s = crate::path::SegmentView::Key(x[i].0);
                lemma_step(p, s);
                lemma_find_key(y, x[i].0, 0);
                match find_key(y, x[i].0, 0) {
                    Some(j) => {
                        lemma_record_path(x[i].1, y[j].1, p.push(s), o, r);
                        let q = choose|q: Seq<crate::path::SegmentView>| #[trigger]
                            leads_to(q, p.push(s), r);
                        lemma_prefix_chain(p, p.push(s), q);
                        assert(leads_to(q, p, r));
                    },
                    None => {
                        let one = seq![Record::KeyRemoved { path: path + key_text(x[i].0) }];
                        assert(member_records(x[i], y, path, o) == one);
                        let w = choose|w: int| 0 <= w < one.len() && one[w] == r;
                        assert(leads_to(p.push(s), p, r));
                    },
                }
            } else {
                lemma_added_keys_members(x, y, path, y.len() as int, r);
                let j = choose|j: int| 0 <= j < y.len() && #[trigger] is_added(x, y, path, j, r);
                let s = crate::path::SegmentView::Key(y[j].0);
                lemma_step(p, s);
                assert(leads_to(p.push(s), p, r));
            }
        },
        (ValueView::Array(x), ValueView::Array(y)) => {
            if o.ignore_order {
                let s1 = surplus(x, y, path, true, x.len() as int);
                let s2 = surplus(y, x, path, false, y.len() as int);
                lemma_contains_concat(s1, s2, r);
                if s1.contains(r) {
                    lemma_surplus_members(x, y, path, true, x.len() as int, r);
                    let i = choose|i: int|
                        0 <= i < x.len() && #[trigger] is_surplus(x, y, path, true, i, r);
                    let s = crate::path::SegmentView::Index(i as usize);
                    lemma_step(p, s);
                    assert(leads_to(p.push(s), p, r));
                } else {
                    lemma_surplus_members(y, x, path, false, y.len() as int, r);
                    let i = choose|i: int|
                        0 <= i < y.len() && #[trigger] is_surplus(y, x, path, false, i, r);
                    let s = crate::path::SegmentView::Index(i as usize);
                    lemma_step(p, s);
                    assert(leads_to(p.push(s), p, r));
                }
            } else {
                let n = shorter(x.len() as int, y.len() as int);
                let p1 = paired(x, y, path, o, n);
                let e1 = extra(x, path, true, y.len() as int, x.len() as int);
                let e2 = extra(y, path, false, x.len() as int, y.len() as int);
                lemma_contains_concat(p1 + e1, e2, r);
                lemma_contains_concat(p1, e1, r);
                if p1.contains(r) {
                    lemma_paired_members(x, y, path, o, n, r);
                    let i = choose|i: int|
                        0 <= i < n && (#[trigger] records(
                            x[i],
                            y[i],
                            path + bracketed(i as nat),
                            o,
                        )).contains(r);
                    let s = crate::path::SegmentView::Index(i as usize);
                    lemma_step(p, s);
                    lemma_record_path(x[i], y[i], p.push(s), o, r);
                    let q = choose|q: Seq<crate::path::SegmentView>| #[trigger]
                        leads_to(q, p.push(s), r);
                    lemma_prefix_chain(p, p.push(s), q);
                    assert(leads_to(q, p, r));
                } else if e1.contains(r) {
                    lemma_extra_members(x, path, true, y.len() as int, x.len() as int, r);
                    let i = choose|i: int|
                        y.len() <= i < x.len() && #[trigger] is_item(x, path, true, i, r);
                    let s = crate::path::SegmentView::Index(i as usize);
                    lemma_step(p, s);
                    assert(leads_to(p.push(s), p, r));
                } else {
                    lemma_extra_members(y, path, false, x.len() as int, y.len() as int, r);
                    let i = choose|i: int|
                        x.len() <= i < y.len() && #[trigger] is_item(y, path, false, i, r);
                    let s = crate::path::SegmentView::Index(i as usize);
                    lemma_step(p, s);
                    assert(leads_to(p.push(s), p, r));
                }
            }
        },
        _ => {
            let one = seq![leaf_record(a, b, path, o)];
            let w = choose|w: int| 0 <= w < one.len() && one[w] == r;
            assert(p.subrange(0, p.len() as int) =~= p);
            assert(leads_to(p, p, r));
        },
    }
}

/// Every path that the walk records is the canonical text of a path, and
/// reading it gives that path back, provided that no key of the two values
/// holds `']` and no array is longer than the largest index.
pub proof fn lemma_recorded_paths_read_back(a: ValueView, b: ValueView, o: OptionsView, r: Record)
    requires
        addressable(a),
        addressable(b),
        records(a, b, "root"@, o).contains(r),
    ensures
        exists|q: Seq<crate::path::SegmentView>|
            #![trigger crate::path::path_text(q)]
            crate::path::path_text(q) == path_of(r) && crate::path::parse(path_of(r)) == Some(q),
{
    let p = Seq::<crate::path::SegmentView>::empty();
    assert(crate::path::path_text(p) == "root"@);
    lemma_record_path(a, b, p, o, r);
    let q = choose|q: Seq<crate::path::SegmentView>| #[trigger] leads_to(q, p, r);
    crate::path::lemma_parse_inverts_render(q);
    assert(crate::path::path_text(q) == path_of(r) && crate::path::parse(path_of(r)) == Some(q));
}

// ---------------------------------------------------------------------------
// The places of the changes
// ---------------------------------------------------------------------------

/// Following a path and then one more segment is following the longer path.
pub proof fn lemma_value_at_push(v: ValueView, p: Seq<crate::path::SegmentView>, s: crate::path::SegmentView)
    ensures
        crate::value::value_at(v, p.push(s)) == (match crate::value::value_at(v, p) {
            Some(inner) => crate::value::value_at(inner, seq![s]),
            None => None,
        }),
    decreases p.len(),
{
    if p.len() == 0 {
        assert(p.push(s) =~= seq![s]);
    } else {
        assert(p.push(s)[0] == p[0]);
        assert(p.push(s).skip(1) =~= p.skip(1).push(s));
        match (p[0], v) {
            (crate::path::SegmentView::Key(k), ValueView::Object(members)) => {
                match member(members, k) {
                    Some(inner) => {
                        lemma_value_at_push(inner, p.skip(1), s);
                    },
                    None => {},
                }
            },
            (crate::path::SegmentView::Index(i), ValueView::Array(items)) => {
                if i < items.len() {
                    lemma_value_at_push(items[i as int], p.skip(1), s);
                }
            },
            _ => {},
        }
    }
}

/// True when the path `q` leads, in the two values compared, to what the
/// change `r` tells: to the old and the new value of a changed value or type,
/// to a value in the one and to nothing in the other for a key that was added
/// or removed, and to the item for an item that was added or removed.
pub open spec fn found_at(a: ValueView, b: ValueView, q: Seq<crate::path::SegmentView>, r: Record) -> bool {
    match r {
        Record::ValueChanged { old, new, .. } => crate::value::value_at(a, q) == Some(old)
            && crate::value::value_at(b, q) == Some(new),
        Record::TypeChanged { old, new, .. } => crate::value::value_at(a, q) == Some(old)
            && crate::value::value_at(b, q) == Some(new),
        Record::KeyAdded { .. } => crate::value::value_at(a, q) is None && crate::value::value_at(
            b,
            q,
        ) is Some,
        Record::KeyRemoved { .. } => crate::value::value_at(a, q) is Some
            && crate::value::value_at(b, q) is None,
        Record::ItemAdded { value, .. } => crate::value::value_at(b, q) == Some(value),
        Record::ItemRemoved { value, .. } => crate::value::value_at(a, q) == Some(value),
    }
}

/// True when `q` is the path of `r`, can be read back, and leads to what `r` tells.
pub open spec fn placed(a: ValueView, b: ValueView, q: Seq<crate::path::SegmentView>, r: Record) -> bool {
    crate::path::path_text(q) == path_of(r) && crate::path::readable(q) && found_at(a, b, q, r)
}

proof fn lemma_one_step(v: ValueView, p: Seq<crate::path::SegmentView>, inner: ValueView)
    requires
        crate::value::value_at(v, p) == Some(inner),
    ensures
        forall|k: Seq<char>|
            inner is Object ==> #[trigger] crate::value::value_at(
                v,
                p.push(crate::path::SegmentView::Key(k)),
            ) == member(inner->Object_0, k),
        forall|i: usize|
            inner is Array ==> #[trigger] crate::value::value_at(
                v,
                p.push(crate::path::SegmentView::Index(i)),
            ) == (if i < inner->Array_0.len() {
                Some(inner->Array_0[i as int])
            } else {
                None
            }),
{
    assert forall|k: Seq<char>| inner is Object implies #[trigger] crate::value::value_at(
        v,
        p.push(crate::path::SegmentView::Key(k)),
    ) == member(inner->Object_0, k) by {
        let s = crate::path::SegmentView::Key(k);
        lemma_value_at_push(v, p, s);
        assert(seq![s].skip(1) =~= Seq::<crate::path::SegmentView>::empty());
        match member(inner->Object_0, k) {
            Some(x) => {
                assert(crate::value::value_at(x, seq![s].skip(1)) == Some(x));
            },
            None => {},
        }
    }
    assert forall|i: usize| inner is Array implies #[trigger] crate::value::value_at(
        v,
        p.push(crate::path::SegmentView::Index(i)),
    ) == (if i < inner->Array_0.len() {
        Some(inner->Array_0[i as int])
    } else {
        None
    }) by {
        let s = crate::path::SegmentView::Index(i);
        lemma_value_at_push(v, p, s);
        assert(seq![s].skip(1) =~= Seq::<crate::path::SegmentView>::empty());
        if i < inner->Array_0.len() {
            let x = inner->Array_0[i as int];
            assert(crate::value::value_at(x, seq![s].skip(1)) == Some(x));
        }
    }
}

proof fn lemma_record_place(
    ra: ValueView,
    rb: ValueView,
    a: ValueView,
    b: ValueView,
    p: Seq<crate::path::SegmentView>,
    o: OptionsView,
    r: Record,
)
    requires
        well_formed(a),
        well_formed(b),
        addressable(a),
        addressable(b),
        crate::path::readable(p),
        crate::value::value_at(ra, p) == Some(a),
        crate::value::value_at(rb, p) == Some(b),
        records(a, b, crate::path::path_text(p), o).contains(r),
    ensures
        exists|q: Seq<crate::path::SegmentView>| #[trigger] placed(ra, rb, q, r),
    decreases a,
{
    let path = crate::path::path_text(p);
    lemma_one_step(ra, p, a);
    lemma_one_step(rb, p, b);
    match (a, b) {
        (ValueView::Object(x), ValueView::Object(y)) => {
            let k1 = kept_keys(x, y, path, o, x.len() as int);
            let k2 = added_keys(x, y, path, y.len() as int);
            lemma_contains_concat(k1, k2, r);
            if k1.contains(r) {
                lemma_kept_keys_members(x, y, path, o, x.len() as int, r);
                let i = choose|i: int|
                    0 <= i < x.len() && (#[trigger] member_records(x[i], y, path, o)).contains(r);
                let s = crate::path::SegmentView::Key(x[i].0);
                lemma_step(p, s);
                lemma_find_key(y, x[i].0, 0);
                lemma_find_own_key(x, i);
                match find_key(y, x[i].0, 0) {
                    Some(j) => {
                        lemma_record_place(ra, rb, x[i].1, y[j].1, p.push(s), o, r);
                        let q = choose|q: Seq<crate::path::SegmentView>| #[trigger]
                            placed(ra, rb, q, r);
                        assert(placed(ra, rb, q, r));
                    },
                    None => {
                        let one = seq![Record::KeyRemoved { path: path + key_text(x[i].0) }];
                        assert(member_records(x[i], y, path, o) == one);
                        let w = choose|w: int| 0 <= w < one.len() && one[w] == r;
                        assert(placed(ra, rb, p.push(s), r));
                    },
                }
            } else {
                lemma_added_keys_members(x, y, path, y.len() as int, r);
                let j = choose|j: int| 0 <= j < y.len() && #[trigger] is_added(x, y, path, j, r);
                let s = crate::path::SegmentView::Key(y[j].0);
                lemma_step(p, s);
                lemma_find_key(y, y[j].0, 0);
                assert(placed(ra, rb, p.push(s), r));
            }
        },
        (ValueView::Array(x), ValueView::Array(y)) => {
            if o.ignore_order {
                let s1 = surplus(x, y, path, true, x.len() as int);
                let s2 = surplus(y, x, path, false, y.len() as int);
                lemma_contains_concat(s1, s2, r);
                if s1.contains(r) {
                    lemma_surplus_members(x, y, path, true, x.len() as int, r);
                    let i = choose|i: int|
                        0 <= i < x.len() && #[trigger] is_surplus(x, y, path, true, i, r);
                    let s = crate::path::SegmentView::Index(i as usize);
                    lemma_step(p, s);
                    assert(placed(ra, rb, p.push(s), r));
                } else {
                    lemma_surplus_members(y, x, path, false, y.len() as int, r);
                    let i = choose|i: int|
                        0 <= i < y.len() && #[trigger] is_surplus(y, x, path, false, i, r);
                    let s = crate::path::SegmentView::Index(i as usize);
                    lemma_step(p, s);
                    assert(placed(ra, rb, p.push(s), r));
                }
            } else {
                let n = shorter(x.len() as int, y.len() as int);
                let p1 = paired(x, y, path, o, n);
                let e1 = extra(x, path, true, y.len() as int, x.len() as int);
                let e2 = extra(y, path, false, x.len() as int, y.len() as int);
                lemma_contains_concat(p1 + e1, e2, r);
                lemma_contains_concat(p1, e1, r);
                if p1.contains(r) {
                    lemma_paired_members(x, y, path, o, n, r);
                    let i = choose|i: int|
                        0 <= i < n && (#[trigger] records(
                            x[i],
                            y[i],
                            path + bracketed(i as nat),
                            o,
                        )).contains(r);
                    let s = crate::path::SegmentView::Index(i as usize);
                    lemma_step(p, s);
                    lemma_record_place(ra, rb, x[i], y[i], p.push(s), o, r);
                    let q = choose|q: Seq<crate::path::SegmentView>| #[trigger] placed(ra, rb, q, r);
                    assert(placed(ra, rb, q, r));
                } else if e1.contains(r) {
                    lemma_extra_members(x, path, true, y.len() as int, x.len() as int, r);
                    let i = choose|i: int|
                        y.len() <= i < x.len() && #[trigger] is_item(x, path, true, i, r);
                    let s = crate::path::SegmentView::Index(i as usize);
                    lemma_step(p, s);
                    assert(placed(ra, rb, p.push(s), r));
                } else {
                    lemma_extra_members(y, path, false, x.len() as int, y.len() as int, r);
                    let i = choose|i: int|
                        x.len() <= i < y.len() && #[trigger] is_item(y, path, false, i, r);
                    let s = crate::path::SegmentView::Index(i as usize);
                    lemma_step(p, s);
                    assert(placed(ra, rb, p.push(s), r));
                }
            }
        },
        _ => {
            let one = seq![leaf_record(a, b, path, o)];
            let w = choose|w: int| 0 <= w < one.len() && one[w] == r;
            assert(placed(ra, rb, p, r));
        },
    }
}

/// Every path that the walk records leads to what the change tells: read
/// back, it leads in the first value to the old value or to what was removed,
/// and in the second to the new value or to what was added. This holds of
/// well-formed values in which no key holds `']` and no array is longer than
/// the largest index.
pub proof fn lemma_recorded_paths_lead_to_values(
    a: ValueView,
    b: ValueView,
    o: OptionsView,
    r: Record,
)
    requires
        well_formed(a),
        well_formed(b),
        addressable(a),
        addressable(b),
        records(a, b, "root"@, o).contains(r),
    ensures
        exists|q: Seq<crate::path::SegmentView>|
            #![trigger found_at(a, b, q, r)]
            crate::path::parse(path_of(r)) == Some(q) && found_at(a, b, q, r),
{
    let p = Seq::<crate::path::SegmentView>::empty();
    assert(crate::path::path_text(p) == "root"@);
    lemma_record_place(a, b, a, b, p, o, r);
    let q = choose|q: Seq<crate::path::SegmentView>| #[trigger] placed(a, b, q, r);
    crate::path::lemma_parse_inverts_render(q);
    assert(crate::path::parse(path_of(r)) == Some(q) && found_at(a, b, q, r));
}

// ---------------------------------------------------------------------------
// No change is recorded twice
// ---------------------------------------------------------------------------

/// Two readable paths with the same text are the same path.
proof fn lemma_same_text_same_path(q1: Seq<crate::path::SegmentView>, q2: Seq<crate::path::SegmentView>)
    requires
        crate::path::readable(q1),
        crate::path::readable(q2),
        crate::path::path_text(q1) == crate::path::path_text(q2),
    ensures
        q1 == q2,
{
    crate::path::lemma_parse_inverts_render(q1);
    crate::path::lemma_parse_inverts_render(q2);
}

/// True when `r` was found at or below the place that `s` leads to from `p`.
pub open spec fn under(r: Record, p: Seq<crate::path::SegmentView>, s: crate::path::SegmentView) -> bool {
    exists|q: Seq<crate::path::SegmentView>| #[trigger] leads_to(q, p.push(s), r)
}

/// A change is found below one segment only.
proof fn lemma_under_one_segment(
    r: Record,
    p: Seq<crate::path::SegmentView>,
    s1: crate::path::SegmentView,
    s2: crate::path::SegmentView,
)
    requires
        under(r, p, s1),
        under(r, p, s2),
    ensures
        s1 == s2,
{
    let q1 = choose|q: Seq<crate::path::SegmentView>| #[trigger] leads_to(q, p.push(s1), r);
    let q2 = choose|q: Seq<crate::path::SegmentView>| #[trigger] leads_to(q, p.push(s2), r);
    lemma_same_text_same_path(q1, q2);
    assert(q1.subrange(0, p.len() as int + 1)[p.len() as int] == p.push(s1)[p.len() as int]);
    assert(q2.subrange(0, p.len() as int + 1)[p.len() as int] == p.push(s2)[p.len() as int]);
}

/// A change whose path is that of the place that `s` leads to was found there.
proof fn lemma_at_is_under(r: Record, p: Seq<crate::path::SegmentView>, s: crate::path::SegmentView)
    requires
        crate::path::readable(p),
        s matches crate::path::SegmentView::Key(k) ==> !crate::path::holds_key_end(k),
        path_of(r) == crate::path::path_text(p) + crate::path::segment_text(s),
    ensures
        under(r, p, s),
{
    lemma_step(p, s);
    let q = p.push(s);
    assert(q.subrange(0, q.len() as int) =~= q);
    assert(leads_to(q, p.push(s), r));
}

/// The changes between two values at the place that `s` leads to were found
/// at or below that place.
proof fn lemma_records_under(
    a: ValueView,
    b: ValueView,
    p: Seq<crate::path::SegmentView>,
    s: crate::path::SegmentView,
    o: OptionsView,
    r: Record,
)
    requires
        addressable(a),
        addressable(b),
        crate::path::readable(p),
        s matches crate::path::SegmentView::Key(k) ==> !crate::path::holds_key_end(k),
        records(a, b, crate::path::path_text(p) + crate::path::segment_text(s), o).contains(r),
    ensures
        under(r, p, s),
{
    lemma_step(p, s);
    lemma_record_path(a, b, p.push(s), o, r);
}

proof fn lemma_member_under(
    x: Seq<(Seq<char>, ValueView)>,
    y: Seq<(Seq<char>, ValueView)>,
    i: int,
    p: Seq<crate::path::SegmentView>,
    o: OptionsView,
    r: Record,
)
    requires
        0 <= i < x.len(),
        !crate::path::holds_key_end(x[i].0),
        addressable(x[i].1),
        forall|j: int| 0 <= j < y.len() ==> addressable((#[trigger] y[j]).1),
        crate::path::readable(p),
        member_records(x[i], y, crate::path::path_text(p), o).contains(r),
    ensures
        under(r, p, crate::path::SegmentView::Key(x[i].0)),
{
    let s = crate::path::SegmentView::Key(x[i].0);
    lemma_find_key(y, x[i].0, 0);
    match find_key(y, x[i].0, 0) {
        Some(j) => {
            assert(addressable(y[j].1));
            lemma_records_under(x[i].1, y[j].1, p, s, o, r);
        },
        None => {
            let one = seq![Record::KeyRemoved { path: crate::path::path_text(p) + key_text(x[i].0) }];
            assert(member_records(x[i], y, crate::path::path_text(p), o) == one);
            let w = choose|w: int| 0 <= w < one.len() && one[w] == r;
            lemma_at_is_under(r, p, s);
        },
    }
}

/// The changes between two well-formed, addressable values hold no change twice.
pub proof fn lemma_records_distinct(
    a: ValueView,
    b: ValueView,
    p: Seq<crate::path::SegmentView>,
    o: OptionsView,
)
    requires
        well_formed(a),
        well_formed(b),
        addressable(a),
        addressable(b),
        crate::path::readable(p),
    ensures
        records(a, b, crate::path::path_text(p), o).no_duplicates(),
    decreases a, 0nat, 0nat,
{
    let path = crate::path::path_text(p);
    match (a, b) {
        (ValueView::Object(x), ValueView::Object(y)) => {
            let k1 = kept_keys(x, y, path, o, x.len() as int);
            let k2 = added_keys(x, y, path, y.len() as int);
            lemma_kept_distinct(x, y, p, o, x.len() as int);
            lemma_added_distinct(x, y, p, y.len() as int);
            assert forall|i: int, j: int| 0 <= i < k1.len() && 0 <= j < k2.len() implies k1[i]
                != k2[j] by {
                if k1[i] == k2[j] {
                    let r = k1[i];
                    assert(k1.contains(r));
                    assert(k2.contains(r));
                    lemma_kept_keys_members(x, y, path, o, x.len() as int, r);
                    let u = choose|u: int|
                        0 <= u < x.len() && (#[trigger] member_records(x[u], y, path, o)).contains(r);
                    lemma_member_under(x, y, u, p, o, r);
                    lemma_added_keys_members(x, y, path, y.len() as int, r);
                    let v = choose|v: int| 0 <= v < y.len() && #[trigger] is_added(x, y, path, v, r);
                    lemma_at_is_under(r, p, crate::path::SegmentView::Key(y[v].0));
                    lemma_under_one_segment(
                        r,
                        p,
                        crate::path::SegmentView::Key(x[u].0),
                        crate::path::SegmentView::Key(y[v].0),
                    );
                    lemma_find_key(x, y[v].0, 0);
                }
            }
            vstd::seq_lib::lemma_no_dup_in_concat(k1, k2);
        },
        (ValueView::Array(x), ValueView::Array(y)) => {
            if o.ignore_order {
                let s1 = surplus(x, y, path, true, x.len() as int);
                let s2 = surplus(y, x, path, false, y.len() as int);
                lemma_surplus_distinct(x, y, p, true, x.len() as int);
                lemma_surplus_distinct(y, x, p, false, y.len() as int);
                assert forall|i: int, j: int| 0 <= i < s1.len() && 0 <= j < s2.len() implies s1[i]
                    != s2[j] by {
                    if s1[i] == s2[j] {
                        let r = s1[i];
                        assert(s1.contains(r));
                        assert(s2.contains(r));
                        lemma_surplus_members(x, y, path, true, x.len() as int, r);
                        lemma_surplus_members(y, x, path, false, y.len() as int, r);
                        let u = choose|u: int|
                            0 <= u < x.len() && #[trigger] is_surplus(x, y, path, true, u, r);
                        let v = choose|v: int|
                            0 <= v < y.len() && #[trigger] is_surplus(y, x, path, false, v, r);
                    }
                }
                vstd::seq_lib::lemma_no_dup_in_concat(s1, s2);
            } else {
                let n = shorter(x.len() as int, y.len() as int);
                let p1 = paired(x, y, path, o, n);
                let e1 = extra(x, path, true, y.len() as int, x.len() as int);
                let e2 = extra(y, path, false, x.len() as int, y.len() as int);
                lemma_paired_distinct(x, y, p, o, n);
                lemma_extra_distinct(x, p, true, y.len() as int, x.len() as int);
                lemma_extra_distinct(y, p, false, x.len() as int, y.len() as int);
                assert forall|i: int, j: int| 0 <= i < p1.len() && 0 <= j < e1.len() implies p1[i]
                    != e1[j] by {
                    if p1[i] == e1[j] {
                        let r = p1[i];
                        assert(p1.contains(r));
                        assert(e1.contains(r));
                        lemma_paired_under(x, y, p, o, n, r);
                        lemma_extra_under(x, p, true, y.len() as int, x.len() as int, r);
                        lemma_index_ranges_meet(r, p, 0, n, y.len() as int, x.len() as int);
                    }
                }
                vstd::seq_lib::lemma_no_dup_in_concat(p1, e1);
                assert forall|i: int, j: int| 0 <= i < (p1 + e1).len() && 0 <= j < e2.len() implies (
                p1 + e1)[i] != e2[j] by {
                    if (p1 + e1)[i] == e2[j] {
                        let r = e2[j];
                        assert(e2.contains(r));
                        assert((p1 + e1).contains(r));
                        lemma_contains_concat(p1, e1, r);
                        lemma_extra_under(y, p, false, x.len() as int, y.len() as int, r);
                        if p1.contains(r) {
                            lemma_paired_under(x, y, p, o, n, r);
                            lemma_index_ranges_meet(r, p, 0, n, x.len() as int, y.len() as int);
                        } else {
                            lemma_extra_members(x, path, true, y.len() as int, x.len() as int, r);
                            lemma_extra_members(y, path, false, x.len() as int, y.len() as int, r);
                            let u = choose|u: int|
                                y.len() <= u < x.len() && #[trigger] is_item(x, path, true, u, r);
                            let v = choose|v: int|
                                x.len() <= v < y.len() && #[trigger] is_item(y, path, false, v, r);
                        }
                    }
                }
                vstd::seq_lib::lemma_no_dup_in_concat(p1 + e1, e2);
            }
        },
        _ => {
            if !crate::policy::allowed(path, o) || equal_under(a, b, o) {
                assert(records(a, b, path, o) =~= Seq::empty());
            }
        },
    }
}

/// True when `r` was found at or below an index between `from` and `to`.
spec fn under_index(r: Record, p: Seq<crate::path::SegmentView>, from: int, to: int) -> bool {
    exists|i: int| from <= i < to && #[trigger] under(r, p, crate::path::SegmentView::Index(i as usize))
}

proof fn lemma_paired_under(
    x: Seq<ValueView>,
    y: Seq<ValueView>,
    p: Seq<crate::path::SegmentView>,
    o: OptionsView,
    n: int,
    r: Record,
)
    requires
        addressable(ValueView::Array(x)),
        addressable(ValueView::Array(y)),
        crate::path::readable(p),
        0 <= n <= x.len(),
        n <= y.len(),
        paired(x, y, crate::path::path_text(p), o, n).contains(r),
    ensures
        under_index(r, p, 0, n),
{
    let path = crate::path::path_text(p);
    lemma_paired_members(x, y, path, o, n, r);
    let i = choose|i: int|
        0 <= i < n && (#[trigger] records(x[i], y[i], path + bracketed(i as nat), o)).contains(r);
    lemma_records_under(x[i], y[i], p, crate::path::SegmentView::Index(i as usize), o, r);
}

proof fn lemma_extra_under(
    x: Seq<ValueView>,
    p: Seq<crate::path::SegmentView>,
    removed: bool,
    from: int,
    n: int,
    r: Record,
)
    requires
        addressable(ValueView::Array(x)),
        crate::path::readable(p),
        0 <= from,
        0 <= n <= x.len(),
        extra(x, crate::path::path_text(p), removed, from, n).contains(r),
    ensures
        under_index(r, p, from, n),
{
    let path = crate::path::path_text(p);
    lemma_extra_members(x, path, removed, from, n, r);
    let i = choose|i: int| from <= i < n && #[trigger] is_item(x, path, removed, i, r);
    lemma_at_is_under(r, p, crate::path::SegmentView::Index(i as usize));
}

/// Two ranges of indices below which one change was found have an index in common.
proof fn lemma_index_ranges_meet(
    r: Record,
    p: Seq<crate::path::SegmentView>,
    from1: int,
    to1: int,
    from2: int,
    to2: int,
)
    requires
        0 <= from1,
        0 <= from2,
        to1 <= usize::MAX + 1,
        to2 <= usize::MAX + 1,
        under_index(r, p, from1, to1),
        under_index(r, p, from2, to2),
    ensures
        from1 < to2,
        from2 < to1,
{
    let i = choose|i: int|
        from1 <= i < to1 && #[trigger] under(r, p, crate::path::SegmentView::Index(i as usize));
    let j = choose|j: int|
        from2 <= j < to2 && #[trigger] under(r, p, crate::path::SegmentView::Index(j as usize));
    lemma_under_one_segment(
        r,
        p,
        crate::path::SegmentView::Index(i as usize),
        crate::path::SegmentView::Index(j as usize),
    );
}

proof fn lemma_kept_distinct(
    x: Seq<(Seq<char>, ValueView)>,
    y: Seq<(Seq<char>, ValueView)>,
    p: Seq<crate::path::SegmentView>,
    o: OptionsView,
    n: int,
)
    requires
        well_formed(ValueView::Object(x)),
        well_formed(ValueView::Object(y)),
        addressable(ValueView::Object(x)),
        addressable(ValueView::Object(y)),
        crate::path::readable(p),
        0 <= n <= x.len(),
    ensures
        kept_keys(x, y, crate::path::path_text(p), o, n).no_duplicates(),
    decreases x, n, 1nat,
{
    let path = crate::path::path_text(p);
    if n > 0 {
        lemma_kept_distinct(x, y, p, o, n - 1);
        let before = kept_keys(x, y, path, o, n - 1);
        let block = member_records(x[n - 1], y, path, o);
        let s = crate::path::SegmentView::Key(x[n - 1].0);
        lemma_step(p, s);
        lemma_find_key(y, x[n - 1].0, 0);
        match find_key(y, x[n - 1].0, 0) {
            Some(j) => {
                lemma_records_distinct(x[n - 1].1, y[j].1, p.push(s), o);
            },
            None => {},
        }
        assert(block.no_duplicates());
        assert forall|i: int, j: int| 0 <= i < before.len() && 0 <= j < block.len() implies before[i]
            != block[j] by {
            if before[i] == block[j] {
                let r = before[i];
                assert(before.contains(r));
                assert(block.contains(r));
                lemma_kept_keys_members(x, y, path, o, n - 1, r);
                let u = choose|u: int|
                    0 <= u < n - 1 && (#[trigger] member_records(x[u], y, path, o)).contains(r);
                lemma_member_under(x, y, u, p, o, r);
                lemma_member_under(x, y, n - 1, p, o, r);
                lemma_under_one_segment(
                    r,
                    p,
                    crate::path::SegmentView::Key(x[u].0),
                    crate::path::SegmentView::Key(x[n - 1].0),
                );
            }
        }
        vstd::seq_lib::lemma_no_dup_in_concat(before, block);
    }
}

proof fn lemma_added_distinct(
    x: Seq<(Seq<char>, ValueView)>,
    y: Seq<(Seq<char>, ValueView)>,
    p: Seq<crate::path::SegmentView>,
    n: int,
)
    requires
        well_formed(ValueView::Object(y)),
        addressable(ValueView::Object(y)),
        crate::path::readable(p),
        0 <= n <= y.len(),
    ensures
        added_keys(x, y, crate::path::path_text(p), n).no_duplicates(),
    decreases n,
{
    let path = crate::path::path_text(p);
    if n > 0 {
        lemma_added_distinct(x, y, p, n - 1);
        let before = added_keys(x, y, path, n - 1);
        if member(x, y[n - 1].0) is None {
            let r = Record::KeyAdded { path: path + key_text(y[n - 1].0) };
            if before.contains(r) {
                lemma_added_keys_members(x, y, path, n - 1, r);
                let v = choose|v: int| 0 <= v < n - 1 && #[trigger] is_added(x, y, path, v, r);
                lemma_at_is_under(r, p, crate::path::SegmentView::Key(y[v].0));
                lemma_at_is_under(r, p, crate::path::SegmentView::Key(y[n - 1].0));
                lemma_under_one_segment(
                    r,
                    p,
                    crate::path::SegmentView::Key(y[v].0),
                    crate::path::SegmentView::Key(y[n - 1].0),
                );
            }
            lemma_push_distinct(before, r);
        }
    }
}

/// A sequence without duplicates stays so when something new is added.
proof fn lemma_push_distinct(s: Seq<Record>, r: Record)
    requires
        s.no_duplicates(),
        !s.contains(r),
    ensures
        s.push(r).no_duplicates(),
{
    let t = s.push(r);
    assert forall|i: int, j: int| 0 <= i < t.len() && 0 <= j < t.len() && i != j implies t[i]
        != t[j] by {
        if i < s.len() && j < s.len() {
            assert(s[i] != s[j]);
        } else if i < s.len() {
            assert(s.contains(s[i]));
        } else {
            assert(s.contains(s[j]));
        }
    }
}

proof fn lemma_paired_distinct(
    x: Seq<ValueView>,
    y: Seq<ValueView>,
    p: Seq<crate::path::SegmentView>,
    o: OptionsView,
    n: int,
)
    requires
        well_formed(ValueView::Array(x)),
        well_formed(ValueView::Array(y)),
        addressable(ValueView::Array(x)),
        addressable(ValueView::Array(y)),
        crate::path::readable(p),
        0 <= n <= x.len(),
        n <= y.len(),
    ensures
        paired(x, y, crate::path::path_text(p), o, n).no_duplicates(),
    decreases x, n, 1nat,
{
    let path = crate::path::path_text(p);
    if n > 0 {
        lemma_paired_distinct(x, y, p, o, n - 1);
        let before = paired(x, y, path, o, n - 1);
        let s = crate::path::SegmentView::Index((n - 1) as usize);
        lemma_step(p, s);
        lemma_records_distinct(x[n - 1], y[n - 1], p.push(s), o);
        let block = records(x[n - 1], y[n - 1], path + bracketed((n - 1) as nat), o);
        assert forall|i: int, j: int| 0 <= i < before.len() && 0 <= j < block.len() implies before[i]
            != block[j] by {
            if before[i] == block[j] {
                let r = before[i];
                assert(before.contains(r));
                assert(block.contains(r));
                lemma_paired_under(x, y, p, o, n - 1, r);
                lemma_records_under(x[n - 1], y[n - 1], p, s, o, r);
                assert(under_index(r, p, n - 1, n));
                lemma_index_ranges_meet(r, p, 0, n - 1, n - 1, n);
            }
        }
        vstd::seq_lib::lemma_no_dup_in_concat(before, block);
    }
}

proof fn lemma_extra_distinct(
    x: Seq<ValueView>,
    p: Seq<crate::path::SegmentView>,
    removed: bool,
    from: int,
    n: int,
)
    requires
        addressable(ValueView::Array(x)),
        crate::path::readable(p),
        0 <= from,
        0 <= n <= x.len(),
    ensures
        extra(x, crate::path::path_text(p), removed, from, n).no_duplicates(),
    decreases n,
{
    let path = crate::path::path_text(p);
    if n > from && n > 0 {
        lemma_extra_distinct(x, p, removed, from, n - 1);
        let before = extra(x, path, removed, from, n - 1);
        let r = item_record(removed, path + bracketed((n - 1) as nat), x[n - 1]);
        if before.contains(r) {
            lemma_extra_under(x, p, removed, from, n - 1, r);
            lemma_at_is_under(r, p, crate::path::SegmentView::Index((n - 1) as usize));
            assert(under_index(r, p, n - 1, n));
            lemma_index_ranges_meet(r, p, from, n - 1, n - 1, n);
        }
        lemma_push_distinct(before, r);
    }
}

proof fn lemma_surplus_distinct(
    x: Seq<ValueView>,
    y: Seq<ValueView>,
    p: Seq<crate::path::SegmentView>,
    removed: bool,
    n: int,
)
    requires
        addressable(ValueView::Array(x)),
        crate::path::readable(p),
        0 <= n <= x.len(),
    ensures
        surplus(x, y, crate::path::path_text(p), removed, n).no_duplicates(),
    decreases n,
{
    let path = crate::path::path_text(p);
    if n > 0 {
        lemma_surplus_distinct(x, y, p, removed, n - 1);
        let before = surplus(x, y, path, removed, n - 1);
        if unmatched(x, y, n - 1) {
            let r = item_record(removed, path + bracketed((n - 1) as nat), x[n - 1]);
            if before.contains(r) {
                lemma_surplus_members(x, y, path, removed, n - 1, r);
                let u = choose|u: int|
                    0 <= u < n - 1 && #[trigger] is_surplus(x, y, path, removed, u, r);
                lemma_at_is_under(r, p, crate::path::SegmentView::Index(u as usize));
                lemma_at_is_under(r, p, crate::path::SegmentView::Index((n - 1) as usize));
                lemma_under_one_segment(
                    r,
                    p,
                    crate::path::SegmentView::Index(u as usize),
                    crate::path::SegmentView::Index((n - 1) as usize),
                );
            }
            lemma_push_distinct(before, r);
        }
    }
}

} // verus!
