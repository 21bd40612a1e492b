//! When a report is empty: exactly when the two values are equivalent under
//! the options, and, with nothing configured, exactly when they are identical.

use crate::engine::added_keys;
use crate::engine::diff_report;
use crate::engine::extra;
use crate::engine::item_record;
use crate::engine::kept_keys;
use crate::engine::member_records;
use crate::engine::paired;
use crate::engine::records;
use crate::engine::shorter;
use crate::engine::surplus;
use crate::engine::unmatched;
use crate::laws::lemma_empty_report_means_no_change;
use crate::options::OptionsView;
use crate::options::default_options;
use crate::path::bracketed;
use crate::path::key_text;
use crate::policy::allowed;
use crate::policy::canonicals;
use crate::policy::count;
use crate::policy::equal_under;
use crate::policy::keys_of;
use crate::swap::is_surplus;
use crate::swap::lemma_surplus_members;
use crate::value::ValueView;
use crate::value::find_key;
use crate::value::identical;
use crate::value::lemma_find_key;
use crate::value::member;
use crate::value::same_member;
use crate::value::well_formed;
use vstd::prelude::*;

verus! {

/// True when the options visit every path.
pub open spec fn unfiltered(o: OptionsView) -> bool {
    o.include_paths.len() == 0 && o.exclude_paths.len() == 0
}

/// True when the two values are equivalent under the options: they count as
/// equal, or they are objects with the same keys and equivalent values under
/// each, or, where order counts, arrays of one length with equivalent items
/// at each index.
pub open spec fn equivalent(a: ValueView, b: ValueView, o: OptionsView) -> bool
    decreases a,
{
    equal_under(a, b, o) || match (a, b) {
        (ValueView::Object(x), ValueView::Object(y)) => {
            &&& forall|i: int|
                0 <= i < x.len() ==> member(y, (#[trigger] x[i]).0) is Some && equivalent(
                    x[i].1,
                    member(y, x[i].0)->0,
                    o,
                )
            &&& forall|j: int| 0 <= j < y.len() ==> member(x, (#[trigger] y[j]).0) is Some
        },
        (ValueView::Array(x), ValueView::Array(y)) => {
            &&& !o.ignore_order
            &&& x.len() == y.len()
            &&& forall|i: int| 0 <= i < x.len() ==> equivalent(#[trigger] x[i], y[i], o)
        },
        _ => false,
    }
}

proof fn lemma_all_allowed(path: Seq<char>, o: OptionsView)
    requires
        unfiltered(o),
    ensures
        allowed(path, o),
{
}

/// The `k`-th occurrence of a text stands somewhere.
proof fn lemma_occurrence(s: Seq<Seq<char>>, c: Seq<char>, k: int)
    requires
        0 <= k < count(s, c),
    ensures
        exists|i: int| 0 <= i < s.len() && s[i] == c && #[trigger] count(s.take(i), c) == k,
    decreases s.len(),
{
    if s.len() > 0 {
        let rest = s.drop_last();
        if count(rest, c) > k {
            lemma_occurrence(rest, c, k);
            let i = choose|i: int|
                0 <= i < rest.len() && rest[i] == c && #[trigger] count(rest.take(i), c) == k;
            assert(rest.take(i) =~= s.take(i));
            assert(s[i] == c && count(s.take(i), c) == k);
        } else {
            let i = s.len() - 1;
            assert(s.take(i) =~= rest);
            assert(s[i] == c && count(s.take(i), c) == k);
        }
    }
}

/// Where one bag holds a text more often than another, one of its items has
/// no partner in the other.
proof fn lemma_more_means_unmatched(x: Seq<ValueView>, y: Seq<ValueView>, c: Seq<char>)
    requires
        count(canonicals(x), c) > count(canonicals(y), c),
    ensures
        exists|i: int| 0 <= i < x.len() && #[trigger] unmatched(x, y, i),
{
    let cx = canonicals(x);
    lemma_occurrence(cx, c, count(canonicals(y), c) as int);
    let i = choose|i: int|
        0 <= i < cx.len() && cx[i] == c && #[trigger] count(cx.take(i), c) == count(
            canonicals(y),
            c,
        );
    assert(unmatched(x, y, i));
}

proof fn lemma_surplus_empty(
    x: Seq<ValueView>,
    y: Seq<ValueView>,
    path: Seq<char>,
    removed: bool,
    i: int,
)
    requires
        0 <= i < x.len(),
        unmatched(x, y, i),
    ensures
        surplus(x, y, path, removed, x.len() as int).len() > 0,
{
    let r = item_record(removed, path + bracketed(i as nat), x[i]);
    assert(is_surplus(x, y, path, removed, i, r));
    lemma_surplus_members(x, y, path, removed, x.len() as int, r);
    let s = surplus(x, y, path, removed, x.len() as int);
    assert(s.contains(r));
}

/// The changes of the first `n` members are none exactly when each member
/// has a partner and no change against it.
proof fn lemma_kept_none(
    x: Seq<(Seq<char>, ValueView)>,
    y: Seq<(Seq<char>, ValueView)>,
    path: Seq<char>,
    o: OptionsView,
    n: int,
)
    requires
        0 <= n <= x.len(),
    ensures
        kept_keys(x, y, path, o, n).len() == 0 <==> forall|i: int|
            0 <= i < n ==> (#[trigger] member_records(x[i], y, path, o)).len() == 0,
    decreases n,
{
    if n > 0 {
        lemma_kept_none(x, y, path, o, n - 1);
        if forall|i: int| 0 <= i < n ==> (#[trigger] member_records(x[i], y, path, o)).len() == 0 {
            assert(member_records(x[n - 1], y, path, o).len() == 0);
        }
    }
}

proof fn lemma_added_none(
    x: Seq<(Seq<char>, ValueView)>,
    y: Seq<(Seq<char>, ValueView)>,
    path: Seq<char>,
    n: int,
)
    requires
        0 <= n <= y.len(),
    ensures
        added_keys(x, y, path, n).len() == 0 <==> forall|j: int|
            0 <= j < n ==> member(x, (#[trigger] y[j]).0) is Some,
    decreases n,
{
    if n > 0 {
        lemma_added_none(x, y, path, n - 1);
        if forall|j: int| 0 <= j < n ==> member(x, (#[trigger] y[j]).0) is Some {
            assert(member(x, y[n - 1].0) is Some);
        }
    }
}

proof fn lemma_paired_none(
    x: Seq<ValueView>,
    y: Seq<ValueView>,
    path: Seq<char>,
    o: OptionsView,
    n: int,
)
    requires
        0 <= n <= x.len(),
        n <= y.len(),
    ensures
        paired(x, y, path, o, n).len() == 0 <==> forall|i: int|
            0 <= i < n ==> (#[trigger] records(x[i], y[i], path + bracketed(i as nat), o)).len()
                == 0,
    decreases n,
{
    if n > 0 {
        lemma_paired_none(x, y, path, o, n - 1);
        if forall|i: int|
            0 <= i < n ==> (#[trigger] records(x[i], y[i], path + bracketed(i as nat), o)).len()
                == 0 {
            assert(records(x[n - 1], y[n - 1], path + bracketed((n - 1) as nat), o).len() == 0);
        }
    }
}

proof fn lemma_extra_none(x: Seq<ValueView>, path: Seq<char>, removed: bool, from: int, n: int)
    requires
        0 <= from,
        0 <= n <= x.len(),
    ensures
        extra(x, path, removed, from, n).len() == 0 <==> n <= from,
    decreases n,
{
    if n > from && n > 0 {
        lemma_extra_none(x, path, removed, from, n - 1);
    }
}

/// Where every path is visited, the walk records no change between two
/// values exactly when they are equivalent under the options.
pub proof fn lemma_no_change_means_equivalent(
    a: ValueView,
    b: ValueView,
    path: Seq<char>,
    o: OptionsView,
)
    requires
        unfiltered(o),
    ensures
        records(a, b, path, o).len() == 0 <==> equivalent(a, b, o),
    decreases a,
{
    lemma_all_allowed(path, o);
    if !equal_under(a, b, o) {
        match (a, b) {
            (ValueView::Object(x), ValueView::Object(y)) => {
                lemma_kept_none(x, y, path, o, x.len() as int);
                lemma_added_none(x, y, path, y.len() as int);
                assert forall|i: int| 0 <= i < x.len() implies ((#[trigger] member_records(
                    x[i],
                    y,
                    path,
                    o,
                )).len() == 0 <==> member(y, x[i].0) is Some && equivalent(
                    x[i].1,
                    member(y, x[i].0)->0,
                    o,
                )) by {
                    match member(y, x[i].0) {
                        Some(v) => {
                            lemma_no_change_means_equivalent(x[i].1, v, path + key_text(x[i].0), o);
                        },
                        None => {},
                    }
                }
                if records(a, b, path, o).len() == 0 {
                    assert forall|i: int| 0 <= i < x.len() implies member(
                        y,
                        (#[trigger] x[i]).0,
                    ) is Some && equivalent(x[i].1, member(y, x[i].0)->0, o) by {
                        assert(member_records(x[i], y, path, o).len() == 0);
                    }
                }
                if equivalent(a, b, o) {
                    assert forall|i: int| 0 <= i < x.len() implies (#[trigger] member_records(
                        x[i],
                        y,
                        path,
                        o,
                    )).len() == 0 by {
                        assert(member(y, x[i].0) is Some && equivalent(
                            x[i].1,
                            member(y, x[i].0)->0,
                            o,
                        ));
                    }
                }
            },
            (ValueView::Array(x), ValueView::Array(y)) => {
                if o.ignore_order {
                    let c = choose|c: Seq<char>| count(canonicals(x), c) != count(canonicals(y), c);
                    if count(canonicals(x), c) > count(canonicals(y), c) {
                        lemma_more_means_unmatched(x, y, c);
                        let i = choose|i: int| 0 <= i < x.len() && #[trigger] unmatched(x, y, i);
                        lemma_surplus_empty(x, y, path, true, i);
                    } else {
                        lemma_more_means_unmatched(y, x, c);
                        let i = choose|i: int| 0 <= i < y.len() && #[trigger] unmatched(y, x, i);
                        lemma_surplus_empty(y, x, path, false, i);
                    }
                } else {
                    let n = shorter(x.len() as int, y.len() as int);
                    lemma_paired_none(x, y, path, o, n);
                    lemma_extra_none(x, path, true, y.len() as int, x.len() as int);
                    lemma_extra_none(y, path, false, x.len() as int, y.len() as int);
                    assert forall|i: int| 0 <= i < n implies ((#[trigger] records(
                        x[i],
                        y[i],
                        path + bracketed(i as nat),
                        o,
                    )).len() == 0 <==> equivalent(x[i], y[i], o)) by {
                        lemma_no_change_means_equivalent(x[i], y[i], path + bracketed(i as nat), o);
                    }
                    if records(a, b, path, o).len() == 0 {
                        assert forall|i: int| 0 <= i < x.len() implies equivalent(
                            #[trigger] x[i],
                            y[i],
                            o,
                        ) by {
                            assert(records(x[i], y[i], path + bracketed(i as nat), o).len() == 0);
                        }
                    }
                    if equivalent(a, b, o) {
                        assert forall|i: int| 0 <= i < n implies (#[trigger] records(
                            x[i],
                            y[i],
                            path + bracketed(i as nat),
                            o,
                        )).len() == 0 by {
                            assert(equivalent(x[i], y[i], o));
                        }
                    }
                }
            },
            _ => {},
        }
    }
}

/// Where every path is visited, the report is empty exactly when the two
/// values are equivalent under the options.
pub proof fn lemma_empty_report_means_equivalent(a: ValueView, b: ValueView, o: OptionsView)
    requires
        unfiltered(o),
    ensures
        diff_report(a, b, o) == ValueView::Object(Seq::empty()) <==> equivalent(a, b, o),
{
    lemma_empty_report_means_no_change(a, b, o);
    lemma_no_change_means_equivalent(a, b, "root"@, o);
}

/// True when nothing is configured that changes what counts as equal: order
/// counts, no numeric matches are held and no significant digits are set.
pub open spec fn exact(o: OptionsView) -> bool {
    !o.ignore_order && o.numeric_matches.len() == 0 && o.significant_digits is None
}

/// Well-formed objects that hold each other's keys have the same number of members.
proof fn lemma_same_keys_same_length(
    x: Seq<(Seq<char>, ValueView)>,
    y: Seq<(Seq<char>, ValueView)>,
)
    requires
        well_formed(ValueView::Object(x)),
        well_formed(ValueView::Object(y)),
        forall|i: int| 0 <= i < x.len() ==> member(y, (#[trigger] x[i]).0) is Some,
        forall|j: int| 0 <= j < y.len() ==> member(x, (#[trigger] y[j]).0) is Some,
    ensures
        x.len() == y.len(),
{
    let kx = keys_of(x);
    let ky = keys_of(y);
    assert(kx.no_duplicates()) by {
        assert forall|i: int, j: int| 0 <= i < kx.len() && 0 <= j < kx.len() && i != j implies kx[i]
            != kx[j] by {
            if i < j {
                assert(x[i].0 != x[j].0);
            } else {
                assert(x[j].0 != x[i].0);
            }
        }
    }
    assert(ky.no_duplicates()) by {
        assert forall|i: int, j: int| 0 <= i < ky.len() && 0 <= j < ky.len() && i != j implies ky[i]
            != ky[j] by {
            if i < j {
                assert(y[i].0 != y[j].0);
            } else {
                assert(y[j].0 != y[i].0);
            }
        }
    }
    kx.unique_seq_to_set();
    ky.unique_seq_to_set();
    assert(kx.to_set() =~= ky.to_set()) by {
        assert forall|e: Seq<char>| kx.to_set().contains(e) <==> ky.to_set().contains(e) by {
            if kx.contains(e) {
                let i = choose|i: int| 0 <= i < kx.len() && kx[i] == e;
                assert(member(y, x[i].0) is Some);
                lemma_find_key(y, e, 0);
                assert(ky[find_key(y, e, 0)->0] == e);
            }
            if ky.contains(e) {
                let j = choose|j: int| 0 <= j < ky.len() && ky[j] == e;
                assert(member(x, y[j].0) is Some);
                lemma_find_key(x, e, 0);
                assert(kx[find_key(x, e, 0)->0] == e);
            }
        }
    }
}

/// With nothing configured that changes what counts as equal, well-formed
/// values are equivalent exactly when they are identical.
pub proof fn lemma_exactly_equivalent_is_identical(a: ValueView, b: ValueView, o: OptionsView)
    requires
        well_formed(a),
        well_formed(b),
        exact(o),
    ensures
        equivalent(a, b, o) <==> identical(a, b),
    decreases a,
{
    assert(forall|p: (crate::value::NumberView, crate::value::NumberView)|
        !o.numeric_matches.contains(p));
    match (a, b) {
        (ValueView::Object(x), ValueView::Object(y)) => {
            if equivalent(a, b, o) && !equal_under(a, b, o) {
                lemma_same_keys_same_length(x, y);
                assert forall|i: int| 0 <= i < x.len() implies same_member(#[trigger] x[i], y) by {
                    lemma_find_key(y, x[i].0, 0);
                    let j = find_key(y, x[i].0, 0)->0;
                    assert(well_formed(x[i].1));
                    assert(well_formed(y[j].1));
                    lemma_exactly_equivalent_is_identical(x[i].1, y[j].1, o);
                }
            }
        },
        (ValueView::Array(x), ValueView::Array(y)) => {
            if equivalent(a, b, o) && !equal_under(a, b, o) {
                assert forall|i: int| 0 <= i < x.len() implies identical(#[trigger] x[i], y[i]) by {
                    assert(equivalent(x[i], y[i], o));
                    lemma_exactly_equivalent_is_identical(x[i], y[i], o);
                }
            }
        },
        _ => {},
    }
}

/// Comparing two well-formed values with nothing configured gives the empty
/// report exactly when the values are identical.
pub proof fn lemma_empty_report_means_identical(a: ValueView, b: ValueView)
    requires
        well_formed(a),
        well_formed(b),
    ensures
        diff_report(a, b, default_options()) == ValueView::Object(Seq::empty()) <==> identical(a, b),
{
    let o = default_options();
    lemma_empty_report_means_equivalent(a, b, o);
    lemma_exactly_equivalent_is_identical(a, b, o);
}

} // verus!
