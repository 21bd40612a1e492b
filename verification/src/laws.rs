//! What holds of every comparison: a value does not differ from itself, reports
//! are in order, and the empty report means that nothing was recorded.

use crate::engine::Buckets;
use crate::engine::Record;
use crate::engine::apply;
use crate::engine::apply_all;
use crate::engine::diff_report;
use crate::engine::no_changes;
use crate::engine::put;
use crate::engine::records;
use crate::options::OptionsView;
use crate::options::default_options;
use crate::order::lemma_lex_total;
use crate::order::lemma_lex_transitive;
use crate::order::lemma_lower_bound;
use crate::order::lemma_sort_sorted;
use crate::order::lower_bound;
use crate::order::sort;
use crate::order::sorted;
use crate::order::strictly_sorted;
use crate::policy::equal_under;
use crate::policy::keys_of;
use crate::policy::numbers_equal_under;
use crate::value::NumberView;
use crate::value::ValueView;
use crate::value::identical;
use crate::value::lemma_find_own_key;
use crate::value::same_member;
use crate::value::well_formed;
use vstd::prelude::*;

verus! {

// ---------------------------------------------------------------------------
// A value does not differ from itself
// ---------------------------------------------------------------------------

/// A well-formed value is identical to itself.
pub proof fn lemma_identical_reflexive(v: ValueView)
    requires
        well_formed(v),
    ensures
        identical(v, v),
    decreases v,
{
    match v {
        ValueView::Array(items) => {
            assert forall|i: int| 0 <= i < items.len() implies identical(
                #[trigger] items[i],
                items[i],
            ) by {
                lemma_identical_reflexive(items[i]);
            }
        },
        ValueView::Object(members) => {
            assert forall|i: int| 0 <= i < members.len() implies same_member(
                #[trigger] members[i],
                members,
            ) by {
                lemma_find_own_key(members, i);
                lemma_identical_reflexive(members[i].1);
            }
        },
        _ => {},
    }
}

/// Comparing a well-formed value with itself, with nothing configured, gives
/// the empty report.
pub proof fn lemma_no_difference_from_itself(v: ValueView)
    requires
        well_formed(v),
    ensures
        diff_report(v, v, default_options()) == ValueView::Object(Seq::empty()),
{
    lemma_identical_reflexive(v);
    let o = default_options();
    assert(equal_under(v, v, o)) by {
        match v {
            ValueView::Number(n) => {
                assert(numbers_equal_under(n, n, o));
            },
            _ => {},
        }
    }
    assert(records(v, v, "root"@, o) =~= Seq::<Record>::empty());
    assert(crate::engine::report_members(no_changes(), o.verbose_level) =~= Seq::empty());
}

// ---------------------------------------------------------------------------
// Reports are in order
// ---------------------------------------------------------------------------

/// True when each of the four buckets of pairs holds its paths in strictly
/// rising dictionary order.
pub open spec fn in_order(b: Buckets) -> bool {
    &&& strictly_sorted(keys_of(b.values_changed))
    &&& strictly_sorted(keys_of(b.iterable_item_added))
    &&& strictly_sorted(keys_of(b.iterable_item_removed))
    &&& strictly_sorted(keys_of(b.type_changes))
}

proof fn lemma_put_keeps_order(
    entries: Seq<(Seq<char>, ValueView)>,
    key: Seq<char>,
    value: ValueView,
)
    requires
        strictly_sorted(keys_of(entries)),
    ensures
        strictly_sorted(keys_of(put(entries, key, value))),
{
    let ks = keys_of(entries);
    let at = lower_bound(ks, key);
    lemma_lower_bound(ks, key);
    if at < entries.len() && entries[at].0 == key {
        assert(keys_of(put(entries, key, value)) =~= ks);
    } else {
        let r = keys_of(put(entries, key, value));
        assert(r =~= ks.insert(at, key));
        assert forall|i: int, j: int| 0 <= i < j < r.len() implies lex_lt_at(r, i, j) by {
            if j == at {
                assert(r[i] == ks[i]);
            } else if i == at {
                assert(r[j] == ks[j - 1]);
                assert(ks[at] == entries[at].0);
                lemma_lex_total(ks[at], key);
                if j - 1 > at {
                    assert(crate::order::lex_lt(ks[at], ks[j - 1]));
                    lemma_lex_transitive(key, ks[at], ks[j - 1]);
                }
            } else {
                let ii = if i < at {
                    i
                } else {
                    i - 1
                };
                let jj = if j < at {
                    j
                } else {
                    j - 1
                };
                assert(r[i] == ks[ii] && r[j] == ks[jj]);
                assert(crate::order::lex_lt(ks[ii], ks[jj]));
            }
        }
        assert forall|i: int, j: int| 0 <= i < j < r.len() implies crate::order::lex_lt(
            #[trigger] r[i],
            #[trigger] r[j],
        ) by {
            assert(lex_lt_at(r, i, j));
        }
    }
}

spec fn lex_lt_at(r: Seq<Seq<char>>, i: int, j: int) -> bool {
    crate::order::lex_lt(r[i], r[j])
}

pub(crate) proof fn lemma_apply_all_keeps_order(b: Buckets, rs: Seq<Record>)
    requires
        in_order(b),
    ensures
        in_order(apply_all(b, rs)),
    decreases rs.len(),
{
    if rs.len() > 0 {
        lemma_apply_all_keeps_order(b, rs.drop_last());
        let before = apply_all(b, rs.drop_last());
        match rs.last() {
            Record::ValueChanged { path, old, new } => {
                lemma_put_keeps_order(
                    before.values_changed,
                    path,
                    crate::engine::change_entry(old, new),
                );
            },
            Record::TypeChanged { path, old, new } => {
                lemma_put_keeps_order(before.type_changes, path, crate::engine::type_entry(old, new));
            },
            Record::ItemAdded { path, value } => {
                lemma_put_keeps_order(before.iterable_item_added, path, value);
            },
            Record::ItemRemoved { path, value } => {
                lemma_put_keeps_order(before.iterable_item_removed, path, value);
            },
            _ => {},
        }
    }
}

/// The report is a function of the two values and the options, and it is in
/// order: the buckets from which it is made hold their paths in strictly
/// rising dictionary order, one entry for a path, and the lists of added and
/// removed keys are written sorted.
pub proof fn lemma_report_in_order(t1: ValueView, t2: ValueView, o: OptionsView)
    ensures
        in_order(apply_all(no_changes(), records(t1, t2, "root"@, o))),
        sorted(sort(apply_all(no_changes(), records(t1, t2, "root"@, o)).dictionary_item_added)),
        sorted(sort(apply_all(no_changes(), records(t1, t2, "root"@, o)).dictionary_item_removed)),
        sorted(sort(keys_of(apply_all(no_changes(), records(t1, t2, "root"@, o)).values_changed))),
{
    let b = apply_all(no_changes(), records(t1, t2, "root"@, o));
    assert(keys_of(no_changes().values_changed) =~= Seq::<Seq<char>>::empty());
    assert(keys_of(no_changes().iterable_item_added) =~= Seq::<Seq<char>>::empty());
    assert(keys_of(no_changes().iterable_item_removed) =~= Seq::<Seq<char>>::empty());
    assert(keys_of(no_changes().type_changes) =~= Seq::<Seq<char>>::empty());
    lemma_apply_all_keeps_order(no_changes(), records(t1, t2, "root"@, o));
    lemma_sort_sorted(b.dictionary_item_added);
    lemma_sort_sorted(b.dictionary_item_removed);
    lemma_sort_sorted(keys_of(b.values_changed));
}

// ---------------------------------------------------------------------------
// Empty reports
// ---------------------------------------------------------------------------

/// True when some bucket holds something.
pub open spec fn holds_a_change(b: Buckets) -> bool {
    b.values_changed.len() > 0 || b.dictionary_item_added.len() > 0
        || b.dictionary_item_removed.len() > 0 || b.iterable_item_added.len() > 0
        || b.iterable_item_removed.len() > 0 || b.type_changes.len() > 0
}

proof fn lemma_put_grows(entries: Seq<(Seq<char>, ValueView)>, key: Seq<char>, value: ValueView)
    ensures
        put(entries, key, value).len() >= entries.len(),
        put(entries, key, value).len() > 0,
{
    lemma_lower_bound(keys_of(entries), key);
}

proof fn lemma_apply_holds(b: Buckets, r: Record)
    ensures
        holds_a_change(apply(b, r)),
{
    match r {
        Record::ValueChanged { path, old, new } => {
            lemma_put_grows(b.values_changed, path, crate::engine::change_entry(old, new));
        },
        Record::TypeChanged { path, old, new } => {
            lemma_put_grows(b.type_changes, path, crate::engine::type_entry(old, new));
        },
        Record::ItemAdded { path, value } => {
            lemma_put_grows(b.iterable_item_added, path, value);
        },
        Record::ItemRemoved { path, value } => {
            lemma_put_grows(b.iterable_item_removed, path, value);
        },
        _ => {},
    }
}

/// The report is empty exactly when the walk has recorded no change.
pub proof fn lemma_empty_report_means_no_change(t1: ValueView, t2: ValueView, o: OptionsView)
    ensures
        diff_report(t1, t2, o) == ValueView::Object(Seq::empty()) <==> records(t1, t2, "root"@, o).len()
            == 0,
{
    let rs = records(t1, t2, "root"@, o);
    let b = apply_all(no_changes(), rs);
    let members = crate::engine::report_members(b, o.verbose_level);
    if rs.len() == 0 {
        assert(members =~= Seq::empty());
    } else {
        lemma_apply_holds(apply_all(no_changes(), rs.drop_last()), rs.last());
        assert(holds_a_change(b));
        assert(members.len() > 0);
        assert(members != Seq::<(Seq<char>, ValueView)>::empty());
    }
}

/// Two values that count as equal, and any two values where the root is not
/// visited, give the empty report.
pub proof fn lemma_equal_values_give_empty_report(t1: ValueView, t2: ValueView, o: OptionsView)
    requires
        equal_under(t1, t2, o) || !crate::policy::allowed("root"@, o),
    ensures
        diff_report(t1, t2, o) == ValueView::Object(Seq::empty()),
{
    lemma_empty_report_means_no_change(t1, t2, o);
}

// ---------------------------------------------------------------------------
// More matches
// ---------------------------------------------------------------------------

/// Numbers that count as equal under some numeric matches count as equal
/// under any matches that hold those and more.
pub proof fn lemma_more_matches_keep_equal(
    a: NumberView,
    b: NumberView,
    few: OptionsView,
    more: OptionsView,
)
    requires
        forall|p: (NumberView, NumberView)|
            few.numeric_matches.contains(p) ==> more.numeric_matches.contains(p),
        few.significant_digits == more.significant_digits,
        numbers_equal_under(a, b, few),
    ensures
        numbers_equal_under(a, b, more),
{
}

} // verus!
