//! The diff engine: the walk over two values in step, the changes it records,
//! and the report that the accumulated changes are shaped into.

use crate::options::DeepDiffOptions;
use crate::options::OptionsView;
use crate::order::lower_bound;
use crate::order::sort;
use crate::order::sort_texts;
use crate::order::text_lt;
use crate::ordered::entries_of;
use crate::ordered::has_key;
use crate::ordered::map_insert;
use crate::ordered::map_into_members;
use crate::ordered::new_map;
use crate::path::bracketed;
use crate::path::child_index_path;
use crate::path::child_key_path;
use crate::path::key_text;
use crate::policy::allowed;
use crate::policy::canonical_strings;
use crate::policy::canonicals;
use crate::policy::compatible;
use crate::policy::count;
use crate::policy::count_in;
use crate::policy::equal_under;
use crate::policy::keys_of;
use crate::policy::path_allowed;
use crate::policy::type_label;
use crate::policy::type_label_of;
use crate::policy::types_compatible;
use crate::policy::values_equal;
use crate::text::texts;
use crate::value::Value;
use crate::value::ValueView;
use crate::value::group_value_views;
use crate::value::items_view;
use crate::value::member;
use crate::value::member_index;
use crate::value::members_view;
use vstd::prelude::*;

verus! {

// ---------------------------------------------------------------------------
// Change records
// ---------------------------------------------------------------------------

/// One change, at the path where it was found.
pub enum Record {
    /// Two values of compatible types that are not equal.
    ValueChanged { path: Seq<char>, old: ValueView, new: ValueView },
    /// Two values of incompatible types.
    TypeChanged { path: Seq<char>, old: ValueView, new: ValueView },
    /// A key that only the second object has.
    KeyAdded { path: Seq<char> },
    /// A key that only the first object has.
    KeyRemoved { path: Seq<char> },
    /// An array item that only the second array has.
    ItemAdded { path: Seq<char>, value: ValueView },
    /// An array item that only the first array has.
    ItemRemoved { path: Seq<char>, value: ValueView },
}

/// The record of a pair that is neither two objects nor two arrays: a change
/// of value where the types are compatible, a change of type where not.
pub open spec fn leaf_record(a: ValueView, b: ValueView, path: Seq<char>, o: OptionsView) -> Record {
    if compatible(a, b, o) {
        Record::ValueChanged { path, old: a, new: b }
    } else {
        Record::TypeChanged { path, old: a, new: b }
    }
}

/// The record of an array item found on one side only.
pub open spec fn item_record(removed: bool, path: Seq<char>, value: ValueView) -> Record {
    if removed {
        Record::ItemRemoved { path, value }
    } else {
        Record::ItemAdded { path, value }
    }
}

/// The changes between `a` and `b`, found at `path`, in the order of the walk.
///
/// Nothing is recorded where the path is not visited or the values count as
/// equal. Two objects are compared key by key, two arrays item by item or,
/// when order is ignored, as bags; any other pair is one change.
pub open spec fn records(a: ValueView, b: ValueView, path: Seq<char>, o: OptionsView) -> Seq<
    Record,
>
    decreases a, 0nat,
{
    if !allowed(path, o) || equal_under(a, b, o) {
        Seq::empty()
    } else {
        match (a, b) {
            (ValueView::Object(x), ValueView::Object(y)) => kept_keys(
                x,
                y,
                path,
                o,
                x.len() as int,
            ) + added_keys(x, y, path, y.len() as int),
            (ValueView::Array(x), ValueView::Array(y)) => if o.ignore_order {
                surplus(x, y, path, true, x.len() as int) + surplus(
                    y,
                    x,
                    path,
                    false,
                    y.len() as int,
                )
            } else {
                paired(x, y, path, o, shorter(x.len() as int, y.len() as int)) + extra(
                    x,
                    path,
                    true,
                    y.len() as int,
                    x.len() as int,
                ) + extra(y, path, false, x.len() as int, y.len() as int)
            },
            _ => seq![leaf_record(a, b, path, o)],
        }
    }
}

/// The smaller of two lengths.
pub open spec fn shorter(a: int, b: int) -> int {
    if a <= b {
        a
    } else {
        b
    }
}

/// The changes that the member `m` of the first object gives: those between
/// its value and the value under the same key in the second object, or the
/// removal of the key where the second object lacks it.
pub open spec fn member_records(
    m: (Seq<char>, ValueView),
    y: Seq<(Seq<char>, ValueView)>,
    path: Seq<char>,
    o: OptionsView,
) -> Seq<Record>
    decreases m.1, 1nat,
{
    match member(y, m.0) {
        Some(v) => records(m.1, v, path + key_text(m.0), o),
        None => seq![Record::KeyRemoved { path: path + key_text(m.0) }],
    }
}

/// The changes that the first `n` members of the first object give.
pub open spec fn kept_keys(
    x: Seq<(Seq<char>, ValueView)>,
    y: Seq<(Seq<char>, ValueView)>,
    path: Seq<char>,
    o: OptionsView,
    n: int,
) -> Seq<Record>
    decreases x, n,
{
    if n <= 0 || n > x.len() {
        Seq::empty()
    } else {
        kept_keys(x, y, path, o, n - 1) + member_records(x[n - 1], y, path, o)
    }
}

/// The additions among the first `n` members of the second object: one for
/// each key that the first object lacks.
pub open spec fn added_keys(
    x: Seq<(Seq<char>, ValueView)>,
    y: Seq<(Seq<char>, ValueView)>,
    path: Seq<char>,
    n: int,
) -> Seq<Record>
    decreases n,
{
    if n <= 0 || n > y.len() {
        Seq::empty()
    } else if member(x, y[n - 1].0) is None {
        added_keys(x, y, path, n - 1).push(Record::KeyAdded { path: path + key_text(y[n - 1].0) })
    } else {
        added_keys(x, y, path, n - 1)
    }
}

/// The changes between the first `n` items of two arrays, index by index.
pub open spec fn paired(
    x: Seq<ValueView>,
    y: Seq<ValueView>,
    path: Seq<char>,
    o: OptionsView,
    n: int,
) -> Seq<Record>
    decreases x, n,
{
    if n <= 0 || n > x.len() || n > y.len() {
        Seq::empty()
    } else {
        paired(x, y, path, o, n - 1) + records(x[n - 1], y[n - 1], path + bracketed((n - 1) as nat), o)
    }
}

/// One record for each item of `x` from index `from` up to `n`: what the
/// longer of two arrays has beyond the length of the other.
pub open spec fn extra(x: Seq<ValueView>, path: Seq<char>, removed: bool, from: int, n: int) -> Seq<
    Record,
>
    decreases n,
{
    if n <= from || n <= 0 || n > x.len() {
        Seq::empty()
    } else {
        extra(x, path, removed, from, n - 1).push(
            item_record(removed, path + bracketed((n - 1) as nat), x[n - 1]),
        )
    }
}

/// True when the item at index `i` of `x` has no partner in `y`: at least as
/// many items with its canonical text stand before it in `x` as `y` holds in all.
pub open spec fn unmatched(x: Seq<ValueView>, y: Seq<ValueView>, i: int) -> bool {
    count(canonicals(x).take(i), canonicals(x)[i]) >= count(canonicals(y), canonicals(x)[i])
}

/// One record for each of the first `n` items of `x` that has no partner in `y`.
pub open spec fn surplus(
    x: Seq<ValueView>,
    y: Seq<ValueView>,
    path: Seq<char>,
    removed: bool,
    n: int,
) -> Seq<Record>
    decreases n,
{
    if n <= 0 || n > x.len() {
        Seq::empty()
    } else if unmatched(x, y, n - 1) {
        surplus(x, y, path, removed, n - 1).push(
            item_record(removed, path + bracketed((n - 1) as nat), x[n - 1]),
        )
    } else {
        surplus(x, y, path, removed, n - 1)
    }
}

// ---------------------------------------------------------------------------
// The accumulator
// ---------------------------------------------------------------------------

/// What a report holds for a changed value: the old and the new value.
pub open spec fn change_entry(old: ValueView, new: ValueView) -> ValueView {
    ValueView::Object(seq![("old_value"@, old), ("new_value"@, new)])
}

/// What a report holds for a changed type: the names of both types and both values.
pub open spec fn type_entry(old: ValueView, new: ValueView) -> ValueView {
    ValueView::Object(
        seq![
            ("old_type"@, ValueView::String(type_label_of(old))),
            ("new_type"@, ValueView::String(type_label_of(new))),
            ("old_value"@, old),
            ("new_value"@, new),
        ],
    )
}

/// `entries`, kept in the dictionary order of the paths, with `value` under
/// `key`: in place of the value that was there, or at the place that the
/// order gives the new key.
pub open spec fn put(
    entries: Seq<(Seq<char>, ValueView)>,
    key: Seq<char>,
    value: ValueView,
) -> Seq<(Seq<char>, ValueView)> {
    let at = lower_bound(keys_of(entries), key);
    if at < entries.len() && entries[at].0 == key {
        entries.update(at, (key, value))
    } else {
        entries.insert(at, (key, value))
    }
}

/// The six buckets into which changes are collected.
pub struct DiffAccumulator {
    values_changed: Vec<(String, Value)>,
    dictionary_item_added: Vec<String>,
    dictionary_item_removed: Vec<String>,
    iterable_item_added: Vec<(String, Value)>,
    iterable_item_removed: Vec<(String, Value)>,
    type_changes: Vec<(String, Value)>,
}

/// The mathematical view of a [`DiffAccumulator`]. The four buckets of pairs
/// are kept in the dictionary order of their paths, one entry for a path; the
/// two lists hold their paths in the order in which they came.
pub struct Buckets {
    pub values_changed: Seq<(Seq<char>, ValueView)>,
    pub dictionary_item_added: Seq<Seq<char>>,
    pub dictionary_item_removed: Seq<Seq<char>>,
    pub iterable_item_added: Seq<(Seq<char>, ValueView)>,
    pub iterable_item_removed: Seq<(Seq<char>, ValueView)>,
    pub type_changes: Seq<(Seq<char>, ValueView)>,
}

/// The buckets before any change is recorded.
pub open spec fn no_changes() -> Buckets {
    Buckets {
        values_changed: Seq::empty(),
        dictionary_item_added: Seq::empty(),
        dictionary_item_removed: Seq::empty(),
        iterable_item_added: Seq::empty(),
        iterable_item_removed: Seq::empty(),
        type_changes: Seq::empty(),
    }
}

/// The buckets after one more change.
pub open spec fn apply(b: Buckets, r: Record) -> Buckets {
    match r {
        Record::ValueChanged { path, old, new } => Buckets {
            values_changed: put(b.values_changed, path, change_entry(old, new)),
            ..b
        },
        Record::TypeChanged { path, old, new } => Buckets {
            type_changes: put(b.type_changes, path, type_entry(old, new)),
            ..b
        },
        Record::KeyAdded { path } => Buckets {
            dictionary_item_added: b.dictionary_item_added.push(path),
            ..b
        },
        Record::KeyRemoved { path } => Buckets {
            dictionary_item_removed: b.dictionary_item_removed.push(path),
            ..b
        },
        Record::ItemAdded { path, value } => Buckets {
            iterable_item_added: put(b.iterable_item_added, path, value),
            ..b
        },
        Record::ItemRemoved { path, value } => Buckets {
            iterable_item_removed: put(b.iterable_item_removed, path, value),
            ..b
        },
    }
}

/// The buckets after a sequence of changes, taken in order.
pub open spec fn apply_all(b: Buckets, rs: Seq<Record>) -> Buckets
    decreases rs.len(),
{
    if rs.len() == 0 {
        b
    } else {
        apply(apply_all(b, rs.drop_last()), rs.last())
    }
}

/// Applying two sequences of changes one after the other is applying them joined.
pub proof fn lemma_apply_all_concat(b: Buckets, first: Seq<Record>, second: Seq<Record>)
    ensures
        apply_all(b, first + second) == apply_all(apply_all(b, first), second),
    decreases second.len(),
{
    if second.len() == 0 {
        assert(first + second =~= first);
    } else {
        lemma_apply_all_concat(b, first, second.drop_last());
        assert((first + second).drop_last() =~= first + second.drop_last());
        assert((first + second).last() == second.last());
    }
}

/// Applying one change is applying the sequence that holds only it.
pub proof fn lemma_apply_all_one(b: Buckets, first: Seq<Record>, r: Record)
    ensures
        apply_all(b, first.push(r)) == apply(apply_all(b, first), r),
        apply_all(b, first + seq![r]) == apply(apply_all(b, first), r),
{
    assert(first.push(r).drop_last() =~= first);
    assert(first + seq![r] =~= first.push(r));
}

impl View for DiffAccumulator {
    type V = Buckets;

    closed spec fn view(&self) -> Buckets {
        Buckets {
            values_changed: members_view(self.values_changed@),
            dictionary_item_added: texts(self.dictionary_item_added@),
            dictionary_item_removed: texts(self.dictionary_item_removed@),
            iterable_item_added: members_view(self.iterable_item_added@),
            iterable_item_removed: members_view(self.iterable_item_removed@),
            type_changes: members_view(self.type_changes@),
        }
    }
}

/// Puts `value` under `key` into `entries`, which are kept in the dictionary
/// order of their keys.
#[verifier::loop_isolation(false)]
pub fn put_entry(entries: &mut Vec<(String, Value)>, key: String, value: Value)
    ensures
        members_view(final(entries)@) == put(members_view(old(entries)@), key@, value@),
{
    let ghost before = members_view(entries@);
    let ghost keys = keys_of(before);
    let mut i: usize = 0;
    assert(keys.skip(0) =~= keys);
    while i < entries.len() && text_lt(entries[i].0.as_str(), key.as_str())
        invariant
            i <= entries.len(),
            entries@ == old(entries)@,
            lower_bound(keys, key@) == i + lower_bound(keys.skip(i as int), key@),
        decreases entries.len() - i,
    {
        assert(keys.skip(i as int)[0] == entries@[i as int].0@);
        assert(keys.skip(i as int).skip(1) =~= keys.skip(i + 1));
        i += 1;
    }
    assert(i < entries.len() ==> keys.skip(i as int)[0] == entries@[i as int].0@);
    if i < entries.len() && entries[i].0 == key {
        entries.set(i, (key, value));
        assert(members_view(entries@) =~= before.update(i as int, (key@, value@)));
    } else {
        entries.insert(i, (key, value));
        assert(members_view(entries@) =~= before.insert(i as int, (key@, value@)));
    }
}

/// The views of a list of named values.
pub open spec fn named_view(entries: Seq<(&'static str, Value)>) -> Seq<(Seq<char>, ValueView)> {
    Seq::new(entries.len(), |i: int| (entries[i].0@, entries[i].1@))
}

/// The old and the new value, each under its name.
pub fn old_new_value(t1: &Value, t2: &Value) -> (r: Vec<(&'static str, Value)>)
    ensures
        ValueView::Object(named_view(r@)) == change_entry(t1@, t2@),
{
    let mut entries: Vec<(&'static str, Value)> = Vec::new();
    entries.push(("old_value", t1.clone()));
    entries.push(("new_value", t2.clone()));
    assert(named_view(entries@) =~= seq![("old_value"@, t1@), ("new_value"@, t2@)]);
    entries
}

/// The names of both types and both values, each under its name.
pub fn type_change_value(t1: &Value, t2: &Value) -> (r: Vec<(&'static str, Value)>)
    ensures
        ValueView::Object(named_view(r@)) == type_entry(t1@, t2@),
{
    let mut entries: Vec<(&'static str, Value)> = Vec::new();
    entries.push(("old_type", Value::String(String::from_str(type_label(t1)))));
    entries.push(("new_type", Value::String(String::from_str(type_label(t2)))));
    entries.push(("old_value", t1.clone()));
    entries.push(("new_value", t2.clone()));
    assert(named_view(entries@) =~= seq![
        ("old_type"@, ValueView::String(type_label_of(t1@))),
        ("new_type"@, ValueView::String(type_label_of(t2@))),
        ("old_value"@, t1@),
        ("new_value"@, t2@),
    ]);
    entries
}

/// The object that holds the named values as its members, in their order.
#[verifier::loop_isolation(false)]
pub fn json_obj(entries: Vec<(&'static str, Value)>) -> (r: Value)
    ensures
        r@ == ValueView::Object(named_view(entries@)),
{
    broadcast use group_value_views;

    let ghost want = named_view(entries@);
    let mut members: Vec<(String, Value)> = Vec::new();
    for pair in it: entries
        invariant
            it.seq() == entries@,
            members@.len() == it.index(),
            forall|j: int|
                0 <= j < it.index() ==> (#[trigger] members@[j]).0@ == want[j].0 && members@[j].1@
                    == want[j].1,
    {
        members.push((String::from_str(pair.0), pair.1));
    }
    assert(members_view(members@) =~= want);
    Value::Object(members)
}

impl Default for DiffAccumulator {
    fn default() -> (r: DiffAccumulator)
        ensures
            r@ == no_changes(),
    {
        DiffAccumulator::new()
    }
}

impl DiffAccumulator {
    /// An accumulator without changes.
    pub fn new() -> (r: DiffAccumulator)
        ensures
            r@ == no_changes(),
    {
        let r = DiffAccumulator {
            values_changed: Vec::new(),
            dictionary_item_added: Vec::new(),
            dictionary_item_removed: Vec::new(),
            iterable_item_added: Vec::new(),
            iterable_item_removed: Vec::new(),
            type_changes: Vec::new(),
        };
        assert(r@.values_changed =~= Seq::empty());
        assert(r@.dictionary_item_added =~= Seq::empty());
        assert(r@.dictionary_item_removed =~= Seq::empty());
        assert(r@.iterable_item_added =~= Seq::empty());
        assert(r@.iterable_item_removed =~= Seq::empty());
        assert(r@.type_changes =~= Seq::empty());
        r
    }

    fn value_changed(&mut self, path: String, was: &Value, now: &Value)
        ensures
            final(self)@ == apply(
                old(self)@,
                Record::ValueChanged { path: path@, old: was@, new: now@ },
            ),
    {
        put_entry(&mut self.values_changed, path, json_obj(old_new_value(was, now)));
    }

    fn type_changed(&mut self, path: String, was: &Value, now: &Value)
        ensures
            final(self)@ == apply(
                old(self)@,
                Record::TypeChanged { path: path@, old: was@, new: now@ },
            ),
    {
        put_entry(&mut self.type_changes, path, json_obj(type_change_value(was, now)));
    }

    fn key_added(&mut self, path: String)
        ensures
            final(self)@ == apply(old(self)@, Record::KeyAdded { path: path@ }),
    {
        let ghost before = texts(self.dictionary_item_added@);
        self.dictionary_item_added.push(path);
        assert(texts(self.dictionary_item_added@) =~= before.push(path@));
    }

    fn key_removed(&mut self, path: String)
        ensures
            final(self)@ == apply(old(self)@, Record::KeyRemoved { path: path@ }),
    {
        let ghost before = texts(self.dictionary_item_removed@);
        self.dictionary_item_removed.push(path);
        assert(texts(self.dictionary_item_removed@) =~= before.push(path@));
    }

    fn item_found(&mut self, removed: bool, path: String, value: &Value)
        ensures
            final(self)@ == apply(old(self)@, item_record(removed, path@, value@)),
    {
        if removed {
            put_entry(&mut self.iterable_item_removed, path, value.clone());
        } else {
            put_entry(&mut self.iterable_item_added, path, value.clone());
        }
    }
}

// ---------------------------------------------------------------------------
// The walk
// ---------------------------------------------------------------------------

/// Records in `acc` the items of `x` that have no partner in `y`.
#[verifier::loop_isolation(false)]
fn record_surplus(
    x: &[Value],
    y: &[Value],
    cx: &Vec<String>,
    cy: &Vec<String>,
    path: &str,
    removed: bool,
    acc: &mut DiffAccumulator,
)
    requires
        texts(cx@) == canonicals(items_view(x@)),
        texts(cy@) == canonicals(items_view(y@)),
    ensures
        final(acc)@ == apply_all(
            old(acc)@,
            surplus(items_view(x@), items_view(y@), path@, removed, x.len() as int),
        ),
{
    let ghost vx = items_view(x@);
    let ghost vy = items_view(y@);
    let mut i: usize = 0;
    assert(cx@.len() == x@.len()) by {
        assert(texts(cx@).len() == canonicals(vx).len());
    }
    assert(texts(cy@).take(cy.len() as int) =~= texts(cy@));
    while i < x.len()
        invariant
            i <= x.len(),
            acc@ == apply_all(old(acc)@, surplus(vx, vy, path@, removed, i as int)),
        decreases x.len() - i,
    {
        let before = count_in(cx, i, &cx[i]);
        let total = count_in(cy, cy.len(), &cx[i]);
        assert(texts(cx@)[i as int] == cx@[i as int]@);
        if before >= total {
            let child_path = child_index_path(path, i);
            proof {
                lemma_apply_all_one(
                    old(acc)@,
                    surplus(vx, vy, path@, removed, i as int),
                    item_record(removed, child_path@, vx[i as int]),
                );
            }
            acc.item_found(removed, child_path, &x[i]);
        }
        i += 1;
    }
}

/// Records in `acc` the items of `x` from index `from` on.
#[verifier::loop_isolation(false)]
fn record_extra(x: &[Value], path: &str, removed: bool, from: usize, acc: &mut DiffAccumulator)
    ensures
        final(acc)@ == apply_all(
            old(acc)@,
            extra(items_view(x@), path@, removed, from as int, x.len() as int),
        ),
{
    let ghost vx = items_view(x@);
    if from >= x.len() {
        return;
    }
    let mut i: usize = from;
    while i < x.len()
        invariant
            from <= i <= x.len(),
            acc@ == apply_all(old(acc)@, extra(vx, path@, removed, from as int, i as int)),
        decreases x.len() - i,
    {
        let child_path = child_index_path(path, i);
        proof {
            lemma_apply_all_one(
                old(acc)@,
                extra(vx, path@, removed, from as int, i as int),
                item_record(removed, child_path@, vx[i as int]),
            );
        }
        acc.item_found(removed, child_path, &x[i]);
        i += 1;
    }
}

/// Records in `acc` the changes between two arrays whose order does not count.
pub fn diff_arrays_ignore_order(
    list1: &[Value],
    list2: &[Value],
    path: &str,
    _options: &DeepDiffOptions,
    acc: &mut DiffAccumulator,
)
    ensures
        final(acc)@ == apply_all(
            old(acc)@,
            surplus(items_view(list1@), items_view(list2@), path@, true, list1.len() as int)
                + surplus(items_view(list2@), items_view(list1@), path@, false, list2.len() as int),
        ),
{
    let c1 = canonical_strings(list1);
    let c2 = canonical_strings(list2);
    record_surplus(list1, list2, &c1, &c2, path, true, acc);
    record_surplus(list2, list1, &c2, &c1, path, false, acc);
    proof {
        lemma_apply_all_concat(
            old(acc)@,
            surplus(items_view(list1@), items_view(list2@), path@, true, list1.len() as int),
            surplus(items_view(list2@), items_view(list1@), path@, false, list2.len() as int),
        );
    }
}

/// Records in `acc` the changes between `t1` and `t2`, found at `path`.
#[verifier::loop_isolation(false)]
pub fn diff_values(
    t1: &Value,
    t2: &Value,
    path: &str,
    options: &DeepDiffOptions,
    acc: &mut DiffAccumulator,
)
    ensures
        final(acc)@ == apply_all(old(acc)@, records(t1@, t2@, path@, options@)),
    decreases t1,
{
    broadcast use group_value_views;

    if !path_allowed(path, options) {
        return;
    }
    if values_equal(t1, t2, options) {
        return;
    }
    match (t1, t2) {
        (Value::Object(map1), Value::Object(map2)) => {
            let ghost x = members_view(map1@);
            let ghost y = members_view(map2@);
            let mut i: usize = 0;
            while i < map1.len()
                invariant
                    i <= map1.len(),
                    acc@ == apply_all(old(acc)@, kept_keys(x, y, path@, options@, i as int)),
                decreases map1.len() - i,
            {
                let child_path = child_key_path(path, map1[i].0.as_str());
                let ghost step = member_records(x[i as int], y, path@, options@);
                proof {
                    lemma_apply_all_concat(
                        old(acc)@,
                        kept_keys(x, y, path@, options@, i as int),
                        step,
                    );
                }
                match member_index(map2, map1[i].0.as_str()) {
                    Some(j) => {
                        diff_values(&map1[i].1, &map2[j].1, child_path.as_str(), options, acc);
                    },
                    None => {
                        proof {
                            lemma_apply_all_one(
                                old(acc)@,
                                kept_keys(x, y, path@, options@, i as int),
                                Record::KeyRemoved { path: child_path@ },
                            );
                        }
                        acc.key_removed(child_path);
                    },
                }
                i += 1;
            }
            let ghost kept = kept_keys(x, y, path@, options@, x.len() as int);
            let mut j: usize = 0;
            assert(kept + added_keys(x, y, path@, 0) =~= kept);
            while j < map2.len()
                invariant
                    j <= map2.len(),
                    acc@ == apply_all(old(acc)@, kept + added_keys(x, y, path@, j as int)),
                decreases map2.len() - j,
            {
                match member_index(map1, map2[j].0.as_str()) {
                    Some(_) => {},
                    None => {
                        let child_path = child_key_path(path, map2[j].0.as_str());
                        proof {
                            let r = Record::KeyAdded { path: child_path@ };
                            lemma_apply_all_one(
                                old(acc)@,
                                kept + added_keys(x, y, path@, j as int),
                                r,
                            );
                            assert(kept + added_keys(x, y, path@, j as int).push(r) =~= (kept
                                + added_keys(x, y, path@, j as int)).push(r));
                        }
                        acc.key_added(child_path);
                    },
                }
                j += 1;
            }
        },
        (Value::Array(list1), Value::Array(list2)) => {
            let ghost x = items_view(list1@);
            let ghost y = items_view(list2@);
            if options.orders_ignored() {
                diff_arrays_ignore_order(list1, list2, path, options, acc);
            } else {
                let min_len = if list1.len() <= list2.len() {
                    list1.len()
                } else {
                    list2.len()
                };
                let mut i: usize = 0;
                while i < min_len
                    invariant
                        i <= min_len,
                        acc@ == apply_all(old(acc)@, paired(x, y, path@, options@, i as int)),
                    decreases min_len - i,
                {
                    let child_path = child_index_path(path, i);
                    proof {
                        lemma_apply_all_concat(
                            old(acc)@,
                            paired(x, y, path@, options@, i as int),
                            records(x[i as int], y[i as int], child_path@, options@),
                        );
                    }
                    diff_values(&list1[i], &list2[i], child_path.as_str(), options, acc);
                    i += 1;
                }
                let ghost first = paired(x, y, path@, options@, min_len as int);
                let ghost second = extra(x, path@, true, y.len() as int, x.len() as int);
                let ghost third = extra(y, path@, false, x.len() as int, y.len() as int);
                record_extra(list1, path, true, list2.len(), acc);
                record_extra(list2, path, false, list1.len(), acc);
                proof {
                    lemma_apply_all_concat(old(acc)@, first, second);
                    lemma_apply_all_concat(old(acc)@, first + second, third);
                }
            }
        },
        _ => {
            proof {
                lemma_apply_all_one(old(acc)@, Seq::empty(), leaf_record(t1@, t2@, path@, options@));
                assert(Seq::<Record>::empty().push(leaf_record(t1@, t2@, path@, options@))
                    =~= seq![leaf_record(t1@, t2@, path@, options@)]);
            }
            if types_compatible(t1, t2, options) {
                acc.value_changed(String::from_str(path), t1, t2);
            } else {
                acc.type_changed(String::from_str(path), t1, t2);
            }
        },
    }
}


// ---------------------------------------------------------------------------
// The report
// ---------------------------------------------------------------------------

/// An array of the given paths, each as a string.
pub open spec fn path_list(paths: Seq<Seq<char>>) -> ValueView {
    ValueView::Array(Seq::new(paths.len(), |i: int| ValueView::String(paths[i])))
}

/// `entries` with the bucket `name` added at the end, unless the bucket is empty.
pub open spec fn with_bucket(
    entries: Seq<(Seq<char>, ValueView)>,
    name: Seq<char>,
    size: nat,
    content: ValueView,
) -> Seq<(Seq<char>, ValueView)> {
    if size > 0 {
        entries.push((name, content))
    } else {
        entries
    }
}

/// What the report holds for changed values: at verbose level 0 the sorted
/// list of their paths, else the old and new value under each path.
pub open spec fn changed_content(entries: Seq<(Seq<char>, ValueView)>, verbose_level: u8) -> ValueView {
    if verbose_level == 0 {
        path_list(sort(keys_of(entries)))
    } else {
        ValueView::Object(entries)
    }
}

/// The members of the report: one for each bucket that is not empty.
pub open spec fn report_members(b: Buckets, verbose_level: u8) -> Seq<(Seq<char>, ValueView)> {
    let m0 = Seq::<(Seq<char>, ValueView)>::empty();
    let m1 = with_bucket(
        m0,
        "values_changed"@,
        b.values_changed.len(),
        changed_content(b.values_changed, verbose_level),
    );
    let m2 = with_bucket(
        m1,
        "dictionary_item_added"@,
        b.dictionary_item_added.len(),
        path_list(sort(b.dictionary_item_added)),
    );
    let m3 = with_bucket(
        m2,
        "dictionary_item_removed"@,
        b.dictionary_item_removed.len(),
        path_list(sort(b.dictionary_item_removed)),
    );
    let m4 = with_bucket(
        m3,
        "iterable_item_added"@,
        b.iterable_item_added.len(),
        ValueView::Object(b.iterable_item_added),
    );
    let m5 = with_bucket(
        m4,
        "iterable_item_removed"@,
        b.iterable_item_removed.len(),
        ValueView::Object(b.iterable_item_removed),
    );
    with_bucket(m5, "type_changes"@, b.type_changes.len(), ValueView::Object(b.type_changes))
}

/// The report: an object with one member for each bucket that is not empty.
pub open spec fn report(b: Buckets, verbose_level: u8) -> ValueView {
    ValueView::Object(report_members(b, verbose_level))
}

/// The report on the differences between `t1` and `t2`.
pub open spec fn diff_report(t1: ValueView, t2: ValueView, o: OptionsView) -> ValueView {
    report(apply_all(no_changes(), records(t1, t2, "root"@, o)), o.verbose_level)
}

/// The name of the bucket with the number `k`.
pub open spec fn bucket_name(k: int) -> Seq<char> {
    if k == 0 {
        "values_changed"@
    } else if k == 1 {
        "dictionary_item_added"@
    } else if k == 2 {
        "dictionary_item_removed"@
    } else if k == 3 {
        "iterable_item_added"@
    } else if k == 4 {
        "iterable_item_removed"@
    } else {
        "type_changes"@
    }
}

/// The number of the bucket named `name`; six for any other name.
pub open spec fn bucket_index(name: Seq<char>) -> int {
    if name == bucket_name(0) {
        0
    } else if name == bucket_name(1) {
        1
    } else if name == bucket_name(2) {
        2
    } else if name == bucket_name(3) {
        3
    } else if name == bucket_name(4) {
        4
    } else if name == bucket_name(5) {
        5
    } else {
        6
    }
}

/// True when each entry is named like one of the first `k` buckets.
pub open spec fn named_below(entries: Seq<(Seq<char>, ValueView)>, k: int) -> bool {
    forall|i: int| 0 <= i < entries.len() ==> bucket_index((#[trigger] entries[i]).0) < k
}

/// The six buckets have six different names.
pub proof fn lemma_bucket_names_differ(k: int)
    requires
        0 <= k <= 5,
    ensures
        bucket_index(bucket_name(k)) == k,
{
    reveal_strlit("values_changed");
    reveal_strlit("dictionary_item_added");
    reveal_strlit("dictionary_item_removed");
    reveal_strlit("iterable_item_added");
    reveal_strlit("iterable_item_removed");
    reveal_strlit("type_changes");
    assert forall|i: int, j: int| 0 <= i < j <= 5 implies bucket_name(i) != bucket_name(j) by {
        if bucket_name(i) == bucket_name(j) {
            assert(bucket_name(i).len() == bucket_name(j).len());
            assert(bucket_name(i)[0] == bucket_name(j)[0]);
        }
    }
}

fn add_bucket(map: &mut indexmap::IndexMap<String, Value>, k: usize, name: &str, content: Value)
    requires
        k <= 5,
        name@ == bucket_name(k as int),
        named_below(entries_of(*old(map)), k as int),
    ensures
        entries_of(*final(map)) == entries_of(*old(map)).push((name@, content@)),
        named_below(entries_of(*final(map)), k + 1),
{
    let ghost before = entries_of(*map);
    proof {
        lemma_bucket_names_differ(k as int);
        if has_key(before, name@) {
            let i = choose|i: int| 0 <= i < before.len() && (#[trigger] before[i]).0 == name@;
            assert(bucket_index(before[i].0) < k);
        }
    }
    let _ = map_insert(map, String::from_str(name), content);
}

/// An array of the paths `paths`, each as a string.
#[verifier::loop_isolation(false)]
fn path_array(paths: Vec<String>) -> (r: Value)
    ensures
        r@ == path_list(texts(paths@)),
{
    broadcast use group_value_views;

    let mut items: Vec<Value> = Vec::new();
    let mut i: usize = 0;
    while i < paths.len()
        invariant
            i <= paths.len(),
            items@.len() == i,
            forall|j: int| 0 <= j < i ==> (#[trigger] items@[j])@ == ValueView::String(paths@[j]@),
        decreases paths.len() - i,
    {
        items.push(Value::String(paths[i].clone()));
        i += 1;
    }
    let r = Value::Array(items);
    assert(r@->Array_0 =~= path_list(texts(paths@))->Array_0);
    r
}

/// The paths of `entries`, in their order.
#[verifier::loop_isolation(false)]
fn entry_paths(entries: &Vec<(String, Value)>) -> (r: Vec<String>)
    ensures
        texts(r@) == keys_of(members_view(entries@)),
{
    let mut out: Vec<String> = Vec::new();
    let mut i: usize = 0;
    while i < entries.len()
        invariant
            i <= entries.len(),
            out@.len() == i,
            forall|j: int| 0 <= j < i ==> (#[trigger] out@[j])@ == entries@[j].0@,
        decreases entries.len() - i,
    {
        out.push(entries[i].0.clone());
        i += 1;
    }
    assert(texts(out@) =~= keys_of(members_view(entries@)));
    out
}

impl DiffAccumulator {
    /// The report on the changes collected: an object with one member for each
    /// bucket that is not empty, path lists sorted.
    pub fn into_value(self, verbose_level: u8) -> (r: Value)
        ensures
            r@ == report(self@, verbose_level),
    {
        broadcast use group_value_views;

        let ghost b = self@;
        let mut result = new_map();
        if self.values_changed.len() > 0 {
            if verbose_level == 0 {
                let paths = sort_texts(entry_paths(&self.values_changed));
                add_bucket(&mut result, 0, "values_changed", path_array(paths));
            } else {
                add_bucket(&mut result, 0, "values_changed", Value::Object(self.values_changed));
            }
        }
        assert(named_below(entries_of(result), 1));
        if self.dictionary_item_added.len() > 0 {
            let paths = sort_texts(self.dictionary_item_added);
            add_bucket(&mut result, 1, "dictionary_item_added", path_array(paths));
        }
        assert(named_below(entries_of(result), 2));
        if self.dictionary_item_removed.len() > 0 {
            let paths = sort_texts(self.dictionary_item_removed);
            add_bucket(&mut result, 2, "dictionary_item_removed", path_array(paths));
        }
        assert(named_below(entries_of(result), 3));
        if self.iterable_item_added.len() > 0 {
            add_bucket(
                &mut result,
                3,
                "iterable_item_added",
                Value::Object(self.iterable_item_added),
            );
        }
        assert(named_below(entries_of(result), 4));
        if self.iterable_item_removed.len() > 0 {
            add_bucket(
                &mut result,
                4,
                "iterable_item_removed",
                Value::Object(self.iterable_item_removed),
            );
        }
        assert(named_below(entries_of(result), 5));
        if self.type_changes.len() > 0 {
            add_bucket(&mut result, 5, "type_changes", Value::Object(self.type_changes));
        }
        assert(entries_of(result) == report_members(b, verbose_level));
        Value::Object(map_into_members(result))
    }
}

/// The report on the differences between `t1` and `t2` under `options`.
pub fn diff(t1: &Value, t2: &Value, options: &DeepDiffOptions) -> (r: Value)
    ensures
        r@ == diff_report(t1@, t2@, options@),
{
    let mut acc = DiffAccumulator::default();
    diff_values(t1, t2, "root", options, &mut acc);
    acc.into_value(options.verbosity())
}


// ---------------------------------------------------------------------------
// Numbers that meet
// ---------------------------------------------------------------------------

/// The pairs of numbers that stand at the same place in `a` and in `b`: the
/// two values themselves where both are numbers, the pairs under each key
/// that two objects share, and the pairs at each index that two arrays share.
pub open spec fn meeting_numbers(a: ValueView, b: ValueView) -> Seq<
    (crate::value::NumberView, crate::value::NumberView),
>
    decreases a, 0nat,
{
    match (a, b) {
        (ValueView::Number(x), ValueView::Number(y)) => seq![(x, y)],
        (ValueView::Object(x), ValueView::Object(y)) => meeting_in_members(x, y, x.len() as int),
        (ValueView::Array(x), ValueView::Array(y)) => meeting_in_items(
            x,
            y,
            shorter(x.len() as int, y.len() as int),
        ),
        _ => Seq::empty(),
    }
}

/// The pairs that meet under the first `n` keys of the first object.
pub open spec fn meeting_in_members(
    x: Seq<(Seq<char>, ValueView)>,
    y: Seq<(Seq<char>, ValueView)>,
    n: int,
) -> Seq<(crate::value::NumberView, crate::value::NumberView)>
    decreases x, n,
{
    if n <= 0 || n > x.len() {
        Seq::empty()
    } else {
        meeting_in_members(x, y, n - 1) + (match member(y, x[n - 1].0) {
            Some(v) => meeting_numbers(x[n - 1].1, v),
            None => Seq::empty(),
        })
    }
}

/// The pairs that meet at the first `n` indices of two arrays.
pub open spec fn meeting_in_items(x: Seq<ValueView>, y: Seq<ValueView>, n: int) -> Seq<
    (crate::value::NumberView, crate::value::NumberView),
>
    decreases x, n,
{
    if n <= 0 || n > x.len() || n > y.len() {
        Seq::empty()
    } else {
        meeting_in_items(x, y, n - 1) + meeting_numbers(x[n - 1], y[n - 1])
    }
}

/// Adds to `pairs` the pairs of numbers that stand at the same place in `t1`
/// and in `t2`.
#[verifier::loop_isolation(false)]
pub fn collect_number_pairs(
    t1: &Value,
    t2: &Value,
    pairs: &mut Vec<(crate::value::Number, crate::value::Number)>,
)
    ensures
        crate::options::pairs_view(final(pairs)@) == crate::options::pairs_view(old(pairs)@)
            + meeting_numbers(t1@, t2@),
    decreases t1,
{
    broadcast use group_value_views;

    let ghost before = crate::options::pairs_view(pairs@);
    assert(before + Seq::empty() =~= before);
    match (t1, t2) {
        (Value::Number(x), Value::Number(y)) => {
            pairs.push((x.clone(), y.clone()));
            assert(crate::options::pairs_view(pairs@) =~= before + seq![(x@, y@)]);
        },
        (Value::Object(map1), Value::Object(map2)) => {
            let ghost x = members_view(map1@);
            let ghost y = members_view(map2@);
            let mut i: usize = 0;
            while i < map1.len()
                invariant
                    i <= map1.len(),
                    crate::options::pairs_view(pairs@) == before + meeting_in_members(
                        x,
                        y,
                        i as int,
                    ),
                decreases map1.len() - i,
            {
                let ghost sofar = meeting_in_members(x, y, i as int);
                match member_index(map2, map1[i].0.as_str()) {
                    Some(j) => {
                        collect_number_pairs(&map1[i].1, &map2[j].1, pairs);
                        assert(before + sofar + meeting_numbers(x[i as int].1, y[j as int].1)
                            =~= before + meeting_in_members(x, y, i + 1));
                    },
                    None => {
                        assert(sofar + Seq::empty() =~= sofar);
                    },
                }
                i += 1;
            }
        },
        (Value::Array(list1), Value::Array(list2)) => {
            let ghost x = items_view(list1@);
            let ghost y = items_view(list2@);
            let min_len = if list1.len() <= list2.len() {
                list1.len()
            } else {
                list2.len()
            };
            let mut i: usize = 0;
            while i < min_len
                invariant
                    i <= min_len,
                    crate::options::pairs_view(pairs@) == before + meeting_in_items(x, y, i as int),
                decreases min_len - i,
            {
                let ghost sofar = meeting_in_items(x, y, i as int);
                collect_number_pairs(&list1[i], &list2[i], pairs);
                assert(before + sofar + meeting_numbers(x[i as int], y[i as int]) =~= before
                    + meeting_in_items(x, y, i + 1));
                i += 1;
            }
        },
        _ => {},
    }
}

/// The pairs of numbers that stand at the same place in `t1` and in `t2`:
/// the pairs that a comparison of the two may ask about.
pub fn number_pairs(t1: &Value, t2: &Value) -> (r: Vec<(crate::value::Number, crate::value::Number)>)
    ensures
        crate::options::pairs_view(r@) == meeting_numbers(t1@, t2@),
{
    let mut pairs: Vec<(crate::value::Number, crate::value::Number)> = Vec::new();
    assert(crate::options::pairs_view(pairs@) =~= Seq::empty());
    collect_number_pairs(t1, t2, &mut pairs);
    assert(Seq::empty() + meeting_numbers(t1@, t2@) =~= meeting_numbers(t1@, t2@));
    pairs
}

} // verus!
