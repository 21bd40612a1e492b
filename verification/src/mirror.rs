//! What a report holds: the pairs and paths of the recorded changes, each
//! path one that reads back; and swapping the two values mirrors the report.

use crate::engine::Buckets;
use crate::engine::Record;
use crate::engine::apply;
use crate::engine::apply_all;
use crate::engine::diff_report;
use crate::engine::no_changes;
use crate::engine::put;
use crate::engine::records;
use crate::laws::in_order;
use crate::laws::lemma_apply_all_keeps_order;
use crate::options::OptionsView;
use crate::order::lemma_lex_total;
use crate::order::lemma_lex_transitive;
use crate::order::lemma_lower_bound;
use crate::order::lemma_sort_sorted;
use crate::order::lower_bound;
use crate::order::sort;
use crate::order::strictly_sorted;
use crate::places::addressable;
use crate::places::found_at;
use crate::places::lemma_recorded_paths_lead_to_values;
use crate::places::lemma_records_distinct;
use crate::places::path_of;
use crate::policy::keys_of;
use crate::swap::lemma_contains_push;
use crate::swap::lemma_swap_mirrors;
use crate::swap::mirror;
use crate::value::ValueView;
use crate::value::well_formed;
use vstd::prelude::*;

verus! {

// ---------------------------------------------------------------------------
// What the buckets hold
// ---------------------------------------------------------------------------

/// The bucket into which a change goes.
pub enum Kind {
    Changed,
    Typed,
    KeyAdded,
    KeyRemoved,
    ItemAdded,
    ItemRemoved,
}

/// The bucket into which `r` goes.
pub open spec fn kind_of(r: Record) -> Kind {
    match r {
        Record::ValueChanged { .. } => Kind::Changed,
        Record::TypeChanged { .. } => Kind::Typed,
        Record::KeyAdded { .. } => Kind::KeyAdded,
        Record::KeyRemoved { .. } => Kind::KeyRemoved,
        Record::ItemAdded { .. } => Kind::ItemAdded,
        Record::ItemRemoved { .. } => Kind::ItemRemoved,
    }
}

/// What `r` puts into its bucket under its path.
pub open spec fn detail_of(r: Record) -> ValueView {
    match r {
        Record::ValueChanged { old, new, .. } => crate::engine::change_entry(old, new),
        Record::TypeChanged { old, new, .. } => crate::engine::type_entry(old, new),
        Record::ItemAdded { value, .. } => value,
        Record::ItemRemoved { value, .. } => value,
        _ => ValueView::Null,
    }
}

/// The path of `r` with what `r` puts under it.
pub open spec fn entry_of(r: Record) -> (Seq<char>, ValueView) {
    (path_of(r), detail_of(r))
}

/// True for the four buckets that hold pairs.
pub open spec fn holds_pairs(k: Kind) -> bool {
    k is Changed || k is Typed || k is ItemAdded || k is ItemRemoved
}

/// The pairs of the bucket `k`; none for the two lists.
pub open spec fn pairs_in(b: Buckets, k: Kind) -> Seq<(Seq<char>, ValueView)> {
    match k {
        Kind::Changed => b.values_changed,
        Kind::Typed => b.type_changes,
        Kind::ItemAdded => b.iterable_item_added,
        Kind::ItemRemoved => b.iterable_item_removed,
        _ => Seq::empty(),
    }
}

/// True when no two different changes go into one bucket under one path.
pub open spec fn one_per_path(rs: Seq<Record>) -> bool {
    forall|r1: Record, r2: Record|
        #![trigger rs.contains(r1), rs.contains(r2)]
        rs.contains(r1) && rs.contains(r2) && kind_of(r1) == kind_of(r2) && path_of(r1) == path_of(
            r2,
        ) ==> r1 == r2
}

/// True when some change among `rs` goes into the bucket `k` as `pair`.
pub open spec fn gives_pair(rs: Seq<Record>, k: Kind, pair: (Seq<char>, ValueView)) -> bool {
    exists|r: Record| #[trigger] rs.contains(r) && kind_of(r) == k && entry_of(r) == pair
}

proof fn lemma_key_stands_at_its_bound(
    entries: Seq<(Seq<char>, ValueView)>,
    key: Seq<char>,
    i: int,
)
    requires
        strictly_sorted(keys_of(entries)),
        0 <= i < entries.len(),
        entries[i].0 == key,
    ensures
        lower_bound(keys_of(entries), key) == i,
{
    let ks = keys_of(entries);
    let at = lower_bound(ks, key);
    lemma_lower_bound(ks, key);
    crate::order::lemma_lex_irreflexive(key);
    if at < i {
        assert(crate::order::lex_lt(ks[at], ks[i]));
    } else if at > i {
        assert(crate::order::lex_lt(ks[i], key));
    }
}

/// What a bucket holds after `put`: the new pair, and what it held under other keys.
proof fn lemma_put_contains(
    entries: Seq<(Seq<char>, ValueView)>,
    key: Seq<char>,
    value: ValueView,
    pair: (Seq<char>, ValueView),
)
    requires
        strictly_sorted(keys_of(entries)),
    ensures
        put(entries, key, value).contains(pair) <==> (pair == (key, value) || (entries.contains(pair)
            && pair.0 != key)),
{
    let ks = keys_of(entries);
    let at = lower_bound(ks, key);
    lemma_lower_bound(ks, key);
    let after = put(entries, key, value);
    if at < entries.len() && entries[at].0 == key {
        assert(after[at] == (key, value));
        if after.contains(pair) {
            let i = choose|i: int| 0 <= i < after.len() && after[i] == pair;
            if i != at {
                assert(entries[i] == pair);
                if pair.0 == key {
                    lemma_key_stands_at_its_bound(entries, key, i);
                }
            }
        }
        if entries.contains(pair) && pair.0 != key {
            let i = choose|i: int| 0 <= i < entries.len() && entries[i] == pair;
            assert(after[i] == pair);
        }
    } else {
        assert(after[at] == (key, value));
        if after.contains(pair) {
            let i = choose|i: int| 0 <= i < after.len() && after[i] == pair;
            if i < at {
                assert(entries[i] == pair);
                if pair.0 == key {
                    lemma_key_stands_at_its_bound(entries, key, i);
                }
            } else if i > at {
                assert(entries[i - 1] == pair);
                if pair.0 == key {
                    lemma_key_stands_at_its_bound(entries, key, i - 1);
                }
            }
        }
        if entries.contains(pair) && pair.0 != key {
            let i = choose|i: int| 0 <= i < entries.len() && entries[i] == pair;
            if i < at {
                assert(after[i] == pair);
            } else {
                assert(after[i + 1] == pair);
            }
        }
    }
}

proof fn lemma_contains_last(rs: Seq<Record>, r: Record)
    requires
        rs.len() > 0,
    ensures
        rs.contains(r) <==> (r == rs.last() || rs.drop_last().contains(r)),
{
    assert(rs =~= rs.drop_last().push(rs.last()));
    lemma_contains_push(rs.drop_last(), rs.last(), r);
}

/// A bucket of pairs holds a pair exactly when some recorded change gives
/// it, provided that no two different changes go into one bucket under one path.
proof fn lemma_bucket_pairs(rs: Seq<Record>, k: Kind, pair: (Seq<char>, ValueView))
    requires
        one_per_path(rs),
        holds_pairs(k),
    ensures
        pairs_in(apply_all(no_changes(), rs), k).contains(pair) <==> gives_pair(rs, k, pair),
    decreases rs.len(),
{
    if rs.len() == 0 {
        assert(pairs_in(no_changes(), k) =~= Seq::empty());
    } else {
        let shorter = rs.drop_last();
        let r = rs.last();
        let before = apply_all(no_changes(), shorter);
        let after = apply(before, r);
        assert(one_per_path(shorter)) by {
            assert forall|r1: Record, r2: Record|
                #![trigger shorter.contains(r1), shorter.contains(r2)]
                shorter.contains(r1) && shorter.contains(r2) && kind_of(r1) == kind_of(r2)
                    && path_of(r1) == path_of(r2) implies r1 == r2 by {
                lemma_contains_last(rs, r1);
                lemma_contains_last(rs, r2);
            }
        }
        lemma_bucket_pairs(shorter, k, pair);
        lemma_contains_last(rs, r);
        if gives_pair(rs, k, pair) {
            let w = choose|w: Record| #[trigger] rs.contains(w) && kind_of(w) == k && entry_of(w) == pair;
            lemma_contains_last(rs, w);
            if w != r {
                assert(shorter.contains(w) && kind_of(w) == k && entry_of(w) == pair);
            }
        }
        if gives_pair(shorter, k, pair) {
            let w = choose|w: Record|
                #[trigger] shorter.contains(w) && kind_of(w) == k && entry_of(w) == pair;
            lemma_contains_last(rs, w);
            assert(rs.contains(w) && kind_of(w) == k && entry_of(w) == pair);
        }
        if kind_of(r) == k {
            assert(rs.contains(r) && kind_of(r) == k && entry_of(r) == entry_of(r));
            lemma_apply_all_keeps_order_from_nothing(shorter);
            assert(pairs_in(after, k) == put(pairs_in(before, k), path_of(r), detail_of(r)));
            lemma_put_contains(pairs_in(before, k), path_of(r), detail_of(r), pair);
            if gives_pair(shorter, k, pair) && pair.0 == path_of(r) {
                let w = choose|w: Record|
                    #[trigger] shorter.contains(w) && kind_of(w) == k && entry_of(w) == pair;
                lemma_contains_last(rs, w);
                assert(rs.contains(w) && rs.contains(r));
                assert(w == r);
            }
        } else {
            assert(pairs_in(after, k) == pairs_in(before, k));
        }
    }
}

proof fn lemma_apply_all_keeps_order_from_nothing(rs: Seq<Record>)
    ensures
        in_order(apply_all(no_changes(), rs)),
{
    assert(keys_of(no_changes().values_changed) =~= Seq::<Seq<char>>::empty());
    assert(keys_of(no_changes().iterable_item_added) =~= Seq::<Seq<char>>::empty());
    assert(keys_of(no_changes().iterable_item_removed) =~= Seq::<Seq<char>>::empty());
    assert(keys_of(no_changes().type_changes) =~= Seq::<Seq<char>>::empty());
    lemma_apply_all_keeps_order(no_changes(), rs);
}

/// Two buckets in strictly rising order that hold the same pairs are the same.
proof fn lemma_same_pairs_same_bucket(
    one: Seq<(Seq<char>, ValueView)>,
    two: Seq<(Seq<char>, ValueView)>,
)
    requires
        strictly_sorted(keys_of(one)),
        strictly_sorted(keys_of(two)),
        forall|pair: (Seq<char>, ValueView)| one.contains(pair) <==> two.contains(pair),
    ensures
        one == two,
    decreases one.len(),
{
    if one.len() == 0 {
        if two.len() > 0 {
            assert(two.contains(two[0]));
        }
        assert(one =~= two);
    } else {
        let m1 = one.last();
        assert(one.contains(m1));
        assert(two.contains(m1));
        let j = choose|j: int| 0 <= j < two.len() && two[j] == m1;
        let m2 = two.last();
        assert(two.contains(m2));
        assert(one.contains(m2));
        let i = choose|i: int| 0 <= i < one.len() && one[i] == m2;
        let k1 = keys_of(one);
        let k2 = keys_of(two);
        if j < two.len() - 1 && i < one.len() - 1 {
            assert(crate::order::lex_lt(k2[j], k2[two.len() - 1]));
            assert(crate::order::lex_lt(k1[i], k1[one.len() - 1]));
            lemma_lex_transitive(m1.0, m2.0, m1.0);
            crate::order::lemma_lex_irreflexive(m1.0);
        }
        assert(m1 == m2);
        let d1 = one.drop_last();
        let d2 = two.drop_last();
        assert(keys_of(d1) =~= k1.drop_last());
        assert(keys_of(d2) =~= k2.drop_last());
        assert(strictly_sorted(keys_of(d1))) by {
            assert forall|a: int, b: int| 0 <= a < b < keys_of(d1).len() implies crate::order::lex_lt(
                #[trigger] keys_of(d1)[a],
                #[trigger] keys_of(d1)[b],
            ) by {
                assert(crate::order::lex_lt(k1[a], k1[b]));
            }
        }
        assert(strictly_sorted(keys_of(d2))) by {
            assert forall|a: int, b: int| 0 <= a < b < keys_of(d2).len() implies crate::order::lex_lt(
                #[trigger] keys_of(d2)[a],
                #[trigger] keys_of(d2)[b],
            ) by {
                assert(crate::order::lex_lt(k2[a], k2[b]));
            }
        }
        crate::order::lemma_lex_irreflexive(m1.0);
        assert forall|pair: (Seq<char>, ValueView)| d1.contains(pair) <==> d2.contains(pair) by {
            if d1.contains(pair) {
                let a = choose|a: int| 0 <= a < d1.len() && d1[a] == pair;
                assert(one[a] == pair);
                assert(one.contains(pair));
                assert(crate::order::lex_lt(k1[a], k1[one.len() - 1]));
                let b = choose|b: int| 0 <= b < two.len() && two[b] == pair;
                assert(b < two.len() - 1);
                assert(d2[b] == pair);
            }
            if d2.contains(pair) {
                let b = choose|b: int| 0 <= b < d2.len() && d2[b] == pair;
                assert(two[b] == pair);
                assert(two.contains(pair));
                assert(crate::order::lex_lt(k2[b], k2[two.len() - 1]));
                let a = choose|a: int| 0 <= a < one.len() && one[a] == pair;
                assert(a < one.len() - 1);
                assert(d1[a] == pair);
            }
        }
        lemma_same_pairs_same_bucket(d1, d2);
        assert(one =~= d1.push(m1));
        assert(two =~= d2.push(m2));
    }
}

// ---------------------------------------------------------------------------
// Swapping the two values, bucket by bucket
// ---------------------------------------------------------------------------

/// Among the changes between two well-formed, addressable values no two
/// different ones go into one bucket under one path.
proof fn lemma_one_per_path(a: ValueView, b: ValueView, o: OptionsView)
    requires
        well_formed(a),
        well_formed(b),
        addressable(a),
        addressable(b),
    ensures
        one_per_path(records(a, b, "root"@, o)),
{
    let rs = records(a, b, "root"@, o);
    assert forall|r1: Record, r2: Record|
        #![trigger rs.contains(r1), rs.contains(r2)]
        rs.contains(r1) && rs.contains(r2) && kind_of(r1) == kind_of(r2) && path_of(r1) == path_of(
            r2,
        ) implies r1 == r2 by {
        lemma_recorded_paths_lead_to_values(a, b, o, r1);
        lemma_recorded_paths_lead_to_values(a, b, o, r2);
        let q1 = choose|q: Seq<crate::path::SegmentView>|
            #![trigger found_at(a, b, q, r1)]
            crate::path::parse(path_of(r1)) == Some(q) && found_at(a, b, q, r1);
        let q2 = choose|q: Seq<crate::path::SegmentView>|
            #![trigger found_at(a, b, q, r2)]
            crate::path::parse(path_of(r2)) == Some(q) && found_at(a, b, q, r2);
        assert(q1 == q2);
    }
}

/// The detail of a changed value or type with old and new swapped.
pub open spec fn swapped_detail(v: ValueView) -> ValueView {
    match v {
        ValueView::Object(m) => if m.len() == 2 {
            ValueView::Object(seq![(m[0].0, m[1].1), (m[1].0, m[0].1)])
        } else if m.len() == 4 {
            ValueView::Object(
                seq![(m[0].0, m[1].1), (m[1].0, m[0].1), (m[2].0, m[3].1), (m[3].0, m[2].1)],
            )
        } else {
            v
        },
        _ => v,
    }
}

/// The pairs of a bucket, each detail with old and new swapped.
pub open spec fn swapped_pairs(pairs: Seq<(Seq<char>, ValueView)>) -> Seq<(Seq<char>, ValueView)> {
    Seq::new(pairs.len(), |i: int| (pairs[i].0, swapped_detail(pairs[i].1)))
}

/// The bucket of the mirrored change.
pub open spec fn mirrored_kind(k: Kind) -> Kind {
    match k {
        Kind::Changed => Kind::Changed,
        Kind::Typed => Kind::Typed,
        Kind::KeyAdded => Kind::KeyRemoved,
        Kind::KeyRemoved => Kind::KeyAdded,
        Kind::ItemAdded => Kind::ItemRemoved,
        Kind::ItemRemoved => Kind::ItemAdded,
    }
}

/// The pair of the mirrored change.
pub open spec fn mirrored_pair(k: Kind, pair: (Seq<char>, ValueView)) -> (Seq<char>, ValueView) {
    if k is Changed || k is Typed {
        (pair.0, swapped_detail(pair.1))
    } else {
        pair
    }
}

proof fn lemma_mirror_entry(r: Record)
    ensures
        kind_of(mirror(r)) == mirrored_kind(kind_of(r)),
        entry_of(mirror(r)) == mirrored_pair(kind_of(r), entry_of(r)),
        mirror(mirror(r)) == r,
{
    match r {
        Record::ValueChanged { path, old, new } => {
            assert(swapped_detail(crate::engine::change_entry(old, new))->Object_0
                =~= crate::engine::change_entry(new, old)->Object_0);
        },
        Record::TypeChanged { path, old, new } => {
            assert(swapped_detail(crate::engine::type_entry(old, new))->Object_0
                =~= crate::engine::type_entry(new, old)->Object_0);
        },
        _ => {},
    }
}

/// True when the changes `two` are the mirrored changes `one`.
#[verifier::opaque]
pub open spec fn mirrors(one: Seq<Record>, two: Seq<Record>) -> bool {
    forall|r: Record| #[trigger] one.contains(r) <==> two.contains(mirror(r))
}

/// The pairs that the changes give to a bucket, mirrored, are the pairs that
/// the mirrored changes give to the mirrored bucket.
proof fn lemma_mirrored_gives(
    one: Seq<Record>,
    two: Seq<Record>,
    k: Kind,
    pair: (Seq<char>, ValueView),
)
    requires
        mirrors(one, two),
        gives_pair(one, k, pair),
    ensures
        gives_pair(two, mirrored_kind(k), mirrored_pair(k, pair)),
{
    reveal(mirrors);
    let r = choose|r: Record| #[trigger] one.contains(r) && kind_of(r) == k && entry_of(r) == pair;
    lemma_mirror_entry(r);
    assert(two.contains(mirror(r)));
}

/// Mirroring a pair twice gives the pair, for pairs that changes give.
proof fn lemma_mirrored_twice(rs: Seq<Record>, k: Kind, pair: (Seq<char>, ValueView))
    requires
        gives_pair(rs, k, pair),
    ensures
        mirrored_pair(mirrored_kind(k), mirrored_pair(k, pair)) == pair,
        mirrored_kind(mirrored_kind(k)) == k,
{
    let r = choose|r: Record| #[trigger] rs.contains(r) && kind_of(r) == k && entry_of(r) == pair;
    lemma_mirror_entry(r);
    lemma_mirror_entry(mirror(r));
}

/// The pairs of the bucket `k`, each mirrored.
pub open spec fn swapped_like(k: Kind, pairs: Seq<(Seq<char>, ValueView)>) -> Seq<
    (Seq<char>, ValueView),
> {
    Seq::new(pairs.len(), |i: int| mirrored_pair(k, pairs[i]))
}

proof fn lemma_mirrored_bucket_holds(
    r1: Seq<Record>,
    r2: Seq<Record>,
    k: Kind,
    pair: (Seq<char>, ValueView),
)
    requires
        holds_pairs(k),
        one_per_path(r1),
        one_per_path(r2),
        mirrors(r1, r2),
        mirrors(r2, r1),
    ensures
        swapped_like(k, pairs_in(apply_all(no_changes(), r1), k)).contains(pair) <==> pairs_in(
            apply_all(no_changes(), r2),
            mirrored_kind(k),
        ).contains(pair),
{
    let one = pairs_in(apply_all(no_changes(), r1), k);
    let two = pairs_in(apply_all(no_changes(), r2), mirrored_kind(k));
    let want = swapped_like(k, one);
    lemma_bucket_pairs(r2, mirrored_kind(k), pair);
    if want.contains(pair) {
        let i = choose|i: int| 0 <= i < want.len() && want[i] == pair;
        assert(one.contains(one[i]));
        lemma_bucket_pairs(r1, k, one[i]);
        lemma_mirrored_gives(r1, r2, k, one[i]);
    }
    if two.contains(pair) {
        lemma_mirrored_gives(r2, r1, mirrored_kind(k), pair);
        lemma_mirrored_twice(r2, mirrored_kind(k), pair);
        let back = mirrored_pair(mirrored_kind(k), pair);
        lemma_bucket_pairs(r1, k, back);
        let i = choose|i: int| 0 <= i < one.len() && one[i] == back;
        assert(want[i] == pair);
    }
}

proof fn lemma_mirrored_bucket(r1: Seq<Record>, r2: Seq<Record>, k: Kind)
    requires
        holds_pairs(k),
        one_per_path(r1),
        one_per_path(r2),
        mirrors(r1, r2),
        mirrors(r2, r1),
    ensures
        pairs_in(apply_all(no_changes(), r2), mirrored_kind(k)) == swapped_like(
            k,
            pairs_in(apply_all(no_changes(), r1), k),
        ),
{
    let one = pairs_in(apply_all(no_changes(), r1), k);
    let two = pairs_in(apply_all(no_changes(), r2), mirrored_kind(k));
    let want = swapped_like(k, one);
    lemma_apply_all_keeps_order_from_nothing(r1);
    lemma_apply_all_keeps_order_from_nothing(r2);
    assert(keys_of(want) =~= keys_of(one));
    assert forall|pair: (Seq<char>, ValueView)| want.contains(pair) <==> two.contains(pair) by {
        lemma_mirrored_bucket_holds(r1, r2, k, pair);
    }
    lemma_same_pairs_same_bucket(want, two);
}

/// The changes between `b` and `a` are the mirrored changes between `a` and `b`.
proof fn lemma_records_mirror(a: ValueView, b: ValueView, o: OptionsView)
    requires
        well_formed(a),
        well_formed(b),
    ensures
        mirrors(records(a, b, "root"@, o), records(b, a, "root"@, o)),
{
    reveal(mirrors);
    lemma_swap_mirrors(a, b, "root"@, o);
}

/// True when the changes between `a` and `b` do not meet: in either
/// direction, no two different changes go into one bucket under one path and
/// no path is written twice into a list of keys.
pub open spec fn paths_apart(a: ValueView, b: ValueView, o: OptionsView) -> bool {
    let r1 = records(a, b, "root"@, o);
    let r2 = records(b, a, "root"@, o);
    let one = apply_all(no_changes(), r1);
    let two = apply_all(no_changes(), r2);
    &&& one_per_path(r1)
    &&& one_per_path(r2)
    &&& one.dictionary_item_added.no_duplicates()
    &&& one.dictionary_item_removed.no_duplicates()
    &&& two.dictionary_item_added.no_duplicates()
    &&& two.dictionary_item_removed.no_duplicates()
}

/// The changes between two well-formed values do not meet where no key holds
/// `']`, the mark that ends a key in a path: only such a key can give two
/// places the same path.
pub proof fn lemma_plain_keys_keep_paths_apart(a: ValueView, b: ValueView, o: OptionsView)
    requires
        well_formed(a),
        well_formed(b),
        addressable(a),
        addressable(b),
    ensures
        paths_apart(a, b, o),
{
    let r1 = records(a, b, "root"@, o);
    let r2 = records(b, a, "root"@, o);
    lemma_one_per_path(a, b, o);
    lemma_one_per_path(b, a, o);
    let p = Seq::<crate::path::SegmentView>::empty();
    assert(crate::path::path_text(p) == "root"@);
    lemma_records_distinct(a, b, p, o);
    lemma_records_distinct(b, a, p, o);
    lemma_list_distinct(r1, Kind::KeyAdded);
    lemma_list_distinct(r1, Kind::KeyRemoved);
    lemma_list_distinct(r2, Kind::KeyAdded);
    lemma_list_distinct(r2, Kind::KeyRemoved);
}

/// The buckets of pairs after the two values are swapped: the changed values
/// and the changed types are those of before with old and new swapped, the
/// added items are the removed ones of before and the removed the added.
/// This holds of well-formed values whose changes do not meet.
pub proof fn lemma_swap_mirrors_pairs(a: ValueView, b: ValueView, o: OptionsView)
    requires
        well_formed(a),
        well_formed(b),
        paths_apart(a, b, o),
    ensures
        ({
            let one = apply_all(no_changes(), records(a, b, "root"@, o));
            let two = apply_all(no_changes(), records(b, a, "root"@, o));
            &&& two.values_changed == swapped_pairs(one.values_changed)
            &&& two.type_changes == swapped_pairs(one.type_changes)
            &&& two.iterable_item_added == one.iterable_item_removed
            &&& two.iterable_item_removed == one.iterable_item_added
        }),
{
    let r1 = records(a, b, "root"@, o);
    let r2 = records(b, a, "root"@, o);
    let one = apply_all(no_changes(), r1);
    lemma_records_mirror(a, b, o);
    lemma_records_mirror(b, a, o);
    lemma_mirrored_bucket(r1, r2, Kind::Changed);
    lemma_mirrored_bucket(r1, r2, Kind::Typed);
    lemma_mirrored_bucket(r1, r2, Kind::ItemAdded);
    lemma_mirrored_bucket(r1, r2, Kind::ItemRemoved);
    assert(swapped_like(Kind::ItemRemoved, one.iterable_item_removed)
        =~= one.iterable_item_removed);
    assert(swapped_like(Kind::ItemAdded, one.iterable_item_added) =~= one.iterable_item_added);
    assert(swapped_like(Kind::Changed, one.values_changed) =~= swapped_pairs(one.values_changed));
    assert(swapped_like(Kind::Typed, one.type_changes) =~= swapped_pairs(one.type_changes));
}

/// The paths of the list `k`; none for the buckets of pairs.
pub open spec fn list_in(b: Buckets, k: Kind) -> Seq<Seq<char>> {
    match k {
        Kind::KeyAdded => b.dictionary_item_added,
        Kind::KeyRemoved => b.dictionary_item_removed,
        _ => Seq::empty(),
    }
}

/// The change that puts `path` into the list `k`.
pub open spec fn key_record(k: Kind, path: Seq<char>) -> Record {
    if k is KeyAdded {
        Record::KeyAdded { path }
    } else {
        Record::KeyRemoved { path }
    }
}

/// A list of keys holds a path exactly when the change of that key was recorded.
proof fn lemma_list_members(rs: Seq<Record>, k: Kind, path: Seq<char>)
    requires
        k is KeyAdded || k is KeyRemoved,
    ensures
        list_in(apply_all(no_changes(), rs), k).contains(path) <==> rs.contains(key_record(k, path)),
    decreases rs.len(),
{
    if rs.len() == 0 {
        assert(list_in(no_changes(), k) =~= Seq::empty());
    } else {
        let shorter = rs.drop_last();
        let r = rs.last();
        let before = list_in(apply_all(no_changes(), shorter), k);
        let after = list_in(apply_all(no_changes(), rs), k);
        lemma_list_members(shorter, k, path);
        lemma_contains_last(rs, key_record(k, path));
        if kind_of(r) == k {
            assert(after == before.push(path_of(r)));
            if before.contains(path) {
                let i = choose|i: int| 0 <= i < before.len() && before[i] == path;
                assert(after[i] == path);
            }
            if path == path_of(r) {
                assert(after[before.len() as int] == path);
            }
            if after.contains(path) {
                let i = choose|i: int| 0 <= i < after.len() && after[i] == path;
                if i < before.len() {
                    assert(before[i] == path);
                }
            }
        } else {
            assert(after == before);
        }
    }
}

/// Where no change is recorded twice, no path stands twice in a list of keys.
proof fn lemma_list_distinct(rs: Seq<Record>, k: Kind)
    requires
        k is KeyAdded || k is KeyRemoved,
        rs.no_duplicates(),
    ensures
        list_in(apply_all(no_changes(), rs), k).no_duplicates(),
    decreases rs.len(),
{
    if rs.len() == 0 {
        assert(list_in(no_changes(), k) =~= Seq::empty());
    } else {
        let shorter = rs.drop_last();
        let r = rs.last();
        let before = list_in(apply_all(no_changes(), shorter), k);
        let after = list_in(apply_all(no_changes(), rs), k);
        lemma_list_distinct(shorter, k);
        if kind_of(r) == k {
            assert(after == before.push(path_of(r)));
            lemma_list_members(shorter, k, path_of(r));
            if before.contains(path_of(r)) {
                assert(key_record(k, path_of(r)) == r);
                let i = choose|i: int| 0 <= i < shorter.len() && shorter[i] == r;
                assert(rs[i] == rs[rs.len() - 1]);
            }
            assert forall|i: int, j: int|
                0 <= i < after.len() && 0 <= j < after.len() && i != j implies after[i] != after[j] by {
                if i < before.len() && j < before.len() {
                    assert(before[i] != before[j]);
                } else if i < before.len() {
                    assert(before.contains(before[i]));
                } else {
                    assert(before.contains(before[j]));
                }
            }
        } else {
            assert(after == before);
        }
    }
}

/// Sorting a list without duplicates gives a strictly rising list of the same paths.
pub(crate) proof fn lemma_sorted_distinct(l: Seq<Seq<char>>)
    requires
        l.no_duplicates(),
    ensures
        strictly_sorted(sort(l)),
        sort(l).len() == l.len(),
        forall|x: Seq<char>| sort(l).contains(x) <==> l.contains(x),
{
    broadcast use vstd::seq_lib::group_to_multiset_ensures;

    let s = sort(l);
    lemma_sort_sorted(l);
    l.lemma_multiset_has_no_duplicates();
    s.lemma_multiset_has_no_duplicates_conv();
    assert forall|x: Seq<char>| s.contains(x) <==> l.contains(x) by {
        assert(s.to_multiset().count(x) == l.to_multiset().count(x));
    }
    assert forall|i: int, j: int| 0 <= i < j < s.len() implies crate::order::lex_lt(
        #[trigger] s[i],
        #[trigger] s[j],
    ) by {
        lemma_lex_total(s[i], s[j]);
    }
}

/// The paths of a list, each as a pair with nothing under it.
spec fn as_pairs(l: Seq<Seq<char>>) -> Seq<(Seq<char>, ValueView)> {
    Seq::new(l.len(), |i: int| (l[i], ValueView::Null))
}

/// Two strictly rising lists of the same paths are the same list.
pub(crate) proof fn lemma_same_paths_same_list(one: Seq<Seq<char>>, two: Seq<Seq<char>>)
    requires
        strictly_sorted(one),
        strictly_sorted(two),
        forall|x: Seq<char>| one.contains(x) <==> two.contains(x),
    ensures
        one == two,
{
    let p1 = as_pairs(one);
    let p2 = as_pairs(two);
    assert(keys_of(p1) =~= one);
    assert(keys_of(p2) =~= two);
    assert forall|pair: (Seq<char>, ValueView)| p1.contains(pair) <==> p2.contains(pair) by {
        if p1.contains(pair) {
            let i = choose|i: int| 0 <= i < p1.len() && p1[i] == pair;
            assert(one.contains(one[i]));
            let j = choose|j: int| 0 <= j < two.len() && two[j] == one[i];
            assert(p2[j] == pair);
        }
        if p2.contains(pair) {
            let i = choose|i: int| 0 <= i < p2.len() && p2[i] == pair;
            assert(two.contains(two[i]));
            let j = choose|j: int| 0 <= j < one.len() && one[j] == two[i];
            assert(p1[j] == pair);
        }
    }
    lemma_same_pairs_same_bucket(p1, p2);
    assert(one =~= two) by {
        assert(one.len() == two.len());
        assert forall|i: int| 0 <= i < one.len() implies one[i] == two[i] by {
            assert(p1[i] == p2[i]);
        }
    }
}

proof fn lemma_mirrored_list(r1: Seq<Record>, r2: Seq<Record>, k: Kind)
    requires
        k is KeyAdded || k is KeyRemoved,
        list_in(apply_all(no_changes(), r1), k).no_duplicates(),
        list_in(apply_all(no_changes(), r2), mirrored_kind(k)).no_duplicates(),
        mirrors(r1, r2),
    ensures
        sort(list_in(apply_all(no_changes(), r2), mirrored_kind(k))) == sort(
            list_in(apply_all(no_changes(), r1), k),
        ),
        list_in(apply_all(no_changes(), r2), mirrored_kind(k)).len() == list_in(
            apply_all(no_changes(), r1),
            k,
        ).len(),
{
    let one = list_in(apply_all(no_changes(), r1), k);
    let two = list_in(apply_all(no_changes(), r2), mirrored_kind(k));
    lemma_sorted_distinct(one);
    lemma_sorted_distinct(two);
    assert forall|x: Seq<char>| sort(one).contains(x) <==> sort(two).contains(x) by {
        lemma_list_members(r1, k, x);
        lemma_list_members(r2, mirrored_kind(k), x);
        reveal(mirrors);
        assert(mirror(key_record(k, x)) == key_record(mirrored_kind(k), x));
    }
    lemma_same_paths_same_list(sort(one), sort(two));
}

/// The buckets seen from the other side: old and new swapped in the changed
/// values and types, added for removed and removed for added.
pub open spec fn mirrored(b: Buckets) -> Buckets {
    Buckets {
        values_changed: swapped_pairs(b.values_changed),
        dictionary_item_added: b.dictionary_item_removed,
        dictionary_item_removed: b.dictionary_item_added,
        iterable_item_added: b.iterable_item_removed,
        iterable_item_removed: b.iterable_item_added,
        type_changes: swapped_pairs(b.type_changes),
    }
}

/// Swapping the two values mirrors the report: the report on `b` against `a`
/// is the report on `a` against `b` with every added key and item reported
/// as removed and every removed one as added, at the same paths, and with
/// the old and the new value swapped in every changed value and type.
///
/// This holds of well-formed values whose changes do not meet. Where two
/// changes meet on one path, the later one takes the place of the earlier,
/// and which is later depends on the order of the members: the objects
/// `{"x": {"y": 1}, "x']['y": 1}` and `{"x']['y": 3, "x": {"y": 2}}` have two
/// changed values under `root['x']['y']`, and the one that stays is not the
/// same after the swap.
pub proof fn lemma_swap_mirrors_report(a: ValueView, b: ValueView, o: OptionsView)
    requires
        well_formed(a),
        well_formed(b),
        paths_apart(a, b, o),
    ensures
        diff_report(b, a, o) == crate::engine::report(
            mirrored(apply_all(no_changes(), records(a, b, "root"@, o))),
            o.verbose_level,
        ),
{
    let r1 = records(a, b, "root"@, o);
    let r2 = records(b, a, "root"@, o);
    let one = apply_all(no_changes(), r1);
    let two = apply_all(no_changes(), r2);
    lemma_swap_mirrors_pairs(a, b, o);
    lemma_records_mirror(a, b, o);
    lemma_mirrored_list(r1, r2, Kind::KeyAdded);
    lemma_mirrored_list(r1, r2, Kind::KeyRemoved);
    assert(keys_of(swapped_pairs(one.values_changed)) =~= keys_of(one.values_changed));
    assert(crate::engine::report_members(two, o.verbose_level) == crate::engine::report_members(
        mirrored(one),
        o.verbose_level,
    ));
}

// ---------------------------------------------------------------------------
// The paths of a report
// ---------------------------------------------------------------------------

/// True when `path` stands in some bucket: as the path of a pair or in a
/// list of keys.
pub open spec fn reported(b: Buckets, path: Seq<char>) -> bool {
    ||| keys_of(b.values_changed).contains(path)
    ||| b.dictionary_item_added.contains(path)
    ||| b.dictionary_item_removed.contains(path)
    ||| keys_of(b.iterable_item_added).contains(path)
    ||| keys_of(b.iterable_item_removed).contains(path)
    ||| keys_of(b.type_changes).contains(path)
}

/// A pair that a bucket holds was given by some recorded change.
proof fn lemma_pair_was_recorded(rs: Seq<Record>, k: Kind, pair: (Seq<char>, ValueView))
    requires
        holds_pairs(k),
        pairs_in(apply_all(no_changes(), rs), k).contains(pair),
    ensures
        gives_pair(rs, k, pair),
    decreases rs.len(),
{
    if rs.len() == 0 {
        assert(pairs_in(no_changes(), k) =~= Seq::empty());
    } else {
        let shorter = rs.drop_last();
        let r = rs.last();
        let before = apply_all(no_changes(), shorter);
        let after = apply(before, r);
        lemma_contains_last(rs, r);
        if kind_of(r) == k {
            lemma_apply_all_keeps_order_from_nothing(shorter);
            assert(pairs_in(after, k) == put(pairs_in(before, k), path_of(r), detail_of(r)));
            lemma_put_contains(pairs_in(before, k), path_of(r), detail_of(r), pair);
        } else {
            assert(pairs_in(after, k) == pairs_in(before, k));
        }
        if pairs_in(before, k).contains(pair) {
            lemma_pair_was_recorded(shorter, k, pair);
            let w = choose|w: Record|
                #[trigger] shorter.contains(w) && kind_of(w) == k && entry_of(w) == pair;
            lemma_contains_last(rs, w);
            assert(rs.contains(w) && kind_of(w) == k && entry_of(w) == pair);
        } else {
            assert(rs.contains(r) && kind_of(r) == k && entry_of(r) == pair);
        }
    }
}

proof fn lemma_key_was_recorded(rs: Seq<Record>, k: Kind, path: Seq<char>)
    requires
        holds_pairs(k),
        keys_of(pairs_in(apply_all(no_changes(), rs), k)).contains(path),
    ensures
        exists|r: Record| #[trigger] rs.contains(r) && path_of(r) == path,
{
    let pairs = pairs_in(apply_all(no_changes(), rs), k);
    let i = choose|i: int| 0 <= i < keys_of(pairs).len() && keys_of(pairs)[i] == path;
    assert(pairs.contains(pairs[i]));
    lemma_pair_was_recorded(rs, k, pairs[i]);
    let w = choose|w: Record| #[trigger] rs.contains(w) && kind_of(w) == k && entry_of(w) == pairs[i];
    assert(rs.contains(w) && path_of(w) == path);
}

/// Every path that stands in a bucket is the path of a change that the walk
/// has recorded.
pub proof fn lemma_reported_was_recorded(rs: Seq<Record>, path: Seq<char>)
    requires
        reported(apply_all(no_changes(), rs), path),
    ensures
        exists|r: Record| #[trigger] rs.contains(r) && path_of(r) == path,
{
    let b = apply_all(no_changes(), rs);
    if keys_of(b.values_changed).contains(path) {
        lemma_key_was_recorded(rs, Kind::Changed, path);
    } else if keys_of(b.type_changes).contains(path) {
        lemma_key_was_recorded(rs, Kind::Typed, path);
    } else if keys_of(b.iterable_item_added).contains(path) {
        lemma_key_was_recorded(rs, Kind::ItemAdded, path);
    } else if keys_of(b.iterable_item_removed).contains(path) {
        lemma_key_was_recorded(rs, Kind::ItemRemoved, path);
    } else if b.dictionary_item_added.contains(path) {
        lemma_list_members(rs, Kind::KeyAdded, path);
        assert(rs.contains(key_record(Kind::KeyAdded, path)) && path_of(
            key_record(Kind::KeyAdded, path),
        ) == path);
    } else {
        lemma_list_members(rs, Kind::KeyRemoved, path);
        assert(rs.contains(key_record(Kind::KeyRemoved, path)) && path_of(
            key_record(Kind::KeyRemoved, path),
        ) == path);
    }
}

/// Every path of a report reads back: it is the canonical text of the path
/// that it is read as, and that path leads to a place in the first value or
/// in the second. The paths of a report are those of its buckets: the lists
/// of keys are written sorted and the changed values, at verbose level 0, as
/// the list of their paths. This holds of well-formed values in which no key
/// holds `']`.
pub proof fn lemma_reported_paths_read_back(a: ValueView, b: ValueView, o: OptionsView, path: Seq<char>)
    requires
        well_formed(a),
        well_formed(b),
        addressable(a),
        addressable(b),
        reported(apply_all(no_changes(), records(a, b, "root"@, o)), path),
    ensures
        exists|q: Seq<crate::path::SegmentView>|
            #![trigger crate::path::path_text(q)]
            crate::path::parse(path) == Some(q) && crate::path::path_text(q) == path && (
            crate::value::value_at(a, q) is Some || crate::value::value_at(b, q) is Some),
{
    let rs = records(a, b, "root"@, o);
    lemma_reported_was_recorded(rs, path);
    let r = choose|r: Record| #[trigger] rs.contains(r) && path_of(r) == path;
    crate::places::lemma_recorded_paths_read_back(a, b, o, r);
    lemma_recorded_paths_lead_to_values(a, b, o, r);
    let q1 = choose|q: Seq<crate::path::SegmentView>|
        #![trigger crate::path::path_text(q)]
        crate::path::path_text(q) == path_of(r) && crate::path::parse(path_of(r)) == Some(q);
    let q2 = choose|q: Seq<crate::path::SegmentView>|
        #![trigger found_at(a, b, q, r)]
        crate::path::parse(path_of(r)) == Some(q) && found_at(a, b, q, r);
    assert(q1 == q2);
    assert(crate::path::parse(path) == Some(q1) && crate::path::path_text(q1) == path && (
    crate::value::value_at(a, q1) is Some || crate::value::value_at(b, q1) is Some));
}

// ---------------------------------------------------------------------------
// The paths that a report names
// ---------------------------------------------------------------------------

/// True when a bucket of a report names `path`: as the key of one of its
/// entries, or as an item of its list of paths.
pub open spec fn names_path(bucket: ValueView, path: Seq<char>) -> bool {
    match bucket {
        ValueView::Object(entries) => keys_of(entries).contains(path),
        ValueView::Array(items) => items.contains(ValueView::String(path)),
        _ => false,
    }
}

/// True when some bucket of the report names `path`.
pub open spec fn report_names(report: ValueView, path: Seq<char>) -> bool {
    report matches ValueView::Object(members) && exists|i: int|
        0 <= i < members.len() && names_path((#[trigger] members[i]).1, path)
}

/// A path in the sorted list of some paths is one of the paths.
proof fn lemma_listed_path(paths: Seq<Seq<char>>, path: Seq<char>)
    requires
        crate::engine::path_list(sort(paths))->Array_0.contains(ValueView::String(path)),
    ensures
        paths.contains(path),
{
    broadcast use vstd::seq_lib::group_to_multiset_ensures;

    let items = crate::engine::path_list(sort(paths))->Array_0;
    let k = choose|k: int| 0 <= k < items.len() && items[k] == ValueView::String(path);
    assert(sort(paths)[k] == path);
    assert(sort(paths).contains(path));
    lemma_sort_sorted(paths);
    assert(sort(paths).to_multiset().count(path) > 0);
}

/// The six buckets as a report can hold them, by number.
spec fn bucket_content(b: Buckets, verbose_level: u8, k: int) -> ValueView {
    if k == 0 {
        crate::engine::changed_content(b.values_changed, verbose_level)
    } else if k == 1 {
        crate::engine::path_list(sort(b.dictionary_item_added))
    } else if k == 2 {
        crate::engine::path_list(sort(b.dictionary_item_removed))
    } else if k == 3 {
        ValueView::Object(b.iterable_item_added)
    } else if k == 4 {
        ValueView::Object(b.iterable_item_removed)
    } else {
        ValueView::Object(b.type_changes)
    }
}

/// Every member of a report holds one of the six buckets.
proof fn lemma_report_member(b: Buckets, verbose_level: u8, i: int)
    requires
        0 <= i < crate::engine::report_members(b, verbose_level).len(),
    ensures
        exists|k: int|
            0 <= k <= 5 && crate::engine::report_members(b, verbose_level)[i].1
                == #[trigger] bucket_content(b, verbose_level, k),
{
    let m0 = Seq::<(Seq<char>, ValueView)>::empty();
    let m1 = crate::engine::with_bucket(
        m0,
        "values_changed"@,
        b.values_changed.len(),
        bucket_content(b, verbose_level, 0),
    );
    let m2 = crate::engine::with_bucket(
        m1,
        "dictionary_item_added"@,
        b.dictionary_item_added.len(),
        bucket_content(b, verbose_level, 1),
    );
    let m3 = crate::engine::with_bucket(
        m2,
        "dictionary_item_removed"@,
        b.dictionary_item_removed.len(),
        bucket_content(b, verbose_level, 2),
    );
    let m4 = crate::engine::with_bucket(
        m3,
        "iterable_item_added"@,
        b.iterable_item_added.len(),
        bucket_content(b, verbose_level, 3),
    );
    let m5 = crate::engine::with_bucket(
        m4,
        "iterable_item_removed"@,
        b.iterable_item_removed.len(),
        bucket_content(b, verbose_level, 4),
    );
    let m6 = crate::engine::with_bucket(
        m5,
        "type_changes"@,
        b.type_changes.len(),
        bucket_content(b, verbose_level, 5),
    );
    assert(m6 == crate::engine::report_members(b, verbose_level));
    let v = m6[i].1;
    if i < m1.len() {
        assert(v == bucket_content(b, verbose_level, 0));
    } else if i < m2.len() {
        assert(v == bucket_content(b, verbose_level, 1));
    } else if i < m3.len() {
        assert(v == bucket_content(b, verbose_level, 2));
    } else if i < m4.len() {
        assert(v == bucket_content(b, verbose_level, 3));
    } else if i < m5.len() {
        assert(v == bucket_content(b, verbose_level, 4));
    } else {
        assert(v == bucket_content(b, verbose_level, 5));
    }
}

/// Every path that a report names stands in one of the buckets that the
/// report was made of.
pub proof fn lemma_named_is_reported(b: Buckets, verbose_level: u8, path: Seq<char>)
    requires
        report_names(crate::engine::report(b, verbose_level), path),
    ensures
        reported(b, path),
{
    let members = crate::engine::report_members(b, verbose_level);
    let i = choose|i: int| 0 <= i < members.len() && names_path((#[trigger] members[i]).1, path);
    lemma_report_member(b, verbose_level, i);
    let k = choose|k: int|
        0 <= k <= 5 && members[i].1 == #[trigger] bucket_content(b, verbose_level, k);
    if k == 0 {
        if verbose_level == 0 {
            lemma_listed_path(keys_of(b.values_changed), path);
        }
    } else if k == 1 {
        lemma_listed_path(b.dictionary_item_added, path);
    } else if k == 2 {
        lemma_listed_path(b.dictionary_item_removed, path);
    }
}

/// Every path that the report on two values names reads back: it is the
/// canonical text of the path that it is read as, and that path leads to a
/// place in the first value or in the second. This holds of well-formed
/// values in which no key holds `']`.
pub proof fn lemma_report_paths_read_back(a: ValueView, b: ValueView, o: OptionsView, path: Seq<char>)
    requires
        well_formed(a),
        well_formed(b),
        addressable(a),
        addressable(b),
        report_names(diff_report(a, b, o), path),
    ensures
        exists|q: Seq<crate::path::SegmentView>|
            #![trigger crate::path::path_text(q)]
            crate::path::parse(path) == Some(q) && crate::path::path_text(q) == path && (
            crate::value::value_at(a, q) is Some || crate::value::value_at(b, q) is Some),
{
    lemma_named_is_reported(
        apply_all(no_changes(), records(a, b, "root"@, o)),
        o.verbose_level,
        path,
    );
    lemma_reported_paths_read_back(a, b, o, path);
}

} // verus!
