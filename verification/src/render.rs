//! The rendering of a tree of changes as indented lines.

use crate::change::append_change_lines;
use crate::change::change_lines;
use crate::change::detail_view;
use crate::change::pick;
use crate::format::branch_indent;
use crate::format::format_node_line;
use crate::format::format_value;
use crate::format::indent_of;
use crate::format::node_line;
use crate::format::push_line;
use crate::format::shown;
use crate::options::PrettyOptions;
use crate::order::lex_lt;
use crate::order::text_lt;
use crate::path::PathSegment;
use crate::path::SegmentView;
use crate::path::clone_path;
use crate::path::compact_segments;
use crate::path::format_compact_segments;
use crate::path::format_index_label;
use crate::path::format_segment_label;
use crate::path::index_text;
use crate::path::segment_label;
use crate::path::segments_view;
use crate::policy::keys_of;
use crate::text::texts;
use crate::tree::NodeView;
use crate::tree::PrettyNode;
use crate::tree::find_child;
use crate::tree::lemma_children_view;
use crate::tree::well_shaped;
use crate::value::Value;
use crate::value::ValueView;
use crate::value::get_value_at_path;
use crate::value::group_value_views;
use crate::value::members_view;
use crate::value::value_at;
use vstd::prelude::*;

verus! {

// ---------------------------------------------------------------------------
// Stable order
// ---------------------------------------------------------------------------

/// Where the element `k` goes into `order`: behind the leading elements whose
/// keys do not come after its own.
pub open spec fn place(order: Seq<usize>, keys: Seq<Seq<char>>, k: int) -> int
    decreases order.len(),
{
    if order.len() == 0 {
        0
    } else if !lex_lt(keys[k], keys[order[0] as int]) {
        1 + place(order.skip(1), keys, k)
    } else {
        0
    }
}

/// The positions `0..n` in the dictionary order of their keys, positions with
/// equal keys in rising order.
pub open spec fn order_of(keys: Seq<Seq<char>>, n: int) -> Seq<usize>
    decreases n,
{
    if n <= 0 || n > keys.len() {
        Seq::empty()
    } else {
        let before = order_of(keys, n - 1);
        before.insert(place(before, keys, n - 1), (n - 1) as usize)
    }
}

/// The positions of `keys` in the dictionary order of the keys, positions with
/// equal keys in rising order.
#[verifier::loop_isolation(false)]
pub fn stable_order(keys: &Vec<String>) -> (r: Vec<usize>)
    ensures
        r@ == order_of(texts(keys@), keys.len() as int),
        r.len() == keys.len(),
        forall|i: int| 0 <= i < r.len() ==> (#[trigger] r@[i]) < keys.len(),
{
    let ghost ks = texts(keys@);
    let mut order: Vec<usize> = Vec::new();
    let mut n: usize = 0;
    while n < keys.len()
        invariant
            n <= keys.len(),
            order@ == order_of(ks, n as int),
            order.len() == n,
            forall|i: int| 0 <= i < order.len() ==> (#[trigger] order@[i]) < n,
        decreases keys.len() - n,
    {
        let ghost before = order@;
        let mut p: usize = 0;
        assert(before.skip(0) =~= before);
        while p < order.len() && !text_lt(keys[n].as_str(), keys[order[p]].as_str())
            invariant
                p <= order.len(),
                order@ == before,
                place(before, ks, n as int) == p + place(before.skip(p as int), ks, n as int),
            decreases order.len() - p,
        {
            assert(before.skip(p as int)[0] == before[p as int]);
            assert(before.skip(p as int).skip(1) =~= before.skip(p + 1));
            p += 1;
        }
        assert(p < order.len() ==> before.skip(p as int)[0] == before[p as int]);
        order.insert(p, n);
        assert forall|i: int| 0 <= i < order.len() implies (#[trigger] order@[i]) < n + 1 by {
            if i < p {
                assert(order@[i] == before[i]);
            } else if i > p {
                assert(order@[i] == before[i - 1]);
            }
        }
        n += 1;
    }
    order
}

// ---------------------------------------------------------------------------
// What is shown under a node
// ---------------------------------------------------------------------------

/// One line group under a node: a child, a mark for what is left out, or an
/// unchanged array item shown for context.
#[derive(Copy, Clone, Debug, PartialEq, Eq, Structural)]
pub enum RenderEntry {
    /// The child at this position among the children.
    Node(usize),
    Ellipsis,
    /// The array item at this index.
    ContextIndex(usize),
}

/// The entries laid out so far, and what the next one has to know.
pub struct Layout {
    pub entries: Seq<RenderEntry>,
    pub seen: bool,
    pub pending: bool,
}

/// The layout of the first `n` slots. A slot that shows something is laid
/// out; the slots between two such that show nothing become one ellipsis;
/// those before the first and after the last leave no trace.
pub open spec fn layout_state(slots: Seq<Option<RenderEntry>>, n: int) -> Layout
    decreases n,
{
    if n <= 0 || n > slots.len() {
        Layout { entries: Seq::empty(), seen: false, pending: false }
    } else {
        let st = layout_state(slots, n - 1);
        match slots[n - 1] {
            Some(e) => Layout {
                entries: (if st.pending {
                    st.entries.push(RenderEntry::Ellipsis)
                } else {
                    st.entries
                }).push(e),
                seen: true,
                pending: false,
            },
            None => Layout { entries: st.entries, seen: st.seen, pending: st.pending || st.seen },
        }
    }
}

/// The entries that the slots are laid out as.
pub open spec fn layout(slots: Seq<Option<RenderEntry>>) -> Seq<RenderEntry> {
    layout_state(slots, slots.len() as int).entries
}

/// True when every entry that names a child names one of the first `count`.
pub open spec fn entries_within(entries: Seq<RenderEntry>, count: int) -> bool {
    forall|i: int|
        0 <= i < entries.len() ==> (#[trigger] entries[i] matches RenderEntry::Node(c) ==> c < count)
}

/// True when every slot that names a child names one of the first `count`.
pub open spec fn slots_within(slots: Seq<Option<RenderEntry>>, count: int) -> bool {
    forall|i: int|
        0 <= i < slots.len() ==> (#[trigger] slots[i] matches Some(RenderEntry::Node(c)) ==> c
            < count)
}

/// Lays the slots out.
#[verifier::loop_isolation(false)]
fn lay_out(slots: &Vec<Option<RenderEntry>>, Ghost(count): Ghost<int>) -> (r: Vec<RenderEntry>)
    requires
        slots_within(slots@, count),
    ensures
        r@ == layout(slots@),
        entries_within(r@, count),
{
    let mut entries: Vec<RenderEntry> = Vec::new();
    let mut seen = false;
    let mut pending = false;
    let mut i: usize = 0;
    while i < slots.len()
        invariant
            i <= slots.len(),
            layout_state(slots@, i as int) == (Layout { entries: entries@, seen, pending }),
            entries_within(entries@, count),
        decreases slots.len() - i,
    {
        match slots[i] {
            Some(e) => {
                if pending {
                    entries.push(RenderEntry::Ellipsis);
                    pending = false;
                }
                entries.push(e);
                seen = true;
            },
            None => {
                if seen {
                    pending = true;
                }
            },
        }
        i += 1;
    }
    entries
}

/// `keys` with `key` added at the end, unless it is among them.
pub open spec fn with_key(keys: Seq<Seq<char>>, key: Seq<char>) -> Seq<Seq<char>> {
    if keys.contains(key) {
        keys
    } else {
        keys.push(key)
    }
}

/// `keys` with the first `n` of `more` added, each at its first occurrence.
pub open spec fn with_keys(keys: Seq<Seq<char>>, more: Seq<Seq<char>>, n: int) -> Seq<Seq<char>>
    decreases n,
{
    if n <= 0 || n > more.len() {
        keys
    } else {
        with_key(with_keys(keys, more, n - 1), more[n - 1])
    }
}

/// The keys of a value that is there and is an object; none otherwise.
pub open spec fn object_keys(v: Option<ValueView>) -> Seq<Seq<char>> {
    match v {
        Some(ValueView::Object(members)) => keys_of(members),
        _ => Seq::empty(),
    }
}

/// The keys of the second value, then those of the first that the second
/// lacks, in the order in which they are first seen; `None` when there is none.
pub open spec fn keys_union(v1: Option<ValueView>, v2: Option<ValueView>) -> Option<Seq<Seq<char>>> {
    let first = with_keys(Seq::empty(), object_keys(v2), object_keys(v2).len() as int);
    let all = with_keys(first, object_keys(v1), object_keys(v1).len() as int);
    if all.len() == 0 {
        None
    } else {
        Some(all)
    }
}

#[verifier::loop_isolation(false)]
fn holds_text(keys: &Vec<String>, key: &String) -> (r: bool)
    ensures
        r == texts(keys@).contains(key@),
{
    let mut i: usize = 0;
    while i < keys.len()
        invariant
            i <= keys.len(),
            forall|j: int| 0 <= j < i ==> texts(keys@)[j] != key@,
        decreases keys.len() - i,
    {
        if keys[i] == *key {
            assert(texts(keys@)[i as int] == key@);
            return true;
        }
        i += 1;
    }
    false
}

#[verifier::loop_isolation(false)]
fn add_keys(keys: &mut Vec<String>, v: Option<&Value>)
    ensures
        texts(final(keys)@) == with_keys(
            texts(old(keys)@),
            object_keys(detail_view(v)),
            object_keys(detail_view(v)).len() as int,
        ),
{
    broadcast use group_value_views;

    match v {
        Some(Value::Object(map)) => {
            let ghost more = keys_of(members_view(map@));
            let ghost start = texts(keys@);
            let mut i: usize = 0;
            while i < map.len()
                invariant
                    i <= map.len(),
                    texts(keys@) == with_keys(start, more, i as int),
                decreases map.len() - i,
            {
                let ghost before = texts(keys@);
                if !holds_text(keys, &map[i].0) {
                    keys.push(map[i].0.clone());
                    assert(texts(keys@) =~= before.push(map@[i as int].0@));
                }
                i += 1;
            }
        },
        _ => {},
    }
}

/// The keys of `v2`, then those of `v1` that `v2` lacks; `None` when neither
/// is an object with a key.
pub fn object_keys_union(v1: Option<&Value>, v2: Option<&Value>) -> (r: Option<Vec<String>>)
    ensures
        match r {
            Some(keys) => keys_union(detail_view(v1), detail_view(v2)) == Some(texts(keys@)),
            None => keys_union(detail_view(v1), detail_view(v2)) is None,
        },
{
    let mut keys: Vec<String> = Vec::new();
    assert(texts(keys@) =~= Seq::<Seq<char>>::empty());
    add_keys(&mut keys, v2);
    add_keys(&mut keys, v1);
    if keys.len() == 0 {
        None
    } else {
        Some(keys)
    }
}

/// The length of a value that is there and is an array; zero otherwise.
pub open spec fn array_length(v: Option<ValueView>) -> nat {
    match v {
        Some(ValueView::Array(items)) => items.len(),
        _ => 0,
    }
}

/// The greater of the lengths of two arrays; `None` when it is zero.
pub open spec fn length_union(v1: Option<ValueView>, v2: Option<ValueView>) -> Option<nat> {
    let len = if array_length(v1) >= array_length(v2) {
        array_length(v1)
    } else {
        array_length(v2)
    };
    if len == 0 {
        None
    } else {
        Some(len)
    }
}

/// The greater of the lengths of `v1` and `v2`, where they are arrays; `None`
/// when it is zero.
pub fn array_length_union(v1: Option<&Value>, v2: Option<&Value>) -> (r: Option<usize>)
    ensures
        match r {
            Some(len) => length_union(detail_view(v1), detail_view(v2)) == Some(len as nat),
            None => length_union(detail_view(v1), detail_view(v2)) is None,
        },
{
    broadcast use group_value_views;

    let len1 = match v1 {
        Some(Value::Array(list)) => list.len(),
        _ => 0,
    };
    let len2 = match v2 {
        Some(Value::Array(list)) => list.len(),
        _ => 0,
    };
    let len = if len1 >= len2 {
        len1
    } else {
        len2
    };
    if len == 0 {
        None
    } else {
        Some(len)
    }
}

/// What is shown for each key: the child that the key leads to, if there is one.
pub open spec fn key_slots(children: Seq<NodeView>, keys: Seq<Seq<char>>) -> Seq<Option<RenderEntry>> {
    Seq::new(
        keys.len(),
        |k: int|
            match find_child(children, SegmentView::Key(keys[k]), 0) {
                Some(i) => Some(RenderEntry::Node(i as usize)),
                None => None,
            },
    )
}

/// The first index of the window around the changed index `c`.
pub open spec fn window_start(c: usize, context: usize) -> int {
    if c >= context {
        c - context
    } else {
        0
    }
}

/// The last index of the window around the changed index `c`, in an array of
/// `len` items.
pub open spec fn window_end(c: usize, context: usize, len: usize) -> int {
    let far = if c + context > usize::MAX {
        usize::MAX as int
    } else {
        c + context
    };
    if far <= len - 1 {
        far
    } else {
        len - 1
    }
}

/// True when the child at `j` is an index whose window holds `idx`.
pub open spec fn in_window(children: Seq<NodeView>, j: int, context: usize, len: usize, idx: int) -> bool {
    children[j].segment matches Some(SegmentView::Index(c)) && window_start(c, context) <= idx
        <= window_end(c, context, len)
}

/// True when the array item at `idx` is shown: it is changed, or it lies
/// within `context` items of a changed one.
pub open spec fn displayed(children: Seq<NodeView>, context: usize, len: usize, idx: int) -> bool {
    exists|j: int| 0 <= j < children.len() && #[trigger] in_window(children, j, context, len, idx)
}

/// What is shown for each index of an array of `len` items: the child for a
/// changed item, the item itself for one shown as context.
pub open spec fn index_slots(children: Seq<NodeView>, len: usize, context: usize) -> Seq<
    Option<RenderEntry>,
> {
    Seq::new(
        len as nat,
        |idx: int|
            if displayed(children, context, len, idx) {
                Some(
                    match find_child(children, SegmentView::Index(idx as usize), 0) {
                        Some(i) => RenderEntry::Node(i as usize),
                        None => RenderEntry::ContextIndex(idx as usize),
                    },
                )
            } else {
                None
            },
    )
}

/// The label of a node in a tree; empty for a node without segment.
pub open spec fn label_of(node: NodeView) -> Seq<char> {
    match node.segment {
        Some(s) => segment_label(s),
        None => Seq::empty(),
    }
}

/// The labels of the children.
pub open spec fn labels_of(children: Seq<NodeView>) -> Seq<Seq<char>> {
    Seq::new(children.len(), |i: int| label_of(children[i]))
}

/// The children in the dictionary order of their labels.
pub open spec fn ordered_nodes(children: Seq<NodeView>) -> Seq<RenderEntry> {
    Seq::new(
        children.len(),
        |i: int| RenderEntry::Node(order_of(labels_of(children), children.len() as int)[i]),
    )
}

/// What is shown under a node whose place holds `v1` in the first value and
/// `v2` in the second: where one of them is an object with keys, the children
/// in the order of the keys; where one is an array with items, the children
/// and their context in the order of the indices; the children by label
/// where neither is.
pub open spec fn entries_for(
    node: NodeView,
    v1: Option<ValueView>,
    v2: Option<ValueView>,
    context: usize,
) -> Seq<RenderEntry> {
    match keys_union(v1, v2) {
        Some(keys) => layout(key_slots(node.children, keys)),
        None => match length_union(v1, v2) {
            Some(len) => layout(index_slots(node.children, len as usize, context)),
            None => ordered_nodes(node.children),
        },
    }
}

/// The slots of the keys `keys` under `node`.
#[verifier::loop_isolation(false)]
fn slots_of_keys(node: &PrettyNode, keys: Vec<String>) -> (r: Vec<Option<RenderEntry>>)
    ensures
        r@ == key_slots(node@.children, texts(keys@)),
        slots_within(r@, node.children.len() as int),
{
    let mut slots: Vec<Option<RenderEntry>> = Vec::new();
    let ghost want = key_slots(node@.children, texts(keys@));
    let mut keys = keys;
    let ghost all = texts(keys@);
    let mut k: usize = 0;
    while k < keys.len()
        invariant
            k <= keys.len(),
            texts(keys@) == all,
            slots@.len() == k,
            forall|j: int| 0 <= j < k ==> #[trigger] slots@[j] == want[j],
            slots_within(slots@, node.children.len() as int),
        decreases keys.len() - k,
    {
        let segment = PathSegment::Key(keys[k].clone());
        assert(segment@ == SegmentView::Key(all[k as int]));
        match node.child_position(&segment) {
            Some(i) => {
                slots.push(Some(RenderEntry::Node(i)));
            },
            None => {
                slots.push(None);
            },
        }
        k += 1;
    }
    assert(slots@ =~= want);
    slots
}

/// For each index below `len`, whether the item is shown.
#[verifier::loop_isolation(false)]
fn shown_indices(node: &PrettyNode, len: usize, context: usize) -> (r: Vec<bool>)
    requires
        len > 0,
    ensures
        r.len() == len,
        forall|idx: int|
            0 <= idx < len ==> #[trigger] r@[idx] == displayed(node@.children, context, len, idx),
{
    broadcast use lemma_children_view;

    let ghost children = node@.children;
    let mut flags: Vec<bool> = Vec::new();
    let mut n: usize = 0;
    while n < len
        invariant
            n <= len,
            flags.len() == n,
            forall|idx: int| 0 <= idx < n ==> !(#[trigger] flags@[idx]),
        decreases len - n,
    {
        flags.push(false);
        n += 1;
    }
    let mut j: usize = 0;
    while j < node.children.len()
        invariant
            j <= node.children.len(),
            flags.len() == len,
            forall|idx: int|
                0 <= idx < len ==> (#[trigger] flags@[idx] <==> exists|q: int|
                    0 <= q < j && #[trigger] in_window(children, q, context, len, idx)),
        decreases node.children.len() - j,
    {
        let ghost before = flags@;
        assert(children[j as int] == node.children@[j as int]@);
        match &node.children[j].segment {
            Some(PathSegment::Index(c)) => {
                let start = c.saturating_sub(context);
                let far = c.saturating_add(context);
                let end = if far <= len - 1 {
                    far
                } else {
                    len - 1
                };
                assert(start as int == window_start(*c, context));
                assert(end as int == window_end(*c, context, len));
                let mut i = start;
                while i <= end
                    invariant
                        start <= i,
                        end < len,
                        flags.len() == len,
                        forall|idx: int|
                            0 <= idx < len ==> (#[trigger] flags@[idx] <==> (before[idx] || (start
                                <= idx < i && idx <= end))),
                    decreases end + 1 - i,
                {
                    flags.set(i, true);
                    i += 1;
                }
                assert forall|idx: int| 0 <= idx < len implies (#[trigger] flags@[idx] <==> exists|
                    q: int,
                |
                    0 <= q < j + 1 && #[trigger] in_window(children, q, context, len, idx)) by {
                    if flags@[idx] {
                        if before[idx] {
                            let q = choose|q: int|
                                0 <= q < j && #[trigger] in_window(children, q, context, len, idx);
                            assert(0 <= q < j + 1 && in_window(children, q, context, len, idx));
                        } else {
                            assert(in_window(children, j as int, context, len, idx));
                        }
                    }
                    if exists|q: int|
                        0 <= q < j + 1 && #[trigger] in_window(children, q, context, len, idx) {
                        let q = choose|q: int|
                            0 <= q < j + 1 && #[trigger] in_window(children, q, context, len, idx);
                        if q < j {
                            assert(before[idx]);
                        }
                    }
                }
            },
            _ => {
                assert forall|idx: int| 0 <= idx < len implies (#[trigger] flags@[idx] <==> exists|
                    q: int,
                |
                    0 <= q < j + 1 && #[trigger] in_window(children, q, context, len, idx)) by {
                    if flags@[idx] {
                        let q = choose|q: int|
                            0 <= q < j && #[trigger] in_window(children, q, context, len, idx);
                        assert(0 <= q < j + 1 && in_window(children, q, context, len, idx));
                    }
                    if exists|q: int|
                        0 <= q < j + 1 && #[trigger] in_window(children, q, context, len, idx) {
                        let q = choose|q: int|
                            0 <= q < j + 1 && #[trigger] in_window(children, q, context, len, idx);
                        assert(q < j);
                    }
                }
            },
        }
        j += 1;
    }
    flags
}

/// The slots of the indices of an array of `len` items under `node`.
#[verifier::loop_isolation(false)]
fn slots_of_indices(node: &PrettyNode, len: usize, context: usize) -> (r: Vec<Option<RenderEntry>>)
    requires
        len > 0,
    ensures
        r@ == index_slots(node@.children, len, context),
        slots_within(r@, node.children.len() as int),
{
    let flags = shown_indices(node, len, context);
    let ghost want = index_slots(node@.children, len, context);
    let mut slots: Vec<Option<RenderEntry>> = Vec::new();
    let mut idx: usize = 0;
    while idx < len
        invariant
            idx <= len,
            slots@.len() == idx,
            forall|j: int| 0 <= j < idx ==> #[trigger] slots@[j] == want[j],
            slots_within(slots@, node.children.len() as int),
        decreases len - idx,
    {
        if flags[idx] {
            let segment = PathSegment::Index(idx);
            match node.child_position(&segment) {
                Some(i) => {
                    slots.push(Some(RenderEntry::Node(i)));
                },
                None => {
                    slots.push(Some(RenderEntry::ContextIndex(idx)));
                },
            }
        } else {
            slots.push(None);
        }
        idx += 1;
    }
    assert(slots@ =~= want);
    slots
}

/// The children of `node` in the dictionary order of their labels.
#[verifier::loop_isolation(false)]
fn nodes_by_label(node: &PrettyNode) -> (r: Vec<RenderEntry>)
    requires
        well_shaped(node@),
    ensures
        r@ == ordered_nodes(node@.children),
        entries_within(r@, node.children.len() as int),
{
    broadcast use lemma_children_view;

    let mut labels: Vec<String> = Vec::new();
    let mut i: usize = 0;
    while i < node.children.len()
        invariant
            i <= node.children.len(),
            labels@.len() == i,
            forall|j: int| 0 <= j < i ==> (#[trigger] labels@[j])@ == label_of(node@.children[j]),
        decreases node.children.len() - i,
    {
        assert(node@.children[i as int] == node.children@[i as int]@);
        match &node.children[i].segment {
            Some(s) => {
                labels.push(format_segment_label(s));
            },
            None => {
                labels.push(String::new());
            },
        }
        i += 1;
    }
    assert(texts(labels@) =~= labels_of(node@.children));
    let order = stable_order(&labels);
    let mut entries: Vec<RenderEntry> = Vec::new();
    let mut k: usize = 0;
    while k < order.len()
        invariant
            k <= order.len(),
            entries@.len() == k,
            forall|j: int| 0 <= j < k ==> #[trigger] entries@[j] == RenderEntry::Node(order@[j]),
        decreases order.len() - k,
    {
        entries.push(RenderEntry::Node(order[k]));
        k += 1;
    }
    assert(entries@ =~= ordered_nodes(node@.children));
    entries
}

// ---------------------------------------------------------------------------
// The lines
// ---------------------------------------------------------------------------

/// The two values that were compared and how their difference is rendered.
pub struct RenderEnv<'a> {
    pub t1: &'a Value,
    pub t2: &'a Value,
    pub options: &'a PrettyOptions,
}

/// The mathematical view of a [`RenderEnv`].
pub struct Scene {
    pub t1: ValueView,
    pub t2: ValueView,
    pub options: PrettyOptions,
}

impl<'a> View for RenderEnv<'a> {
    type V = Scene;

    open spec fn view(&self) -> Scene {
        Scene { t1: self.t1@, t2: self.t2@, options: *self.options }
    }
}

/// The lines of an unchanged array item shown for context: its index, and
/// under it the item after an equals sign, taken from the second value where
/// it has the item, else from the first.
pub open spec fn context_lines(
    depth: int,
    branches: Seq<bool>,
    is_last: bool,
    parent_path: Seq<SegmentView>,
    idx: usize,
    s: Scene,
) -> Seq<Seq<char>> {
    let path = parent_path.push(SegmentView::Index(idx));
    seq![
        node_line(depth == 0, branches, is_last, index_text(idx)),
        indent_of(depth == 0, branches, !is_last) + "= "@ + shown(
            pick(value_at(s.t2, path), value_at(s.t1, path)),
        ),
    ]
}

/// The lines of what is shown under `node`, which stands at `path`; the
/// entries are written at `depth`.
pub open spec fn children_lines(
    node: NodeView,
    depth: int,
    branches: Seq<bool>,
    path: Seq<SegmentView>,
    s: Scene,
) -> Seq<Seq<char>>
    decreases node, 3nat, 0nat,
{
    if node.children.len() == 0 {
        Seq::empty()
    } else {
        let entries = entries_for(node, value_at(s.t1, path), value_at(s.t2, path), s.options.context);
        entries_lines(node, entries, entries.len() as int, depth, branches, path, s)
    }
}

/// The lines of the first `n` of `entries` under `node`.
pub open spec fn entries_lines(
    node: NodeView,
    entries: Seq<RenderEntry>,
    n: int,
    depth: int,
    branches: Seq<bool>,
    path: Seq<SegmentView>,
    s: Scene,
) -> Seq<Seq<char>>
    decreases node, 2nat, n,
{
    if n <= 0 || n > entries.len() {
        Seq::empty()
    } else {
        let is_last = n == entries.len();
        entries_lines(node, entries, n - 1, depth, branches, path, s) + (match entries[n - 1] {
            RenderEntry::Node(i) => if i < node.children.len() {
                node_lines(node.children[i as int], depth, is_last, branches, path, s)
            } else {
                Seq::empty()
            },
            RenderEntry::Ellipsis => seq![node_line(depth == 0, branches, is_last, "..."@)],
            RenderEntry::ContextIndex(idx) => context_lines(depth, branches, is_last, path, idx, s),
        })
    }
}

/// The lines of `node` and of what lies under it. With compaction, a chain of
/// nodes that have one child and no change is written as one label.
pub open spec fn node_lines(
    node: NodeView,
    depth: int,
    is_last: bool,
    branches: Seq<bool>,
    parent_path: Seq<SegmentView>,
    s: Scene,
) -> Seq<Seq<char>>
    decreases node, 6nat, 0nat,
{
    match node.segment {
        None => Seq::empty(),
        Some(segment) => if s.options.compact {
            chain_lines(node, Seq::empty(), depth, is_last, branches, parent_path, s)
        } else {
            target_lines(
                node,
                segment_label(segment),
                depth,
                is_last,
                branches,
                parent_path.push(segment),
                s,
            )
        },
    }
}

/// The lines of the chain that begins at `node`, the segments `parts` of the
/// chain having been passed already.
pub open spec fn chain_lines(
    node: NodeView,
    parts: Seq<SegmentView>,
    depth: int,
    is_last: bool,
    branches: Seq<bool>,
    parent_path: Seq<SegmentView>,
    s: Scene,
) -> Seq<Seq<char>>
    decreases node, 5nat, 0nat,
{
    let passed = match node.segment {
        Some(segment) => parts.push(segment),
        None => parts,
    };
    if node.change is None && node.children.len() == 1 {
        chain_lines(node.children[0], passed, depth, is_last, branches, parent_path, s)
    } else {
        target_lines(
            node,
            compact_segments(passed),
            depth,
            is_last,
            branches,
            parent_path + passed,
            s,
        )
    }
}

/// The branches for what lies under a node at `depth`.
pub open spec fn branches_below(depth: int, branches: Seq<bool>, is_last: bool) -> Seq<bool> {
    if depth > 0 {
        branches.push(!is_last)
    } else {
        branches
    }
}

/// The line of `node` under `label`, the lines of its change, and what lies
/// under it: its children one level deeper, or one ellipsis where `depth` has
/// reached the greatest depth and there are children.
pub open spec fn target_lines(
    node: NodeView,
    label: Seq<char>,
    depth: int,
    is_last: bool,
    branches: Seq<bool>,
    node_path: Seq<SegmentView>,
    s: Scene,
) -> Seq<Seq<char>>
    decreases node, 4nat, 0nat,
{
    let below = branches_below(depth, branches, is_last);
    seq![node_line(depth == 0, branches, is_last, label)] + (match node.change {
        Some(c) => change_lines(depth == 0, branches, !is_last, c, s.options.no_color),
        None => Seq::empty(),
    }) + (if depth >= s.options.max_depth {
        if node.children.len() > 0 {
            seq![node_line(false, below, true, "..."@)]
        } else {
            Seq::empty()
        }
    } else {
        children_lines(node, depth + 1, below, node_path, s)
    })
}

/// Adds to `lines` the lines of an unchanged array item shown for context.
pub fn render_context_item(
    depth: usize,
    branches: &[bool],
    is_last: bool,
    parent_path: &[PathSegment],
    idx: usize,
    env: &RenderEnv<'_>,
    lines: &mut Vec<String>,
)
    ensures
        texts(final(lines)@) == texts(old(lines)@) + context_lines(
            depth as int,
            branches@,
            is_last,
            segments_view(parent_path@),
            idx,
            env@,
        ),
{
    let ghost before = texts(lines@);
    let label = format_index_label(idx);
    push_line(lines, format_node_line(depth, branches, is_last, label.as_str()));
    let path = crate::path::append(parent_path, &PathSegment::Index(idx));
    let second = get_value_at_path(env.t2, &path);
    let first = get_value_at_path(env.t1, &path);
    let value = match second {
        Some(v) => v.clone(),
        None => match first {
            Some(v) => v.clone(),
            None => Value::Null,
        },
    };
    let mut line = branch_indent(depth, branches, !is_last);
    line.append("= ");
    line.append(format_value(&value).as_str());
    push_line(lines, line);
    assert(texts(lines@) =~= before + context_lines(
        depth as int,
        branches@,
        is_last,
        segments_view(parent_path@),
        idx,
        env@,
    ));
}

/// Adds to `lines` the lines of what is shown under `node`.
pub fn render_children(
    node: &PrettyNode,
    depth: usize,
    branches: &[bool],
    path: &[PathSegment],
    env: &RenderEnv<'_>,
    lines: &mut Vec<String>,
)
    requires
        well_shaped(node@),
    ensures
        texts(final(lines)@) == texts(old(lines)@) + children_lines(
            node@,
            depth as int,
            branches@,
            segments_view(path@),
            env@,
        ),
    decreases node, 3nat, 0nat,
{
    broadcast use lemma_children_view;

    if node.children.len() == 0 {
        assert(texts(lines@) + Seq::<Seq<char>>::empty() =~= texts(lines@));
        return;
    }
    let v1 = get_value_at_path(env.t1, path);
    let v2 = get_value_at_path(env.t2, path);
    let entries = match object_keys_union(v1, v2) {
        Some(keys) => {
            let slots = slots_of_keys(node, keys);
            lay_out(&slots, Ghost(node.children.len() as int))
        },
        None => match array_length_union(v1, v2) {
            Some(len) => {
                let slots = slots_of_indices(node, len, env.options.context);
                lay_out(&slots, Ghost(node.children.len() as int))
            },
            None => nodes_by_label(node),
        },
    };
    render_entries(node, entries, depth, branches, path, env, lines);
}

/// Adds to `lines` the lines of `entries` under `node`.
#[verifier::loop_isolation(false)]
pub fn render_entries(
    node: &PrettyNode,
    entries: Vec<RenderEntry>,
    depth: usize,
    branches: &[bool],
    path: &[PathSegment],
    env: &RenderEnv<'_>,
    lines: &mut Vec<String>,
)
    requires
        well_shaped(node@),
        entries_within(entries@, node.children.len() as int),
    ensures
        texts(final(lines)@) == texts(old(lines)@) + entries_lines(
            node@,
            entries@,
            entries.len() as int,
            depth as int,
            branches@,
            segments_view(path@),
            env@,
        ),
    decreases node, 2nat, entries.len(),
{
    broadcast use lemma_children_view;

    let ghost before = texts(lines@);
    let ghost p = segments_view(path@);
    let len = entries.len();
    let mut idx: usize = 0;
    assert(before + Seq::<Seq<char>>::empty() =~= before);
    while idx < len
        invariant
            idx <= len,
            len == entries.len(),
            texts(lines@) == before + entries_lines(
                node@,
                entries@,
                idx as int,
                depth as int,
                branches@,
                p,
                env@,
            ),
        decreases len - idx,
    {
        let is_last = idx + 1 == len;
        let ghost sofar = entries_lines(node@, entries@, idx as int, depth as int, branches@, p, env@);
        let ghost now = texts(lines@);
        match entries[idx] {
            RenderEntry::Node(i) => {
                assert(node@.children[i as int] == node.children@[i as int]@);
                render_node(&node.children[i], depth, is_last, branches, path, env, lines);
                assert(before + sofar + node_lines(
                    node@.children[i as int],
                    depth as int,
                    is_last,
                    branches@,
                    p,
                    env@,
                ) =~= before + entries_lines(
                    node@,
                    entries@,
                    idx + 1,
                    depth as int,
                    branches@,
                    p,
                    env@,
                ));
            },
            RenderEntry::Ellipsis => {
                push_line(lines, format_node_line(depth, branches, is_last, "..."));
                assert(now.push(node_line(depth == 0, branches@, is_last, "..."@)) =~= before
                    + entries_lines(node@, entries@, idx + 1, depth as int, branches@, p, env@));
            },
            RenderEntry::ContextIndex(item_idx) => {
                render_context_item(depth, branches, is_last, path, item_idx, env, lines);
                assert(before + sofar + context_lines(
                    depth as int,
                    branches@,
                    is_last,
                    p,
                    item_idx,
                    env@,
                ) =~= before + entries_lines(
                    node@,
                    entries@,
                    idx + 1,
                    depth as int,
                    branches@,
                    p,
                    env@,
                ));
            },
        }
        idx += 1;
    }
}

/// The segment of a node, as a sequence: empty for a node without one.
pub open spec fn own_segment(node: NodeView) -> Seq<SegmentView> {
    match node.segment {
        Some(segment) => seq![segment],
        None => Seq::empty(),
    }
}

/// True when `node` is a link of a chain: it has no change and one child.
pub open spec fn is_link(node: NodeView) -> bool {
    node.change is None && node.children.len() == 1
}

/// The node at the end of the chain that begins at `node`: the first that
/// has a change or does not have exactly one child.
pub open spec fn chain_end(node: NodeView) -> NodeView
    decreases node,
{
    if is_link(node) {
        chain_end(node.children[0])
    } else {
        node
    }
}

/// The segments of the chain that follow that of `node`.
pub open spec fn chain_rest(node: NodeView) -> Seq<SegmentView>
    decreases node,
{
    if is_link(node) {
        own_segment(node.children[0]) + chain_rest(node.children[0])
    } else {
        Seq::empty()
    }
}

/// The segments of the chain that begins at `node`, its own first.
pub open spec fn chain_parts(node: NodeView) -> Seq<SegmentView> {
    own_segment(node) + chain_rest(node)
}

/// The lines of a chain are those of its end under the compact label of the
/// whole chain.
pub proof fn lemma_chain_lines(
    node: NodeView,
    parts: Seq<SegmentView>,
    depth: int,
    is_last: bool,
    branches: Seq<bool>,
    parent_path: Seq<SegmentView>,
    s: Scene,
)
    ensures
        chain_lines(node, parts, depth, is_last, branches, parent_path, s) == target_lines(
            chain_end(node),
            compact_segments(parts + chain_parts(node)),
            depth,
            is_last,
            branches,
            parent_path + (parts + chain_parts(node)),
            s,
        ),
    decreases node,
{
    let passed = match node.segment {
        Some(segment) => parts.push(segment),
        None => parts,
    };
    assert(passed =~= parts + own_segment(node));
    if is_link(node) {
        lemma_chain_lines(node.children[0], passed, depth, is_last, branches, parent_path, s);
        assert(passed + chain_parts(node.children[0]) =~= parts + chain_parts(node));
    } else {
        assert(passed =~= parts + chain_parts(node));
    }
}

/// Follows the chain that begins at `node` to its end. The result is the
/// compact label of the chain, the node at its end, and the path of that node.
pub fn compress_node<'a>(node: &'a PrettyNode, parent_path: &[PathSegment]) -> (r: (
    String,
    &'a PrettyNode,
    Vec<PathSegment>,
))
    ensures
        r.0@ == compact_segments(chain_parts(node@)),
        r.1@ == chain_end(node@),
        segments_view(r.2@) == segments_view(parent_path@) + chain_parts(node@),
        r.1 == node || decreases_to!(node => r.1),
        well_shaped(node@) ==> well_shaped(r.1@),
{
    broadcast use lemma_children_view;

    let mut parts: Vec<PathSegment> = Vec::new();
    let mut current = node;
    let mut path = clone_path(parent_path);
    let ghost base = segments_view(parent_path@);
    assert(segments_view(parts@) =~= Seq::<SegmentView>::empty());

    match &current.segment {
        Some(segment) => {
            parts.push(segment.clone());
            path.push(segment.clone());
        },
        None => {},
    }
    assert(segments_view(parts@) =~= own_segment(node@));
    assert(segments_view(path@) =~= base + own_segment(node@));

    while current.change.is_none() && current.children.len() == 1
        invariant
            chain_end(node@) == chain_end(current@),
            chain_parts(node@) == segments_view(parts@) + chain_rest(current@),
            segments_view(path@) == base + segments_view(parts@),
            current == node || decreases_to!(node => current),
            well_shaped(node@) ==> well_shaped(current@),
        decreases current,
    {
        let child = &current.children[0];
        let ghost parts_before = segments_view(parts@);
        let ghost path_before = segments_view(path@);
        assert(current@.children[0] == child@);
        match &child.segment {
            Some(segment) => {
                parts.push(segment.clone());
                path.push(segment.clone());
            },
            None => {},
        }
        assert(segments_view(parts@) =~= parts_before + own_segment(child@));
        assert(segments_view(path@) =~= path_before + own_segment(child@));
        assert(parts_before + chain_rest(current@) =~= segments_view(parts@) + chain_rest(child@));
        assert(base + segments_view(parts@) =~= path_before + own_segment(child@));
        current = child;
    }
    assert(segments_view(parts@) + chain_rest(current@) =~= segments_view(parts@));
    (format_compact_segments(&parts), current, path)
}

/// Adds to `lines` the lines of `node` and of what lies under it.
pub fn render_node(
    node: &PrettyNode,
    depth: usize,
    is_last: bool,
    branches: &[bool],
    parent_path: &[PathSegment],
    env: &RenderEnv<'_>,
    lines: &mut Vec<String>,
)
    requires
        node@.segment is Some,
        well_shaped(node@),
    ensures
        texts(final(lines)@) == texts(old(lines)@) + node_lines(
            node@,
            depth as int,
            is_last,
            branches@,
            segments_view(parent_path@),
            env@,
        ),
    decreases node, 6nat, 0nat,
{
    broadcast use lemma_children_view;

    let ghost parent = segments_view(parent_path@);
    let (label, node_ref, node_path) = if env.options.compact {
        proof {
            lemma_chain_lines(
                node@,
                Seq::empty(),
                depth as int,
                is_last,
                branches@,
                parent,
                env@,
            );
            assert(Seq::<SegmentView>::empty() + chain_parts(node@) =~= chain_parts(node@));
        }
        compress_node(node, parent_path)
    } else {
        match &node.segment {
            Some(segment) => {
                (format_segment_label(segment), node, crate::path::append(parent_path, segment))
            },
            None => {
                return;
            },
        }
    };
    render_target(
        node_ref,
        label.as_str(),
        depth,
        is_last,
        branches,
        node_path.as_slice(),
        env,
        lines,
    );
}

/// Adds to `lines` the line of `node` under `label`, the lines of its change
/// and what lies under it.
fn render_target(
    node: &PrettyNode,
    label: &str,
    depth: usize,
    is_last: bool,
    branches: &[bool],
    node_path: &[PathSegment],
    env: &RenderEnv<'_>,
    lines: &mut Vec<String>,
)
    requires
        well_shaped(node@),
    ensures
        texts(final(lines)@) == texts(old(lines)@) + target_lines(
            node@,
            label@,
            depth as int,
            is_last,
            branches@,
            segments_view(node_path@),
            env@,
        ),
    decreases node, 4nat, 0nat,
{
    broadcast use lemma_children_view;

    let ghost before = texts(lines@);
    let ghost first = seq![node_line(depth == 0, branches@, is_last, label@)];
    let ghost second = match node@.change {
        Some(c) => change_lines(depth == 0, branches@, !is_last, c, env@.options.no_color),
        None => Seq::<Seq<char>>::empty(),
    };

    push_line(lines, format_node_line(depth, branches, is_last, label));

    match &node.change {
        Some(change) => {
            append_change_lines(lines, depth, branches, !is_last, change, env.options);
        },
        None => {},
    }
    assert(texts(lines@) =~= before + first + second);

    let mut child_branches = vstd::slice::slice_to_vec(branches);
    if depth > 0 {
        child_branches.push(!is_last);
    }
    assert(child_branches@ =~= branches_below(depth as int, branches@, is_last));

    if depth >= env.options.max_depth {
        if node.children.len() > 0 {
            push_line(
                lines,
                format_node_line(depth.saturating_add(1), child_branches.as_slice(), true, "..."),
            );
            assert(texts(lines@) =~= before + (first + second + seq![
                node_line(false, child_branches@, true, "..."@),
            ]));
        } else {
            assert(texts(lines@) =~= before + (first + second + Seq::<Seq<char>>::empty()));
        }
        return;
    }

    render_children(node, depth + 1, child_branches.as_slice(), node_path, env, lines);
    assert(texts(lines@) =~= before + (first + second + children_lines(
        node@,
        depth + 1,
        child_branches@,
        segments_view(node_path@),
        env@,
    )));
}

} // verus!
