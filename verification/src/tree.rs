//! The tree of changes: one node for each segment on the way to a change.

use crate::change::ChangeEntry;
use crate::change::ChangeEntryView;
use crate::change::ChangeKind;
use crate::change::ChangeKindView;
use crate::change::entries_view;
use crate::path::PathSegment;
use crate::path::SegmentView;
use crate::path::segments_view;
use vstd::prelude::*;

verus! {

/// A node of the tree: the segment that leads to it (none for the root), its
/// children in the order in which they came, and the change at its place, if any.
#[derive(Debug)]
pub struct PrettyNode {
    pub segment: Option<PathSegment>,
    pub children: Vec<PrettyNode>,
    pub change: Option<ChangeKind>,
}

/// The mathematical view of a [`PrettyNode`].
pub struct NodeView {
    pub segment: Option<SegmentView>,
    pub children: Seq<NodeView>,
    pub change: Option<ChangeKindView>,
}

/// The view of a segment that may be missing.
pub open spec fn segment_view(s: Option<PathSegment>) -> Option<SegmentView> {
    match s {
        Some(x) => Some(x@),
        None => None,
    }
}

/// The view of a change that may be missing.
pub open spec fn change_view(c: Option<ChangeKind>) -> Option<ChangeKindView> {
    match c {
        Some(x) => Some(x@),
        None => None,
    }
}

/// The view of a node: the same tree over views.
pub open spec fn node_view(n: PrettyNode) -> NodeView
    decreases n,
{
    NodeView {
        segment: segment_view(n.segment),
        children: Seq::new(
            n.children@.len(),
            |i: int|
                if 0 <= i < n.children@.len() {
                    node_view(n.children@[i])
                } else {
                    NodeView { segment: None, children: Seq::empty(), change: None }
                },
        ),
        change: change_view(n.change),
    }
}

impl View for PrettyNode {
    type V = NodeView;

    open spec fn view(&self) -> NodeView {
        node_view(*self)
    }
}

/// The views of a sequence of nodes.
pub open spec fn nodes_view(v: Seq<PrettyNode>) -> Seq<NodeView> {
    Seq::new(v.len(), |i: int| v[i]@)
}

/// The children of the view of a node are the views of its children.
pub broadcast proof fn lemma_children_view(n: PrettyNode)
    ensures
        #![trigger n@]
        n@.children == nodes_view(n.children@),
        n@.segment == segment_view(n.segment),
        n@.change == change_view(n.change),
{
    assert(n@.children =~= nodes_view(n.children@));
}

/// The node without children or change.
pub open spec fn bare(segment: Option<SegmentView>) -> NodeView {
    NodeView { segment, children: Seq::empty(), change: None }
}

/// The first position at or after `from` of a child that `segment` leads to, if any.
pub open spec fn find_child(children: Seq<NodeView>, segment: SegmentView, from: int) -> Option<int>
    decreases children.len() - from,
{
    if from < 0 || from >= children.len() {
        None
    } else if children[from].segment == Some(segment) {
        Some(from)
    } else {
        find_child(children, segment, from + 1)
    }
}

/// A found child lies within the children and is the one that the segment
/// leads to; where none is found, the segment leads to none.
pub proof fn lemma_find_child(children: Seq<NodeView>, segment: SegmentView, from: int)
    requires
        0 <= from,
    ensures
        find_child(children, segment, from) matches Some(i) ==> from <= i < children.len()
            && children[i].segment == Some(segment),
        find_child(children, segment, from) is None ==> forall|i: int|
            from <= i < children.len() ==> (#[trigger] children[i]).segment != Some(segment),
    decreases children.len() - from,
{
    if from < children.len() && children[from].segment != Some(segment) {
        lemma_find_child(children, segment, from + 1);
    }
}

/// The tree with `kind` put at the end of the way that `segments` describe
/// from `node`: the way goes through the child that each segment leads to,
/// and a child that is missing is added last.
pub open spec fn with_change(node: NodeView, segments: Seq<SegmentView>, kind: ChangeKindView) -> NodeView
    decreases segments.len(),
{
    if segments.len() == 0 {
        NodeView { change: Some(kind), ..node }
    } else {
        match find_child(node.children, segments[0], 0) {
            Some(i) => NodeView {
                children: node.children.update(
                    i,
                    with_change(node.children[i], segments.skip(1), kind),
                ),
                ..node
            },
            None => NodeView {
                children: node.children.push(
                    with_change(bare(Some(segments[0])), segments.skip(1), kind),
                ),
                ..node
            },
        }
    }
}

/// The tree of the first `n` changes.
pub open spec fn tree_of(changes: Seq<ChangeEntryView>, n: int) -> NodeView
    decreases n,
{
    if n <= 0 || n > changes.len() {
        bare(None)
    } else {
        with_change(tree_of(changes, n - 1), changes[n - 1].segments, changes[n - 1].kind)
    }
}

/// True when every node below `node` has a segment.
pub open spec fn well_shaped(node: NodeView) -> bool
    decreases node,
{
    forall|i: int|
        0 <= i < node.children.len() ==> (#[trigger] node.children[i]).segment is Some
            && well_shaped(node.children[i])
}

/// Putting a change into a well-shaped tree keeps it well-shaped.
pub proof fn lemma_with_change_shaped(node: NodeView, segments: Seq<SegmentView>, kind: ChangeKindView)
    requires
        well_shaped(node),
    ensures
        well_shaped(with_change(node, segments, kind)),
        with_change(node, segments, kind).segment == node.segment,
    decreases segments.len(),
{
    if segments.len() > 0 {
        lemma_find_child(node.children, segments[0], 0);
        let r = with_change(node, segments, kind);
        match find_child(node.children, segments[0], 0) {
            Some(i) => {
                lemma_with_change_shaped(node.children[i], segments.skip(1), kind);
                assert forall|j: int| 0 <= j < r.children.len() implies (#[trigger] r.children[j]).segment is Some
                    && well_shaped(r.children[j]) by {
                    if j != i {
                        assert(r.children[j] == node.children[j]);
                    }
                }
            },
            None => {
                lemma_with_change_shaped(bare(Some(segments[0])), segments.skip(1), kind);
                assert forall|j: int| 0 <= j < r.children.len() implies (#[trigger] r.children[j]).segment is Some
                    && well_shaped(r.children[j]) by {
                    if j < node.children.len() {
                        assert(r.children[j] == node.children[j]);
                    }
                }
            },
        }
    }
}

/// True when, throughout the tree, no two children of a node have the same segment.
pub open spec fn distinct_children(node: NodeView) -> bool
    decreases node,
{
    &&& forall|i: int, j: int|
        0 <= i < j < node.children.len() ==> (#[trigger] node.children[i]).segment != (
        #[trigger] node.children[j]).segment
    &&& forall|i: int|
        0 <= i < node.children.len() ==> distinct_children(#[trigger] node.children[i])
}

/// Putting a change into a tree adds no second child for a segment.
pub proof fn lemma_with_change_distinct(
    node: NodeView,
    segments: Seq<SegmentView>,
    kind: ChangeKindView,
)
    requires
        distinct_children(node),
    ensures
        distinct_children(with_change(node, segments, kind)),
    decreases segments.len(),
{
    if segments.len() > 0 {
        lemma_find_child(node.children, segments[0], 0);
        let r = with_change(node, segments, kind);
        match find_child(node.children, segments[0], 0) {
            Some(at) => {
                lemma_with_change_distinct(node.children[at], segments.skip(1), kind);
                lemma_with_change_shaped_segment(node.children[at], segments.skip(1), kind);
                assert forall|i: int, j: int| 0 <= i < j < r.children.len() implies (
                #[trigger] r.children[i]).segment != (#[trigger] r.children[j]).segment by {
                    assert(r.children[i].segment == node.children[i].segment);
                    assert(r.children[j].segment == node.children[j].segment);
                }
                assert forall|i: int| 0 <= i < r.children.len() implies distinct_children(
                    #[trigger] r.children[i],
                ) by {
                    if i != at {
                        assert(r.children[i] == node.children[i]);
                    }
                }
            },
            None => {
                let leaf = bare(Some(segments[0]));
                lemma_with_change_distinct(leaf, segments.skip(1), kind);
                lemma_with_change_shaped_segment(leaf, segments.skip(1), kind);
                assert forall|i: int, j: int| 0 <= i < j < r.children.len() implies (
                #[trigger] r.children[i]).segment != (#[trigger] r.children[j]).segment by {
                    assert(r.children[i] == node.children[i]);
                    if j < node.children.len() {
                        assert(r.children[j] == node.children[j]);
                    }
                }
                assert forall|i: int| 0 <= i < r.children.len() implies distinct_children(
                    #[trigger] r.children[i],
                ) by {
                    if i < node.children.len() {
                        assert(r.children[i] == node.children[i]);
                    }
                }
            },
        }
    }
}

proof fn lemma_with_change_shaped_segment(
    node: NodeView,
    segments: Seq<SegmentView>,
    kind: ChangeKindView,
)
    ensures
        with_change(node, segments, kind).segment == node.segment,
    decreases segments.len(),
{
    if segments.len() > 0 {
        match find_child(node.children, segments[0], 0) {
            Some(at) => {},
            None => {},
        }
    }
}

/// In the tree of any changes, each segment leads to one child at most: a
/// path that comes again goes through the nodes that are there.
pub proof fn lemma_tree_distinct(changes: Seq<ChangeEntryView>, n: int)
    ensures
        distinct_children(tree_of(changes, n)),
    decreases n,
{
    if n <= 0 || n > changes.len() {
    } else {
        lemma_tree_distinct(changes, n - 1);
        lemma_with_change_distinct(
            tree_of(changes, n - 1),
            changes[n - 1].segments,
            changes[n - 1].kind,
        );
    }
}

/// The tree of any changes is well-shaped.
pub proof fn lemma_tree_shaped(changes: Seq<ChangeEntryView>, n: int)
    ensures
        well_shaped(tree_of(changes, n)),
    decreases n,
{
    if n <= 0 || n > changes.len() {
    } else {
        lemma_tree_shaped(changes, n - 1);
        lemma_with_change_shaped(tree_of(changes, n - 1), changes[n - 1].segments, changes[n - 1].kind);
    }
}

impl PrettyNode {
    /// The root of an empty tree.
    pub fn root() -> (r: PrettyNode)
        ensures
            r@ == bare(None),
    {
        let r = PrettyNode { segment: None, children: Vec::new(), change: None };
        assert(r@.children =~= Seq::<NodeView>::empty());
        r
    }

    /// The position of the child that `segment` leads to, if there is one.
    #[verifier::loop_isolation(false)]
    pub fn child_position(&self, segment: &PathSegment) -> (r: Option<usize>)
        ensures
            match r {
                Some(i) => find_child(self@.children, segment@, 0) == Some(i as int) && i
                    < self.children.len(),
                None => find_child(self@.children, segment@, 0) is None,
            },
    {
        broadcast use lemma_children_view;

        let mut i: usize = 0;
        while i < self.children.len()
            invariant
                i <= self.children.len(),
                find_child(self@.children, segment@, 0) == find_child(
                    self@.children,
                    segment@,
                    i as int,
                ),
            decreases self.children.len() - i,
        {
            let same = match &self.children[i].segment {
                Some(s) => s.same_as(segment),
                None => false,
            };
            assert(self@.children[i as int] == self.children@[i as int]@);
            if same {
                return Some(i);
            }
            i += 1;
        }
        None
    }

    /// The child that `segment` leads to, if there is one.
    pub fn child(&self, segment: &PathSegment) -> (r: Option<&PrettyNode>)
        ensures
            match r {
                Some(c) => find_child(self@.children, segment@, 0) matches Some(i) && c@
                    == self@.children[i],
                None => find_child(self@.children, segment@, 0) is None,
            },
    {
        broadcast use lemma_children_view;

        match self.child_position(segment) {
            Some(i) => Some(&self.children[i]),
            None => None,
        }
    }

    /// Puts `kind` at the end of the way that `segments[from..]` describe from this node.
    pub fn add_change_from(&mut self, segments: &Vec<PathSegment>, from: usize, kind: ChangeKind)
        requires
            from <= segments.len(),
        ensures
            final(self)@ == with_change(
                old(self)@,
                segments_view(segments@).skip(from as int),
                kind@,
            ),
        decreases segments.len() - from,
    {
        broadcast use lemma_children_view;

        let ghost rest = segments_view(segments@).skip(from as int);
        let ghost before = self@;
        if from == segments.len() {
            self.change = Some(kind);
            assert(self@.children =~= before.children);
            return;
        }
        assert(rest[0] == segments@[from as int]@);
        assert(rest.skip(1) =~= segments_view(segments@).skip(from + 1));
        let idx = match self.child_position(&segments[from]) {
            Some(i) => i,
            None => {
                let node = PrettyNode {
                    segment: Some(segments[from].clone()),
                    children: Vec::new(),
                    change: None,
                };
                assert(node@.children =~= Seq::<NodeView>::empty());
                self.children.push(node);
                self.children.len() - 1
            },
        };
        let mut target = PrettyNode::root();
        self.children.set_and_swap(idx, &mut target);
        target.add_change_from(segments, from + 1, kind);
        self.children.set(idx, target);
        proof {
            let want = with_change(before, rest, kind@);
            assert(self@.children =~= want.children) by {
                assert(self@.children.len() == want.children.len());
                assert forall|j: int| 0 <= j < want.children.len() implies self@.children[j]
                    == want.children[j] by {
                    assert(self@.children[j] == self.children@[j]@);
                }
            }
        }
    }

    /// Puts `kind` at the end of the way that `segments` describe from this node.
    pub fn add_change(&mut self, segments: Vec<PathSegment>, kind: ChangeKind)
        ensures
            final(self)@ == with_change(old(self)@, segments_view(segments@), kind@),
    {
        assert(segments_view(segments@).skip(0) =~= segments_view(segments@));
        self.add_change_from(&segments, 0, kind);
    }
}

/// The tree of `changes`.
#[verifier::loop_isolation(false)]
pub fn build_tree(changes: Vec<ChangeEntry>) -> (r: PrettyNode)
    ensures
        r@ == tree_of(entries_view(changes@), changes.len() as int),
        well_shaped(r@),
        distinct_children(r@),
{
    let mut root = PrettyNode::root();
    let ghost all = entries_view(changes@);
    let ghost total = changes.len();
    for change in it: changes
        invariant
            it.seq() == changes@,
            root@ == tree_of(all, it.index() as int),
    {
        assert(change@ == all[it.index() as int]);
        root.add_change(change.segments, change.kind);
    }
    proof {
        lemma_tree_distinct(all, total as int);
        lemma_tree_shaped(all, total as int);
    }
    root
}

} // verus!
