//! The comparison of two values as one object: the report, and its rendering.

use crate::change::ChangeEntryView;
use crate::change::append_change_lines;
use crate::change::change_lines;
use crate::change::collect_changes;
use crate::change::collected;
use crate::change::entries_view;
use crate::engine::diff;
use crate::engine::diff_report;
use crate::format::push_line;
use crate::options::DeepDiffOptions;
use crate::options::PrettyOptions;
use crate::options::default_options;
use crate::path::PathSegment;
use crate::path::SegmentView;
use crate::path::compact_path;
use crate::path::format_compact_path;
use crate::path::segments_view;
use crate::render::RenderEnv;
use crate::render::Scene;
use crate::render::children_lines;
use crate::render::order_of;
use crate::render::render_children;
use crate::render::stable_order;
use crate::text::join;
use crate::text::join_texts;
use crate::text::texts;
use crate::tree::build_tree;
use crate::tree::lemma_children_view;
use crate::tree::tree_of;
use crate::value::Value;
use crate::value::ValueView;
use crate::value::group_value_views;
use vstd::prelude::*;

verus! {

/// The compact paths of the changes.
pub open spec fn compact_paths(changes: Seq<ChangeEntryView>) -> Seq<Seq<char>> {
    Seq::new(changes.len(), |i: int| compact_path(changes[i].segments))
}

/// The lines of the first `n` changes in `order`, each under a line of its
/// compact path.
pub open spec fn header_lines(
    changes: Seq<ChangeEntryView>,
    order: Seq<usize>,
    n: int,
    no_color: bool,
) -> Seq<Seq<char>>
    decreases n,
{
    if n <= 0 || n > order.len() {
        Seq::empty()
    } else {
        let c = changes[order[n - 1] as int];
        header_lines(changes, order, n - 1, no_color) + seq![compact_path(c.segments)]
            + change_lines(true, Seq::empty(), false, c.kind, no_color)
    }
}

/// The lines of the tree of `changes`: the change at the root, if there is
/// one, under a line `root`, then what lies under the root.
pub open spec fn tree_lines(changes: Seq<ChangeEntryView>, s: Scene) -> Seq<Seq<char>> {
    let tree = tree_of(changes, changes.len() as int);
    (match tree.change {
        Some(c) => seq!["root"@] + change_lines(true, Seq::empty(), false, c, s.options.no_color),
        None => Seq::empty(),
    }) + children_lines(tree, 0, Seq::empty(), Seq::empty(), s)
}

/// The lines that render the changes of a report: with path headers, the
/// changes in the dictionary order of their compact paths, each under its
/// path; else the tree of the changes.
pub open spec fn pretty_lines(
    report: ValueView,
    t1: ValueView,
    t2: ValueView,
    options: PrettyOptions,
) -> Seq<Seq<char>> {
    let changes = collected(report, t1, t2);
    if options.path_header {
        header_lines(
            changes,
            order_of(compact_paths(changes), changes.len() as int),
            changes.len() as int,
            options.no_color,
        )
    } else {
        tree_lines(changes, Scene { t1, t2, options })
    }
}

/// The text that renders a report: empty where the report holds no change,
/// else the lines joined by line feeds.
pub open spec fn pretty_text(
    report: ValueView,
    t1: ValueView,
    t2: ValueView,
    options: PrettyOptions,
) -> Seq<char> {
    if collected(report, t1, t2).len() == 0 {
        Seq::empty()
    } else {
        join(pretty_lines(report, t1, t2, options), "\n"@)
    }
}

/// The text that renders `result`, the report on the differences between
/// `t1` and `t2`.
#[verifier::loop_isolation(false)]
pub fn render_pretty(result: &Value, t1: &Value, t2: &Value, options: PrettyOptions) -> (r: String)
    ensures
        r@ == pretty_text(result@, t1@, t2@, options),
{
    broadcast use lemma_children_view;

    let changes = collect_changes(result, t1, t2);
    let ghost all = entries_view(changes@);
    if changes.len() == 0 {
        return String::new();
    }
    let mut lines: Vec<String> = Vec::new();
    let empty: Vec<bool> = Vec::new();
    assert(texts(lines@) =~= Seq::<Seq<char>>::empty());
    if options.path_header {
        let mut paths: Vec<String> = Vec::new();
        let mut i: usize = 0;
        while i < changes.len()
            invariant
                i <= changes.len(),
                paths@.len() == i,
                forall|j: int| 0 <= j < i ==> (#[trigger] paths@[j])@ == compact_path(all[j].segments),
            decreases changes.len() - i,
        {
            paths.push(format_compact_path(&changes[i].segments));
            i += 1;
        }
        assert(texts(paths@) =~= compact_paths(all));
        let order = stable_order(&paths);
        let mut k: usize = 0;
        while k < order.len()
            invariant
                k <= order.len(),
                texts(lines@) == header_lines(all, order@, k as int, options.no_color),
            decreases order.len() - k,
        {
            let at = order[k];
            let ghost before = texts(lines@);
            push_line(&mut lines, paths[at].clone());
            append_change_lines(&mut lines, 0, &empty, false, &changes[at].kind, &options);
            assert(texts(lines@) =~= before + seq![compact_path(all[at as int].segments)]
                + change_lines(true, Seq::empty(), false, all[at as int].kind, options.no_color));
            k += 1;
        }
        return join_texts(&lines, "\n");
    }
    let tree = build_tree(changes);
    match &tree.change {
        Some(change) => {
            push_line(&mut lines, String::from_str("root"));
            append_change_lines(&mut lines, 0, &empty, false, change, &options);
        },
        None => {},
    }
    let ghost head = texts(lines@);
    assert(head =~= match tree@.change {
        Some(c) => seq!["root"@] + change_lines(true, Seq::empty(), false, c, options.no_color),
        None => Seq::<Seq<char>>::empty(),
    });
    let env = RenderEnv { t1, t2, options: &options };
    let path: Vec<PathSegment> = Vec::new();
    assert(segments_view(path@) =~= Seq::<SegmentView>::empty());
    render_children(&tree, 0, &empty, &path, &env, &mut lines);
    join_texts(&lines, "\n")
}

/// Two values and the report on their differences.
#[derive(Debug)]
pub struct DeepDiff {
    result: Value,
    t1: Value,
    t2: Value,
}

/// The mathematical view of a [`DeepDiff`].
pub struct DeepDiffView {
    pub result: ValueView,
    pub t1: ValueView,
    pub t2: ValueView,
}

impl View for DeepDiff {
    type V = DeepDiffView;

    closed spec fn view(&self) -> DeepDiffView {
        DeepDiffView { result: self.result@, t1: self.t1@, t2: self.t2@ }
    }
}

impl Clone for DeepDiff {
    fn clone(&self) -> (r: DeepDiff)
        ensures
            r@ == self@,
    {
        DeepDiff { result: self.result.clone(), t1: self.t1.clone(), t2: self.t2.clone() }
    }
}

impl DeepDiff {
    /// Compares `t1` with `t2`, nothing being configured.
    pub fn new(t1: Value, t2: Value) -> (r: DeepDiff)
        ensures
            r@ == (DeepDiffView {
                result: diff_report(t1@, t2@, default_options()),
                t1: t1@,
                t2: t2@,
            }),
    {
        DeepDiff::with_options(t1, t2, DeepDiffOptions::default())
    }

    /// Compares `t1` with `t2` under `options`.
    ///
    /// Numbers are compared by kind and value, and count as equal besides
    /// where `options` holds the pair among its numeric matches. Where
    /// `options` sets a number of significant digits, the matches alone
    /// decide: the library rounds nothing, and a number that stands in both
    /// values is reported as changed unless the pair was handed over.
    pub fn with_options(t1: Value, t2: Value, options: DeepDiffOptions) -> (r: DeepDiff)
        ensures
            r@ == (DeepDiffView { result: diff_report(t1@, t2@, options@), t1: t1@, t2: t2@ }),
    {
        let result = diff(&t1, &t2, &options);
        DeepDiff { result, t1, t2 }
    }

    /// The report, as a value.
    pub fn to_value(&self) -> (r: Value)
        ensures
            r@ == self@.result,
    {
        self.result.clone()
    }

    /// The report, as a value.
    pub fn to_dict(&self) -> (r: Value)
        ensures
            r@ == self@.result,
    {
        self.result.clone()
    }

    /// True when the report holds no bucket.
    pub fn is_empty(&self) -> (r: bool)
        ensures
            r == (self@.result matches ValueView::Object(m) && m.len() == 0),
    {
        broadcast use group_value_views;

        match &self.result {
            Value::Object(map) => map.len() == 0,
            _ => false,
        }
    }

    /// The report rendered as text.
    pub fn pretty(&self, options: PrettyOptions) -> (r: String)
        ensures
            r@ == pretty_text(self@.result, self@.t1, self@.t2, options),
    {
        render_pretty(&self.result, &self.t1, &self.t2, options)
    }
}

} // verus!
