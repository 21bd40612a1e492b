//! What a comparison and a rendering can be told.

use crate::text::texts;
use crate::value::Number;
use crate::value::NumberView;
use vstd::prelude::*;

verus! {

/// The broad type of a value, as type groups name it.
#[derive(Copy, Clone, Debug, PartialEq, Eq, Structural)]
pub enum ValueType {
    Number,
    String,
    Bool,
    Null,
    Array,
    Object,
}

/// The views of a list of pairs of numbers.
pub open spec fn pairs_view(pairs: Seq<(Number, Number)>) -> Seq<(NumberView, NumberView)> {
    Seq::new(pairs.len(), |i: int| (pairs[i].0@, pairs[i].1@))
}

/// The contents of a list of type groups.
pub open spec fn groups_view(groups: Seq<Vec<ValueType>>) -> Seq<Seq<ValueType>> {
    Seq::new(groups.len(), |i: int| groups[i]@)
}

/// How two values are compared.
///
/// Numbers are compared by kind and value. The library does no arithmetic on
/// them: where a tolerance or a number of significant digits is wanted, the
/// caller judges the numbers and hands over the pairs it takes for equal as
/// `numeric_matches`. With `significant_digits` set the library decides
/// nothing by itself: only the pairs handed over count as equal numbers, so
/// that without them every number differs from every number and from itself.
#[derive(Debug)]
pub struct DeepDiffOptions {
    ignore_order: bool,
    ignore_numeric_type_changes: bool,
    ignore_string_type_changes: bool,
    significant_digits: Option<u32>,
    numeric_matches: Vec<(Number, Number)>,
    include_paths: Vec<String>,
    exclude_paths: Vec<String>,
    verbose_level: u8,
    ignore_type_in_groups: Vec<Vec<ValueType>>,
}

/// The mathematical view of [`DeepDiffOptions`].
pub struct OptionsView {
    pub ignore_order: bool,
    pub ignore_numeric_type_changes: bool,
    pub ignore_string_type_changes: bool,
    pub significant_digits: Option<u32>,
    pub numeric_matches: Seq<(NumberView, NumberView)>,
    pub include_paths: Seq<Seq<char>>,
    pub exclude_paths: Seq<Seq<char>>,
    pub verbose_level: u8,
    pub ignore_type_in_groups: Seq<Seq<ValueType>>,
}

/// The options that a comparison has when it is told nothing: order counts,
/// numbers are compared exactly, every path is visited, old and new values
/// are reported, and no types are grouped.
pub open spec fn default_options() -> OptionsView {
    OptionsView {
        ignore_order: false,
        ignore_numeric_type_changes: false,
        ignore_string_type_changes: false,
        significant_digits: None,
        numeric_matches: Seq::empty(),
        include_paths: Seq::empty(),
        exclude_paths: Seq::empty(),
        verbose_level: 1,
        ignore_type_in_groups: Seq::empty(),
    }
}

impl View for DeepDiffOptions {
    type V = OptionsView;

    closed spec fn view(&self) -> OptionsView {
        OptionsView {
            ignore_order: self.ignore_order,
            ignore_numeric_type_changes: self.ignore_numeric_type_changes,
            ignore_string_type_changes: self.ignore_string_type_changes,
            significant_digits: self.significant_digits,
            numeric_matches: pairs_view(self.numeric_matches@),
            include_paths: texts(self.include_paths@),
            exclude_paths: texts(self.exclude_paths@),
            verbose_level: self.verbose_level,
            ignore_type_in_groups: groups_view(self.ignore_type_in_groups@),
        }
    }
}

impl Default for DeepDiffOptions {
    fn default() -> (r: DeepDiffOptions)
        ensures
            r@ == default_options(),
    {
        let r = DeepDiffOptions {
            ignore_order: false,
            ignore_numeric_type_changes: false,
            ignore_string_type_changes: false,
            significant_digits: None,
            numeric_matches: Vec::new(),
            include_paths: Vec::new(),
            exclude_paths: Vec::new(),
            verbose_level: 1,
            ignore_type_in_groups: Vec::new(),
        };
        assert(r@.numeric_matches =~= Seq::empty());
        assert(r@.include_paths =~= Seq::empty());
        assert(r@.exclude_paths =~= Seq::empty());
        assert(r@.ignore_type_in_groups =~= Seq::empty());
        r
    }
}

#[verifier::loop_isolation(false)]
fn clone_pairs(pairs: &Vec<(Number, Number)>) -> (r: Vec<(Number, Number)>)
    ensures
        pairs_view(r@) == pairs_view(pairs@),
{
    let mut out: Vec<(Number, Number)> = Vec::new();
    let mut i: usize = 0;
    while i < pairs.len()
        invariant
            i <= pairs.len(),
            out@.len() == i,
            forall|j: int|
                0 <= j < i ==> (#[trigger] out@[j]).0@ == pairs@[j].0@ && out@[j].1@ == pairs@[j].1@,
        decreases pairs.len() - i,
    {
        out.push((pairs[i].0.clone(), pairs[i].1.clone()));
        i += 1;
    }
    assert(pairs_view(out@) =~= pairs_view(pairs@));
    out
}

#[verifier::loop_isolation(false)]
fn clone_texts(v: &Vec<String>) -> (r: Vec<String>)
    ensures
        texts(r@) == texts(v@),
{
    let mut out: Vec<String> = Vec::new();
    let mut i: usize = 0;
    while i < v.len()
        invariant
            i <= v.len(),
            out@.len() == i,
            forall|j: int| 0 <= j < i ==> (#[trigger] out@[j])@ == v@[j]@,
        decreases v.len() - i,
    {
        out.push(v[i].clone());
        i += 1;
    }
    assert(texts(out@) =~= texts(v@));
    out
}

#[verifier::loop_isolation(false)]
fn clone_groups(groups: &Vec<Vec<ValueType>>) -> (r: Vec<Vec<ValueType>>)
    ensures
        groups_view(r@) == groups_view(groups@),
{
    let mut out: Vec<Vec<ValueType>> = Vec::new();
    let mut i: usize = 0;
    while i < groups.len()
        invariant
            i <= groups.len(),
            out@.len() == i,
            forall|j: int| 0 <= j < i ==> (#[trigger] out@[j])@ == groups@[j]@,
        decreases groups.len() - i,
    {
        let group = &groups[i];
        let mut copy: Vec<ValueType> = Vec::new();
        let mut k: usize = 0;
        while k < group.len()
            invariant
                k <= group.len(),
                copy@ == group@.take(k as int),
            decreases group.len() - k,
        {
            copy.push(group[k]);
            k += 1;
            assert(group@.take(k as int) =~= group@.take(k - 1).push(group@[k - 1]));
        }
        assert(group@.take(group.len() as int) =~= group@);
        out.push(copy);
        i += 1;
    }
    assert(groups_view(out@) =~= groups_view(groups@));
    out
}

impl Clone for DeepDiffOptions {
    fn clone(&self) -> (r: DeepDiffOptions)
        ensures
            r@ == self@,
    {
        DeepDiffOptions {
            ignore_order: self.ignore_order,
            ignore_numeric_type_changes: self.ignore_numeric_type_changes,
            ignore_string_type_changes: self.ignore_string_type_changes,
            significant_digits: self.significant_digits,
            numeric_matches: clone_pairs(&self.numeric_matches),
            include_paths: clone_texts(&self.include_paths),
            exclude_paths: clone_texts(&self.exclude_paths),
            verbose_level: self.verbose_level,
            ignore_type_in_groups: clone_groups(&self.ignore_type_in_groups),
        }
    }
}

impl DeepDiffOptions {
    /// Arrays are compared as bags of items when `value` is true.
    pub fn ignore_order(self, value: bool) -> (r: DeepDiffOptions)
        ensures
            r@ == (OptionsView { ignore_order: value, ..self@ }),
    {
        let mut o = self;
        o.ignore_order = value;
        o
    }

    /// Records that the caller's numeric matches take an integer and a
    /// floating-point value of the same magnitude for equal.
    pub fn ignore_numeric_type_changes(self, value: bool) -> (r: DeepDiffOptions)
        ensures
            r@ == (OptionsView { ignore_numeric_type_changes: value, ..self@ }),
    {
        let mut o = self;
        o.ignore_numeric_type_changes = value;
        o
    }

    /// Records that string types are not to be told apart.
    pub fn ignore_string_type_changes(self, value: bool) -> (r: DeepDiffOptions)
        ensures
            r@ == (OptionsView { ignore_string_type_changes: value, ..self@ }),
    {
        let mut o = self;
        o.ignore_string_type_changes = value;
        o
    }

    /// Records the number of significant digits to which the caller compares
    /// numbers. The library rounds nothing: with a number set, two numbers
    /// count as equal only where the caller has handed the pair over among the
    /// numeric matches, a number and itself too.
    pub fn significant_digits(self, value: Option<u32>) -> (r: DeepDiffOptions)
        ensures
            r@ == (OptionsView { significant_digits: value, ..self@ }),
    {
        let mut o = self;
        o.significant_digits = value;
        o
    }

    /// The pairs of numbers that count as equal, in one order or the other:
    /// what the caller's comparison by tolerance or by significant digits has
    /// found. `engine::number_pairs` names the pairs that can be asked about.
    pub fn numeric_matches(self, pairs: Vec<(Number, Number)>) -> (r: DeepDiffOptions)
        ensures
            r@ == (OptionsView { numeric_matches: pairs_view(pairs@), ..self@ }),
    {
        let mut o = self;
        o.numeric_matches = pairs;
        o
    }

    /// Only these paths, what lies under them and what leads to them is visited.
    pub fn include_paths(self, paths: Vec<String>) -> (r: DeepDiffOptions)
        ensures
            r@ == (OptionsView { include_paths: texts(paths@), ..self@ }),
    {
        let mut o = self;
        o.include_paths = paths;
        o
    }

    /// These paths and what lies under them are skipped.
    pub fn exclude_paths(self, paths: Vec<String>) -> (r: DeepDiffOptions)
        ensures
            r@ == (OptionsView { exclude_paths: texts(paths@), ..self@ }),
    {
        let mut o = self;
        o.exclude_paths = paths;
        o
    }

    /// At level 0 changed values are reported by path only.
    pub fn verbose_level(self, value: u8) -> (r: DeepDiffOptions)
        ensures
            r@ == (OptionsView { verbose_level: value, ..self@ }),
    {
        let mut o = self;
        o.verbose_level = value;
        o
    }

    /// Values whose types share one of these groups differ in value, not in type.
    pub fn ignore_type_in_groups(self, groups: Vec<Vec<ValueType>>) -> (r: DeepDiffOptions)
        ensures
            r@ == (OptionsView { ignore_type_in_groups: groups_view(groups@), ..self@ }),
    {
        let mut o = self;
        o.ignore_type_in_groups = groups;
        o
    }

    /// Whether arrays are compared as bags of items.
    pub fn orders_ignored(&self) -> (r: bool)
        ensures
            r == self@.ignore_order,
    {
        self.ignore_order
    }

    /// Whether integers and floating-point values are to be matched alike.
    pub fn numeric_types_ignored(&self) -> (r: bool)
        ensures
            r == self@.ignore_numeric_type_changes,
    {
        self.ignore_numeric_type_changes
    }

    /// Whether string types are not told apart.
    pub fn string_types_ignored(&self) -> (r: bool)
        ensures
            r == self@.ignore_string_type_changes,
    {
        self.ignore_string_type_changes
    }

    /// The number of significant digits, if one is set.
    pub fn digits(&self) -> (r: Option<u32>)
        ensures
            r == self@.significant_digits,
    {
        self.significant_digits
    }

    /// The level of detail of the report.
    pub fn verbosity(&self) -> (r: u8)
        ensures
            r == self@.verbose_level,
    {
        self.verbose_level
    }

    /// The pairs of numbers that count as equal.
    pub fn matches(&self) -> (r: &Vec<(Number, Number)>)
        ensures
            pairs_view(r@) == self@.numeric_matches,
    {
        &self.numeric_matches
    }

    /// The paths to which the comparison is limited.
    pub fn included(&self) -> (r: &Vec<String>)
        ensures
            texts(r@) == self@.include_paths,
    {
        &self.include_paths
    }

    /// The paths that the comparison skips.
    pub fn excluded(&self) -> (r: &Vec<String>)
        ensures
            texts(r@) == self@.exclude_paths,
    {
        &self.exclude_paths
    }

    /// The groups of types that count as one.
    pub fn type_groups(&self) -> (r: &Vec<Vec<ValueType>>)
        ensures
            groups_view(r@) == self@.ignore_type_in_groups,
    {
        &self.ignore_type_in_groups
    }
}

/// How a difference is rendered as text.
#[derive(Clone, Copy, Debug)]
pub struct PrettyOptions {
    /// Chains of nodes with one child and no change of their own become one label.
    pub compact: bool,
    /// The depth below which subtrees are cut short.
    pub max_depth: usize,
    /// The number of unchanged neighbours shown on each side of a changed array item.
    pub context: usize,
    /// No colour escapes are written when true.
    pub no_color: bool,
    /// One line of path before each change, in place of a tree.
    pub path_header: bool,
}

/// The rendering options when nothing is said: a coloured tree, five levels
/// deep, without compaction or context.
pub open spec fn default_pretty() -> PrettyOptions {
    PrettyOptions { compact: false, max_depth: 5, context: 0, no_color: false, path_header: false }
}

impl Default for PrettyOptions {
    fn default() -> (r: PrettyOptions)
        ensures
            r == default_pretty(),
    {
        PrettyOptions {
            compact: false,
            max_depth: 5,
            context: 0,
            no_color: false,
            path_header: false,
        }
    }
}

} // verus!
