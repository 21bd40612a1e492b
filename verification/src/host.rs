//! What a host environment hands over: the types that it names in type
//! groups, and sets, which come without an order.

use crate::options::ValueType;
use crate::options::groups_view;
use crate::render::order_of;
use crate::render::stable_order;
use crate::text::chars_of;
use crate::text::texts;
use crate::value::Value;
use crate::value::ValueView;
use crate::value::items_view;
use vstd::prelude::*;

verus! {

/// A type as the host names it in a type group.
#[derive(Debug)]
pub enum HostType {
    Int,
    Float,
    Bool,
    Str,
    Bytes,
    NoneType,
    List,
    Tuple,
    Dict,
    /// A type of the array library: its name in lower case, and whether it is
    /// an array type.
    Numpy { name: String, is_ndarray: bool },
    /// Any other type of numbers: its module and its name in lower case.
    Numeric { module: String, name: String },
    /// The function of the array library that makes arrays.
    ArrayFunction,
    /// Anything else.
    Other,
}

/// The mathematical view of a [`HostType`].
pub enum HostTypeView {
    Int,
    Float,
    Bool,
    Str,
    Bytes,
    NoneType,
    List,
    Tuple,
    Dict,
    Numpy { name: Seq<char>, is_ndarray: bool },
    Numeric { module: Seq<char>, name: Seq<char> },
    ArrayFunction,
    Other,
}

impl View for HostType {
    type V = HostTypeView;

    open spec fn view(&self) -> HostTypeView {
        match self {
            HostType::Int => HostTypeView::Int,
            HostType::Float => HostTypeView::Float,
            HostType::Bool => HostTypeView::Bool,
            HostType::Str => HostTypeView::Str,
            HostType::Bytes => HostTypeView::Bytes,
            HostType::NoneType => HostTypeView::NoneType,
            HostType::List => HostTypeView::List,
            HostType::Tuple => HostTypeView::Tuple,
            HostType::Dict => HostTypeView::Dict,
            HostType::Numpy { name, is_ndarray } => HostTypeView::Numpy {
                name: name@,
                is_ndarray: *is_ndarray,
            },
            HostType::Numeric { module, name } => HostTypeView::Numeric {
                module: module@,
                name: name@,
            },
            HostType::ArrayFunction => HostTypeView::ArrayFunction,
            HostType::Other => HostTypeView::Other,
        }
    }
}

/// What a host type adds to the flags of its group.
#[derive(Copy, Clone, Debug, PartialEq, Eq, Structural)]
pub enum Flavor {
    Integer,
    Floating,
    Text,
    Bytes,
    Plain,
}

/// True when `pattern` stands somewhere in `s`.
pub open spec fn holds(s: Seq<char>, pattern: Seq<char>) -> bool {
    exists|i: int|
        0 <= i && i + pattern.len() <= s.len() && #[trigger] s.subrange(i, i + pattern.len())
            == pattern
}

/// True when `pattern` stands somewhere in `s`.
#[verifier::loop_isolation(false)]
pub fn contains_text(s: &str, pattern: &str) -> (r: bool)
    ensures
        r == holds(s@, pattern@),
{
    let text = chars_of(s);
    let pat = chars_of(pattern);
    if pat.len() > text.len() {
        return false;
    }
    let last = text.len() - pat.len();
    let mut i: usize = 0;
    while i <= last
        invariant
            i <= last + 1,
            forall|j: int| 0 <= j < i ==> #[trigger] text@.subrange(j, j + pat.len()) != pat@,
        decreases last + 1 - i,
    {
        let mut k: usize = 0;
        while k < pat.len() && text[i + k] == pat[k]
            invariant
                k <= pat.len(),
                forall|q: int| 0 <= q < k ==> text@[i + q] == pat@[q],
            decreases pat.len() - k,
        {
            k += 1;
        }
        if k == pat.len() {
            assert(text@.subrange(i as int, i + pat.len()) =~= pat@);
            return true;
        }
        assert(text@.subrange(i as int, i + pat.len())[k as int] != pat@[k as int]);
        i += 1;
    }
    false
}

/// The flavour of a number type of the array library or of another module,
/// told from its name: floating where the name says so, integer where it
/// names integers, floating otherwise.
pub open spec fn named_flavor(name: Seq<char>, with_number: bool) -> Flavor {
    if holds(name, "float"@) || holds(name, "floating"@) {
        Flavor::Floating
    } else if holds(name, "int"@) || holds(name, "integer"@) || holds(name, "uint"@) || (with_number
        && holds(name, "number"@)) {
        Flavor::Integer
    } else {
        Flavor::Floating
    }
}

fn flavor_of_name(name: &str, with_number: bool) -> (r: Flavor)
    ensures
        r == named_flavor(name@, with_number),
{
    if contains_text(name, "float") || contains_text(name, "floating") {
        Flavor::Floating
    } else if contains_text(name, "int") || contains_text(name, "integer") || contains_text(
        name,
        "uint",
    ) || (with_number && contains_text(name, "number")) {
        Flavor::Integer
    } else {
        Flavor::Floating
    }
}

/// The broad type that a host type stands for and its flavour; `None` for a
/// type that stands for none.
pub open spec fn classified(t: HostTypeView) -> Option<(ValueType, Flavor)> {
    match t {
        HostTypeView::Int => Some((ValueType::Number, Flavor::Integer)),
        HostTypeView::Float => Some((ValueType::Number, Flavor::Floating)),
        HostTypeView::Bool => Some((ValueType::Bool, Flavor::Plain)),
        HostTypeView::Str => Some((ValueType::String, Flavor::Text)),
        HostTypeView::Bytes => Some((ValueType::String, Flavor::Bytes)),
        HostTypeView::NoneType => Some((ValueType::Null, Flavor::Plain)),
        HostTypeView::List => Some((ValueType::Array, Flavor::Plain)),
        HostTypeView::Tuple => Some((ValueType::Array, Flavor::Plain)),
        HostTypeView::Dict => Some((ValueType::Object, Flavor::Plain)),
        HostTypeView::Numpy { name, is_ndarray } => if is_ndarray || holds(name, "ndarray"@) {
            Some((ValueType::Array, Flavor::Plain))
        } else if holds(name, "bool"@) {
            Some((ValueType::Bool, Flavor::Plain))
        } else {
            Some((ValueType::Number, named_flavor(name, true)))
        },
        HostTypeView::Numeric { module, name } => if module == "numpy"@ {
            Some((ValueType::Number, named_flavor(name, false)))
        } else {
            Some((ValueType::Number, Flavor::Floating))
        },
        HostTypeView::ArrayFunction => Some((ValueType::Array, Flavor::Plain)),
        HostTypeView::Other => None,
    }
}

/// The broad type that `t` stands for and its flavour.
pub fn classify(t: &HostType) -> (r: Option<(ValueType, Flavor)>)
    ensures
        r == classified(t@),
{
    match t {
        HostType::Int => Some((ValueType::Number, Flavor::Integer)),
        HostType::Float => Some((ValueType::Number, Flavor::Floating)),
        HostType::Bool => Some((ValueType::Bool, Flavor::Plain)),
        HostType::Str => Some((ValueType::String, Flavor::Text)),
        HostType::Bytes => Some((ValueType::String, Flavor::Bytes)),
        HostType::NoneType => Some((ValueType::Null, Flavor::Plain)),
        HostType::List => Some((ValueType::Array, Flavor::Plain)),
        HostType::Tuple => Some((ValueType::Array, Flavor::Plain)),
        HostType::Dict => Some((ValueType::Object, Flavor::Plain)),
        HostType::Numpy { name, is_ndarray } => {
            if *is_ndarray || contains_text(name.as_str(), "ndarray") {
                Some((ValueType::Array, Flavor::Plain))
            } else if contains_text(name.as_str(), "bool") {
                Some((ValueType::Bool, Flavor::Plain))
            } else {
                Some((ValueType::Number, flavor_of_name(name.as_str(), true)))
            }
        },
        HostType::Numeric { module, name } => {
            let numpy = String::from_str("numpy");
            if *module == numpy {
                Some((ValueType::Number, flavor_of_name(name.as_str(), false)))
            } else {
                Some((ValueType::Number, Flavor::Floating))
            }
        },
        HostType::ArrayFunction => Some((ValueType::Array, Flavor::Plain)),
        HostType::Other => None,
    }
}

/// The views of the types of a group.
pub open spec fn host_types_view(group: Seq<HostType>) -> Seq<HostTypeView> {
    Seq::new(group.len(), |i: int| group[i]@)
}

/// The views of the groups.
pub open spec fn host_groups_view(groups: Seq<Vec<HostType>>) -> Seq<Seq<HostTypeView>> {
    Seq::new(groups.len(), |i: int| host_types_view(groups[i]@))
}

/// True when every type of the group stands for a broad type.
pub open spec fn supported(group: Seq<HostTypeView>) -> bool {
    forall|i: int| 0 <= i < group.len() ==> classified(#[trigger] group[i]) is Some
}

/// The broad types that the types of a group stand for.
pub open spec fn group_types(group: Seq<HostTypeView>) -> Seq<ValueType> {
    Seq::new(group.len(), |i: int| (classified(group[i])->0).0)
}

/// The flavour of a host type, if it stands for a broad type.
pub open spec fn flavor_of(t: HostTypeView) -> Option<Flavor> {
    match classified(t) {
        Some((_, f)) => Some(f),
        None => None,
    }
}

/// True when some type of the group has the flavour `f`.
pub open spec fn has_flavor(group: Seq<HostTypeView>, f: Flavor) -> bool {
    exists|i: int| 0 <= i < group.len() && flavor_of(#[trigger] group[i]) == Some(f)
}

/// True when the group names integers beside floating-point numbers.
pub open spec fn mixes_numbers(group: Seq<HostTypeView>) -> bool {
    has_flavor(group, Flavor::Integer) && has_flavor(group, Flavor::Floating)
}

/// True when the group names strings beside byte strings.
pub open spec fn mixes_strings(group: Seq<HostTypeView>) -> bool {
    has_flavor(group, Flavor::Text) && has_flavor(group, Flavor::Bytes)
}

/// The type groups of a comparison, and what they say about numbers and strings.
#[derive(Debug)]
pub struct TypeGroups {
    /// The broad types of each group.
    pub groups: Vec<Vec<ValueType>>,
    /// Some group names integers beside floating-point numbers.
    pub ignore_numeric: bool,
    /// Some group names strings beside byte strings.
    pub ignore_string: bool,
}

/// A type group names a type that stands for no broad type.
#[derive(Debug, PartialEq, Eq)]
pub struct UnsupportedType {
    /// The position of the group.
    pub group: usize,
    /// The position of the type in the group.
    pub item: usize,
}

/// The first place, group by group, of a type that stands for no broad type, if any.
pub open spec fn first_unsupported(groups: Seq<Seq<HostTypeView>>, from: int) -> Option<(int, int)>
    decreases groups.len() - from,
{
    if from < 0 || from >= groups.len() {
        None
    } else {
        match first_unclassified(groups[from], 0) {
            Some(i) => Some((from, i)),
            None => first_unsupported(groups, from + 1),
        }
    }
}

/// The first position at or after `from` of a type that stands for no broad type, if any.
pub open spec fn first_unclassified(group: Seq<HostTypeView>, from: int) -> Option<int>
    decreases group.len() - from,
{
    if from < 0 || from >= group.len() {
        None
    } else if classified(group[from]) is None {
        Some(from)
    } else {
        first_unclassified(group, from + 1)
    }
}

/// Where no type is unclassified from `from` on, every type from there on is supported.
pub proof fn lemma_first_unclassified(group: Seq<HostTypeView>, from: int)
    requires
        0 <= from,
    ensures
        first_unclassified(group, from) is None ==> forall|i: int|
            from <= i < group.len() ==> classified(#[trigger] group[i]) is Some,
        first_unclassified(group, from) matches Some(i) ==> from <= i < group.len() && classified(
            group[i],
        ) is None,
    decreases group.len() - from,
{
    if from < group.len() && classified(group[from]) is Some {
        lemma_first_unclassified(group, from + 1);
    }
}

/// The flags of one group.
struct GroupFlags {
    has_int: bool,
    has_float: bool,
    has_str: bool,
    has_bytes: bool,
}

/// True when the flags say which flavours the first `n` types of the group have.
spec fn flags_match(flags: GroupFlags, group: Seq<HostTypeView>, n: int) -> bool {
    &&& flags.has_int == has_flavor(group.take(n), Flavor::Integer)
    &&& flags.has_float == has_flavor(group.take(n), Flavor::Floating)
    &&& flags.has_str == has_flavor(group.take(n), Flavor::Text)
    &&& flags.has_bytes == has_flavor(group.take(n), Flavor::Bytes)
}

proof fn lemma_flavor_step(group: Seq<HostTypeView>, n: int, f: Flavor)
    requires
        0 <= n < group.len(),
    ensures
        has_flavor(group.take(n + 1), f) == (has_flavor(group.take(n), f) || flavor_of(group[n])
            == Some(f)),
{
    let longer = group.take(n + 1);
    let shorter = group.take(n);
    if has_flavor(shorter, f) {
        let i = choose|i: int| 0 <= i < shorter.len() && flavor_of(#[trigger] shorter[i]) == Some(f);
        assert(longer[i] == shorter[i]);
    }
    if flavor_of(group[n]) == Some(f) {
        assert(longer[n] == group[n]);
    }
    if has_flavor(longer, f) {
        let i = choose|i: int| 0 <= i < longer.len() && flavor_of(#[trigger] longer[i]) == Some(f);
        if i < n {
            assert(shorter[i] == longer[i]);
        } else {
            assert(longer[i] == group[n]);
        }
    }
}

/// The result of reading one group: its broad types and whether it mixes
/// numbers or strings, or the position of the first unsupported type.
#[verifier::loop_isolation(false)]
fn read_group(group: &Vec<HostType>) -> (r: Result<(Vec<ValueType>, bool, bool), usize>)
    ensures
        match r {
            Ok((types, numeric, string)) => first_unclassified(host_types_view(group@), 0) is None
                && types@ == group_types(host_types_view(group@)) && numeric == mixes_numbers(
                host_types_view(group@),
            ) && string == mixes_strings(host_types_view(group@)),
            Err(i) => first_unclassified(host_types_view(group@), 0) == Some(i as int),
        },
{
    let ghost g = host_types_view(group@);
    let mut types: Vec<ValueType> = Vec::new();
    let mut flags = GroupFlags { has_int: false, has_float: false, has_str: false, has_bytes: false };
    let mut i: usize = 0;
    assert(g.take(0) =~= Seq::<HostTypeView>::empty());
    while i < group.len()
        invariant
            i <= group.len(),
            first_unclassified(g, 0) == first_unclassified(g, i as int),
            types@.len() == i,
            forall|j: int| 0 <= j < i ==> #[trigger] types@[j] == (classified(g[j])->0).0,
            flags_match(flags, g, i as int),
        decreases group.len() - i,
    {
        proof {
            lemma_flavor_step(g, i as int, Flavor::Integer);
            lemma_flavor_step(g, i as int, Flavor::Floating);
            lemma_flavor_step(g, i as int, Flavor::Text);
            lemma_flavor_step(g, i as int, Flavor::Bytes);
        }
        match classify(&group[i]) {
            None => {
                return Err(i);
            },
            Some((vt, flavor)) => {
                match flavor {
                    Flavor::Integer => {
                        flags.has_int = true;
                    },
                    Flavor::Floating => {
                        flags.has_float = true;
                    },
                    Flavor::Text => {
                        flags.has_str = true;
                    },
                    Flavor::Bytes => {
                        flags.has_bytes = true;
                    },
                    Flavor::Plain => {},
                }
                types.push(vt);
            },
        }
        i += 1;
    }
    assert(g.take(group.len() as int) =~= g);
    assert(types@ =~= group_types(g));
    Ok((types, flags.has_int && flags.has_float, flags.has_str && flags.has_bytes))
}

/// True when some of the first `n` groups mixes integers and floating-point numbers.
pub open spec fn any_mixes_numbers(groups: Seq<Seq<HostTypeView>>, n: int) -> bool {
    exists|i: int| 0 <= i < n && i < groups.len() && mixes_numbers(#[trigger] groups[i])
}

/// True when some of the first `n` groups mixes strings and byte strings.
pub open spec fn any_mixes_strings(groups: Seq<Seq<HostTypeView>>, n: int) -> bool {
    exists|i: int| 0 <= i < n && i < groups.len() && mixes_strings(#[trigger] groups[i])
}

/// The broad types of each group.
pub open spec fn all_group_types(groups: Seq<Seq<HostTypeView>>) -> Seq<Seq<ValueType>> {
    Seq::new(groups.len(), |i: int| group_types(groups[i]))
}

/// Reads the type groups that the host names. Each type becomes the broad
/// type that it stands for; a group that names integers beside floating-point
/// numbers asks for numeric types to be ignored, one that names strings
/// beside byte strings for string types. The first type that stands for no
/// broad type is refused.
#[verifier::loop_isolation(false)]
pub fn type_groups(groups: &Vec<Vec<HostType>>) -> (r: Result<TypeGroups, UnsupportedType>)
    ensures
        match r {
            Ok(read) => first_unsupported(host_groups_view(groups@), 0) is None && groups_view(
                read.groups@,
            ) == all_group_types(host_groups_view(groups@)) && read.ignore_numeric
                == any_mixes_numbers(host_groups_view(groups@), groups.len() as int)
                && read.ignore_string == any_mixes_strings(
                host_groups_view(groups@),
                groups.len() as int,
            ),
            Err(e) => first_unsupported(host_groups_view(groups@), 0) == Some(
                (e.group as int, e.item as int),
            ),
        },
{
    let ghost g = host_groups_view(groups@);
    let mut out: Vec<Vec<ValueType>> = Vec::new();
    let mut ignore_numeric = false;
    let mut ignore_string = false;
    let mut i: usize = 0;
    while i < groups.len()
        invariant
            i <= groups.len(),
            first_unsupported(g, 0) == first_unsupported(g, i as int),
            out@.len() == i,
            forall|j: int| 0 <= j < i ==> (#[trigger] out@[j])@ == group_types(g[j]),
            ignore_numeric == any_mixes_numbers(g, i as int),
            ignore_string == any_mixes_strings(g, i as int),
        decreases groups.len() - i,
    {
        assert(g[i as int] == host_types_view(groups@[i as int]@));
        match read_group(&groups[i]) {
            Err(item) => {
                return Err(UnsupportedType { group: i, item });
            },
            Ok((types, numeric, string)) => {
                proof {
                    if any_mixes_numbers(g, i + 1) && !numeric {
                        let k = choose|k: int|
                            0 <= k < i + 1 && k < g.len() && mixes_numbers(#[trigger] g[k]);
                        assert(k < i);
                    }
                    if any_mixes_strings(g, i + 1) && !string {
                        let k = choose|k: int|
                            0 <= k < i + 1 && k < g.len() && mixes_strings(#[trigger] g[k]);
                        assert(k < i);
                    }
                    if ignore_numeric {
                        let k = choose|k: int|
                            0 <= k < i && k < g.len() && mixes_numbers(#[trigger] g[k]);
                        assert(0 <= k < i + 1 && mixes_numbers(g[k]));
                    }
                    if ignore_string {
                        let k = choose|k: int|
                            0 <= k < i && k < g.len() && mixes_strings(#[trigger] g[k]);
                        assert(0 <= k < i + 1 && mixes_strings(g[k]));
                    }
                    if numeric {
                        assert(mixes_numbers(g[i as int]));
                    }
                    if string {
                        assert(mixes_strings(g[i as int]));
                    }
                }
                if numeric {
                    ignore_numeric = true;
                }
                if string {
                    ignore_string = true;
                }
                out.push(types);
            },
        }
        i += 1;
    }
    assert(groups_view(out@) =~= all_group_types(g));
    Ok(TypeGroups { groups: out, ignore_numeric, ignore_string })
}

// ---------------------------------------------------------------------------
// Sets
// ---------------------------------------------------------------------------

/// The items at the positions that `order` names, in that order.
pub open spec fn arranged(items: Seq<ValueView>, order: Seq<usize>) -> Seq<ValueView> {
    Seq::new(order.len(), |i: int| items[order[i] as int])
}

/// The items of a set in the dictionary order of their canonical texts, items
/// with the same text in the order in which they came.
pub open spec fn canonical_order(items: Seq<ValueView>) -> Seq<ValueView> {
    arranged(items, order_of(crate::policy::canonicals(items), items.len() as int))
}

/// Puts the items of a set, which the host hands over in no order, into the
/// dictionary order of their canonical texts.
#[verifier::loop_isolation(false)]
pub fn sort_canonically(items: Vec<Value>) -> (r: Vec<Value>)
    ensures
        items_view(r@) == canonical_order(items_view(items@)),
{
    let keys = crate::policy::canonical_strings(&items);
    let order = stable_order(&keys);
    let ghost want = canonical_order(items_view(items@));
    let mut out: Vec<Value> = Vec::new();
    let mut i: usize = 0;
    assert(keys@.len() == items@.len()) by {
        assert(texts(keys@).len() == crate::policy::canonicals(items_view(items@)).len());
    }
    while i < order.len()
        invariant
            i <= order.len(),
            out@.len() == i,
            forall|j: int| 0 <= j < i ==> (#[trigger] out@[j])@ == want[j],
        decreases order.len() - i,
    {
        out.push(items[order[i]].clone());
        i += 1;
    }
    assert(items_view(out@) =~= want);
    out
}


// ---------------------------------------------------------------------------
// Option names
// ---------------------------------------------------------------------------

/// The options that a host can set by name.
#[derive(Copy, Clone, Debug, PartialEq, Eq, Structural)]
pub enum OptionName {
    IgnoreOrder,
    IgnoreNumericTypeChanges,
    IgnoreStringTypeChanges,
    SignificantDigits,
    MathEpsilon,
    Atol,
    Rtol,
    IncludePaths,
    ExcludePaths,
    VerboseLevel,
    IgnoreTypeInGroups,
}

/// The option that a name stands for; `math_absilon` is a second name of the
/// epsilon. Any other name stands for none.
pub open spec fn named_option(key: Seq<char>) -> Option<OptionName> {
    if key == "ignore_order"@ {
        Some(OptionName::IgnoreOrder)
    } else if key == "ignore_numeric_type_changes"@ {
        Some(OptionName::IgnoreNumericTypeChanges)
    } else if key == "ignore_string_type_changes"@ {
        Some(OptionName::IgnoreStringTypeChanges)
    } else if key == "significant_digits"@ {
        Some(OptionName::SignificantDigits)
    } else if key == "math_epsilon"@ || key == "math_absilon"@ {
        Some(OptionName::MathEpsilon)
    } else if key == "atol"@ {
        Some(OptionName::Atol)
    } else if key == "rtol"@ {
        Some(OptionName::Rtol)
    } else if key == "include_paths"@ {
        Some(OptionName::IncludePaths)
    } else if key == "exclude_paths"@ {
        Some(OptionName::ExcludePaths)
    } else if key == "verbose_level"@ {
        Some(OptionName::VerboseLevel)
    } else if key == "ignore_type_in_groups"@ {
        Some(OptionName::IgnoreTypeInGroups)
    } else {
        None
    }
}

fn is_text(key: &String, name: &str) -> (r: bool)
    ensures
        r == (key@ == name@),
{
    let owned = String::from_str(name);
    *key == owned
}

/// The option that `key` stands for, or `None` for a name that stands for none.
pub fn option_name(key: &str) -> (r: Option<OptionName>)
    ensures
        r == named_option(key@),
{
    let key = String::from_str(key);
    if is_text(&key, "ignore_order") {
        Some(OptionName::IgnoreOrder)
    } else if is_text(&key, "ignore_numeric_type_changes") {
        Some(OptionName::IgnoreNumericTypeChanges)
    } else if is_text(&key, "ignore_string_type_changes") {
        Some(OptionName::IgnoreStringTypeChanges)
    } else if is_text(&key, "significant_digits") {
        Some(OptionName::SignificantDigits)
    } else if is_text(&key, "math_epsilon") || is_text(&key, "math_absilon") {
        Some(OptionName::MathEpsilon)
    } else if is_text(&key, "atol") {
        Some(OptionName::Atol)
    } else if is_text(&key, "rtol") {
        Some(OptionName::Rtol)
    } else if is_text(&key, "include_paths") {
        Some(OptionName::IncludePaths)
    } else if is_text(&key, "exclude_paths") {
        Some(OptionName::ExcludePaths)
    } else if is_text(&key, "verbose_level") {
        Some(OptionName::VerboseLevel)
    } else if is_text(&key, "ignore_type_in_groups") {
        Some(OptionName::IgnoreTypeInGroups)
    } else {
        None
    }
}

} // verus!
