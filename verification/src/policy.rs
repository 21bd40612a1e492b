//! The equivalence policy: when two values count as equal, when two values of
//! different types still count as a change of value, which paths are visited,
//! and the canonical text by which array items are matched when order is ignored.

use crate::json::signed_decimal;
use crate::json::signed_text;
use crate::json::unsigned_text;
use crate::options::DeepDiffOptions;
use crate::options::OptionsView;
use crate::options::ValueType;
use crate::options::groups_view;
use crate::options::pairs_view;
use crate::order::sort;
use crate::order::sort_texts;
use crate::text::chars_of;
use crate::text::decimal;
use crate::text::has_prefix;
use crate::text::push_decimal;
use crate::text::texts;
use crate::value::Number;
use crate::value::NumberView;
use crate::value::Value;
use crate::value::ValueView;
use crate::value::find_key;
use crate::value::group_value_views;
use crate::value::identical;
use crate::value::items_view;
use crate::value::member_index;
use crate::value::same_number;
use vstd::prelude::*;

verus! {

// ---------------------------------------------------------------------------
// Types
// ---------------------------------------------------------------------------

/// The broad type of a value.
pub open spec fn type_of(v: ValueView) -> ValueType {
    match v {
        ValueView::Number(_) => ValueType::Number,
        ValueView::String(_) => ValueType::String,
        ValueView::Bool(_) => ValueType::Bool,
        ValueView::Null => ValueType::Null,
        ValueView::Array(_) => ValueType::Array,
        ValueView::Object(_) => ValueType::Object,
    }
}

/// The broad type of `value`.
pub fn value_type(value: &Value) -> (r: ValueType)
    ensures
        r == type_of(value@),
{
    match value {
        Value::Number(_) => ValueType::Number,
        Value::String(_) => ValueType::String,
        Value::Bool(_) => ValueType::Bool,
        Value::Null => ValueType::Null,
        Value::Array(_) => ValueType::Array,
        Value::Object(_) => ValueType::Object,
    }
}

/// The name under which the type of a value is reported.
pub open spec fn type_label_of(v: ValueView) -> Seq<char> {
    match v {
        ValueView::Null => "null"@,
        ValueView::Bool(_) => "bool"@,
        ValueView::Number(NumberView::Float(_)) => "float"@,
        ValueView::Number(_) => "int"@,
        ValueView::String(_) => "str"@,
        ValueView::Array(_) => "list"@,
        ValueView::Object(_) => "dict"@,
    }
}

/// The name under which the type of `value` is reported.
pub fn type_label(value: &Value) -> (r: &'static str)
    ensures
        r@ == type_label_of(value@),
{
    match value {
        Value::Null => "null",
        Value::Bool(_) => "bool",
        Value::Number(n) => match n {
            Number::Float(_) => "float",
            _ => "int",
        },
        Value::String(_) => "str",
        Value::Array(_) => "list",
        Value::Object(_) => "dict",
    }
}

/// True when both values are scalars of the same broad type.
pub open spec fn same_scalar_type(a: ValueView, b: ValueView) -> bool {
    match (a, b) {
        (ValueView::Number(_), ValueView::Number(_)) => true,
        (ValueView::String(_), ValueView::String(_)) => true,
        (ValueView::Bool(_), ValueView::Bool(_)) => true,
        (ValueView::Null, ValueView::Null) => true,
        _ => false,
    }
}

/// True when some group holds both types.
pub open spec fn share_group(groups: Seq<Seq<ValueType>>, a: ValueType, b: ValueType) -> bool {
    exists|i: int| 0 <= i < groups.len() && (#[trigger] groups[i]).contains(a) && groups[i].contains(b)
}

/// True when a difference between the two values is one of value, not of
/// type: both are scalars of the same broad type, or type groups are
/// configured and the two types are the same or share a group.
pub open spec fn compatible(a: ValueView, b: ValueView, o: OptionsView) -> bool {
    same_scalar_type(a, b) || (o.ignore_type_in_groups.len() > 0 && (type_of(a) == type_of(b)
        || share_group(o.ignore_type_in_groups, type_of(a), type_of(b))))
}

#[verifier::loop_isolation(false)]
fn group_holds(group: &Vec<ValueType>, t: ValueType) -> (r: bool)
    ensures
        r == group@.contains(t),
{
    let mut i: usize = 0;
    while i < group.len()
        invariant
            i <= group.len(),
            forall|j: int| 0 <= j < i ==> group@[j] != t,
        decreases group.len() - i,
    {
        if group[i] == t {
            return true;
        }
        i += 1;
    }
    false
}

/// True when a difference between `t1` and `t2` is one of value, not of type.
#[verifier::loop_isolation(false)]
pub fn types_compatible(t1: &Value, t2: &Value, options: &DeepDiffOptions) -> (r: bool)
    ensures
        r == compatible(t1@, t2@, options@),
{
    let same = match (t1, t2) {
        (Value::Number(_), Value::Number(_)) => true,
        (Value::String(_), Value::String(_)) => true,
        (Value::Bool(_), Value::Bool(_)) => true,
        (Value::Null, Value::Null) => true,
        _ => false,
    };
    if same {
        return true;
    }
    let groups = options.type_groups();
    if groups.len() == 0 {
        return false;
    }
    let vt1 = value_type(t1);
    let vt2 = value_type(t2);
    if vt1 == vt2 {
        return true;
    }
    let mut i: usize = 0;
    while i < groups.len()
        invariant
            i <= groups.len(),
            forall|j: int|
                0 <= j < i ==> !((#[trigger] groups_view(groups@)[j]).contains(vt1) && groups_view(
                    groups@,
                )[j].contains(vt2)),
        decreases groups.len() - i,
    {
        if group_holds(&groups[i], vt1) && group_holds(&groups[i], vt2) {
            assert(groups_view(groups@)[i as int].contains(vt1));
            return true;
        }
        i += 1;
    }
    false
}

// ---------------------------------------------------------------------------
// Paths
// ---------------------------------------------------------------------------

/// True when some entry of `excluded` is the path or a beginning of it.
pub open spec fn excluded_by(path: Seq<char>, excluded: Seq<Seq<char>>) -> bool {
    exists|i: int| 0 <= i < excluded.len() && (#[trigger] excluded[i]).is_prefix_of(path)
}

/// True when some entry of `included` is the path, lies under it or leads to it.
pub open spec fn included_by(path: Seq<char>, included: Seq<Seq<char>>) -> bool {
    exists|i: int|
        0 <= i < included.len() && (path.is_prefix_of(#[trigger] included[i])
            || included[i].is_prefix_of(path))
}

/// True when the comparison visits `path`: no excluded path is the path or a
/// beginning of it, and either nothing is included or some included path is
/// the path, a beginning of it, or a continuation of it.
pub open spec fn allowed(path: Seq<char>, o: OptionsView) -> bool {
    !excluded_by(path, o.exclude_paths) && (o.include_paths.len() == 0 || included_by(
        path,
        o.include_paths,
    ))
}

/// True when the comparison visits `path`.
#[verifier::loop_isolation(false)]
pub fn path_allowed(path: &str, options: &DeepDiffOptions) -> (r: bool)
    ensures
        r == allowed(path@, options@),
{
    let chars = chars_of(path);
    let excluded = options.excluded();
    let mut i: usize = 0;
    while i < excluded.len()
        invariant
            i <= excluded.len(),
            forall|j: int| 0 <= j < i ==> !(#[trigger] texts(excluded@)[j]).is_prefix_of(path@),
        decreases excluded.len() - i,
    {
        let entry = chars_of(excluded[i].as_str());
        if has_prefix(&chars, &entry) {
            assert(texts(excluded@)[i as int].is_prefix_of(path@));
            return false;
        }
        i += 1;
    }
    let included = options.included();
    if included.len() == 0 {
        return true;
    }
    let mut k: usize = 0;
    while k < included.len()
        invariant
            k <= included.len(),
            forall|j: int|
                0 <= j < k ==> !(path@.is_prefix_of(#[trigger] texts(included@)[j]) || texts(
                    included@,
                )[j].is_prefix_of(path@)),
        decreases included.len() - k,
    {
        let entry = chars_of(included[k].as_str());
        if has_prefix(&entry, &chars) || has_prefix(&chars, &entry) {
            assert(path@.is_prefix_of(texts(included@)[k as int]) || texts(
                included@,
            )[k as int].is_prefix_of(path@));
            return true;
        }
        k += 1;
    }
    false
}

// ---------------------------------------------------------------------------
// Canonical text
// ---------------------------------------------------------------------------

/// The text of a number: the numeral of an integer, the text that a
/// floating-point value is held as.
pub open spec fn number_text(n: NumberView) -> Seq<char> {
    match n {
        NumberView::PosInt(u) => decimal(u as nat),
        NumberView::NegInt(i) => signed_decimal(i as int),
        NumberView::Float(t) => t,
    }
}

/// The text of `n`.
pub fn format_number(n: &Number) -> (r: String)
    ensures
        r@ == number_text(n@),
{
    match n {
        Number::PosInt(u) => unsigned_text(*u),
        Number::NegInt(i) => signed_text(*i),
        Number::Float(t) => t.clone(),
    }
}

/// The keys of the members of an object, in the order of the members.
pub open spec fn keys_of(members: Seq<(Seq<char>, ValueView)>) -> Seq<Seq<char>> {
    Seq::new(members.len(), |i: int| members[i].0)
}

/// A content in its frame: the tag, the number of characters of the content
/// in decimal digits, a colon, and the content. A frame tells where it ends.
pub open spec fn framed(tag: Seq<char>, content: Seq<char>) -> Seq<char> {
    tag + decimal(content.len()) + ":"@ + content
}

/// The parts one after the other.
pub open spec fn concat(parts: Seq<Seq<char>>) -> Seq<char>
    decreases parts.len(),
{
    if parts.len() == 0 {
        Seq::empty()
    } else {
        concat(parts.drop_last()) + parts.last()
    }
}

/// The text of a floating-point value in a canonical text: the two zeros are
/// written alike.
pub open spec fn float_text(t: Seq<char>) -> Seq<char> {
    if crate::value::zero_text(t) {
        "0.0"@
    } else {
        t
    }
}

/// The canonical text of a value: a frame tagged by type. Integers and
/// floating-point values have tags of their own, strings are written as they
/// are, arrays hold the canonical texts of their items in order, and objects
/// hold, in the dictionary order of the keys, each key in a frame followed by
/// the canonical text of its value. Two well-formed values have the same
/// canonical text exactly when they are identical.
pub open spec fn canonical(v: ValueView) -> Seq<char>
    decreases v, 0nat,
{
    match v {
        ValueView::Null => framed("null:"@, Seq::empty()),
        ValueView::Bool(b) => framed("bool:"@, if b {
            "true"@
        } else {
            "false"@
        }),
        ValueView::Number(NumberView::Float(t)) => framed("float:"@, float_text(t)),
        ValueView::Number(n) => framed("int:"@, number_text(n)),
        ValueView::String(s) => framed("str:"@, s),
        ValueView::Array(items) => framed("list:"@, concat(canonicals(items))),
        ValueView::Object(members) => framed("dict:"@, concat(canonical_members(members))),
    }
}

/// The canonical texts of the items of an array.
pub open spec fn canonicals(items: Seq<ValueView>) -> Seq<Seq<char>>
    decreases items, 1nat,
{
    Seq::new(
        items.len(),
        |i: int|
            if 0 <= i < items.len() {
                canonical(items[i])
            } else {
                Seq::empty()
            },
    )
}

/// The canonical texts of the members of an object, in the dictionary order
/// of the keys: the key in a frame, then the canonical text of the value.
pub open spec fn canonical_members(members: Seq<(Seq<char>, ValueView)>) -> Seq<Seq<char>>
    decreases members, 1nat,
{
    Seq::new(
        members.len(),
        |j: int|
            {
                let key = sort(keys_of(members))[j];
                match find_key(members, key, 0) {
                    Some(i) => if 0 <= i < members.len() {
                        framed("key:"@, key) + canonical(members[i].1)
                    } else {
                        framed("key:"@, key)
                    },
                    None => framed("key:"@, key),
                }
            },
    )
}

/// `content` in the frame tagged `tag`.
pub fn frame(tag: &str, content: &str) -> (r: String)
    ensures
        r@ == framed(tag@, content@),
{
    let mut out = String::from_str(tag);
    push_decimal(&mut out, content.unicode_len());
    out.append(":");
    out.append(content);
    out
}

/// The parts one after the other.
#[verifier::loop_isolation(false)]
pub fn concat_texts(parts: &Vec<String>) -> (r: String)
    ensures
        r@ == concat(texts(parts@)),
{
    let mut out = String::new();
    let mut i: usize = 0;
    assert(texts(parts@).take(0) =~= Seq::<Seq<char>>::empty());
    while i < parts.len()
        invariant
            i <= parts.len(),
            out@ == concat(texts(parts@).take(i as int)),
        decreases parts.len() - i,
    {
        assert(texts(parts@).take(i + 1).drop_last() =~= texts(parts@).take(i as int));
        assert(texts(parts@).take(i + 1).last() == parts@[i as int]@);
        out.append(parts[i].as_str());
        i += 1;
    }
    assert(texts(parts@).take(parts.len() as int) =~= texts(parts@));
    out
}

/// The canonical text of `value`.
#[verifier::loop_isolation(false)]
pub fn canonical_string(value: &Value) -> (r: String)
    ensures
        r@ == canonical(value@),
    decreases value,
{
    broadcast use group_value_views;

    match value {
        Value::Null => {
            proof {
                reveal_strlit("");
                assert(""@ =~= Seq::<char>::empty());
            }
            frame("null:", "")
        },
        Value::Bool(b) => {
            if *b {
                frame("bool:", "true")
            } else {
                frame("bool:", "false")
            }
        },
        Value::Number(n) => match n {
            Number::Float(t) => {
                let plus = String::from_str("0.0");
                let minus = String::from_str("-0.0");
                if *t == plus || *t == minus {
                    frame("float:", "0.0")
                } else {
                    frame("float:", t.as_str())
                }
            },
            _ => frame("int:", format_number(n).as_str()),
        },
        Value::String(s) => frame("str:", s.as_str()),
        Value::Array(items) => {
            let ghost want = value@->Array_0;
            let ghost parts_spec = canonicals(want);
            let mut parts: Vec<String> = Vec::new();
            let mut i: usize = 0;
            while i < items.len()
                invariant
                    i <= items.len(),
                    parts@.len() == i,
                    forall|j: int| 0 <= j < i ==> (#[trigger] parts@[j])@ == parts_spec[j],
                decreases items.len() - i,
            {
                parts.push(canonical_string(&items[i]));
                i += 1;
            }
            assert(texts(parts@) =~= parts_spec);
            frame("list:", concat_texts(&parts).as_str())
        },
        Value::Object(members) => {
            let ghost want = value@->Object_0;
            let mut keys: Vec<String> = Vec::new();
            let mut k: usize = 0;
            while k < members.len()
                invariant
                    k <= members.len(),
                    keys@.len() == k,
                    forall|j: int| 0 <= j < k ==> (#[trigger] keys@[j])@ == members@[j].0@,
                decreases members.len() - k,
            {
                keys.push(members[k].0.clone());
                k += 1;
            }
            assert(texts(keys@) =~= keys_of(want));
            let sorted = sort_texts(keys);
            proof {
                crate::order::lemma_sort_sorted(keys_of(want));
            }
            let ghost parts_spec = canonical_members(want);
            let mut parts: Vec<String> = Vec::new();
            let mut j: usize = 0;
            while j < sorted.len()
                invariant
                    j <= sorted.len(),
                    sorted@.len() == want.len(),
                    parts@.len() == j,
                    forall|i: int| 0 <= i < j ==> (#[trigger] parts@[i])@ == parts_spec[i],
                decreases sorted.len() - j,
            {
                let key = &sorted[j];
                assert(key@ == texts(sorted@)[j as int]);
                let mut part = frame("key:", key.as_str());
                match member_index(members, key.as_str()) {
                    Some(i) => {
                        part.append(canonical_string(&members[i].1).as_str());
                    },
                    None => {},
                }
                parts.push(part);
                j += 1;
            }
            assert(texts(parts@) =~= parts_spec);
            frame("dict:", concat_texts(&parts).as_str())
        },
    }
}

// ---------------------------------------------------------------------------
// Equality
// ---------------------------------------------------------------------------

/// True when the two numbers count as equal: the pair is among the numeric
/// matches, in one order or the other, or no number of significant digits is
/// set and the numbers are of the same kind and equal.
///
/// No arithmetic is done here. With a number of significant digits set, the
/// numeric matches alone decide: a pair that is not among them counts as
/// different, a number and itself too.
pub open spec fn numbers_equal_under(a: NumberView, b: NumberView, o: OptionsView) -> bool {
    o.numeric_matches.contains((a, b)) || o.numeric_matches.contains((b, a)) || (
    o.significant_digits is None && same_number(a, b))
}

/// True when the numbers `n1` and `n2` count as equal under `options`: the
/// two stand among the numeric matches as a pair, or no number of
/// significant digits is set and they are of the same kind and equal. The
/// library rounds nothing and applies no tolerance; with significant digits
/// set it takes two numbers for equal only where the caller has handed the
/// pair over.
#[verifier::loop_isolation(false)]
pub fn numbers_equal(n1: &Number, n2: &Number, options: &DeepDiffOptions) -> (r: bool)
    ensures
        r == numbers_equal_under(n1@, n2@, options@),
{
    let pairs = options.matches();
    let mut i: usize = 0;
    while i < pairs.len()
        invariant
            i <= pairs.len(),
            forall|j: int|
                0 <= j < i ==> pairs_view(pairs@)[j] != (n1@, n2@) && pairs_view(pairs@)[j] != (
                    n2@,
                    n1@,
                ),
        decreases pairs.len() - i,
    {
        if pairs[i].0.written_as(n1) && pairs[i].1.written_as(n2) {
            assert(pairs_view(pairs@)[i as int] == (n1@, n2@));
            return true;
        }
        if pairs[i].0.written_as(n2) && pairs[i].1.written_as(n1) {
            assert(pairs_view(pairs@)[i as int] == (n2@, n1@));
            return true;
        }
        i += 1;
    }
    match options.digits() {
        Some(_) => false,
        None => n1.same_as(n2),
    }
}

/// How often `x` occurs in `s`.
pub open spec fn count(s: Seq<Seq<char>>, x: Seq<char>) -> nat
    decreases s.len(),
{
    if s.len() == 0 {
        0
    } else {
        count(s.drop_last(), x) + if s.last() == x {
            1nat
        } else {
            0nat
        }
    }
}

/// True when every text occurs as often in `a` as in `b`.
pub open spec fn same_bag(a: Seq<Seq<char>>, b: Seq<Seq<char>>) -> bool {
    forall|x: Seq<char>| count(a, x) == count(b, x)
}

/// A text that does not occur is counted zero times.
pub proof fn lemma_count_absent(s: Seq<Seq<char>>, x: Seq<char>)
    requires
        forall|i: int| 0 <= i < s.len() ==> s[i] != x,
    ensures
        count(s, x) == 0,
    decreases s.len(),
{
    if s.len() > 0 {
        assert(forall|i: int| 0 <= i < s.drop_last().len() ==> s.drop_last()[i] == s[i]);
        lemma_count_absent(s.drop_last(), x);
    }
}

/// How often `x` occurs among the first `n` of `v`.
#[verifier::loop_isolation(false)]
pub fn count_in(v: &Vec<String>, n: usize, x: &String) -> (r: usize)
    requires
        n <= v.len(),
    ensures
        r == count(texts(v@).take(n as int), x@),
        r <= n,
{
    let mut c: usize = 0;
    let mut i: usize = 0;
    let ghost s = texts(v@);
    assert(s.take(0) =~= Seq::<Seq<char>>::empty());
    while i < n
        invariant
            i <= n,
            c <= i,
            c == count(s.take(i as int), x@),
        decreases n - i,
    {
        assert(s.take(i + 1).drop_last() =~= s.take(i as int));
        assert(s.take(i + 1).last() == v@[i as int]@);
        if v[i] == *x {
            c += 1;
        }
        i += 1;
    }
    c
}

#[verifier::loop_isolation(false)]
fn counts_agree(a: &Vec<String>, b: &Vec<String>) -> (r: bool)
    ensures
        r == forall|i: int|
            0 <= i < a.len() ==> count(texts(a@), #[trigger] texts(a@)[i]) == count(
                texts(b@),
                texts(a@)[i],
            ),
{
    let mut i: usize = 0;
    assert(texts(a@).take(a.len() as int) =~= texts(a@));
    assert(texts(b@).take(b.len() as int) =~= texts(b@));
    while i < a.len()
        invariant
            i <= a.len(),
            forall|j: int|
                0 <= j < i ==> count(texts(a@), #[trigger] texts(a@)[j]) == count(
                    texts(b@),
                    texts(a@)[j],
                ),
        decreases a.len() - i,
    {
        if count_in(a, a.len(), &a[i]) != count_in(b, b.len(), &a[i]) {
            assert(count(texts(a@), texts(a@)[i as int]) != count(texts(b@), texts(a@)[i as int]));
            return false;
        }
        i += 1;
    }
    true
}

/// True when every text occurs as often in `a` as in `b`.
pub fn same_texts(a: &Vec<String>, b: &Vec<String>) -> (r: bool)
    ensures
        r == same_bag(texts(a@), texts(b@)),
{
    let r = counts_agree(a, b) && counts_agree(b, a);
    proof {
        let sa = texts(a@);
        let sb = texts(b@);
        if r {
            assert forall|x: Seq<char>| count(sa, x) == count(sb, x) by {
                if exists|i: int| 0 <= i < sa.len() && sa[i] == x {
                    let i = choose|i: int| 0 <= i < sa.len() && sa[i] == x;
                    assert(count(sa, sa[i]) == count(sb, sa[i]));
                } else if exists|i: int| 0 <= i < sb.len() && sb[i] == x {
                    let i = choose|i: int| 0 <= i < sb.len() && sb[i] == x;
                    assert(count(sb, sb[i]) == count(sa, sb[i]));
                } else {
                    lemma_count_absent(sa, x);
                    lemma_count_absent(sb, x);
                }
            }
        }
    }
    r
}

/// The canonical texts of `items`.
#[verifier::loop_isolation(false)]
pub fn canonical_strings(items: &[Value]) -> (r: Vec<String>)
    ensures
        texts(r@) == canonicals(items_view(items@)),
{
    let mut out: Vec<String> = Vec::new();
    let mut i: usize = 0;
    while i < items.len()
        invariant
            i <= items.len(),
            out@.len() == i,
            forall|j: int| 0 <= j < i ==> (#[trigger] out@[j])@ == canonical(items@[j]@),
        decreases items.len() - i,
    {
        out.push(canonical_string(&items[i]));
        i += 1;
    }
    assert(texts(out@) =~= canonicals(items_view(items@)));
    out
}

/// True when the two values count as equal: numbers by the numeric rule,
/// strings, booleans and null by content, arrays item by item or, when order
/// is ignored, as bags of canonical texts, objects key by key; values of
/// different shapes never.
pub open spec fn equal_under(a: ValueView, b: ValueView, o: OptionsView) -> bool {
    match (a, b) {
        (ValueView::Number(x), ValueView::Number(y)) => numbers_equal_under(x, y, o),
        (ValueView::String(x), ValueView::String(y)) => x == y,
        (ValueView::Bool(x), ValueView::Bool(y)) => x == y,
        (ValueView::Null, ValueView::Null) => true,
        (ValueView::Array(x), ValueView::Array(y)) => if o.ignore_order {
            same_bag(canonicals(x), canonicals(y))
        } else {
            identical(a, b)
        },
        (ValueView::Object(_), ValueView::Object(_)) => identical(a, b),
        _ => false,
    }
}

/// True when `t1` and `t2` count as equal under `options`.
pub fn values_equal(t1: &Value, t2: &Value, options: &DeepDiffOptions) -> (r: bool)
    ensures
        r == equal_under(t1@, t2@, options@),
{
    broadcast use group_value_views;

    match (t1, t2) {
        (Value::Number(n1), Value::Number(n2)) => numbers_equal(n1, n2, options),
        (Value::String(s1), Value::String(s2)) => {
            let r = *s1 == *s2;
            r
        },
        (Value::Bool(b1), Value::Bool(b2)) => *b1 == *b2,
        (Value::Null, Value::Null) => true,
        (Value::Array(a1), Value::Array(a2)) => {
            if options.orders_ignored() {
                let c1 = canonical_strings(a1);
                let c2 = canonical_strings(a2);
                same_texts(&c1, &c2)
            } else {
                t1.identical_to(t2)
            }
        },
        (Value::Object(_), Value::Object(_)) => t1.identical_to(t2),
        _ => false,
    }
}

} // verus!
