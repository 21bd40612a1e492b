//! The value model: a tree of null, booleans, numbers, strings, arrays and
//! objects, together with its mathematical view.

use crate::path::PathSegment;
use crate::path::SegmentView;
use crate::path::segments_view;
use vstd::prelude::*;
use vstd::std_specs::cmp::PartialEqSpecImpl;

verus! {

/// A number, with integers kept apart from floating-point values.
#[derive(Debug)]
pub enum Number {
    /// A non-negative integer.
    PosInt(u64),
    /// A negative integer.
    NegInt(i64),
    /// A floating-point value, held as its shortest decimal text.
    Float(String),
}

/// The mathematical view of a [`Number`].
pub enum NumberView {
    PosInt(u64),
    NegInt(i64),
    Float(Seq<char>),
}

impl View for Number {
    type V = NumberView;

    open spec fn view(&self) -> NumberView {
        match self {
            Number::PosInt(u) => NumberView::PosInt(*u),
            Number::NegInt(i) => NumberView::NegInt(*i),
            Number::Float(t) => NumberView::Float(t@),
        }
    }
}

/// A value: null, a boolean, a number, a string, an array of values, or an
/// object, which holds its members in the order of the mapping it stands for.
/// No two members of an object have the same key.
#[derive(Debug)]
pub enum Value {
    Null,
    Bool(bool),
    Number(Number),
    String(String),
    Array(Vec<Value>),
    Object(Vec<(String, Value)>),
}

/// The mathematical view of a [`Value`].
pub enum ValueView {
    Null,
    Bool(bool),
    Number(NumberView),
    String(Seq<char>),
    Array(Seq<ValueView>),
    Object(Seq<(Seq<char>, ValueView)>),
}

/// The view of a value: the same tree, with texts as sequences of characters.
pub open spec fn value_view(v: Value) -> ValueView
    decreases v,
{
    match v {
        Value::Null => ValueView::Null,
        Value::Bool(b) => ValueView::Bool(b),
        Value::Number(n) => ValueView::Number(n@),
        Value::String(s) => ValueView::String(s@),
        Value::Array(items) => ValueView::Array(
            Seq::new(
                items@.len(),
                |i: int|
                    if 0 <= i < items@.len() {
                        value_view(items@[i])
                    } else {
                        ValueView::Null
                    },
            ),
        ),
        Value::Object(members) => ValueView::Object(
            Seq::new(
                members@.len(),
                |i: int|
                    if 0 <= i < members@.len() {
                        (members@[i].0@, value_view(members@[i].1))
                    } else {
                        (Seq::empty(), ValueView::Null)
                    },
            ),
        ),
    }
}

impl View for Value {
    type V = ValueView;

    open spec fn view(&self) -> ValueView {
        value_view(*self)
    }
}

impl Value {
    /// A deep copy of the value.
    #[verifier::loop_isolation(false)]
    pub fn duplicate(&self) -> (r: Value)
        ensures
            r@ == self@,
        decreases self,
    {
        match self {
            Value::Null => Value::Null,
            Value::Bool(b) => Value::Bool(*b),
            Value::Number(n) => Value::Number(n.clone()),
            Value::String(s) => Value::String(s.clone()),
            Value::Array(items) => {
                let mut out: Vec<Value> = Vec::new();
                let mut i: usize = 0;
                while i < items.len()
                    invariant
                        i <= items.len(),
                        out@.len() == i,
                        forall|j: int| 0 <= j < i ==> out@[j]@ == items@[j]@,
                    decreases items.len() - i,
                {
                    out.push(items[i].duplicate());
                    i += 1;
                }
                let r = Value::Array(out);
                assert(r@->Array_0 =~= self@->Array_0);
                r
            },
            Value::Object(members) => {
                let mut out: Vec<(String, Value)> = Vec::new();
                let mut i: usize = 0;
                while i < members.len()
                    invariant
                        i <= members.len(),
                        out@.len() == i,
                        forall|j: int| 0 <= j < i ==> out@[j].0@ == members@[j].0@ && out@[j].1@ == members@[j].1@,
                    decreases members.len() - i,
                {
                    out.push((members[i].0.clone(), members[i].1.duplicate()));
                    i += 1;
                }
                let r = Value::Object(out);
                assert(r@->Object_0 =~= self@->Object_0);
                r
            },
        }
    }
}

impl Clone for Value {
    fn clone(&self) -> (r: Value)
        ensures
            r@ == self@,
    {
        self.duplicate()
    }
}

impl Clone for Number {
    fn clone(&self) -> (r: Number)
        ensures
            r@ == self@,
    {
        match self {
            Number::PosInt(u) => Number::PosInt(*u),
            Number::NegInt(i) => Number::NegInt(*i),
            Number::Float(t) => Number::Float(t.clone()),
        }
    }
}

/// The views of the items of an array.
pub open spec fn items_view(items: Seq<Value>) -> Seq<ValueView> {
    Seq::new(items.len(), |i: int| items[i]@)
}

/// The views of the members of an object.
pub open spec fn members_view(members: Seq<(String, Value)>) -> Seq<(Seq<char>, ValueView)> {
    Seq::new(members.len(), |i: int| (members[i].0@, members[i].1@))
}

proof fn lemma_array_view_plain(items: Vec<Value>)
    ensures
        Value::Array(items)@ == ValueView::Array(items_view(items@)),
{
    assert(Value::Array(items)@->Array_0 =~= items_view(items@));
}

proof fn lemma_object_view_plain(members: Vec<(String, Value)>)
    ensures
        Value::Object(members)@ == ValueView::Object(members_view(members@)),
{
    assert(Value::Object(members)@->Object_0 =~= members_view(members@));
}

/// The view of an array is the array of the views of its items.
pub broadcast proof fn lemma_array_view(items: Vec<Value>)
    ensures
        #[trigger] Value::Array(items)@ == ValueView::Array(items_view(items@)),
{
    lemma_array_view_plain(items);
}

/// The view of an object is the object of the views of its members.
pub broadcast proof fn lemma_object_view(members: Vec<(String, Value)>)
    ensures
        #[trigger] Value::Object(members)@ == ValueView::Object(members_view(members@)),
{
    lemma_object_view_plain(members);
}

pub broadcast group group_value_views {
    lemma_array_view,
    lemma_object_view,
}

// ---------------------------------------------------------------------------
// Members of an object
// ---------------------------------------------------------------------------

/// The first position at or after `from` of a member with the key `key`, if any.
pub open spec fn find_key(
    members: Seq<(Seq<char>, ValueView)>,
    key: Seq<char>,
    from: int,
) -> Option<int>
    decreases members.len() - from,
{
    if from < 0 || from >= members.len() {
        None
    } else if members[from].0 == key {
        Some(from)
    } else {
        find_key(members, key, from + 1)
    }
}

/// The value that an object holds under `key`, if any.
pub open spec fn member(members: Seq<(Seq<char>, ValueView)>, key: Seq<char>) -> Option<
    ValueView,
> {
    match find_key(members, key, 0) {
        Some(i) => Some(members[i].1),
        None => None,
    }
}

/// True when no two members have the same key.
pub open spec fn distinct_keys(members: Seq<(Seq<char>, ValueView)>) -> bool {
    forall|i: int, j: int|
        0 <= i < j < members.len() ==> (#[trigger] members[i]).0 != (#[trigger] members[j]).0
}

/// A found member has the key, and no member before it has.
pub proof fn lemma_find_key(members: Seq<(Seq<char>, ValueView)>, key: Seq<char>, from: int)
    requires
        0 <= from,
    ensures
        find_key(members, key, from) matches Some(i) ==> from <= i < members.len() && members[i].0
            == key && forall|j: int| from <= j < i ==> (#[trigger] members[j]).0 != key,
        find_key(members, key, from) is None ==> forall|j: int|
            from <= j < members.len() ==> (#[trigger] members[j]).0 != key,
    decreases members.len() - from,
{
    if from < members.len() && members[from].0 != key {
        lemma_find_key(members, key, from + 1);
    }
}

/// Among distinct keys, the member at position `i` is the one found under its key.
pub proof fn lemma_find_own_key(members: Seq<(Seq<char>, ValueView)>, i: int)
    requires
        distinct_keys(members),
        0 <= i < members.len(),
    ensures
        find_key(members, members[i].0, 0) == Some(i),
{
    lemma_find_key(members, members[i].0, 0);
}

/// The position of the member of `members` with the key `key`, if any.
#[verifier::loop_isolation(false)]
pub fn member_index(members: &Vec<(String, Value)>, key: &str) -> (r: Option<usize>)
    ensures
        match r {
            Some(i) => find_key(members_view(members@), key@, 0) == Some(i as int) && i
                < members.len(),
            None => find_key(members_view(members@), key@, 0) is None,
        },
{
    let mut i: usize = 0;
    let owned = String::from_str(key);
    while i < members.len()
        invariant
            i <= members.len(),
            find_key(members_view(members@), key@, 0) == find_key(
                members_view(members@),
                key@,
                i as int,
            ),
        decreases members.len() - i,
    {
        if members[i].0 == owned {
            return Some(i);
        }
        i += 1;
    }
    None
}

// ---------------------------------------------------------------------------
// Well-formedness
// ---------------------------------------------------------------------------

/// True when, throughout the value, no object has two members with the same
/// key and every negative integer is below zero.
pub open spec fn well_formed(v: ValueView) -> bool
    decreases v,
{
    match v {
        ValueView::Number(NumberView::NegInt(i)) => i < 0,
        ValueView::Array(items) => forall|i: int|
            0 <= i < items.len() ==> well_formed(#[trigger] items[i]),
        ValueView::Object(members) => distinct_keys(members) && forall|i: int|
            0 <= i < members.len() ==> well_formed((#[trigger] members[i]).1),
        _ => true,
    }
}

// ---------------------------------------------------------------------------
// Identity
// ---------------------------------------------------------------------------

/// True for the two texts of a floating-point zero.
pub open spec fn zero_text(t: Seq<char>) -> bool {
    t == "0.0"@ || t == "-0.0"@
}

/// True when the two numbers are of the same kind and equal: integers by
/// value, floating-point values by text, the two zeros counting as equal.
pub open spec fn same_number(a: NumberView, b: NumberView) -> bool {
    match (a, b) {
        (NumberView::PosInt(x), NumberView::PosInt(y)) => x == y,
        (NumberView::NegInt(x), NumberView::NegInt(y)) => x == y,
        (NumberView::Float(x), NumberView::Float(y)) => x == y || (zero_text(x) && zero_text(y)),
        _ => false,
    }
}

/// True when the two values are the same tree: equal scalars, arrays equal
/// item by item, objects with the same keys and the same value under each.
/// The order of an object's members does not count.
pub open spec fn identical(a: ValueView, b: ValueView) -> bool
    decreases a, 0nat,
{
    match (a, b) {
        (ValueView::Null, ValueView::Null) => true,
        (ValueView::Bool(x), ValueView::Bool(y)) => x == y,
        (ValueView::Number(x), ValueView::Number(y)) => same_number(x, y),
        (ValueView::String(x), ValueView::String(y)) => x == y,
        (ValueView::Array(x), ValueView::Array(y)) => x.len() == y.len() && forall|i: int|
            0 <= i < x.len() ==> identical(#[trigger] x[i], y[i]),
        (ValueView::Object(x), ValueView::Object(y)) => x.len() == y.len() && forall|i: int|
            0 <= i < x.len() ==> same_member(#[trigger] x[i], y),
        _ => false,
    }
}

/// True when `other` holds, under the key of `m`, a value identical to that of `m`.
pub open spec fn same_member(
    m: (Seq<char>, ValueView),
    other: Seq<(Seq<char>, ValueView)>,
) -> bool
    decreases m.1, 1nat,
{
    match member(other, m.0) {
        Some(v) => identical(m.1, v),
        None => false,
    }
}

impl Number {
    /// True when the two numbers are of the same kind and equal.
    pub fn same_as(&self, other: &Number) -> (r: bool)
        ensures
            r == same_number(self@, other@),
    {
        match (self, other) {
            (Number::PosInt(x), Number::PosInt(y)) => *x == *y,
            (Number::NegInt(x), Number::NegInt(y)) => *x == *y,
            (Number::Float(x), Number::Float(y)) => {
                if *x == *y {
                    return true;
                }
                let plus = String::from_str("0.0");
                let minus = String::from_str("-0.0");
                (*x == plus || *x == minus) && (*y == plus || *y == minus)
            },
            _ => false,
        }
    }

    /// True when the two numbers are written alike: same kind, same value, same text.
    pub fn written_as(&self, other: &Number) -> (r: bool)
        ensures
            r == (self@ == other@),
    {
        match (self, other) {
            (Number::PosInt(x), Number::PosInt(y)) => *x == *y,
            (Number::NegInt(x), Number::NegInt(y)) => *x == *y,
            (Number::Float(x), Number::Float(y)) => {
                let r = *x == *y;
                r
            },
            _ => false,
        }
    }
}

impl Value {
    /// True when the two values are the same tree; see [`identical`].
    #[verifier::loop_isolation(false)]
    pub fn identical_to(&self, other: &Value) -> (r: bool)
        ensures
            r == identical(self@, other@),
        decreases self,
    {
        broadcast use group_value_views;

        match (self, other) {
            (Value::Null, Value::Null) => true,
            (Value::Bool(x), Value::Bool(y)) => *x == *y,
            (Value::Number(x), Value::Number(y)) => x.same_as(y),
            (Value::String(x), Value::String(y)) => {
                let r = *x == *y;
                r
            },
            (Value::Array(x), Value::Array(y)) => {
                if x.len() != y.len() {
                    return false;
                }
                let mut i: usize = 0;
                while i < x.len()
                    invariant
                        i <= x.len(),
                        forall|j: int|
                            0 <= j < i ==> identical(
                                #[trigger] items_view(x@)[j],
                                items_view(y@)[j],
                            ),
                    decreases x.len() - i,
                {
                    if !x[i].identical_to(&y[i]) {
                        assert(!identical(items_view(x@)[i as int], items_view(y@)[i as int]));
                        return false;
                    }
                    i += 1;
                }
                true
            },
            (Value::Object(x), Value::Object(y)) => {
                if x.len() != y.len() {
                    return false;
                }
                let mut i: usize = 0;
                while i < x.len()
                    invariant
                        i <= x.len(),
                        forall|j: int|
                            0 <= j < i ==> same_member(
                                #[trigger] members_view(x@)[j],
                                members_view(y@),
                            ),
                    decreases x.len() - i,
                {
                    let found = member_index(y, x[i].0.as_str());
                    let same = match found {
                        Some(j) => x[i].1.identical_to(&y[j].1),
                        None => false,
                    };
                    if !same {
                        assert(!same_member(members_view(x@)[i as int], members_view(y@)));
                        return false;
                    }
                    i += 1;
                }
                true
            },
            _ => false,
        }
    }
}

impl PartialEq for Value {
    fn eq(&self, other: &Value) -> (r: bool) {
        self.identical_to(other)
    }
}

impl PartialEqSpecImpl for Value {
    open spec fn obeys_eq_spec() -> bool {
        true
    }

    open spec fn eq_spec(&self, other: &Value) -> bool {
        identical(self@, other@)
    }
}

// ---------------------------------------------------------------------------
// Places inside a value
// ---------------------------------------------------------------------------

/// The value found by following `path` from `v`: a key leads into an object,
/// an index into an array; any other step leads nowhere.
pub open spec fn value_at(v: ValueView, path: Seq<SegmentView>) -> Option<ValueView>
    decreases path.len(),
{
    if path.len() == 0 {
        Some(v)
    } else {
        match (path[0], v) {
            (SegmentView::Key(k), ValueView::Object(members)) => match member(members, k) {
                Some(inner) => value_at(inner, path.skip(1)),
                None => None,
            },
            (SegmentView::Index(i), ValueView::Array(items)) => if i < items.len() {
                value_at(items[i as int], path.skip(1))
            } else {
                None
            },
            _ => None,
        }
    }
}

/// The value found by following `segments` from `root`, if there is one.
#[verifier::loop_isolation(false)]
pub fn get_value_at_path<'a>(root: &'a Value, segments: &[PathSegment]) -> (r: Option<
    &'a Value,
>)
    ensures
        match r {
            Some(v) => value_at(root@, segments_view(segments@)) == Some(v@),
            None => value_at(root@, segments_view(segments@)) is None,
        },
{
    broadcast use group_value_views;

    let mut current: &Value = root;
    let mut i: usize = 0;
    let ghost path = segments_view(segments@);
    assert(path.skip(0) =~= path);
    while i < segments.len()
        invariant
            i <= segments.len(),
            value_at(root@, path) == value_at(current@, path.skip(i as int)),
        decreases segments.len() - i,
    {
        assert(path.skip(i as int)[0] == segments@[i as int]@);
        assert(path.skip(i as int).skip(1) =~= path.skip(i + 1));
        match (&segments[i], current) {
            (PathSegment::Key(key), Value::Object(members)) => {
                match member_index(members, key.as_str()) {
                    Some(j) => {
                        current = &members[j].1;
                    },
                    None => {
                        return None;
                    },
                }
            },
            (PathSegment::Index(index), Value::Array(items)) => {
                if *index < items.len() {
                    current = &items[*index];
                } else {
                    return None;
                }
            },
            _ => {
                return None;
            },
        }
        i += 1;
    }
    Some(current)
}

} // verus!
