//! How values, changes and the lines of a tree are written.

use crate::policy::format_number;
use crate::policy::number_text;
use crate::text::chars_of;
use crate::text::join;
use crate::text::join_texts;
use crate::text::texts;
use crate::value::Value;
use crate::value::ValueView;
use crate::value::group_value_views;
use vstd::prelude::*;

verus! {

/// Adds `line` at the end of `lines`.
pub fn push_line(lines: &mut Vec<String>, line: String)
    ensures
        texts(final(lines)@) == texts(old(lines)@).push(line@),
{
    lines.push(line);
    assert(texts(lines@) =~= texts(old(lines)@).push(line@));
}

// ---------------------------------------------------------------------------
// Values
// ---------------------------------------------------------------------------

/// What is written for one character of a string: a backslash before a
/// backslash or a quote, `\n`, `\r`, `\t` for the three control characters,
/// any other character as it is.
pub open spec fn escaped_char(c: char) -> Seq<char> {
    if c == '\\' {
        seq!['\\', '\\']
    } else if c == '\'' {
        seq!['\\', '\'']
    } else if c == '\n' {
        seq!['\\', 'n']
    } else if c == '\r' {
        seq!['\\', 'r']
    } else if c == '\t' {
        seq!['\\', 't']
    } else {
        seq![c]
    }
}

/// A string with each character escaped.
pub open spec fn escaped(s: Seq<char>) -> Seq<char>
    decreases s.len(),
{
    if s.len() == 0 {
        Seq::empty()
    } else {
        escaped(s.drop_last()) + escaped_char(s.last())
    }
}

/// `value` with each character escaped.
#[verifier::loop_isolation(false)]
pub fn escape_string(value: &str) -> (r: String)
    ensures
        r@ == escaped(value@),
{
    let chars = chars_of(value);
    let mut out = String::new();
    let mut i: usize = 0;
    assert(chars@.take(0) =~= Seq::<char>::empty());
    while i < chars.len()
        invariant
            i <= chars.len(),
            out@ == escaped(chars@.take(i as int)),
        decreases chars.len() - i,
    {
        let c = chars[i];
        let ghost before = out@;
        assert(chars@.take(i + 1).drop_last() =~= chars@.take(i as int));
        assert(chars@.take(i + 1).last() == c);
        if c == '\\' {
            out.push('\\');
            out.push('\\');
        } else if c == '\'' {
            out.push('\\');
            out.push('\'');
        } else if c == '\n' {
            out.push('\\');
            out.push('n');
        } else if c == '\r' {
            out.push('\\');
            out.push('r');
        } else if c == '\t' {
            out.push('\\');
            out.push('t');
        } else {
            out.push(c);
        }
        assert(out@ =~= before + escaped_char(c));
        i += 1;
    }
    assert(chars@.take(chars.len() as int) =~= chars@);
    out
}

/// A value as it is shown: `None`, `True` and `False`, a number by its text,
/// a string escaped between single quotes, an array between brackets and an
/// object between braces, their parts separated by a comma and a space.
pub open spec fn shown(v: ValueView) -> Seq<char>
    decreases v, 0nat,
{
    match v {
        ValueView::Null => "None"@,
        ValueView::Bool(b) => if b {
            "True"@
        } else {
            "False"@
        },
        ValueView::Number(n) => number_text(n),
        ValueView::String(s) => "'"@ + escaped(s) + "'"@,
        ValueView::Array(items) => "["@ + join(shown_items(items), ", "@) + "]"@,
        ValueView::Object(members) => "{"@ + join(shown_members(members), ", "@) + "}"@,
    }
}

/// The items of an array as they are shown.
pub open spec fn shown_items(items: Seq<ValueView>) -> Seq<Seq<char>>
    decreases items, 1nat,
{
    Seq::new(
        items.len(),
        |i: int|
            if 0 <= i < items.len() {
                shown(items[i])
            } else {
                Seq::empty()
            },
    )
}

/// The members of an object as they are shown: the escaped key between single
/// quotes, a colon and a space, and the value.
pub open spec fn shown_members(members: Seq<(Seq<char>, ValueView)>) -> Seq<Seq<char>>
    decreases members, 1nat,
{
    Seq::new(
        members.len(),
        |i: int|
            if 0 <= i < members.len() {
                "'"@ + escaped(members[i].0) + "': "@ + shown(members[i].1)
            } else {
                Seq::empty()
            },
    )
}

/// `value` as it is shown.
#[verifier::loop_isolation(false)]
pub fn format_value(value: &Value) -> (r: String)
    ensures
        r@ == shown(value@),
    decreases value,
{
    broadcast use group_value_views;

    match value {
        Value::Null => String::from_str("None"),
        Value::Bool(b) => {
            if *b {
                String::from_str("True")
            } else {
                String::from_str("False")
            }
        },
        Value::Number(n) => format_number(n),
        Value::String(s) => {
            let mut out = String::from_str("'");
            out.append(escape_string(s.as_str()).as_str());
            out.append("'");
            out
        },
        Value::Array(items) => {
            let ghost want = shown_items(value@->Array_0);
            let mut parts: Vec<String> = Vec::new();
            let mut i: usize = 0;
            while i < items.len()
                invariant
                    i <= items.len(),
                    parts@.len() == i,
                    forall|j: int| 0 <= j < i ==> (#[trigger] parts@[j])@ == want[j],
                decreases items.len() - i,
            {
                parts.push(format_value(&items[i]));
                i += 1;
            }
            assert(texts(parts@) =~= want);
            let mut out = String::from_str("[");
            out.append(join_texts(&parts, ", ").as_str());
            out.append("]");
            out
        },
        Value::Object(members) => {
            let ghost want = shown_members(value@->Object_0);
            let mut parts: Vec<String> = Vec::new();
            let mut i: usize = 0;
            while i < members.len()
                invariant
                    i <= members.len(),
                    parts@.len() == i,
                    forall|j: int| 0 <= j < i ==> (#[trigger] parts@[j])@ == want[j],
                decreases members.len() - i,
            {
                let mut part = String::from_str("'");
                part.append(escape_string(members[i].0.as_str()).as_str());
                part.append("': ");
                part.append(format_value(&members[i].1).as_str());
                parts.push(part);
                i += 1;
            }
            assert(texts(parts@) =~= want);
            let mut out = String::from_str("{");
            out.append(join_texts(&parts, ", ").as_str());
            out.append("}");
            out
        },
    }
}

// ---------------------------------------------------------------------------
// Lines of a tree
// ---------------------------------------------------------------------------

/// A text between the escape that starts the colour `code` and the escape
/// that ends it, or the text alone where colours are off.
pub open spec fn colored(text: Seq<char>, code: Seq<char>, enabled: bool) -> Seq<char> {
    if enabled {
        "\x1b["@ + code + "m"@ + text + "\x1b[0m"@
    } else {
        text
    }
}

/// `text` in the colour `code`, or as it is where `enabled` is false.
pub fn colorize(text: &str, code: &str, enabled: bool) -> (r: String)
    ensures
        r@ == colored(text@, code@, enabled),
{
    if enabled {
        let mut out = String::from_str("\x1b[");
        out.append(code);
        out.append("m");
        out.append(text);
        out.append("\x1b[0m");
        out
    } else {
        String::from_str(text)
    }
}

/// What stands before a line for the levels above it: a bar for each level
/// that has more to come, blanks for each that has not.
pub open spec fn prefix_of(branches: Seq<bool>) -> Seq<char>
    decreases branches.len(),
{
    if branches.len() == 0 {
        Seq::empty()
    } else {
        prefix_of(branches.drop_last()) + (if branches.last() {
            "│   "@
        } else {
            "    "@
        })
    }
}

/// What stands before a line for the levels above it.
#[verifier::loop_isolation(false)]
pub fn tree_prefix(branches: &[bool]) -> (r: String)
    ensures
        r@ == prefix_of(branches@),
{
    let mut out = String::new();
    let mut i: usize = 0;
    assert(branches@.take(0) =~= Seq::<bool>::empty());
    while i < branches.len()
        invariant
            i <= branches.len(),
            out@ == prefix_of(branches@.take(i as int)),
        decreases branches.len() - i,
    {
        assert(branches@.take(i + 1).drop_last() =~= branches@.take(i as int));
        assert(branches@.take(i + 1).last() == branches@[i as int]);
        if branches[i] {
            out.append("│   ");
        } else {
            out.append("    ");
        }
        i += 1;
    }
    assert(branches@.take(branches.len() as int) =~= branches@);
    out
}

/// What stands before the lines of a change: the prefix of the levels above,
/// then a bar at the top level or where the node has more to come, blanks
/// elsewhere.
pub open spec fn indent_of(top: bool, branches: Seq<bool>, node_has_more: bool) -> Seq<char> {
    prefix_of(branches) + (if top || node_has_more {
        "│   "@
    } else {
        "    "@
    })
}

/// What stands before the lines of a change under a node at `depth`.
pub fn branch_indent(depth: usize, branches: &[bool], node_has_more: bool) -> (r: String)
    ensures
        r@ == indent_of(depth == 0, branches@, node_has_more),
{
    let mut out = tree_prefix(branches);
    if depth == 0 || node_has_more {
        out.append("│   ");
    } else {
        out.append("    ");
    }
    out
}

/// The line of a node: at the top level the label alone; below it the prefix
/// of the levels above, a corner for the last of its level or a tee for any
/// other, and the label.
pub open spec fn node_line(top: bool, branches: Seq<bool>, is_last: bool, label: Seq<char>) -> Seq<
    char,
> {
    if top {
        label
    } else {
        prefix_of(branches) + (if is_last {
            "╰── "@
        } else {
            "├── "@
        }) + label
    }
}

/// The line of a node at `depth` with the label `label`.
pub fn format_node_line(depth: usize, branches: &[bool], is_last: bool, label: &str) -> (r:
    String)
    ensures
        r@ == node_line(depth == 0, branches@, is_last, label@),
{
    if depth == 0 {
        String::from_str(label)
    } else {
        let mut out = tree_prefix(branches);
        if is_last {
            out.append("╰── ");
        } else {
            out.append("├── ");
        }
        out.append(label);
        out
    }
}

} // verus!
