//! The changes that a report holds, read back for rendering.

use crate::format::branch_indent;
use crate::format::colored;
use crate::format::colorize;
use crate::format::format_value;
use crate::format::indent_of;
use crate::format::push_line;
use crate::format::shown;
use crate::options::PrettyOptions;
use crate::path::PathSegment;
use crate::path::SegmentView;
use crate::path::parse;
use crate::path::parse_path;
use crate::path::segments_view;
use crate::text::texts;
use crate::value::Value;
use crate::value::ValueView;
use crate::value::get_value_at_path;
use crate::value::group_value_views;
use crate::value::items_view;
use crate::value::member;
use crate::value::member_index;
use crate::value::members_view;
use crate::value::value_at;
use vstd::prelude::*;

verus! {

/// What changed at a place.
#[derive(Debug)]
pub enum ChangeKind {
    ValueChanged { old: Value, new: Value },
    TypeChanged { old_type: String, new_type: String, old: Value, new: Value },
    Added { value: Option<Value> },
    Removed { value: Option<Value> },
}

/// The mathematical view of a [`ChangeKind`].
pub enum ChangeKindView {
    ValueChanged { old: ValueView, new: ValueView },
    TypeChanged { old_type: Seq<char>, new_type: Seq<char>, old: ValueView, new: ValueView },
    Added { value: Option<ValueView> },
    Removed { value: Option<ValueView> },
}

/// The view of a value that may be missing.
pub open spec fn optional_view(v: Option<Value>) -> Option<ValueView> {
    match v {
        Some(x) => Some(x@),
        None => None,
    }
}

impl View for ChangeKind {
    type V = ChangeKindView;

    open spec fn view(&self) -> ChangeKindView {
        match self {
            ChangeKind::ValueChanged { old, new } => ChangeKindView::ValueChanged {
                old: old@,
                new: new@,
            },
            ChangeKind::TypeChanged { old_type, new_type, old, new } => ChangeKindView::TypeChanged {
                old_type: old_type@,
                new_type: new_type@,
                old: old@,
                new: new@,
            },
            ChangeKind::Added { value } => ChangeKindView::Added { value: optional_view(*value) },
            ChangeKind::Removed { value } => ChangeKindView::Removed {
                value: optional_view(*value),
            },
        }
    }
}

/// A change and the path to its place.
#[derive(Debug)]
pub struct ChangeEntry {
    pub segments: Vec<PathSegment>,
    pub kind: ChangeKind,
}

/// The mathematical view of a [`ChangeEntry`].
pub struct ChangeEntryView {
    pub segments: Seq<SegmentView>,
    pub kind: ChangeKindView,
}

impl View for ChangeEntry {
    type V = ChangeEntryView;

    open spec fn view(&self) -> ChangeEntryView {
        ChangeEntryView { segments: segments_view(self.segments@), kind: self.kind@ }
    }
}

/// The views of a sequence of entries.
pub open spec fn entries_view(v: Seq<ChangeEntry>) -> Seq<ChangeEntryView> {
    Seq::new(v.len(), |i: int| v[i]@)
}

// ---------------------------------------------------------------------------
// Reading a report
// ---------------------------------------------------------------------------

/// The six buckets of a report.
#[derive(Copy, Clone, Debug, PartialEq, Eq, Structural)]
pub enum Bucket {
    ValuesChanged,
    TypeChanges,
    KeysAdded,
    KeysRemoved,
    ItemsAdded,
    ItemsRemoved,
}

/// The name of a bucket in a report.
pub open spec fn name_of(bucket: Bucket) -> Seq<char> {
    match bucket {
        Bucket::ValuesChanged => "values_changed"@,
        Bucket::TypeChanges => "type_changes"@,
        Bucket::KeysAdded => "dictionary_item_added"@,
        Bucket::KeysRemoved => "dictionary_item_removed"@,
        Bucket::ItemsAdded => "iterable_item_added"@,
        Bucket::ItemsRemoved => "iterable_item_removed"@,
    }
}

/// True when the bucket can be read from an object of paths and details.
pub open spec fn reads_object(bucket: Bucket) -> bool {
    bucket != Bucket::KeysAdded && bucket != Bucket::KeysRemoved
}

/// True when the bucket can be read from a list of paths.
pub open spec fn reads_list(bucket: Bucket) -> bool {
    bucket == Bucket::ValuesChanged || bucket == Bucket::KeysAdded || bucket == Bucket::KeysRemoved
}

/// What a detail holds under `key`: the member of an object; nothing otherwise.
pub open spec fn detail(entry: Option<ValueView>, key: Seq<char>) -> Option<ValueView> {
    match entry {
        Some(ValueView::Object(members)) => member(members, key),
        _ => None,
    }
}

/// The first of two values that is there; null when neither is.
pub open spec fn pick(first: Option<ValueView>, second: Option<ValueView>) -> ValueView {
    match first {
        Some(v) => v,
        None => match second {
            Some(v) => v,
            None => ValueView::Null,
        },
    }
}

/// The first of two values that is there, if any.
pub open spec fn either(first: Option<ValueView>, second: Option<ValueView>) -> Option<ValueView> {
    match first {
        Some(v) => Some(v),
        None => second,
    }
}

/// The type name that a detail holds under `key`; `unknown` when it holds no
/// string there.
pub open spec fn type_text(entry: Option<ValueView>, key: Seq<char>) -> Seq<char> {
    match detail(entry, key) {
        Some(ValueView::String(s)) => s,
        _ => "unknown"@,
    }
}

/// The change that an entry of `bucket` at the path `segments` stands for.
/// Values are taken from the two compared values where the path leads to one, else
/// from the detail that the report holds.
pub open spec fn change_for(
    bucket: Bucket,
    segments: Seq<SegmentView>,
    entry: Option<ValueView>,
    t1: ValueView,
    t2: ValueView,
) -> ChangeKindView {
    match bucket {
        Bucket::ValuesChanged => ChangeKindView::ValueChanged {
            old: pick(value_at(t1, segments), detail(entry, "old_value"@)),
            new: pick(value_at(t2, segments), detail(entry, "new_value"@)),
        },
        Bucket::TypeChanges => ChangeKindView::TypeChanged {
            old_type: type_text(entry, "old_type"@),
            new_type: type_text(entry, "new_type"@),
            old: pick(value_at(t1, segments), detail(entry, "old_value"@)),
            new: pick(value_at(t2, segments), detail(entry, "new_value"@)),
        },
        Bucket::KeysAdded => ChangeKindView::Added { value: value_at(t2, segments) },
        Bucket::KeysRemoved => ChangeKindView::Removed { value: value_at(t1, segments) },
        Bucket::ItemsAdded => ChangeKindView::Added { value: either(value_at(t2, segments), entry) },
        Bucket::ItemsRemoved => ChangeKindView::Removed {
            value: either(value_at(t1, segments), entry),
        },
    }
}

/// The change of one entry, or nothing where its path cannot be read.
pub open spec fn entry_changes(
    bucket: Bucket,
    path: Seq<char>,
    entry: Option<ValueView>,
    t1: ValueView,
    t2: ValueView,
) -> Seq<ChangeEntryView> {
    match parse(path) {
        Some(segments) => seq![
            ChangeEntryView { segments, kind: change_for(bucket, segments, entry, t1, t2) },
        ],
        None => Seq::empty(),
    }
}

/// The changes of the first `n` members of a bucket held as an object.
pub open spec fn object_changes(
    bucket: Bucket,
    members: Seq<(Seq<char>, ValueView)>,
    t1: ValueView,
    t2: ValueView,
    n: int,
) -> Seq<ChangeEntryView>
    decreases n,
{
    if n <= 0 || n > members.len() {
        Seq::empty()
    } else {
        object_changes(bucket, members, t1, t2, n - 1) + entry_changes(
            bucket,
            members[n - 1].0,
            Some(members[n - 1].1),
            t1,
            t2,
        )
    }
}

/// The changes of the first `n` items of a bucket held as a list of paths;
/// an item that is no string gives none.
pub open spec fn list_changes(
    bucket: Bucket,
    items: Seq<ValueView>,
    t1: ValueView,
    t2: ValueView,
    n: int,
) -> Seq<ChangeEntryView>
    decreases n,
{
    if n <= 0 || n > items.len() {
        Seq::empty()
    } else {
        list_changes(bucket, items, t1, t2, n - 1) + (match items[n - 1] {
            ValueView::String(path) => entry_changes(bucket, path, None, t1, t2),
            _ => Seq::empty(),
        })
    }
}

/// The changes that a report holds in `bucket`.
pub open spec fn bucket_changes(
    bucket: Bucket,
    report: Seq<(Seq<char>, ValueView)>,
    t1: ValueView,
    t2: ValueView,
) -> Seq<ChangeEntryView> {
    match member(report, name_of(bucket)) {
        Some(ValueView::Object(members)) => if reads_object(bucket) {
            object_changes(bucket, members, t1, t2, members.len() as int)
        } else {
            Seq::empty()
        },
        Some(ValueView::Array(items)) => if reads_list(bucket) {
            list_changes(bucket, items, t1, t2, items.len() as int)
        } else {
            Seq::empty()
        },
        _ => Seq::empty(),
    }
}

/// The changes that a report holds, bucket by bucket: changed values, changed
/// types, added and removed keys, added and removed items. A report that is
/// no object holds none.
pub open spec fn collected(report: ValueView, t1: ValueView, t2: ValueView) -> Seq<ChangeEntryView> {
    match report {
        ValueView::Object(m) => bucket_changes(Bucket::ValuesChanged, m, t1, t2) + bucket_changes(
            Bucket::TypeChanges,
            m,
            t1,
            t2,
        ) + bucket_changes(Bucket::KeysAdded, m, t1, t2) + bucket_changes(
            Bucket::KeysRemoved,
            m,
            t1,
            t2,
        ) + bucket_changes(Bucket::ItemsAdded, m, t1, t2) + bucket_changes(
            Bucket::ItemsRemoved,
            m,
            t1,
            t2,
        ),
        _ => Seq::empty(),
    }
}

fn name(bucket: Bucket) -> (r: &'static str)
    ensures
        r@ == name_of(bucket),
{
    match bucket {
        Bucket::ValuesChanged => "values_changed",
        Bucket::TypeChanges => "type_changes",
        Bucket::KeysAdded => "dictionary_item_added",
        Bucket::KeysRemoved => "dictionary_item_removed",
        Bucket::ItemsAdded => "iterable_item_added",
        Bucket::ItemsRemoved => "iterable_item_removed",
    }
}

/// What the detail `entry` holds under `key`.
fn detail_of<'a>(entry: Option<&'a Value>, key: &str) -> (r: Option<&'a Value>)
    ensures
        match r {
            Some(v) => detail(detail_view(entry), key@) == Some(v@),
            None => detail(detail_view(entry), key@) is None,
        },
{
    broadcast use group_value_views;

    match entry {
        Some(Value::Object(members)) => match member_index(members, key) {
            Some(i) => Some(&members[i].1),
            None => None,
        },
        _ => None,
    }
}

/// The view of a detail that may be missing.
pub open spec fn detail_view(entry: Option<&Value>) -> Option<ValueView> {
    match entry {
        Some(v) => Some(v@),
        None => None,
    }
}

fn pick_value(first: Option<&Value>, second: Option<&Value>) -> (r: Value)
    ensures
        r@ == pick(detail_view(first), detail_view(second)),
{
    match first {
        Some(v) => v.clone(),
        None => match second {
            Some(v) => v.clone(),
            None => Value::Null,
        },
    }
}

fn either_value(first: Option<&Value>, second: Option<&Value>) -> (r: Option<Value>)
    ensures
        optional_view(r) == either(detail_view(first), detail_view(second)),
{
    match first {
        Some(v) => Some(v.clone()),
        None => match second {
            Some(v) => Some(v.clone()),
            None => None,
        },
    }
}

fn type_text_of(entry: Option<&Value>, key: &str) -> (r: String)
    ensures
        r@ == type_text(detail_view(entry), key@),
{
    match detail_of(entry, key) {
        Some(Value::String(s)) => s.clone(),
        _ => String::from_str("unknown"),
    }
}

/// The change that an entry of `bucket` at `segments` stands for.
fn make_change(
    bucket: Bucket,
    segments: &[PathSegment],
    entry: Option<&Value>,
    t1: &Value,
    t2: &Value,
) -> (r: ChangeKind)
    ensures
        r@ == change_for(bucket, segments_view(segments@), detail_view(entry), t1@, t2@),
{
    match bucket {
        Bucket::ValuesChanged => {
            let old = pick_value(get_value_at_path(t1, segments), detail_of(entry, "old_value"));
            let new = pick_value(get_value_at_path(t2, segments), detail_of(entry, "new_value"));
            ChangeKind::ValueChanged { old, new }
        },
        Bucket::TypeChanges => {
            let old_type = type_text_of(entry, "old_type");
            let new_type = type_text_of(entry, "new_type");
            let old = pick_value(get_value_at_path(t1, segments), detail_of(entry, "old_value"));
            let new = pick_value(get_value_at_path(t2, segments), detail_of(entry, "new_value"));
            ChangeKind::TypeChanged { old_type, new_type, old, new }
        },
        Bucket::KeysAdded => {
            let value = either_value(get_value_at_path(t2, segments), None);
            ChangeKind::Added { value }
        },
        Bucket::KeysRemoved => {
            let value = either_value(get_value_at_path(t1, segments), None);
            ChangeKind::Removed { value }
        },
        Bucket::ItemsAdded => {
            let value = either_value(get_value_at_path(t2, segments), entry);
            ChangeKind::Added { value }
        },
        Bucket::ItemsRemoved => {
            let value = either_value(get_value_at_path(t1, segments), entry);
            ChangeKind::Removed { value }
        },
    }
}

/// Adds to `changes` the change of one entry, if its path can be read.
fn collect_entry(
    bucket: Bucket,
    path: &str,
    entry: Option<&Value>,
    t1: &Value,
    t2: &Value,
    changes: &mut Vec<ChangeEntry>,
)
    ensures
        entries_view(final(changes)@) == entries_view(old(changes)@) + entry_changes(
            bucket,
            path@,
            detail_view(entry),
            t1@,
            t2@,
        ),
{
    let ghost before = entries_view(changes@);
    match parse_path(path) {
        Some(segments) => {
            let kind = make_change(bucket, &segments, entry, t1, t2);
            changes.push(ChangeEntry { segments, kind });
            assert(entries_view(changes@) =~= before + entry_changes(
                bucket,
                path@,
                detail_view(entry),
                t1@,
                t2@,
            ));
        },
        None => {
            assert(before + Seq::<ChangeEntryView>::empty() =~= before);
        },
    }
}

/// Adds to `changes` the changes that `report` holds in `bucket`.
#[verifier::loop_isolation(false)]
fn collect_bucket(
    bucket: Bucket,
    report: &Vec<(String, Value)>,
    t1: &Value,
    t2: &Value,
    changes: &mut Vec<ChangeEntry>,
)
    ensures
        entries_view(final(changes)@) == entries_view(old(changes)@) + bucket_changes(
            bucket,
            members_view(report@),
            t1@,
            t2@,
        ),
{
    broadcast use group_value_views;

    let ghost before = entries_view(changes@);
    assert(before + Seq::<ChangeEntryView>::empty() =~= before);
    let found = member_index(report, name(bucket));
    let at = match found {
        Some(i) => i,
        None => {
            return;
        },
    };
    match &report[at].1 {
        Value::Object(members) => {
            let object_form = match bucket {
                Bucket::KeysAdded => false,
                Bucket::KeysRemoved => false,
                _ => true,
            };
            if !object_form {
                return;
            }
            let ghost m = members_view(members@);
            let mut i: usize = 0;
            while i < members.len()
                invariant
                    i <= members.len(),
                    entries_view(changes@) == before + object_changes(bucket, m, t1@, t2@, i as int),
                decreases members.len() - i,
            {
                let ghost sofar = object_changes(bucket, m, t1@, t2@, i as int);
                collect_entry(bucket, members[i].0.as_str(), Some(&members[i].1), t1, t2, changes);
                assert(before + sofar + entry_changes(
                    bucket,
                    m[i as int].0,
                    Some(m[i as int].1),
                    t1@,
                    t2@,
                ) =~= before + object_changes(bucket, m, t1@, t2@, i + 1));
                i += 1;
            }
        },
        Value::Array(items) => {
            let list_form = match bucket {
                Bucket::ValuesChanged => true,
                Bucket::KeysAdded => true,
                Bucket::KeysRemoved => true,
                _ => false,
            };
            if !list_form {
                return;
            }
            let ghost m = items_view(items@);
            let mut i: usize = 0;
            while i < items.len()
                invariant
                    i <= items.len(),
                    entries_view(changes@) == before + list_changes(bucket, m, t1@, t2@, i as int),
                decreases items.len() - i,
            {
                let ghost sofar = list_changes(bucket, m, t1@, t2@, i as int);
                match &items[i] {
                    Value::String(path) => {
                        collect_entry(bucket, path.as_str(), None, t1, t2, changes);
                        assert(before + sofar + entry_changes(bucket, path@, None, t1@, t2@)
                            =~= before + list_changes(bucket, m, t1@, t2@, i + 1));
                    },
                    _ => {
                        assert(sofar + Seq::<ChangeEntryView>::empty() =~= sofar);
                    },
                }
                i += 1;
            }
        },
        _ => {},
    }
}

/// The changes that `result` holds, with their values taken from `t1` and
/// `t2` where the paths lead to any.
pub fn collect_changes(result: &Value, t1: &Value, t2: &Value) -> (r: Vec<ChangeEntry>)
    ensures
        entries_view(r@) == collected(result@, t1@, t2@),
{
    broadcast use group_value_views;

    let mut changes: Vec<ChangeEntry> = Vec::new();
    assert(entries_view(changes@) =~= Seq::<ChangeEntryView>::empty());
    match result {
        Value::Object(map) => {
            let ghost m = members_view(map@);
            collect_bucket(Bucket::ValuesChanged, map, t1, t2, &mut changes);
            collect_bucket(Bucket::TypeChanges, map, t1, t2, &mut changes);
            collect_bucket(Bucket::KeysAdded, map, t1, t2, &mut changes);
            collect_bucket(Bucket::KeysRemoved, map, t1, t2, &mut changes);
            collect_bucket(Bucket::ItemsAdded, map, t1, t2, &mut changes);
            collect_bucket(Bucket::ItemsRemoved, map, t1, t2, &mut changes);
            assert(entries_view(changes@) =~= collected(result@, t1@, t2@));
        },
        _ => {},
    }
    changes
}

// ---------------------------------------------------------------------------
// The lines of a change
// ---------------------------------------------------------------------------

/// A value that may be missing, as it is shown; `otherwise` where it is missing.
pub open spec fn shown_or(value: Option<ValueView>, otherwise: Seq<char>) -> Seq<char> {
    match value {
        Some(v) => shown(v),
        None => otherwise,
    }
}

/// The lines under a node that tell its change: the old value in red after a
/// minus and the new one in green after a plus, each with its type between
/// parentheses where the type changed; one green line for an addition and
/// one red line for a removal.
pub open spec fn change_lines(
    top: bool,
    branches: Seq<bool>,
    node_has_more: bool,
    change: ChangeKindView,
    no_color: bool,
) -> Seq<Seq<char>> {
    let indent = indent_of(top, branches, node_has_more);
    match change {
        ChangeKindView::ValueChanged { old, new } => seq![
            indent + colored("- "@ + shown(old), "31"@, !no_color),
            indent + colored("+ "@ + shown(new), "32"@, !no_color),
        ],
        ChangeKindView::TypeChanged { old_type, new_type, old, new } => seq![
            indent + colored("- ("@ + old_type + ") "@ + shown(old), "31"@, !no_color),
            indent + colored("+ ("@ + new_type + ") "@ + shown(new), "32"@, !no_color),
        ],
        ChangeKindView::Added { value } => seq![
            indent + colored("+ "@ + shown_or(value, "<added>"@), "32"@, !no_color),
        ],
        ChangeKindView::Removed { value } => seq![
            indent + colored("- "@ + shown_or(value, "<removed>"@), "31"@, !no_color),
        ],
    }
}

fn value_line(indent: &str, sign: &str, type_label: Option<&str>, text: &str, code: &str, color: bool) -> (r:
    String)
    ensures
        r@ == indent@ + colored(
            sign@ + (match type_label {
                Some(t) => "("@ + t@ + ") "@,
                None => Seq::<char>::empty(),
            }) + text@,
            code@,
            color,
        ),
{
    let mut body = String::from_str(sign);
    match type_label {
        Some(t) => {
            body.append("(");
            body.append(t);
            body.append(") ");
        },
        None => {},
    }
    body.append(text);
    let mut out = String::from_str(indent);
    out.append(colorize(body.as_str(), code, color).as_str());
    proof {
        let label = match type_label {
            Some(t) => "("@ + t@ + ") "@,
            None => Seq::<char>::empty(),
        };
        assert(body@ =~= sign@ + label + text@);
    }
    out
}

/// Adds to `lines` the lines that tell `change`, under a node at `depth`.
pub fn append_change_lines(
    lines: &mut Vec<String>,
    depth: usize,
    branches: &[bool],
    node_has_more: bool,
    change: &ChangeKind,
    options: &PrettyOptions,
)
    ensures
        texts(final(lines)@) == texts(old(lines)@) + change_lines(
            depth == 0,
            branches@,
            node_has_more,
            change@,
            options.no_color,
        ),
{
    let ghost before = texts(lines@);
    let ghost want = change_lines(depth == 0, branches@, node_has_more, change@, options.no_color);
    let indent = branch_indent(depth, branches, node_has_more);
    let color = !options.no_color;
    proof {
        reveal_strlit("- ");
        reveal_strlit("+ ");
        reveal_strlit("- (");
        reveal_strlit("+ (");
        reveal_strlit("(");
    }
    match change {
        ChangeKind::ValueChanged { old, new } => {
            let a = value_line(
                indent.as_str(),
                "- ",
                None,
                format_value(old).as_str(),
                "31",
                color,
            );
            let b = value_line(
                indent.as_str(),
                "+ ",
                None,
                format_value(new).as_str(),
                "32",
                color,
            );
            assert("- "@ + Seq::<char>::empty() + shown(old@) =~= "- "@ + shown(old@));
            assert("+ "@ + Seq::<char>::empty() + shown(new@) =~= "+ "@ + shown(new@));
            push_line(lines, a);
            push_line(lines, b);
            assert(texts(lines@) =~= before + want);
        },
        ChangeKind::TypeChanged { old_type, new_type, old, new } => {
            let a = value_line(
                indent.as_str(),
                "- ",
                Some(old_type.as_str()),
                format_value(old).as_str(),
                "31",
                color,
            );
            let b = value_line(
                indent.as_str(),
                "+ ",
                Some(new_type.as_str()),
                format_value(new).as_str(),
                "32",
                color,
            );
            assert("- "@ + ("("@ + old_type@ + ") "@) + shown(old@) =~= "- ("@ + old_type@ + ") "@
                + shown(old@));
            assert("+ "@ + ("("@ + new_type@ + ") "@) + shown(new@) =~= "+ ("@ + new_type@ + ") "@
                + shown(new@));
            push_line(lines, a);
            push_line(lines, b);
            assert(texts(lines@) =~= before + want);
        },
        ChangeKind::Added { value } => {
            let rendered = match value {
                Some(v) => format_value(v),
                None => String::from_str("<added>"),
            };
            let a = value_line(indent.as_str(), "+ ", None, rendered.as_str(), "32", color);
            assert("+ "@ + Seq::<char>::empty() + rendered@ =~= "+ "@ + rendered@);
            push_line(lines, a);
            assert(texts(lines@) =~= before + want);
        },
        ChangeKind::Removed { value } => {
            let rendered = match value {
                Some(v) => format_value(v),
                None => String::from_str("<removed>"),
            };
            let a = value_line(indent.as_str(), "- ", None, rendered.as_str(), "31", color);
            assert("- "@ + Seq::<char>::empty() + rendered@ =~= "- "@ + rendered@);
            push_line(lines, a);
            assert(texts(lines@) =~= before + want);
        },
    }
}

} // verus!
