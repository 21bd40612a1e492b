//! Path addressing: the segments that lead from the root of a value to a
//! place inside it, their canonical text, and the compact text shown to people.

use crate::text::chars_of;
use crate::text::decimal;
use crate::text::find_char;
use crate::text::find_pair;
use crate::text::first_char;
use crate::text::first_pair;
use crate::text::lemma_first_char_bounds;
use crate::text::lemma_first_pair_bounds;
use crate::text::parse_index;
use crate::text::push_decimal;
use crate::text::read_index;
use vstd::prelude::*;

verus! {

/// One step of a path: into an object by key, or into an array by index.
#[derive(Debug, PartialEq, Eq, Hash)]
pub enum PathSegment {
    Key(String),
    Index(usize),
}

/// The mathematical view of a [`PathSegment`].
pub enum SegmentView {
    Key(Seq<char>),
    Index(usize),
}

impl View for PathSegment {
    type V = SegmentView;

    open spec fn view(&self) -> SegmentView {
        match self {
            PathSegment::Key(k) => SegmentView::Key(k@),
            PathSegment::Index(i) => SegmentView::Index(*i),
        }
    }
}

/// The views of a sequence of segments.
pub open spec fn segments_view(v: Seq<PathSegment>) -> Seq<SegmentView> {
    Seq::new(v.len(), |i: int| v[i]@)
}

impl Clone for PathSegment {
    fn clone(&self) -> (r: PathSegment)
        ensures
            r@ == self@,
    {
        match self {
            PathSegment::Key(k) => PathSegment::Key(k.clone()),
            PathSegment::Index(i) => PathSegment::Index(*i),
        }
    }
}

impl PathSegment {
    /// True when both segments are keys of the same text or indices of the same number.
    pub fn same_as(&self, other: &PathSegment) -> (r: bool)
        ensures
            r == (self@ == other@),
    {
        match (self, other) {
            (PathSegment::Key(a), PathSegment::Key(b)) => {
                let r = *a == *b;
                r
            },
            (PathSegment::Index(a), PathSegment::Index(b)) => *a == *b,
            _ => false,
        }
    }
}

/// A copy of `path`.
#[verifier::loop_isolation(false)]
pub fn clone_path(path: &[PathSegment]) -> (r: Vec<PathSegment>)
    ensures
        segments_view(r@) == segments_view(path@),
{
    let mut out: Vec<PathSegment> = Vec::new();
    let mut i: usize = 0;
    while i < path.len()
        invariant
            i <= path.len(),
            out@.len() == i,
            forall|j: int| 0 <= j < i ==> out@[j]@ == path@[j]@,
        decreases path.len() - i,
    {
        out.push(path[i].clone());
        i += 1;
    }
    assert(segments_view(out@) =~= segments_view(path@));
    out
}

/// `path` with `segment` added at its end.
pub fn append(path: &[PathSegment], segment: &PathSegment) -> (r: Vec<PathSegment>)
    ensures
        segments_view(r@) == segments_view(path@).push(segment@),
{
    let mut out = clone_path(path);
    let ghost before = out@;
    out.push(segment.clone());
    assert(segments_view(out@) =~= segments_view(before).push(segment@));
    out
}

// ---------------------------------------------------------------------------
// Canonical text
// ---------------------------------------------------------------------------

/// The canonical text of a key segment: the key between `['` and `']`, verbatim.
pub open spec fn key_text(key: Seq<char>) -> Seq<char> {
    "['"@ + key + "']"@
}

/// A number in decimal digits between brackets.
pub open spec fn bracketed(n: nat) -> Seq<char> {
    "["@ + decimal(n) + "]"@
}

/// The canonical text of an index segment: the decimal index between brackets.
pub open spec fn index_text(index: usize) -> Seq<char> {
    bracketed(index as nat)
}

/// The canonical text of one segment.
pub open spec fn segment_text(segment: SegmentView) -> Seq<char> {
    match segment {
        SegmentView::Key(k) => key_text(k),
        SegmentView::Index(i) => index_text(i),
    }
}

/// The canonical text of a path: `root`, then the text of each segment.
pub open spec fn path_text(path: Seq<SegmentView>) -> Seq<char>
    decreases path.len(),
{
    if path.len() == 0 {
        "root"@
    } else {
        path_text(path.drop_last()) + segment_text(path.last())
    }
}

/// The text of `path` extended by the key `key`.
pub fn child_key_path(path: &str, key: &str) -> (r: String)
    ensures
        r@ == path@ + key_text(key@),
{
    let mut out = String::from_str(path);
    out.append("['");
    out.append(key);
    out.append("']");
    assert(out@ =~= path@ + key_text(key@));
    out
}

/// The text of `path` extended by the index `index`.
pub fn child_index_path(path: &str, index: usize) -> (r: String)
    ensures
        r@ == path@ + index_text(index),
{
    let mut out = String::from_str(path);
    out.append("[");
    push_decimal(&mut out, index);
    out.append("]");
    assert(out@ =~= path@ + index_text(index));
    out
}

/// The canonical text of `path`.
#[verifier::loop_isolation(false)]
pub fn render(path: &[PathSegment]) -> (r: String)
    ensures
        r@ == path_text(segments_view(path@)),
{
    let mut out = String::from_str("root");
    let mut i: usize = 0;
    let ghost segs = segments_view(path@);
    assert(segs.take(0) =~= Seq::<SegmentView>::empty());
    while i < path.len()
        invariant
            i <= path.len(),
            out@ == path_text(segs.take(i as int)),
        decreases path.len() - i,
    {
        assert(segs.take(i + 1).drop_last() =~= segs.take(i as int));
        assert(segs.take(i + 1).last() == path@[i as int]@);
        match &path[i] {
            PathSegment::Key(k) => {
                out = child_key_path(out.as_str(), k.as_str());
            },
            PathSegment::Index(n) => {
                out = child_index_path(out.as_str(), *n);
            },
        }
        i += 1;
    }
    assert(segs.take(path.len() as int) =~= segs);
    out
}

// ---------------------------------------------------------------------------
// Parsing
// ---------------------------------------------------------------------------

/// The segments written in `s` from position `from` on. Reading stops, with
/// success, at the first character that opens no bracket; it fails where a
/// bracket is not closed or an index is no number.
pub open spec fn parse_from(s: Seq<char>, from: int) -> Option<Seq<SegmentView>>
    decreases s.len() - from,
{
    if from < 0 || from >= s.len() {
        Some(Seq::empty())
    } else if from + 1 < s.len() && s[from] == '[' && s[from + 1] == '\'' {
        match first_pair(s, from + 2, '\'', ']') {
            None => None,
            Some(end) => {
                proof {
                    lemma_first_pair_bounds(s, from + 2, '\'', ']');
                }
                match parse_from(s, end + 2) {
                    None => None,
                    Some(rest) => Some(seq![SegmentView::Key(s.subrange(from + 2, end))] + rest),
                }
            },
        }
    } else if s[from] == '[' {
        match first_char(s, from + 1, ']') {
            None => None,
            Some(end) => {
                proof {
                    lemma_first_char_bounds(s, from + 1, ']');
                }
                match parse_index(s.subrange(from + 1, end)) {
                    None => None,
                    Some(index) => match parse_from(s, end + 1) {
                        None => None,
                        Some(rest) => Some(seq![SegmentView::Index(index)] + rest),
                    },
                }
            },
        }
    } else {
        Some(Seq::empty())
    }
}

/// The path that a text denotes: it must begin with `root`; the segments follow.
pub open spec fn parse(s: Seq<char>) -> Option<Seq<SegmentView>> {
    if "root"@.is_prefix_of(s) {
        parse_from(s, 4)
    } else {
        None
    }
}

/// The text of `chars[from..to]`.
#[verifier::loop_isolation(false)]
fn text_between(chars: &Vec<char>, from: usize, to: usize) -> (r: String)
    requires
        from <= to <= chars.len(),
    ensures
        r@ == chars@.subrange(from as int, to as int),
{
    let mut out = String::new();
    let mut i = from;
    while i < to
        invariant
            from <= i <= to,
            out@ == chars@.subrange(from as int, i as int),
        decreases to - i,
    {
        out.push(chars[i]);
        i += 1;
        assert(chars@.subrange(from as int, i as int) =~= chars@.subrange(from as int, i - 1).push(
            chars@[i - 1],
        ));
    }
    out
}

/// `parse_from` adds the segments read so far in front of what follows.
pub open spec fn prepend(
    done: Seq<SegmentView>,
    rest: Option<Seq<SegmentView>>,
) -> Option<Seq<SegmentView>> {
    match rest {
        None => None,
        Some(r) => Some(done + r),
    }
}

/// Reads the path written in `path`, or `None` where it is no valid path.
#[verifier::loop_isolation(false)]
pub fn parse_path(path: &str) -> (r: Option<Vec<PathSegment>>)
    ensures
        match r {
            Some(segments) => parse(path@) == Some(segments_view(segments@)),
            None => parse(path@) is None,
        },
{
    let chars = chars_of(path);
    proof {
        reveal_strlit("root");
    }
    if !(chars.len() >= 4 && chars[0] == 'r' && chars[1] == 'o' && chars[2] == 'o' && chars[3]
        == 't') {
        assert(!"root"@.is_prefix_of(path@)) by {
            if "root"@.is_prefix_of(path@) {
                assert(path@.subrange(0, 4)[0] == 'r');
                assert(path@.subrange(0, 4)[1] == 'o');
                assert(path@.subrange(0, 4)[2] == 'o');
                assert(path@.subrange(0, 4)[3] == 't');
            }
        }
        return None;
    }
    assert("root"@.is_prefix_of(path@)) by {
        assert(path@.subrange(0, 4) =~= "root"@);
    }
    let mut segments: Vec<PathSegment> = Vec::new();
    let mut i: usize = 4;
    assert(segments_view(segments@) =~= Seq::<SegmentView>::empty());
    assert(prepend(Seq::empty(), parse_from(chars@, 4)) == parse_from(chars@, 4)) by {
        if parse_from(chars@, 4) is Some {
            assert(Seq::<SegmentView>::empty() + parse_from(chars@, 4)->0 =~= parse_from(
                chars@,
                4,
            )->0);
        }
    }
    while i < chars.len()
        invariant
            4 <= i,
            parse_from(chars@, 4) == prepend(segments_view(segments@), parse_from(chars@, i as int)),
        decreases chars.len() - i,
    {
        let ghost done = segments_view(segments@);
        if i + 1 < chars.len() && chars[i] == '[' && chars[i + 1] == '\'' {
            proof {
                lemma_first_pair_bounds(chars@, i + 2, '\'', ']');
            }
            match find_pair(&chars, i + 2, '\'', ']') {
                None => {
                    return None;
                },
                Some(end) => {
                    let key = text_between(&chars, i + 2, end);
                    segments.push(PathSegment::Key(key));
                    proof {
                        let seg = SegmentView::Key(chars@.subrange(i + 2, end as int));
                        assert(segments_view(segments@) =~= done.push(seg));
                        let rest = parse_from(chars@, end + 2);
                        if rest is Some {
                            assert(done + (seq![seg] + rest->0) =~= done.push(seg) + rest->0);
                        }
                    }
                    i = end + 2;
                },
            }
        } else if chars[i] == '[' {
            proof {
                lemma_first_char_bounds(chars@, i + 1, ']');
            }
            match find_char(&chars, i + 1, ']') {
                None => {
                    return None;
                },
                Some(end) => {
                    match read_index(&chars, i + 1, end) {
                        None => {
                            return None;
                        },
                        Some(index) => {
                            segments.push(PathSegment::Index(index));
                            proof {
                                let seg = SegmentView::Index(index);
                                assert(segments_view(segments@) =~= done.push(seg));
                                let rest = parse_from(chars@, end + 1);
                                if rest is Some {
                                    assert(done + (seq![seg] + rest->0) =~= done.push(seg)
                                        + rest->0);
                                }
                            }
                            i = end + 1;
                        },
                    }
                },
            }
        } else {
            assert(done + Seq::<SegmentView>::empty() =~= done);
            return Some(segments);
        }
    }
    assert(segments_view(segments@) + Seq::<SegmentView>::empty() =~= segments_view(segments@));
    Some(segments)
}

// ---------------------------------------------------------------------------
// Compact text
// ---------------------------------------------------------------------------

/// True for an ASCII letter or an underscore.
pub open spec fn identifier_start(c: char) -> bool {
    ('a' <= c && c <= 'z') || ('A' <= c && c <= 'Z') || c == '_'
}

/// True for an ASCII letter, an ASCII digit or an underscore.
pub open spec fn identifier_part(c: char) -> bool {
    identifier_start(c) || ('0' <= c && c <= '9')
}

/// True when `s` is a bare identifier: a letter or underscore, then letters,
/// digits and underscores.
pub open spec fn simple_identifier(s: Seq<char>) -> bool {
    &&& s.len() > 0
    &&& identifier_start(s[0])
    &&& forall|i: int| 0 < i < s.len() ==> identifier_part(#[trigger] s[i])
}

/// True when `value` is a bare identifier.
#[verifier::loop_isolation(false)]
pub fn is_simple_identifier(value: &str) -> (r: bool)
    ensures
        r == simple_identifier(value@),
{
    let chars = chars_of(value);
    if chars.len() == 0 {
        return false;
    }
    let first = chars[0];
    if !(('a' <= first && first <= 'z') || ('A' <= first && first <= 'Z') || first == '_') {
        return false;
    }
    let mut i: usize = 1;
    while i < chars.len()
        invariant
            1 <= i <= chars.len(),
            forall|j: int| 0 < j < i ==> identifier_part(#[trigger] chars@[j]),
        decreases chars.len() - i,
    {
        let c = chars[i];
        if !(('a' <= c && c <= 'z') || ('A' <= c && c <= 'Z') || c == '_' || ('0' <= c && c
            <= '9')) {
            assert(!identifier_part(chars@[i as int]));
            return false;
        }
        i += 1;
    }
    true
}

/// The compact text of one segment: `.key` for a bare identifier (without the
/// dot where the segment is the first), the bracket form for any other key,
/// and `[n]` for an index.
pub open spec fn compact_segment(segment: SegmentView, first: bool) -> Seq<char> {
    match segment {
        SegmentView::Key(k) => if simple_identifier(k) {
            if first {
                k
            } else {
                "."@ + k
            }
        } else {
            key_text(k)
        },
        SegmentView::Index(i) => index_text(i),
    }
}

/// The compact text of a run of segments.
pub open spec fn compact_segments(path: Seq<SegmentView>) -> Seq<char>
    decreases path.len(),
{
    if path.len() == 0 {
        Seq::empty()
    } else {
        compact_segments(path.drop_last()) + compact_segment(path.last(), path.len() == 1)
    }
}

/// The compact text of a path: `root` for the empty path.
pub open spec fn compact_path(path: Seq<SegmentView>) -> Seq<char> {
    if path.len() == 0 {
        "root"@
    } else {
        compact_segments(path)
    }
}

/// The compact text of `segments`.
#[verifier::loop_isolation(false)]
pub fn format_compact_segments(segments: &[PathSegment]) -> (r: String)
    ensures
        r@ == compact_segments(segments_view(segments@)),
{
    let mut out = String::new();
    let mut i: usize = 0;
    let ghost segs = segments_view(segments@);
    assert(segs.take(0) =~= Seq::<SegmentView>::empty());
    while i < segments.len()
        invariant
            i <= segments.len(),
            out@ == compact_segments(segs.take(i as int)),
        decreases segments.len() - i,
    {
        let ghost before = out@;
        assert(segs.take(i + 1).drop_last() =~= segs.take(i as int));
        assert(segs.take(i + 1).last() == segments@[i as int]@);
        match &segments[i] {
            PathSegment::Key(key) => {
                if is_simple_identifier(key.as_str()) {
                    if i != 0 {
                        out.append(".");
                    }
                    out.append(key.as_str());
                } else {
                    out.append("['");
                    out.append(key.as_str());
                    out.append("']");
                }
            },
            PathSegment::Index(n) => {
                out.append("[");
                push_decimal(&mut out, *n);
                out.append("]");
            },
        }
        assert(out@ =~= before + compact_segment(segments@[i as int]@, i == 0));
        i += 1;
    }
    assert(segs.take(segments.len() as int) =~= segs);
    out
}

/// The compact text of the path `segments`.
pub fn format_compact_path(segments: &[PathSegment]) -> (r: String)
    ensures
        r@ == compact_path(segments_view(segments@)),
{
    if segments.len() == 0 {
        return String::from_str("root");
    }
    format_compact_segments(segments)
}

/// The label of an index in a tree: the index between brackets.
pub fn format_index_label(index: usize) -> (r: String)
    ensures
        r@ == index_text(index),
{
    let mut out = String::from_str("[");
    push_decimal(&mut out, index);
    out.append("]");
    assert(out@ =~= index_text(index));
    out
}

/// The label of a segment in a tree: the key itself, or the index between brackets.
pub open spec fn segment_label(segment: SegmentView) -> Seq<char> {
    match segment {
        SegmentView::Key(k) => k,
        SegmentView::Index(i) => index_text(i),
    }
}

/// The label of `segment` in a tree.
pub fn format_segment_label(segment: &PathSegment) -> (r: String)
    ensures
        r@ == segment_label(segment@),
{
    match segment {
        PathSegment::Key(key) => key.clone(),
        PathSegment::Index(i) => format_index_label(*i),
    }
}


// ---------------------------------------------------------------------------
// Reading back what was written
// ---------------------------------------------------------------------------

/// True when the key holds `'` directly followed by `]`, the mark that ends a
/// key in the canonical text.
pub open spec fn holds_key_end(key: Seq<char>) -> bool {
    exists|j: int| crate::text::pair_at(key, j, '\'', ']')
}

/// True when no key of the path holds the mark that ends a key.
pub open spec fn readable(path: Seq<SegmentView>) -> bool {
    forall|i: int|
        0 <= i < path.len() ==> (#[trigger] path[i] matches SegmentView::Key(k) ==> !holds_key_end(
            k,
        ))
}

proof fn lemma_first_pair_is(s: Seq<char>, from: int, p: int, a: char, b: char)
    requires
        0 <= from <= p,
        crate::text::pair_at(s, p, a, b),
        forall|j: int| from <= j < p ==> !crate::text::pair_at(s, j, a, b),
    ensures
        first_pair(s, from, a, b) == Some(p),
{
    lemma_first_pair_bounds(s, from, a, b);
}

proof fn lemma_first_char_is(s: Seq<char>, from: int, p: int, a: char)
    requires
        0 <= from <= p < s.len(),
        s[p] == a,
        forall|j: int| from <= j < p ==> s[j] != a,
    ensures
        first_char(s, from, a) == Some(p),
{
    lemma_first_char_bounds(s, from, a);
}

/// The canonical text of a path begins with the text of each of its beginnings.
proof fn lemma_path_text_prefix(path: Seq<SegmentView>, k: int)
    requires
        0 <= k <= path.len(),
    ensures
        path_text(path.take(k)).len() <= path_text(path).len(),
        path_text(path).subrange(0, path_text(path.take(k)).len() as int) == path_text(
            path.take(k),
        ),
    decreases path.len(),
{
    if k == path.len() {
        assert(path.take(k) =~= path);
        assert(path_text(path).subrange(0, path_text(path).len() as int) =~= path_text(path));
    } else {
        let shorter = path.drop_last();
        assert(shorter.take(k) =~= path.take(k));
        lemma_path_text_prefix(shorter, k);
        let n = path_text(path.take(k)).len() as int;
        assert(path_text(path).subrange(0, n) =~= path_text(shorter).subrange(0, n));
    }
}

proof fn lemma_key_region(t: Seq<char>, from: int, key: Seq<char>)
    requires
        0 <= from,
        from + key.len() + 4 <= t.len(),
        t.subrange(from, from + key.len() + 4) == key_text(key),
        !holds_key_end(key),
    ensures
        t[from] == '[',
        t[from + 1] == '\'',
        first_pair(t, from + 2, '\'', ']') == Some(from + 2 + key.len()),
        t.subrange(from + 2, from + 2 + key.len()) == key,
{
    reveal_strlit("['");
    reveal_strlit("']");
    let region = t.subrange(from, from + key.len() + 4);
    let n = key.len() as int;
    assert(region[0] == '[' && region[1] == '\'');
    assert(region[n + 2] == '\'' && region[n + 3] == ']');
    assert forall|j: int| 0 <= j < n implies t[from + 2 + j] == key[j] by {
        assert(region[2 + j] == key[j]);
    }
    assert(t.subrange(from + 2, from + 2 + n) =~= key);
    assert forall|j: int| from + 2 <= j < from + 2 + n implies !crate::text::pair_at(
        t,
        j,
        '\'',
        ']',
    ) by {
        let i = j - from - 2;
        if crate::text::pair_at(t, j, '\'', ']') {
            if i + 1 < n {
                assert(key[i] == t[j] && key[i + 1] == t[j + 1]);
                assert(crate::text::pair_at(key, i, '\'', ']'));
            } else {
                assert(t[j + 1] == region[n + 2]);
            }
        }
    }
    assert(t[from + 2 + n] == region[n + 2] && t[from + 3 + n] == region[n + 3]);
    lemma_first_pair_is(t, from + 2, from + 2 + n, '\'', ']');
}

proof fn lemma_index_region(t: Seq<char>, from: int, index: usize)
    requires
        0 <= from,
        from + decimal(index as nat).len() + 2 <= t.len(),
        t.subrange(from, from + decimal(index as nat).len() + 2) == index_text(index),
    ensures
        t[from] == '[',
        t[from + 1] != '\'',
        first_char(t, from + 1, ']') == Some(from + 1 + decimal(index as nat).len()),
        parse_index(t.subrange(from + 1, from + 1 + decimal(index as nat).len())) == Some(index),
{
    reveal_strlit("[");
    reveal_strlit("]");
    let d = decimal(index as nat);
    let n = d.len() as int;
    crate::text::lemma_decimal_value(index as nat);
    let region = t.subrange(from, from + n + 2);
    assert(region[0] == '[');
    assert(region[n + 1] == ']');
    assert forall|j: int| 0 <= j < n implies t[from + 1 + j] == d[j] by {
        assert(region[1 + j] == d[j]);
    }
    assert(t.subrange(from + 1, from + 1 + n) =~= d);
    assert(crate::text::is_digit(d[0]));
    assert(t[from + 1] == d[0]);
    assert forall|j: int| from + 1 <= j < from + 1 + n implies t[j] != ']' by {
        assert(crate::text::is_digit(d[j - from - 1]));
    }
    assert(t[from + 1 + n] == region[n + 1]);
    lemma_first_char_is(t, from + 1, from + 1 + n, ']');
}

proof fn lemma_parse_tail(path: Seq<SegmentView>, k: int)
    requires
        readable(path),
        0 <= k <= path.len(),
    ensures
        parse_from(path_text(path), path_text(path.take(k)).len() as int) == Some(path.skip(k)),
    decreases path.len() - k,
{
    let t = path_text(path);
    let from = path_text(path.take(k)).len() as int;
    lemma_path_text_prefix(path, k);
    if k == path.len() {
        assert(path.take(k) =~= path);
        assert(path.skip(k) =~= Seq::<SegmentView>::empty());
    } else {
        lemma_parse_tail(path, k + 1);
        lemma_path_text_prefix(path, k + 1);
        assert(path.take(k + 1).drop_last() =~= path.take(k));
        assert(path.take(k + 1).last() == path[k]);
        let seg = segment_text(path[k]);
        let next = path_text(path.take(k + 1)).len() as int;
        assert(path_text(path.take(k + 1)) == path_text(path.take(k)) + seg);
        assert(t.subrange(from, next) =~= seg) by {
            assert(t.subrange(0, next) == path_text(path.take(k)) + seg);
            assert forall|j: int| 0 <= j < seg.len() implies t.subrange(from, next)[j] == seg[j] by {
                assert(t.subrange(0, next)[from + j] == seg[j]);
            }
        }
        assert(path.skip(k) =~= seq![path[k]] + path.skip(k + 1));
        match path[k] {
            SegmentView::Key(key) => {
                reveal_strlit("['");
                reveal_strlit("']");
                assert(seg.len() == key.len() + 4);
                lemma_key_region(t, from, key);
            },
            SegmentView::Index(index) => {
                reveal_strlit("[");
                reveal_strlit("]");
                assert(seg.len() == decimal(index as nat).len() + 2);
                lemma_index_region(t, from, index);
            },
        }
    }
}

/// Reading the canonical text of a path gives the path back, provided that no
/// key holds `']`, the mark that ends a key in the text.
pub proof fn lemma_parse_inverts_render(path: Seq<SegmentView>)
    requires
        readable(path),
    ensures
        parse(path_text(path)) == Some(path),
{
    reveal_strlit("root");
    lemma_parse_tail(path, 0);
    lemma_path_text_prefix(path, 0);
    assert(path.take(0) =~= Seq::<SegmentView>::empty());
    assert(path.skip(0) =~= path);
    assert(path_text(path.take(0)) == "root"@);
    assert("root"@.len() == 4);
}

} // verus!
