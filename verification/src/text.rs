//! Text primitives shared by the path grammar, the engine and the renderer.
//! Every text is reasoned about as its sequence of characters.

use vstd::prelude::*;

verus! {

/// `String::push` appends one character to the end of the string.
pub assume_specification[ std::string::String::push ](s: &mut std::string::String, c: char)
    ensures
        final(s)@ == old(s)@.push(c),
;

/// The characters of `s`, in order.
pub fn chars_of(s: &str) -> (v: Vec<char>)
    ensures
        v@ == s@,
{
    let mut v: Vec<char> = Vec::new();
    for c in it: s.chars()
        invariant
            it.seq() == s@,
            v@ == it.seq().take(it.index() as int),
    {
        v.push(c);
        assert(it.seq().take(it.index() + 1) == it.seq().take(it.index() as int).push(c));
    }
    assert(s@.take(s@.len() as int) == s@);
    v
}

/// The views of a sequence of strings.
pub open spec fn texts(v: Seq<String>) -> Seq<Seq<char>> {
    Seq::new(v.len(), |i: int| v[i]@)
}

// ---------------------------------------------------------------------------
// Decimal numerals
// ---------------------------------------------------------------------------

/// The character of the decimal digit `d`.
pub open spec fn digit_char(d: int) -> char {
    if d == 0 {
        '0'
    } else if d == 1 {
        '1'
    } else if d == 2 {
        '2'
    } else if d == 3 {
        '3'
    } else if d == 4 {
        '4'
    } else if d == 5 {
        '5'
    } else if d == 6 {
        '6'
    } else if d == 7 {
        '7'
    } else if d == 8 {
        '8'
    } else {
        '9'
    }
}

/// True for the ten ASCII digits.
pub open spec fn is_digit(c: char) -> bool {
    c == '0' || c == '1' || c == '2' || c == '3' || c == '4' || c == '5' || c == '6' || c == '7'
        || c == '8' || c == '9'
}

/// The value of a digit character; zero for any other character.
pub open spec fn digit_value(c: char) -> int {
    if c == '1' {
        1
    } else if c == '2' {
        2
    } else if c == '3' {
        3
    } else if c == '4' {
        4
    } else if c == '5' {
        5
    } else if c == '6' {
        6
    } else if c == '7' {
        7
    } else if c == '8' {
        8
    } else if c == '9' {
        9
    } else {
        0
    }
}

/// The decimal numeral of `n`, without sign or leading zeros.
pub open spec fn decimal(n: nat) -> Seq<char>
    decreases n,
{
    if n < 10 {
        seq![digit_char(n as int)]
    } else {
        decimal(n / 10).push(digit_char((n % 10) as int))
    }
}

/// The number that a sequence of digits denotes, read in base ten.
pub open spec fn decimal_value(s: Seq<char>) -> nat
    decreases s.len(),
{
    if s.len() == 0 {
        0
    } else {
        (decimal_value(s.drop_last()) * 10 + digit_value(s.last())) as nat
    }
}

/// True when every character of `s` is a digit.
pub open spec fn all_digits(s: Seq<char>) -> bool {
    forall|i: int| 0 <= i < s.len() ==> is_digit(#[trigger] s[i])
}

/// A numeral is made of digits, is not empty, and denotes the number it was
/// written for.
pub proof fn lemma_decimal_value(n: nat)
    ensures
        decimal(n).len() > 0,
        all_digits(decimal(n)),
        decimal_value(decimal(n)) == n,
    decreases n,
{
    if n < 10 {
        let s = decimal(n);
        assert(s.drop_last() =~= Seq::<char>::empty());
        assert(decimal_value(s.drop_last()) == 0);
    } else {
        lemma_decimal_value(n / 10);
        let s = decimal(n);
        assert(s.drop_last() =~= decimal(n / 10));
        assert(s.last() == digit_char((n % 10) as int));
    }
}

fn digit_of(d: usize) -> (c: char)
    requires
        d < 10,
    ensures
        c == digit_char(d as int),
{
    if d == 0 {
        '0'
    } else if d == 1 {
        '1'
    } else if d == 2 {
        '2'
    } else if d == 3 {
        '3'
    } else if d == 4 {
        '4'
    } else if d == 5 {
        '5'
    } else if d == 6 {
        '6'
    } else if d == 7 {
        '7'
    } else if d == 8 {
        '8'
    } else {
        '9'
    }
}

/// Appends the decimal numeral of `n` to `out`.
pub fn push_decimal(out: &mut String, n: usize)
    ensures
        final(out)@ == old(out)@ + decimal(n as nat),
    decreases n,
{
    if n >= 10 {
        push_decimal(out, n / 10);
    }
    out.push(digit_of(n % 10));
    assert(out@ =~= old(out)@ + decimal(n as nat));
}

/// The value of the digit `c`, or `None` when `c` is no digit.
pub fn digit_value_of(c: char) -> (r: Option<usize>)
    ensures
        r is Some <==> is_digit(c),
        r matches Some(d) ==> d as int == digit_value(c) && d < 10,
{
    if c == '0' {
        Some(0)
    } else if c == '1' {
        Some(1)
    } else if c == '2' {
        Some(2)
    } else if c == '3' {
        Some(3)
    } else if c == '4' {
        Some(4)
    } else if c == '5' {
        Some(5)
    } else if c == '6' {
        Some(6)
    } else if c == '7' {
        Some(7)
    } else if c == '8' {
        Some(8)
    } else if c == '9' {
        Some(9)
    } else {
        None
    }
}

/// What an index between brackets denotes: an optional `+`, then at least
/// one digit, the whole no larger than the largest index.
pub open spec fn parse_index(s: Seq<char>) -> Option<usize> {
    let digits = if s.len() > 0 && s[0] == '+' {
        s.skip(1)
    } else {
        s
    };
    if digits.len() > 0 && all_digits(digits) && decimal_value(digits) <= usize::MAX {
        Some(decimal_value(digits) as usize)
    } else {
        None
    }
}

proof fn lemma_decimal_value_grows(s: Seq<char>, k: int)
    requires
        0 <= k <= s.len(),
    ensures
        decimal_value(s.take(k)) <= decimal_value(s),
    decreases s.len() - k,
{
    if k < s.len() {
        lemma_decimal_value_grows(s, k + 1);
        assert(s.take(k + 1).drop_last() =~= s.take(k));
    } else {
        assert(s.take(k) =~= s);
    }
}

/// Reads the index written in `chars[from..to]`.
#[verifier::loop_isolation(false)]
pub fn read_index(chars: &Vec<char>, from: usize, to: usize) -> (r: Option<usize>)
    requires
        from <= to <= chars.len(),
    ensures
        r == parse_index(chars@.subrange(from as int, to as int)),
{
    let ghost s = chars@.subrange(from as int, to as int);
    let mut i = from;
    if i < to && chars[i] == '+' {
        i += 1;
    }
    let start = i;
    let ghost digits = chars@.subrange(start as int, to as int);
    assert(digits =~= if s.len() > 0 && s[0] == '+' {
        s.skip(1)
    } else {
        s
    });
    if start == to {
        return None;
    }
    let mut value: usize = 0;
    while i < to
        invariant
            start <= i <= to <= chars.len(),
            digits == chars@.subrange(start as int, to as int),
            all_digits(digits.take(i - start)),
            value as nat == decimal_value(digits.take(i - start)),
        decreases to - i,
    {
        let d = digit_value_of(chars[i]);
        let ghost next = digits.take(i - start + 1);
        assert(next.drop_last() =~= digits.take(i - start));
        assert(next.last() == chars@[i as int]);
        match d {
            None => {
                assert(!is_digit(digits[i - start]));
                return None;
            },
            Some(d) => {
                proof {
                    lemma_decimal_value_grows(digits, i - start + 1);
                }
                if value > (usize::MAX - d) / 10 {
                    assert(decimal_value(next) > usize::MAX);
                    return None;
                }
                value = value * 10 + d;
                assert forall|j: int| 0 <= j < next.len() implies is_digit(#[trigger] next[j]) by {
                    if j < next.len() - 1 {
                        assert(digits.take(i - start)[j] == next[j]);
                    }
                }
            },
        }
        i += 1;
    }
    assert(digits.take(to - start) =~= digits);
    Some(value)
}

// ---------------------------------------------------------------------------
// Prefixes and searching
// ---------------------------------------------------------------------------

/// True when `prefix` is the beginning of `s`.
pub fn has_prefix(s: &Vec<char>, prefix: &Vec<char>) -> (r: bool)
    ensures
        r == prefix@.is_prefix_of(s@),
{
    if prefix.len() > s.len() {
        return false;
    }
    let mut i: usize = 0;
    while i < prefix.len()
        invariant
            i <= prefix.len() <= s.len(),
            prefix@.take(i as int) == s@.take(i as int),
        decreases prefix.len() - i,
    {
        if prefix[i] != s[i] {
            assert(prefix@[i as int] != s@.subrange(0, prefix@.len() as int)[i as int]);
            return false;
        }
        i += 1;
        assert(prefix@.take(i as int) =~= prefix@.take(i - 1).push(prefix@[i - 1]));
        assert(s@.take(i as int) =~= s@.take(i - 1).push(s@[i - 1]));
    }
    assert(prefix@.take(prefix.len() as int) =~= prefix@);
    true
}

/// True when the characters `a`, `b` stand at positions `i`, `i + 1` of `s`.
pub open spec fn pair_at(s: Seq<char>, i: int, a: char, b: char) -> bool {
    0 <= i && i + 1 < s.len() && s[i] == a && s[i + 1] == b
}

/// The first position at or after `from` where the pair `a`, `b` stands, if any.
pub open spec fn first_pair(s: Seq<char>, from: int, a: char, b: char) -> Option<int>
    decreases s.len() - from,
{
    if from < 0 || from + 1 >= s.len() {
        None
    } else if s[from] == a && s[from + 1] == b {
        Some(from)
    } else {
        first_pair(s, from + 1, a, b)
    }
}

/// The first position at or after `from` where the character `a` stands, if any.
pub open spec fn first_char(s: Seq<char>, from: int, a: char) -> Option<int>
    decreases s.len() - from,
{
    if from < 0 || from >= s.len() {
        None
    } else if s[from] == a {
        Some(from)
    } else {
        first_char(s, from + 1, a)
    }
}

/// Searches `chars` from `from` for the pair `a`, `b`.
pub fn find_pair(chars: &Vec<char>, from: usize, a: char, b: char) -> (r: Option<usize>)
    ensures
        match r {
            Some(i) => first_pair(chars@, from as int, a, b) == Some(i as int),
            None => first_pair(chars@, from as int, a, b) is None,
        },
{
    let mut i = from;
    while i < chars.len() && i + 1 < chars.len()
        invariant
            from <= i,
            first_pair(chars@, from as int, a, b) == first_pair(chars@, i as int, a, b),
        decreases chars.len() - i,
    {
        if chars[i] == a && chars[i + 1] == b {
            return Some(i);
        }
        i += 1;
    }
    None
}

/// Searches `chars` from `from` for the character `a`.
pub fn find_char(chars: &Vec<char>, from: usize, a: char) -> (r: Option<usize>)
    ensures
        match r {
            Some(i) => first_char(chars@, from as int, a) == Some(i as int),
            None => first_char(chars@, from as int, a) is None,
        },
{
    let mut i = from;
    while i < chars.len()
        invariant
            from <= i,
            first_char(chars@, from as int, a) == first_char(chars@, i as int, a),
        decreases chars.len() - i,
    {
        if chars[i] == a {
            return Some(i);
        }
        i += 1;
    }
    None
}

/// A found pair lies within the text, at or after the start of the search.
pub proof fn lemma_first_pair_bounds(s: Seq<char>, from: int, a: char, b: char)
    requires
        0 <= from,
    ensures
        first_pair(s, from, a, b) matches Some(i) ==> from <= i && pair_at(s, i, a, b) && forall|
            j: int,
        | from <= j < i ==> !pair_at(s, j, a, b),
        first_pair(s, from, a, b) is None ==> forall|j: int| from <= j ==> !pair_at(s, j, a, b),
    decreases s.len() - from,
{
    if from < 0 || from + 1 >= s.len() {
    } else if s[from] == a && s[from + 1] == b {
    } else {
        lemma_first_pair_bounds(s, from + 1, a, b);
    }
}

/// A found character lies within the text, at or after the start of the search.
pub proof fn lemma_first_char_bounds(s: Seq<char>, from: int, a: char)
    requires
        0 <= from,
    ensures
        first_char(s, from, a) matches Some(i) ==> from <= i < s.len() && s[i] == a && forall|
            j: int,
        | from <= j < i ==> s[j] != a,
        first_char(s, from, a) is None ==> forall|j: int| from <= j < s.len() ==> s[j] != a,
    decreases s.len() - from,
{
    if from < 0 || from >= s.len() {
    } else if s[from] == a {
    } else {
        lemma_first_char_bounds(s, from + 1, a);
    }
}

// ---------------------------------------------------------------------------
// Joining
// ---------------------------------------------------------------------------

/// The texts of `parts` with `sep` between each two neighbours.
pub open spec fn join(parts: Seq<Seq<char>>, sep: Seq<char>) -> Seq<char>
    decreases parts.len(),
{
    if parts.len() == 0 {
        Seq::empty()
    } else if parts.len() == 1 {
        parts[0]
    } else {
        join(parts.drop_last(), sep) + sep + parts.last()
    }
}

/// Joins `parts` with `sep` between each two neighbours.
pub fn join_texts(parts: &Vec<String>, sep: &str) -> (r: String)
    ensures
        r@ == join(texts(parts@), sep@),
{
    let mut out = String::new();
    let mut i: usize = 0;
    while i < parts.len()
        invariant
            i <= parts.len(),
            out@ == join(texts(parts@).take(i as int), sep@),
        decreases parts.len() - i,
    {
        let ghost before = texts(parts@).take(i as int);
        let ghost after = texts(parts@).take(i + 1);
        assert(after.drop_last() =~= before);
        assert(after.last() == parts@[i as int]@);
        if i > 0 {
            out.append(sep);
        }
        out.append(parts[i].as_str());
        assert(out@ =~= join(after, sep@));
        i += 1;
    }
    assert(texts(parts@).take(parts.len() as int) =~= texts(parts@));
    out
}

} // verus!
