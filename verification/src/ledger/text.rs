//! The character-level grammar of the ledger database: lines, whitespace-separated
//! fields and unsigned decimal numbers.
//!
//! Every function works on a text held as a vector of characters and hands out
//! spans, pairs of positions `(start, end)` that stand for the characters from
//! `start` up to, not including, `end`.

use vstd::prelude::*;

verus! {

/// Why a run of characters is not an unsigned decimal number within a limit.
#[derive(Debug, Clone, Copy, PartialEq, Eq, Structural)]
pub enum IntErrorKind {
    /// There is no character at all.
    Empty,
    /// A character is not a decimal digit, or a sign stands alone.
    InvalidDigit,
    /// The digits read so far already exceed the limit.
    PosOverflow,
}

/// A span of a text: the positions `start` and `end` of a run of characters.
pub type Span = (usize, usize);

/// White space is what the Unicode property `White_Space` names.
pub open spec fn is_whitespace(c: char) -> bool {
    let u: u32 = c as u32;
    ||| 0x09 <= u <= 0x0D
    ||| u == 0x20
    ||| u == 0x85
    ||| u == 0xA0
    ||| u == 0x1680
    ||| 0x2000 <= u <= 0x200A
    ||| u == 0x2028
    ||| u == 0x2029
    ||| u == 0x202F
    ||| u == 0x205F
    ||| u == 0x3000
}

/// A decimal digit is one of the ten characters from `0` to `9`.
pub open spec fn is_digit(c: char) -> bool {
    '0' <= c <= '9'
}

/// The number that a decimal digit stands for.
pub open spec fn digit_value(c: char) -> nat
    recommends
        is_digit(c),
{
    (c as u32 - '0' as u32) as nat
}

/// How many characters precede the first line feed of `s`; all of them where it
/// has none.
pub open spec fn newline_at(s: Seq<char>) -> int
    decreases s.len(),
{
    if s.len() == 0 || s[0] == '\n' {
        0
    } else {
        1 + newline_at(s.drop_first())
    }
}

/// A line without the carriage return that ended it, if one did.
pub open spec fn strip_cr(line: Seq<char>) -> Seq<char> {
    if line.len() > 0 && line.last() == '\r' {
        line.drop_last()
    } else {
        line
    }
}

/// The lines of a text. A line ends with a line feed, or with a carriage return
/// and a line feed; neither belongs to the line. What follows the last line feed
/// is a line too, unless nothing follows it, so the empty text has no line.
pub open spec fn lines(s: Seq<char>) -> Seq<Seq<char>>
    decreases s.len(),
{
    let n = newline_at(s);
    if s.len() == 0 {
        Seq::empty()
    } else if 0 <= n < s.len() {
        seq![strip_cr(s.take(n))] + lines(s.skip(n + 1))
    } else {
        seq![s]
    }
}

/// How many characters precede the first white space of `s`; all of them where
/// it has none.
pub open spec fn word_len(s: Seq<char>) -> int
    decreases s.len(),
{
    if s.len() == 0 || is_whitespace(s[0]) {
        0
    } else {
        1 + word_len(s.drop_first())
    }
}

/// The fields of a line: its maximal runs of characters that are not white space,
/// from left to right.
pub open spec fn fields(s: Seq<char>) -> Seq<Seq<char>>
    decreases s.len(),
{
    let n = word_len(s);
    if s.len() == 0 {
        Seq::empty()
    } else if is_whitespace(s[0]) {
        fields(s.drop_first())
    } else if 0 < n <= s.len() {
        seq![s.take(n)] + fields(s.skip(n))
    } else {
        Seq::empty()
    }
}

/// A line is blank when every character of it is white space.
pub open spec fn is_blank(s: Seq<char>) -> bool {
    forall|i: int| 0 <= i < s.len() ==> is_whitespace(#[trigger] s[i])
}

/// The number that a run of decimal digits writes.
pub open spec fn decimal_value(s: Seq<char>) -> nat
    decreases s.len(),
{
    if s.len() == 0 {
        0
    } else {
        10 * decimal_value(s.drop_last()) + digit_value(s.last())
    }
}

/// Every character of `s` is a decimal digit.
pub open spec fn all_digits(s: Seq<char>) -> bool {
    forall|i: int| 0 <= i < s.len() ==> is_digit(#[trigger] s[i])
}

/// Reads `s` as digits from left to right. The first character that is not a
/// digit gives `InvalidDigit`, the first digit that takes the number past `max`
/// gives `PosOverflow`, and whichever comes first decides.
pub open spec fn read_digits(s: Seq<char>, max: nat) -> Result<nat, IntErrorKind>
    decreases s.len(),
{
    if s.len() == 0 {
        Ok(0)
    } else {
        match read_digits(s.drop_last(), max) {
            Err(kind) => Err(kind),
            Ok(before) => {
                if !is_digit(s.last()) {
                    Err(IntErrorKind::InvalidDigit)
                } else if 10 * before + digit_value(s.last()) > max {
                    Err(IntErrorKind::PosOverflow)
                } else {
                    Ok(10 * before + digit_value(s.last()))
                }
            },
        }
    }
}

/// What remains of a number's text once a leading plus sign is taken away.
pub open spec fn unsigned_digits(s: Seq<char>) -> Seq<char> {
    if s.len() > 0 && s[0] == '+' {
        s.drop_first()
    } else {
        s
    }
}

/// Reads `s` as an unsigned decimal number no greater than `max`: an optional
/// plus sign, then at least one digit and nothing else.
pub open spec fn parse_unsigned(s: Seq<char>, max: nat) -> Result<nat, IntErrorKind> {
    if s.len() == 0 {
        Err(IntErrorKind::Empty)
    } else if unsigned_digits(s).len() == 0 {
        Err(IntErrorKind::InvalidDigit)
    } else {
        read_digits(unsigned_digits(s), max)
    }
}

/// The spans lie inside a text of `len` characters.
pub open spec fn spans_within(spans: Seq<Span>, len: nat) -> bool {
    forall|i: int| 0 <= i < spans.len() ==> (#[trigger] spans[i]).0 <= spans[i].1 <= len
}

/// The runs of characters that the spans stand for.
pub open spec fn span_texts(text: Seq<char>, spans: Seq<Span>) -> Seq<Seq<char>> {
    Seq::new(spans.len(), |i: int| text.subrange(spans[i].0 as int, spans[i].1 as int))
}

/// Reading digits succeeds exactly on a run of digits whose number is within
/// the limit, and then gives that number.
pub proof fn lemma_read_digits_ok(s: Seq<char>, max: nat)
    ensures
        read_digits(s, max) is Ok <==> all_digits(s) && decimal_value(s) <= max,
        read_digits(s, max) is Ok ==> read_digits(s, max) == Ok::<nat, IntErrorKind>(
            decimal_value(s),
        ),
    decreases s.len(),
{
    if s.len() > 0 {
        let front = s.drop_last();
        lemma_read_digits_ok(front, max);
        if all_digits(s) {
            assert forall|i: int| 0 <= i < front.len() implies is_digit(#[trigger] front[i]) by {
                assert(front[i] == s[i]);
            }
        }
        if all_digits(front) && is_digit(s.last()) {
            assert forall|i: int| 0 <= i < s.len() implies is_digit(#[trigger] s[i]) by {
                if i < front.len() {
                    assert(front[i] == s[i]);
                }
            }
        }
        if read_digits(s, max) is Ok {
            assert(all_digits(front));
            assert(is_digit(s.last()));
        }
    }
}

/// A word's length is where its first white space stands.
proof fn lemma_word_len(s: Seq<char>, n: int)
    requires
        0 <= n <= s.len(),
        forall|i: int| 0 <= i < n ==> !is_whitespace(#[trigger] s[i]),
        n == s.len() || is_whitespace(s[n]),
    ensures
        word_len(s) == n,
    decreases s.len(),
{
    if n > 0 {
        let rest = s.drop_first();
        assert forall|i: int| 0 <= i < n - 1 implies !is_whitespace(#[trigger] rest[i]) by {
            assert(rest[i] == s[i + 1]);
        }
        lemma_word_len(rest, n - 1);
    }
}

/// The first line feed stands where no earlier character is one.
proof fn lemma_newline_at(s: Seq<char>, n: int)
    requires
        0 <= n <= s.len(),
        forall|i: int| 0 <= i < n ==> #[trigger] s[i] != '\n',
        n == s.len() || s[n] == '\n',
    ensures
        newline_at(s) == n,
    decreases s.len(),
{
    if n > 0 {
        let rest = s.drop_first();
        assert forall|i: int| 0 <= i < n - 1 implies #[trigger] rest[i] != '\n' by {
            assert(rest[i] == s[i + 1]);
        }
        lemma_newline_at(rest, n - 1);
    }
}

/// A text has no more lines than characters.
pub proof fn lemma_lines_len(s: Seq<char>)
    ensures
        lines(s).len() <= s.len(),
    decreases s.len(),
{
    let n = newline_at(s);
    if s.len() > 0 && 0 <= n < s.len() {
        lemma_lines_len(s.skip(n + 1));
    }
}

/// Tells white space from other characters.
pub fn is_space(c: char) -> (b: bool)
    ensures
        b == is_whitespace(c),
{
    let u: u32 = c as u32;
    (0x09 <= u && u <= 0x0D) || u == 0x20 || u == 0x85 || u == 0xA0 || u == 0x1680 || (0x2000 <= u
        && u <= 0x200A) || u == 0x2028 || u == 0x2029 || u == 0x202F || u == 0x205F || u == 0x3000
}

/// The characters of a string, in order.
pub fn to_chars(s: &str) -> (text: Vec<char>)
    ensures
        text@ == s@,
{
    let mut text: Vec<char> = Vec::new();
    for c in it: s.chars()
        invariant
            text@ == it.seq().take(it.index() as int),
            it.seq() == s@,
    {
        text.push(c);
    }
    text
}

/// Splits a text into the spans of its lines.
pub fn split_lines(text: &Vec<char>) -> (spans: Vec<Span>)
    ensures
        spans_within(spans@, text@.len()),
        span_texts(text@, spans@) == lines(text@),
{
    let len = text.len();
    let mut spans: Vec<Span> = Vec::new();
    let mut pos: usize = 0;
    proof {
        assert(text@.skip(0) =~= text@);
        assert(span_texts(text@, spans@) + lines(text@.skip(0)) =~= lines(text@));
    }
    while pos < len
        invariant
            len == text@.len(),
            pos <= len,
            spans_within(spans@, text@.len()),
            span_texts(text@, spans@) + lines(text@.skip(pos as int)) == lines(text@),
        decreases len - pos,
    {
        let ghost rest = text@.skip(pos as int);
        let ghost before = spans@;
        let mut end: usize = pos;
        while end < len && text[end] != '\n'
            invariant
                len == text@.len(),
                pos <= end <= len,
                forall|i: int| pos <= i < end ==> #[trigger] text@[i] != '\n',
            decreases len - end,
        {
            end += 1;
        }
        proof {
            assert forall|i: int| 0 <= i < end - pos implies #[trigger] rest[i] != '\n' by {
                assert(rest[i] == text@[pos + i]);
            }
            lemma_newline_at(rest, end - pos);
        }
        if end == len {
            spans.push((pos, len));
            proof {
                assert(text@.subrange(pos as int, len as int) =~= rest);
                assert(text@.skip(len as int) =~= Seq::<char>::empty());
                assert(lines(rest) =~= seq![rest]);
                assert(span_texts(text@, spans@) =~= span_texts(text@, before) + seq![rest]);
                assert(span_texts(text@, spans@) + lines(text@.skip(len as int)) =~= span_texts(
                    text@,
                    before,
                ) + lines(rest));
            }
            pos = len;
        } else {
            let stop: usize = if end > pos && text[end - 1] == '\r' {
                end - 1
            } else {
                end
            };
            spans.push((pos, stop));
            proof {
                let raw = rest.take(end - pos);
                assert(raw =~= text@.subrange(pos as int, end as int));
                assert(strip_cr(raw) =~= text@.subrange(pos as int, stop as int));
                assert(rest.skip(end - pos + 1) =~= text@.skip(end + 1));
                assert(lines(rest) =~= seq![strip_cr(raw)] + lines(text@.skip(end + 1)));
                assert(span_texts(text@, spans@) =~= span_texts(text@, before) + seq![
                    strip_cr(raw),
                ]);
                assert(span_texts(text@, spans@) + lines(text@.skip(end + 1)) =~= span_texts(
                    text@,
                    before,
                ) + lines(rest));
            }
            pos = end + 1;
        }
    }
    proof {
        assert(text@.skip(len as int) =~= Seq::<char>::empty());
        assert(span_texts(text@, spans@) + lines(text@.skip(len as int)) =~= span_texts(
            text@,
            spans@,
        ));
    }
    spans
}

/// Splits the line that stands at `line` into the spans of its fields.
pub fn split_fields(text: &Vec<char>, line: Span) -> (spans: Vec<Span>)
    requires
        line.0 <= line.1 <= text@.len(),
    ensures
        spans_within(spans@, text@.len()),
        span_texts(text@, spans@) == fields(text@.subrange(line.0 as int, line.1 as int)),
{
    let stop = line.1;
    let mut spans: Vec<Span> = Vec::new();
    let mut pos: usize = line.0;
    proof {
        assert(span_texts(text@, spans@) + fields(text@.subrange(pos as int, stop as int))
            =~= fields(text@.subrange(line.0 as int, line.1 as int)));
    }
    while pos < stop
        invariant
            stop == line.1,
            line.0 <= pos <= stop <= text@.len(),
            spans_within(spans@, text@.len()),
            span_texts(text@, spans@) + fields(text@.subrange(pos as int, stop as int)) == fields(
                text@.subrange(line.0 as int, line.1 as int),
            ),
        decreases stop - pos,
    {
        let ghost rest = text@.subrange(pos as int, stop as int);
        let ghost before = spans@;
        if is_space(text[pos]) {
            proof {
                assert(rest.drop_first() =~= text@.subrange(pos + 1, stop as int));
            }
            pos += 1;
        } else {
            let mut end: usize = pos + 1;
            while end < stop && !is_space(text[end])
                invariant
                    pos < end <= stop <= text@.len(),
                    forall|i: int| pos <= i < end ==> !is_whitespace(#[trigger] text@[i]),
                decreases stop - end,
            {
                end += 1;
            }
            spans.push((pos, end));
            proof {
                assert forall|i: int| 0 <= i < end - pos implies !is_whitespace(
                    #[trigger] rest[i],
                ) by {
                    assert(rest[i] == text@[pos + i]);
                }
                lemma_word_len(rest, end - pos);
                let word = rest.take(end - pos);
                assert(word =~= text@.subrange(pos as int, end as int));
                assert(rest.skip(end - pos) =~= text@.subrange(end as int, stop as int));
                assert(fields(rest) =~= seq![word] + fields(
                    text@.subrange(end as int, stop as int),
                ));
                assert(span_texts(text@, spans@) =~= span_texts(text@, before) + seq![word]);
                assert(span_texts(text@, spans@) + fields(text@.subrange(end as int, stop as int))
                    =~= span_texts(text@, before) + fields(rest));
            }
            pos = end;
        }
    }
    proof {
        assert(text@.subrange(stop as int, stop as int) =~= Seq::<char>::empty());
        assert(span_texts(text@, spans@) + fields(text@.subrange(stop as int, stop as int))
            =~= span_texts(text@, spans@));
    }
    spans
}

/// Tells whether the line that stands at `line` is blank.
pub fn is_blank_line(text: &Vec<char>, line: Span) -> (b: bool)
    requires
        line.0 <= line.1 <= text@.len(),
    ensures
        b == is_blank(text@.subrange(line.0 as int, line.1 as int)),
{
    let ghost s = text@.subrange(line.0 as int, line.1 as int);
    let mut pos: usize = line.0;
    while pos < line.1
        invariant
            line.0 <= pos <= line.1 <= text@.len(),
            s == text@.subrange(line.0 as int, line.1 as int),
            forall|i: int| 0 <= i < pos - line.0 ==> is_whitespace(#[trigger] s[i]),
        decreases line.1 - pos,
    {
        if !is_space(text[pos]) {
            proof {
                assert(s[pos - line.0] == text@[pos as int]);
            }
            return false;
        }
        proof {
            assert(s[pos - line.0] == text@[pos as int]);
        }
        pos += 1;
    }
    true
}

/// Reads the field that stands at `field` as an unsigned decimal number no
/// greater than `max`.
pub fn read_unsigned(text: &Vec<char>, field: Span, max: u64) -> (r: Result<u64, IntErrorKind>)
    requires
        field.0 <= field.1 <= text@.len(),
    ensures
        match parse_unsigned(text@.subrange(field.0 as int, field.1 as int), max as nat) {
            Ok(n) => r == Ok::<u64, IntErrorKind>(n as u64) && n <= max,
            Err(kind) => r == Err::<u64, IntErrorKind>(kind),
        },
{
    let ghost s = text@.subrange(field.0 as int, field.1 as int);
    if field.0 == field.1 {
        return Err(IntErrorKind::Empty);
    }
    let start: usize = if text[field.0] == '+' {
        field.0 + 1
    } else {
        field.0
    };
    proof {
        assert(s[0] == text@[field.0 as int]);
        assert(unsigned_digits(s) =~= text@.subrange(start as int, field.1 as int));
    }
    if start == field.1 {
        return Err(IntErrorKind::InvalidDigit);
    }
    let ghost digits = text@.subrange(start as int, field.1 as int);
    let mut value: u64 = 0;
    let mut pos: usize = start;
    proof {
        assert(digits.take(0) =~= Seq::<char>::empty());
    }
    while pos < field.1
        invariant
            start <= pos <= field.1 <= text@.len(),
            digits == text@.subrange(start as int, field.1 as int),
            s == text@.subrange(field.0 as int, field.1 as int),
            s.len() > 0,
            digits.len() > 0,
            unsigned_digits(s) == digits,
            read_digits(digits.take(pos - start), max as nat) == Ok::<nat, IntErrorKind>(
                value as nat,
            ),
            value <= max,
        decreases field.1 - pos,
    {
        let c = text[pos];
        let ghost upto = digits.take(pos - start + 1);
        proof {
            assert(upto.drop_last() =~= digits.take(pos - start));
            assert(upto.last() == c);
        }
        if !(c >= '0' && c <= '9') {
            proof {
                lemma_read_digits_sticks(digits, pos - start + 1, max as nat);
            }
            return Err(IntErrorKind::InvalidDigit);
        }
        let d: u64 = (c as u32 - '0' as u32) as u64;
        let next: u128 = 10 * (value as u128) + (d as u128);
        if next > max as u128 {
            proof {
                lemma_read_digits_sticks(digits, pos - start + 1, max as nat);
            }
            return Err(IntErrorKind::PosOverflow);
        }
        value = next as u64;
        pos += 1;
    }
    proof {
        assert(digits.take(field.1 - start) =~= digits);
    }
    Ok(value)
}

/// Once reading a prefix has failed, reading the whole fails in the same way.
proof fn lemma_read_digits_sticks(s: Seq<char>, n: int, max: nat)
    requires
        0 <= n <= s.len(),
        read_digits(s.take(n), max) is Err,
    ensures
        read_digits(s, max) == read_digits(s.take(n), max),
    decreases s.len() - n,
{
    if n < s.len() {
        assert(s.take(n + 1).drop_last() =~= s.take(n));
        lemma_read_digits_sticks(s, n + 1, max);
    } else {
        assert(s.take(n) =~= s);
    }
}

} // verus!
