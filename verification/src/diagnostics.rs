//! Turning a failure of the source parser into the message shown to the user:
//! the line and column of the failure, the offending line without its
//! indentation, and a marker under the offending text.
//!
//! Positions are byte offsets into the UTF-8 encoding of the source, and
//! columns count bytes. An offset inside a character counts as the offset
//! of that character, an offset past the end as the end, and an end before
//! its start as the start.

use vstd::prelude::*;
use crate::error::{Error, LexicalError, SyntaxError};
use crate::text::{chars_of, string_of};
use crate::text_rendering::{decimal_text, digit_char};

verus! {

/// Bytes that a character takes in UTF-8.
pub open spec fn utf8_width(c: char) -> nat {
    if (c as u32) < 0x80 {
        1
    } else if (c as u32) < 0x800 {
        2
    } else if (c as u32) < 0x1_0000 {
        3
    } else {
        4
    }
}

/// Bytes that a text takes in UTF-8.
pub open spec fn byte_length(text: Seq<char>) -> nat
    decreases text.len(),
{
    if text.len() == 0 {
        0
    } else {
        byte_length(text.drop_last()) + utf8_width(text.last())
    }
}

/// The characters of `text` that end at or before the byte `offset`.
pub open spec fn chars_before(text: Seq<char>, offset: nat) -> nat
    decreases text.len(),
{
    if text.len() == 0 || utf8_width(text[0]) > offset {
        0
    } else {
        1 + chars_before(text.skip(1), (offset - utf8_width(text[0])) as nat)
    }
}

/// Where the line begins that holds position `at`: behind the last line
/// break in front of `at`, or at the beginning of the text.
pub open spec fn line_start(text: Seq<char>, at: int) -> int
    decreases at,
{
    if at <= 0 {
        0
    } else if text[at - 1] == '\n' {
        at
    } else {
        line_start(text, at - 1)
    }
}

/// Where the line ends that holds position `at`: at the first line break
/// from `at` on, or at the end of the text.
pub open spec fn line_end(text: Seq<char>, at: int) -> int
    decreases text.len() - at,
{
    if at >= text.len() {
        text.len() as int
    } else if text[at] == '\n' {
        at
    } else {
        line_end(text, at + 1)
    }
}

/// The line breaks among the first `at` characters.
pub open spec fn line_breaks_before(text: Seq<char>, at: int) -> nat
    decreases at,
{
    if at <= 0 {
        0
    } else {
        line_breaks_before(text, at - 1) + if text[at - 1] == '\n' {
            1nat
        } else {
            0nat
        }
    }
}

/// Whether `c` is white space: a character with the Unicode property White_Space.
pub open spec fn is_white_space(c: char) -> bool {
    let u = c as u32;
    ||| 0x09 <= u <= 0x0d
    ||| u == 0x20
    ||| u == 0x85
    ||| u == 0xa0
    ||| u == 0x1680
    ||| 0x2000 <= u <= 0x200a
    ||| u == 0x2028
    ||| u == 0x2029
    ||| u == 0x202f
    ||| u == 0x205f
    ||| u == 0x3000
}

/// The white space characters at the beginning of `line`.
pub open spec fn indentation(line: Seq<char>) -> nat
    decreases line.len(),
{
    if line.len() == 0 || !is_white_space(line[0]) {
        0
    } else {
        1 + indentation(line.skip(1))
    }
}

/// The character `c`, `count` times.
pub open spec fn repeated(c: char, count: nat) -> Seq<char> {
    Seq::new(count, |i: int| c)
}

/// The parts with `separator` between each two of them.
pub open spec fn joined(parts: Seq<Seq<char>>, separator: Seq<char>) -> Seq<char>
    decreases parts.len(),
{
    if parts.len() == 0 {
        Seq::empty()
    } else if parts.len() == 1 {
        parts[0]
    } else {
        joined(parts.drop_last(), separator) + separator + parts.last()
    }
}

/// The texts of the strings in `items`, in order.
pub open spec fn texts(items: Seq<String>) -> Seq<Seq<char>> {
    Seq::new(items.len(), |i: int| items[i]@)
}

/// The message for a failure between the byte offsets `start` and `end`:
/// the line and column of `start`, what went wrong, the line without its
/// indentation, and under it one `^` for each byte of the offending text,
/// at least one.
pub open spec fn report(text: Seq<char>, start: nat, end: nat, what: Seq<char>) -> Seq<char> {
    let first = chars_before(text, start) as int;
    let last = if end < start {
        first
    } else {
        chars_before(text, end) as int
    };
    let from = line_start(text, first);
    let to = line_end(text, last);
    let line = text.subrange(from, to);
    let indent = indentation(line) as int;
    let column = byte_length(text.subrange(from, first));
    let shift = byte_length(line.take(indent));
    let marked = byte_length(text.subrange(first, last));
    "Error found at line "@ + decimal_text(line_breaks_before(text, first) + 1) + ", column "@
        + decimal_text(column) + ": "@ + what + "\n"@ + line.skip(indent) + "\n"@ + repeated(
        ' ',
        if column >= shift {
            (column - shift) as nat
        } else {
            0
        },
    ) + repeated(
        '^',
        if marked == 0 {
            1
        } else {
            marked
        },
    )
}

/// Where a failure of the lexer lies and what it says.
pub open spec fn lexical_failure(error: LexicalError) -> (nat, nat, Seq<char>) {
    match error {
        LexicalError::NumberParseError { start, end } => (
            start as nat,
            end as nat,
            "Failed to parse number"@,
        ),
        LexicalError::InvalidToken { start, end } => (start as nat, end as nat, "Invalid token"@),
        LexicalError::UnterminatedComment { start, end } => (
            start as nat,
            end as nat,
            "Unterminated comment"@,
        ),
        LexicalError::UnterminatedString { start, end } => (
            start as nat,
            end as nat,
            "Unterminated string"@,
        ),
        LexicalError::UserError { start, end, message } => (start as nat, end as nat, message@),
    }
}

/// Where a failure of the parser lies and what it says.
pub open spec fn failure_of(error: SyntaxError) -> (nat, nat, Seq<char>) {
    match error {
        SyntaxError::InvalidToken { location } => (
            location as nat,
            location as nat,
            "Invalid token"@,
        ),
        SyntaxError::UnrecognizedEof { location, expected } => (
            location as nat,
            location as nat,
            "Unexpected end of file"@,
        ),
        SyntaxError::UnrecognizedToken { start, token, end, expected } => (
            start as nat,
            end as nat,
            "Unrecognized token \""@ + token@ + "\". Expected one of: "@ + joined(
                texts(expected@),
                ", "@,
            ),
        ),
        SyntaxError::ExtraToken { start, token, end } => (
            start as nat,
            end as nat,
            "Extra token \""@ + token@ + "\""@,
        ),
        SyntaxError::User { error } => lexical_failure(error),
    }
}

/// The message for a failure of the parser on the source `text`.
pub open spec fn message_for(text: Seq<char>, error: SyntaxError) -> Seq<char> {
    let (start, end, what) = failure_of(error);
    report(text, start, end, what)
}

/// The bytes that `c` takes in UTF-8.
fn char_width(c: char) -> (w: usize)
    ensures
        w == utf8_width(c),
        1 <= w <= 4,
{
    let u = c as u32;
    if u < 0x80 {
        1
    } else if u < 0x800 {
        2
    } else if u < 0x1_0000 {
        3
    } else {
        4
    }
}

/// Whether `c` is white space.
pub fn is_whitespace(c: char) -> (yes: bool)
    ensures
        yes == is_white_space(c),
{
    let u = c as u32;
    (0x09 <= u && u <= 0x0d) || u == 0x20 || u == 0x85 || u == 0xa0 || u == 0x1680 || (0x2000 <= u
        && u <= 0x200a) || u == 0x2028 || u == 0x2029 || u == 0x202f || u == 0x205f || u == 0x3000
}

/// The digits of `n` in base ten.
pub fn decimal_chars(n: u128) -> (digits: Vec<char>)
    ensures
        digits@ == decimal_text(n as nat),
    decreases n,
{
    let mut digits = if n < 10 {
        Vec::new()
    } else {
        decimal_chars(n / 10)
    };
    let d = (n % 10) as u8;
    let c = if d == 0 {
        '0'
    } else if d == 1 {
        '1'
    } else if d == 2 {
        '2'
    } else if d == 3 {
        '3'
    } else if d == 4 {
        '4'
    } else if d == 5 {
        '5'
    } else if d == 6 {
        '6'
    } else if d == 7 {
        '7'
    } else if d == 8 {
        '8'
    } else {
        '9'
    };
    assert(c == digit_char((n % 10) as nat));
    digits.push(c);
    assert(n < 10 ==> digits@ =~= seq![digit_char(n as nat)]);
    digits
}

/// Counts the characters that end at or before the byte `offset`.
fn count_chars_before(chars: &[char], offset: usize) -> (count: usize)
    ensures
        count == chars_before(chars@, offset as nat),
        count <= chars.len(),
{
    let mut count: usize = 0;
    let mut used: usize = 0;
    assert(chars@.skip(0) =~= chars@);
    while count < chars.len()
        invariant
            count <= chars.len(),
            used <= offset,
            chars_before(chars@, offset as nat) == count + chars_before(
                chars@.skip(count as int),
                (offset - used) as nat,
            ),
        decreases chars.len() - count,
    {
        let width = char_width(chars[count]);
        assert(chars@.skip(count as int)[0] == chars@[count as int]);
        assert(chars@.skip(count as int).skip(1) =~= chars@.skip(count + 1));
        if width > offset - used {
            return count;
        }
        used += width;
        count += 1;
    }
    count
}

/// Finds where the line begins that holds position `at`.
fn find_line_start(chars: &[char], at: usize) -> (from: usize)
    requires
        at <= chars.len(),
    ensures
        from == line_start(chars@, at as int),
        from <= at,
{
    let mut from: usize = at;
    while from > 0 && chars[from - 1] != '\n'
        invariant
            from <= at <= chars.len(),
            line_start(chars@, at as int) == line_start(chars@, from as int),
        decreases from,
    {
        from -= 1;
    }
    from
}

/// Finds where the line ends that holds position `at`.
fn find_line_end(chars: &[char], at: usize) -> (to: usize)
    requires
        at <= chars.len(),
    ensures
        to == line_end(chars@, at as int),
        at <= to <= chars.len(),
{
    let mut to: usize = at;
    while to < chars.len() && chars[to] != '\n'
        invariant
            at <= to <= chars.len(),
            line_end(chars@, at as int) == line_end(chars@, to as int),
        decreases chars.len() - to,
    {
        to += 1;
    }
    to
}

/// Counts the line breaks among the first `at` characters.
fn count_line_breaks(chars: &[char], at: usize) -> (count: usize)
    requires
        at <= chars.len(),
    ensures
        count == line_breaks_before(chars@, at as int),
        count <= at,
{
    let mut count: usize = 0;
    let mut i: usize = 0;
    while i < at
        invariant
            i <= at <= chars.len(),
            count <= i,
            count == line_breaks_before(chars@, i as int),
        decreases at - i,
    {
        if chars[i] == '\n' {
            count += 1;
        }
        i += 1;
    }
    count
}

/// Counts the white space characters at the beginning of the line between
/// the positions `from` and `to`.
fn count_indentation(chars: &[char], from: usize, to: usize) -> (count: usize)
    requires
        from <= to <= chars.len(),
    ensures
        count == indentation(chars@.subrange(from as int, to as int)),
        count <= to - from,
{
    let ghost line = chars@.subrange(from as int, to as int);
    let mut at: usize = from;
    assert(line.skip(0) =~= line);
    while at < to
        invariant
            from <= at <= to <= chars.len(),
            line == chars@.subrange(from as int, to as int),
            indentation(line) == (at - from) + indentation(line.skip(at - from)),
        decreases to - at,
    {
        assert(line.skip(at - from)[0] == chars@[at as int]);
        assert(line.skip(at - from).skip(1) =~= line.skip(at - from + 1));
        if !is_whitespace(chars[at]) {
            return at - from;
        }
        at += 1;
    }
    at - from
}

/// Counts the bytes of the characters between the positions `from` and `to`.
fn bytes_between(chars: &[char], from: usize, to: usize) -> (bytes: u128)
    requires
        from <= to <= chars.len(),
    ensures
        bytes == byte_length(chars@.subrange(from as int, to as int)),
{
    let mut bytes: u128 = 0;
    let mut at: usize = from;
    assert(chars@.subrange(from as int, from as int) =~= Seq::<char>::empty());
    while at < to
        invariant
            from <= at <= to <= chars.len(),
            bytes == byte_length(chars@.subrange(from as int, at as int)),
            bytes <= 4 * (at - from),
        decreases to - at,
    {
        assert(chars@.subrange(from as int, at + 1).drop_last() =~= chars@.subrange(
            from as int,
            at as int,
        ));
        bytes += char_width(chars[at]) as u128;
        at += 1;
    }
    bytes
}

/// Appends the characters of `more`.
fn push_all(out: &mut Vec<char>, more: &[char])
    ensures
        final(out)@ == old(out)@ + more@,
{
    let mut i: usize = 0;
    while i < more.len()
        invariant
            i <= more.len(),
            out@ == old(out)@ + more@.take(i as int),
        decreases more.len() - i,
    {
        out.push(more[i]);
        assert(more@.take(i + 1) =~= more@.take(i as int).push(more@[i as int]));
        i += 1;
    }
    assert(more@.take(i as int) =~= more@);
}

/// Appends the characters of `text`.
fn push_text(out: &mut Vec<char>, text: &str)
    ensures
        final(out)@ == old(out)@ + text@,
{
    let chars = chars_of(text);
    push_all(out, chars.as_slice());
}

/// Appends `c`, `count` times.
fn push_repeated(out: &mut Vec<char>, c: char, count: u128)
    ensures
        final(out)@ == old(out)@ + repeated(c, count as nat),
{
    let mut i: u128 = 0;
    while i < count
        invariant
            i <= count,
            out@ == old(out)@ + repeated(c, i as nat),
        decreases count - i,
    {
        out.push(c);
        assert(repeated(c, (i + 1) as nat) =~= repeated(c, i as nat).push(c));
        i += 1;
    }
}

/// Writes the message for a failure between the byte offsets `start` and `end`.
fn report_chars(chars: &[char], start: usize, end: usize, what: &[char]) -> (message: Vec<char>)
    ensures
        message@ == report(chars@, start as nat, end as nat, what@),
{
    let first = count_chars_before(chars, start);
    let last = if end < start {
        first
    } else {
        count_chars_before(chars, end)
    };
    proof {
        if end >= start {
            lemma_chars_before_grows(chars@, start as nat, end as nat);
        }
    }
    let from = find_line_start(chars, first);
    let to = find_line_end(chars, last);
    let indent = count_indentation(chars, from, to);
    let column = bytes_between(chars, from, first);
    let shift = bytes_between(chars, from, from + indent);
    let marked = bytes_between(chars, first, last);
    let line_number = count_line_breaks(chars, first) as u128 + 1;
    let ghost line = chars@.subrange(from as int, to as int);
    assert(line.take(indent as int) =~= chars@.subrange(from as int, from + indent));
    let mut message: Vec<char> = Vec::new();
    push_text(&mut message, "Error found at line ");
    push_all(&mut message, decimal_chars(line_number).as_slice());
    push_text(&mut message, ", column ");
    push_all(&mut message, decimal_chars(column).as_slice());
    push_text(&mut message, ": ");
    push_all(&mut message, what);
    push_text(&mut message, "\n");
    let ghost before_line = message@;
    let mut at: usize = from + indent;
    while at < to
        invariant
            from + indent <= at <= to <= chars.len(),
            message@ == before_line + chars@.subrange(from + indent, at as int),
        decreases to - at,
    {
        message.push(chars[at]);
        assert(chars@.subrange(from + indent, at + 1) =~= chars@.subrange(
            from + indent,
            at as int,
        ).push(chars@[at as int]));
        at += 1;
    }
    assert(line.skip(indent as int) =~= chars@.subrange(from + indent, to as int));
    push_text(&mut message, "\n");
    push_repeated(&mut message, ' ', if column >= shift {
        column - shift
    } else {
        0
    });
    push_repeated(&mut message, '^', if marked == 0 {
        1
    } else {
        marked
    });
    message
}

/// A later byte offset has no fewer characters in front of it.
pub proof fn lemma_chars_before_grows(text: Seq<char>, start: nat, end: nat)
    requires
        start <= end,
    ensures
        chars_before(text, start) <= chars_before(text, end) <= text.len(),
    decreases text.len(),
{
    if text.len() > 0 && utf8_width(text[0]) <= end {
        if utf8_width(text[0]) <= start {
            lemma_chars_before_grows(
                text.skip(1),
                (start - utf8_width(text[0])) as nat,
                (end - utf8_width(text[0])) as nat,
            );
        } else {
            lemma_chars_before_grows(
                text.skip(1),
                (end - utf8_width(text[0])) as nat,
                (end - utf8_width(text[0])) as nat,
            );
        }
    }
}

/// Joins the texts of `items` with a comma and a space between each two.
fn join_expected(items: &Vec<String>) -> (out: Vec<char>)
    ensures
        out@ == joined(texts(items@), ", "@),
{
    let mut out: Vec<char> = Vec::new();
    let mut i: usize = 0;
    let ghost parts = texts(items@);
    assert(parts.take(0) =~= Seq::<Seq<char>>::empty());
    while i < items.len()
        invariant
            i <= items.len(),
            parts == texts(items@),
            out@ == joined(parts.take(i as int), ", "@),
        decreases items.len() - i,
    {
        assert(parts.take(i + 1).drop_last() =~= parts.take(i as int));
        assert(parts.take(i + 1).last() == items@[i as int]@);
        if i > 0 {
            push_text(&mut out, ", ");
        }
        push_text(&mut out, items[i].as_str());
        assert(i == 0 ==> out@ =~= items@[i as int]@);
        i += 1;
    }
    assert(parts.take(i as int) =~= parts);
    out
}

/// Where a failure of the lexer lies and what it says.
fn lexical_failure_parts(error: LexicalError) -> (parts: (usize, usize, Vec<char>))
    ensures
        (parts.0 as nat, parts.1 as nat, parts.2@) == lexical_failure(error),
{
    match error {
        LexicalError::NumberParseError { start, end } => (
            start,
            end,
            chars_of("Failed to parse number"),
        ),
        LexicalError::InvalidToken { start, end } => (start, end, chars_of("Invalid token")),
        LexicalError::UnterminatedComment { start, end } => (
            start,
            end,
            chars_of("Unterminated comment"),
        ),
        LexicalError::UnterminatedString { start, end } => (
            start,
            end,
            chars_of("Unterminated string"),
        ),
        LexicalError::UserError { start, end, message } => (start, end, chars_of(message.as_str())),
    }
}

/// Where a failure of the parser lies and what it says.
fn failure_parts(error: SyntaxError) -> (parts: (usize, usize, Vec<char>))
    ensures
        (parts.0 as nat, parts.1 as nat, parts.2@) == failure_of(error),
{
    match error {
        SyntaxError::InvalidToken { location } => (location, location, chars_of("Invalid token")),
        SyntaxError::UnrecognizedEof { location, expected } => (
            location,
            location,
            chars_of("Unexpected end of file"),
        ),
        SyntaxError::UnrecognizedToken { start, token, end, expected } => {
            let mut what: Vec<char> = Vec::new();
            push_text(&mut what, "Unrecognized token \"");
            push_text(&mut what, token.as_str());
            push_text(&mut what, "\". Expected one of: ");
            push_all(&mut what, join_expected(&expected).as_slice());
            (start, end, what)
        },
        SyntaxError::ExtraToken { start, token, end } => {
            let mut what: Vec<char> = Vec::new();
            push_text(&mut what, "Extra token \"");
            push_text(&mut what, token.as_str());
            push_text(&mut what, "\"");
            (start, end, what)
        },
        SyntaxError::User { error } => lexical_failure_parts(error),
    }
}

/// The error, with its message for the user, for a failure of the parser on
/// the source `input`.
pub fn parse_error_to_error(input: &str, error: SyntaxError) -> (e: Error)
    ensures
        e.message@ == message_for(input@, error),
{
    let chars = chars_of(input);
    let (start, end, what) = failure_parts(error);
    let message = report_chars(chars.as_slice(), start, end, what.as_slice());
    Error { message: string_of(message.as_slice()) }
}

} // verus!
