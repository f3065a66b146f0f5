//! Text as sequences of characters: splitting at a separator, and decimal numbers.

use vstd::prelude::*;

verus! {

/// The characters of `text`, in order.
pub fn chars_of(text: &str) -> (chars: Vec<char>)
    ensures
        chars@ == text@,
{
    let mut chars: Vec<char> = Vec::new();
    for c in it: text.chars()
        invariant
            chars@ == it.seq().take(it.index()),
    {
        chars.push(c);
    }
    chars
}

/// `String::from_iter` on the characters of `chars`: the text made of them.
#[verifier::external_body]
pub(crate) fn string_of(chars: &[char]) -> (text: String)
    ensures
        text@ == chars@,
{
    String::from_iter(chars.iter())
}

/// Whether two runs of characters are the same.
pub fn same_text(a: &[char], b: &[char]) -> (same: bool)
    ensures
        same == (a@ == b@),
{
    if a.len() != b.len() {
        return false;
    }
    let mut i: usize = 0;
    while i < a.len()
        invariant
            i <= a.len(),
            a.len() == b.len(),
            forall|j: int| 0 <= j < i ==> a@[j] == b@[j],
        decreases a.len() - i,
    {
        if a[i] != b[i] {
            return false;
        }
        i += 1;
    }
    assert(a@ =~= b@);
    true
}

/// The position of the first `separator` in `s`, or the length of `s` where
/// there is none.
pub open spec fn first_index_of(s: Seq<char>, separator: char) -> int
    decreases s.len(),
{
    if s.len() == 0 || s[0] == separator {
        0
    } else {
        1 + first_index_of(s.skip(1), separator)
    }
}

/// The pieces of `s` between its separators. Text without a separator, the
/// empty text too, is one piece.
pub open spec fn split(s: Seq<char>, separator: char) -> Seq<Seq<char>>
    decreases s.len(),
{
    let i = first_index_of(s, separator);
    if 0 <= i < s.len() {
        seq![s.take(i)] + split(s.skip(i + 1), separator)
    } else {
        seq![s]
    }
}

/// The first separator is where no earlier character is one.
pub proof fn lemma_first_index_of(s: Seq<char>, separator: char, k: int)
    requires
        0 <= k <= s.len(),
        forall|j: int| 0 <= j < k ==> s[j] != separator,
        k == s.len() || s[k] == separator,
    ensures
        first_index_of(s, separator) == k,
    decreases k,
{
    if k > 0 {
        assert(s[0] != separator);
        lemma_first_index_of(s.skip(1), separator, k - 1);
    }
}

/// The texts of the pieces in `pieces`, in order.
pub open spec fn texts_of(pieces: Seq<Vec<char>>) -> Seq<Seq<char>> {
    Seq::new(pieces.len(), |i: int| pieces[i]@)
}

/// Cuts `chars` at every `separator`.
pub fn split_at(chars: &[char], separator: char) -> (pieces: Vec<Vec<char>>)
    ensures
        texts_of(pieces@) == split(chars@, separator),
        pieces.len() >= 1,
{
    let mut pieces: Vec<Vec<char>> = Vec::new();
    let mut current: Vec<char> = Vec::new();
    let ghost mut start: int = 0;
    let mut i: usize = 0;
    assert(chars@.skip(0) =~= chars@);
    while i < chars.len()
        invariant
            0 <= start <= i <= chars.len(),
            current@ == chars@.subrange(start, i as int),
            forall|j: int| start <= j < i ==> chars@[j] != separator,
            split(chars@, separator) == texts_of(pieces@) + split(chars@.skip(start), separator),
        decreases chars.len() - i,
    {
        let c = chars[i];
        if c == separator {
            proof {
                let rest = chars@.skip(start);
                lemma_first_index_of(rest, separator, i - start);
                assert(rest.take(i - start) =~= current@);
                assert(rest.skip(i - start + 1) =~= chars@.skip(i + 1));
                assert(texts_of(pieces@.push(current)) =~= texts_of(pieces@).push(current@));
                assert(texts_of(pieces@).push(current@) + split(chars@.skip(i + 1), separator)
                    =~= texts_of(pieces@) + (seq![current@] + split(
                    chars@.skip(i + 1),
                    separator,
                )));
                start = i + 1;
            }
            pieces.push(current);
            current = Vec::new();
        } else {
            current.push(c);
        }
        i += 1;
        assert(current@ =~= chars@.subrange(start, i as int));
    }
    proof {
        let rest = chars@.skip(start);
        lemma_first_index_of(rest, separator, rest.len() as int);
        assert(rest =~= current@);
        assert(texts_of(pieces@.push(current)) =~= texts_of(pieces@).push(current@));
    }
    pieces.push(current);
    pieces
}

/// Whether `c` is one of the ten decimal digits.
pub open spec fn is_digit(c: char) -> bool {
    '0' <= c <= '9'
}

/// The number that the digit `c` stands for.
pub open spec fn digit_value(c: char) -> nat {
    (c as u32 - '0' as u32) as nat
}

/// Whether every character of `s` is a decimal digit.
pub open spec fn all_digits(s: Seq<char>) -> bool {
    forall|i: int| 0 <= i < s.len() ==> is_digit(#[trigger] s[i])
}

/// The number that the digits of `s` write in base ten.
pub open spec fn decimal_value(s: Seq<char>) -> nat
    decreases s.len(),
{
    if s.len() == 0 {
        0
    } else {
        10 * decimal_value(s.drop_last()) + digit_value(s.last())
    }
}

/// The number that `digits` write, where they are one digit or more, nothing
/// but digits, and write no more than `max`.
pub open spec fn number_of_digits(digits: Seq<char>, max: nat) -> Option<nat> {
    if digits.len() > 0 && all_digits(digits) && decimal_value(digits) <= max {
        Some(decimal_value(digits))
    } else {
        None
    }
}

/// The number that a literal without sign, or with `+` in front, writes.
pub open spec fn unsigned_of_text(s: Seq<char>, max: nat) -> Option<nat> {
    if s.len() > 0 && s[0] == '+' {
        number_of_digits(s.skip(1), max)
    } else {
        number_of_digits(s, max)
    }
}

/// The number that a literal with an optional sign writes, where it lies
/// between `-lowest` and `highest`.
pub open spec fn signed_of_text(s: Seq<char>, lowest: nat, highest: nat) -> Option<int> {
    if s.len() > 0 && s[0] == '-' {
        match number_of_digits(s.skip(1), lowest) {
            Some(n) => Some(-(n as int)),
            None => None,
        }
    } else {
        match unsigned_of_text(s, highest) {
            Some(n) => Some(n as int),
            None => None,
        }
    }
}

/// The truth value that `s` writes: `true` or `false`, letter for letter.
pub open spec fn boolean_of_text(s: Seq<char>) -> Option<bool> {
    if s == seq!['t', 'r', 'u', 'e'] {
        Some(true)
    } else if s == seq!['f', 'a', 'l', 's', 'e'] {
        Some(false)
    } else {
        None
    }
}

/// More digits never write a smaller number.
pub proof fn lemma_decimal_value_grows(s: Seq<char>, k: int)
    requires
        0 <= k <= s.len(),
    ensures
        decimal_value(s.take(k)) <= decimal_value(s),
    decreases s.len(),
{
    if k < s.len() {
        lemma_decimal_value_grows(s.drop_last(), k);
        assert(s.drop_last().take(k) =~= s.take(k));
    } else {
        assert(s.take(k) =~= s);
    }
}

/// The digit that `c` is, if it is one.
pub fn digit_of(c: char) -> (d: Option<u8>)
    ensures
        d is Some <==> is_digit(c),
        d matches Some(v) ==> v == digit_value(c),
{
    if '0' <= c && c <= '9' {
        Some((c as u32 - '0' as u32) as u8)
    } else {
        None
    }
}

/// Reads the digits of `chars` from position `from` on.
pub fn parse_digits(chars: &[char], from: usize, max: u64) -> (r: Option<u64>)
    requires
        from <= chars.len(),
    ensures
        match number_of_digits(chars@.skip(from as int), max as nat) {
            Some(n) => r == Some(n as u64),
            None => r is None,
        },
{
    let ghost digits = chars@.skip(from as int);
    if from == chars.len() {
        return None;
    }
    let mut value: u64 = 0;
    let mut i: usize = from;
    assert(digits.take(0) =~= Seq::<char>::empty());
    while i < chars.len()
        invariant
            from <= i <= chars.len(),
            digits == chars@.skip(from as int),
            all_digits(digits.take(i - from)),
            value == decimal_value(digits.take(i - from)),
            value <= max,
        decreases chars.len() - i,
    {
        proof {
            assert(digits.take(i - from + 1).drop_last() =~= digits.take(i - from));
            assert(digits.take(i - from + 1).last() == chars@[i as int]);
            lemma_decimal_value_grows(digits, i - from + 1);
        }
        match digit_of(chars[i]) {
            None => {
                assert(!is_digit(digits[i - from]));
                return None;
            },
            Some(d) => {
                let next: u128 = value as u128 * 10 + d as u128;
                if next > max as u128 {
                    return None;
                }
                value = next as u64;
            },
        }
        i += 1;
    }
    assert(digits.take(i - from) =~= digits);
    Some(value)
}

/// Reads a number without sign, or with `+` in front.
pub fn parse_unsigned(chars: &[char], max: u64) -> (r: Option<u64>)
    ensures
        match unsigned_of_text(chars@, max as nat) {
            Some(n) => r == Some(n as u64),
            None => r is None,
        },
{
    if chars.len() > 0 && chars[0] == '+' {
        parse_digits(chars, 1, max)
    } else {
        assert(chars@.skip(0) =~= chars@);
        parse_digits(chars, 0, max)
    }
}

/// Reads a 32-bit number with an optional sign.
pub fn parse_int32(chars: &[char]) -> (r: Option<i32>)
    ensures
        match signed_of_text(chars@, 0x8000_0000, 0x7fff_ffff) {
            Some(n) => r == Some(n as i32),
            None => r is None,
        },
{
    if chars.len() > 0 && chars[0] == '-' {
        match parse_digits(chars, 1, 0x8000_0000) {
            Some(n) => Some((-(n as i64)) as i32),
            None => None,
        }
    } else {
        match parse_unsigned(chars, 0x7fff_ffff) {
            Some(n) => Some(n as i32),
            None => None,
        }
    }
}

/// Reads `true` or `false`.
pub fn parse_boolean(chars: &[char]) -> (r: Option<bool>)
    ensures
        r == boolean_of_text(chars@),
{
    let yes: [char; 4] = ['t', 'r', 'u', 'e'];
    let no: [char; 5] = ['f', 'a', 'l', 's', 'e'];
    assert(yes@ =~= seq!['t', 'r', 'u', 'e']);
    assert(no@ =~= seq!['f', 'a', 'l', 's', 'e']);
    if same_text(chars, yes.as_slice()) {
        Some(true)
    } else if same_text(chars, no.as_slice()) {
        Some(false)
    } else {
        None
    }
}

} // verus!
