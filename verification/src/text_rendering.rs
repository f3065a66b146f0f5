//! How a value is written as text, and the law that reading returns it.
//!
//! `rendered` writes a value in the grammar that the text decoder reads. The
//! law at the end of this file says that the decoder reads back every value
//! whose text is plain: no part of it holds the separator of the list or
//! record around it, and no text can be taken for another.

use vstd::prelude::*;
use crate::parse::{
    base64_url_decoded, byte_list, bytes_of_numbers, entries_of_text, fields_of_text,
    items_of_text, key_of_pieces, number_list, numbers_of, parsed, FloatReading,
    ParseErrorKind, SpecParseError,
};
use crate::publickey::SpecKey;
use crate::text::{
    all_digits, decimal_value, digit_value, is_digit,
    lemma_first_index_of, signed_of_text, split, unsigned_of_text,
};
use crate::types::{PrimitiveType, Type};
use crate::value::SpecValue;

verus! {

/// The character that writes the digit `d`.
pub open spec fn digit_char(d: nat) -> char {
    if d == 0 {
        '0'
    } else if d == 1 {
        '1'
    } else if d == 2 {
        '2'
    } else if d == 3 {
        '3'
    } else if d == 4 {
        '4'
    } else if d == 5 {
        '5'
    } else if d == 6 {
        '6'
    } else if d == 7 {
        '7'
    } else if d == 8 {
        '8'
    } else {
        '9'
    }
}

/// The digits of `n` in base ten, without leading zeros.
pub open spec fn decimal_text(n: nat) -> Seq<char>
    decreases n,
{
    if n < 10 {
        seq![digit_char(n)]
    } else {
        decimal_text(n / 10).push(digit_char(n % 10))
    }
}

/// A signed number: `-` in front of the digits of a negative one.
pub open spec fn signed_text(x: int) -> Seq<char> {
    if x < 0 {
        seq!['-'] + decimal_text((-x) as nat)
    } else {
        decimal_text(x as nat)
    }
}

/// No character of `s` is `c`.
pub open spec fn free_of(s: Seq<char>, c: char) -> bool {
    forall|i: int| 0 <= i < s.len() ==> s[i] != c
}

/// The parts with `separator` between each two of them.
pub open spec fn join(parts: Seq<Seq<char>>, separator: char) -> Seq<char>
    decreases parts.len(),
{
    if parts.len() == 0 {
        Seq::empty()
    } else if parts.len() == 1 {
        parts[0]
    } else {
        parts[0] + seq![separator] + join(parts.skip(1), separator)
    }
}

/// The decimal texts of `numbers`, in order.
pub open spec fn decimal_texts(numbers: Seq<u64>) -> Seq<Seq<char>> {
    Seq::new(numbers.len(), |i: int| decimal_text(numbers[i] as nat))
}

/// Each byte as a number.
pub open spec fn numbers_of_bytes(bytes: Seq<u8>) -> Seq<u64> {
    Seq::new(bytes.len(), |i: int| bytes[i] as u64)
}

/// `float` reads `text` as the number with these bits.
pub open spec fn writes_float(float: FloatReading, text: Seq<char>, bits: u32) -> bool {
    float(text) == Some(bits)
}

/// `text` holds no comma and the base64 engine decodes it to `bytes`.
pub open spec fn writes_bytes(text: Seq<char>, bytes: Seq<u8>) -> bool {
    base64_url_decoded(text) == Some(bytes) && free_of(text, ',')
}

/// Some text that the base64 engine decodes to `bytes` and that holds no comma.
pub open spec fn base64_text(bytes: Seq<u8>) -> Seq<char> {
    choose|text: Seq<char>| writes_bytes(text, bytes)
}

/// The six pieces of the text of a public key.
pub open spec fn key_pieces(key: SpecKey) -> Seq<Seq<char>> {
    seq![
        key.kty.spec_name(),
        key.crv.spec_name(),
        key.alg.spec_name(),
        key.use_.spec_name(),
        base64_text(key.x),
        base64_text(key.y),
    ]
}

/// The texts of the items of a list.
pub open spec fn item_texts(items: Seq<SpecValue>, float: FloatReading) -> Seq<Seq<char>>
    decreases items,
{
    Seq::new(
        items.len(),
        |i: int|
            if 0 <= i < items.len() {
                rendered(items[i], float)
            } else {
                Seq::empty()
            },
    )
}

/// The texts of the keys and values of a map, each key in front of its value.
pub open spec fn entry_texts(entries: Seq<(SpecValue, SpecValue)>, float: FloatReading) -> Seq<
    Seq<char>,
>
    decreases entries,
{
    Seq::new(
        2 * entries.len(),
        |i: int|
            if 0 <= i < 2 * entries.len() {
                if i % 2 == 0 {
                    rendered(entries[i / 2].0, float)
                } else {
                    rendered(entries[i / 2].1, float)
                }
            } else {
                Seq::empty()
            },
    )
}

/// The texts of the values of the fields of a record.
pub open spec fn field_texts(fields: Seq<(Seq<char>, SpecValue)>, float: FloatReading) -> Seq<
    Seq<char>,
>
    decreases fields,
{
    Seq::new(
        fields.len(),
        |i: int|
            if 0 <= i < fields.len() {
                rendered(fields[i].1, float)
            } else {
                Seq::empty()
            },
    )
}

/// The text of a value. A floating-point number is written by some text that
/// `float` reads as its bits.
pub open spec fn rendered(v: SpecValue, float: FloatReading) -> Seq<char>
    decreases v,
{
    match v {
        SpecValue::Nullable(None) => seq!['n', 'u', 'l', 'l'],
        SpecValue::Nullable(Some(present)) => rendered(*present, float),
        SpecValue::Boolean(b) => if b {
            seq!['t', 'r', 'u', 'e']
        } else {
            seq!['f', 'a', 'l', 's', 'e']
        },
        SpecValue::UInt32(x) => decimal_text(x as nat),
        SpecValue::UInt64(x) => decimal_text(x as nat),
        SpecValue::Float32(bits) => choose|text: Seq<char>| writes_float(float, text, bits),
        SpecValue::Hash(limbs) => join(decimal_texts(limbs), ','),
        SpecValue::Int32(x) => signed_text(x as int),
        SpecValue::String(s) => s,
        SpecValue::Bytes(bytes) => join(decimal_texts(numbers_of_bytes(bytes)), ','),
        SpecValue::CollectionReference(bytes) => join(
            decimal_texts(numbers_of_bytes(bytes)),
            ',',
        ),
        SpecValue::Array(items) => join(item_texts(items, float), ';'),
        SpecValue::Mapping(entries) => join(entry_texts(entries, float), ';'),
        SpecValue::PublicKey(key) => join(key_pieces(key), ','),
        SpecValue::StructValue(fields) => join(field_texts(fields, float), ','),
    }
}

/// The values are those of the fields of a record, each plainly written and
/// free of commas.
pub open spec fn plain_fields(
    fields: Seq<(String, Type)>,
    values: Seq<(Seq<char>, SpecValue)>,
    float: FloatReading,
) -> bool
    decreases fields, 0nat,
{
    &&& fields.len() == values.len()
    &&& fields.len() > 0 ==> {
        &&& plain_fields(fields.drop_last(), values.drop_last(), float)
        &&& values.last().0 == fields.last().0@
        &&& plain(fields.last().1, values.last().1, float)
        &&& free_of(rendered(values.last().1, float), ',')
    }
}

/// The value `v` has the shape of `ty`, and its text is plain: no item holds
/// the separator of the list or record around it, no present value is written
/// `null`, no list of one item is written as the empty text, and each
/// floating-point number and each coordinate has a text that writes it.
pub open spec fn plain(ty: Type, v: SpecValue, float: FloatReading) -> bool
    decreases ty, 1nat,
{
    match (ty, v) {
        (Type::Nullable(_), SpecValue::Nullable(None)) => true,
        (Type::Nullable(inner), SpecValue::Nullable(Some(present))) => {
            &&& plain(*inner, *present, float)
            &&& rendered(*present, float) != seq!['n', 'u', 'l', 'l']
        },
        (Type::PrimitiveType(PrimitiveType::Boolean), SpecValue::Boolean(_)) => true,
        (Type::PrimitiveType(PrimitiveType::UInt32), SpecValue::UInt32(_)) => true,
        (Type::PrimitiveType(PrimitiveType::UInt64), SpecValue::UInt64(_)) => true,
        (Type::PrimitiveType(PrimitiveType::Int32), SpecValue::Int32(_)) => true,
        (Type::PrimitiveType(PrimitiveType::Float32), SpecValue::Float32(bits)) => exists|
            text: Seq<char>,
        | writes_float(float, text, bits),
        (Type::Struct(s), SpecValue::StructValue(values)) => plain_fields(s.fields@, values, float),
        (Type::Hash, SpecValue::Hash(limbs)) => limbs.len() == 4,
        (Type::String, SpecValue::String(_)) => true,
        (Type::Bytes, SpecValue::Bytes(_)) => true,
        (Type::CollectionReference { .. }, SpecValue::CollectionReference(_)) => true,
        (Type::Array(element), SpecValue::Array(items)) => {
            &&& forall|i: int|
                0 <= i < items.len() ==> {
                    &&& plain(*element, #[trigger] items[i], float)
                    &&& free_of(rendered(items[i], float), ';')
                }
            &&& items.len() == 1 ==> rendered(items[0], float).len() > 0
        },
        (Type::Mapping(key_type, value_type), SpecValue::Mapping(entries)) => forall|i: int|
            0 <= i < entries.len() ==> {
                &&& plain(*key_type, (#[trigger] entries[i]).0, float)
                &&& plain(*value_type, entries[i].1, float)
                &&& free_of(rendered(entries[i].0, float), ';')
                &&& free_of(rendered(entries[i].1, float), ';')
            },
        (Type::PublicKey, SpecValue::PublicKey(key)) => {
            &&& key.well_formed()
            &&& exists|text: Seq<char>| writes_bytes(text, key.x)
            &&& exists|text: Seq<char>| writes_bytes(text, key.y)
        },
        _ => false,
    }
}

/// The digit character of `d` is a digit, and writes `d`.
pub proof fn lemma_digit_char(d: nat)
    requires
        d < 10,
    ensures
        is_digit(digit_char(d)),
        digit_value(digit_char(d)) == d,
{
}

/// The decimal text of a number is one digit or more, nothing but digits,
/// and writes the number.
pub proof fn lemma_decimal_text(n: nat)
    ensures
        decimal_text(n).len() >= 1,
        all_digits(decimal_text(n)),
        decimal_value(decimal_text(n)) == n,
    decreases n,
{
    if n < 10 {
        let s = decimal_text(n);
        lemma_digit_char(n);
        assert(s.drop_last() =~= Seq::<char>::empty());
        assert(decimal_value(s.drop_last()) == 0);
    } else {
        lemma_decimal_text(n / 10);
        lemma_digit_char(n % 10);
        let s = decimal_text(n);
        assert(s.drop_last() =~= decimal_text(n / 10));
        assert(s.last() == digit_char(n % 10));
    }
}

/// Digits hold no character that is not a digit.
pub proof fn lemma_digits_free_of(s: Seq<char>, c: char)
    requires
        all_digits(s),
        !is_digit(c),
    ensures
        free_of(s, c),
{
}

/// Reading the decimal text of a number gives the number.
pub proof fn lemma_unsigned_round_trip(n: nat, max: nat)
    requires
        n <= max,
    ensures
        unsigned_of_text(decimal_text(n), max) == Some(n),
{
    lemma_decimal_text(n);
    assert(is_digit(decimal_text(n)[0]));
}

/// Reading the text of a signed 32-bit number gives the number.
pub proof fn lemma_signed_round_trip(x: int)
    requires
        -0x8000_0000 <= x <= 0x7fff_ffff,
    ensures
        signed_of_text(signed_text(x), 0x8000_0000, 0x7fff_ffff) == Some(x),
{
    if x < 0 {
        let digits = decimal_text((-x) as nat);
        lemma_decimal_text((-x) as nat);
        assert(signed_text(x).skip(1) =~= digits);
    } else {
        lemma_decimal_text(x as nat);
        lemma_unsigned_round_trip(x as nat, 0x7fff_ffff);
        assert(is_digit(decimal_text(x as nat)[0]));
    }
}

/// Splitting what was joined gives the parts back, where no part holds the separator.
pub proof fn lemma_split_join(parts: Seq<Seq<char>>, separator: char)
    requires
        parts.len() >= 1,
        forall|i: int| 0 <= i < parts.len() ==> free_of(#[trigger] parts[i], separator),
    ensures
        split(join(parts, separator), separator) == parts,
    decreases parts.len(),
{
    let text = join(parts, separator);
    let first = parts[0];
    assert(free_of(first, separator));
    if parts.len() == 1 {
        lemma_first_index_of(text, separator, text.len() as int);
        assert(seq![text] =~= parts);
    } else {
        let rest = parts.skip(1);
        assert forall|i: int| 0 <= i < rest.len() implies free_of(#[trigger] rest[i], separator) by {
            assert(rest[i] == parts[i + 1]);
        }
        lemma_split_join(rest, separator);
        lemma_first_index_of(text, separator, first.len() as int);
        assert(text.take(first.len() as int) =~= first);
        assert(text.skip(first.len() as int + 1) =~= join(rest, separator));
        assert(seq![first] + rest =~= parts);
    }
}

/// What was joined from two parts or more is not the empty text.
pub proof fn lemma_join_not_empty(parts: Seq<Seq<char>>, separator: char)
    requires
        parts.len() >= 2 || (parts.len() == 1 && parts[0].len() > 0),
    ensures
        join(parts, separator).len() > 0,
{
}

/// Reading the decimal texts of numbers gives the numbers.
pub proof fn lemma_numbers_round_trip(numbers: Seq<u64>, max: u64)
    requires
        forall|i: int| 0 <= i < numbers.len() ==> #[trigger] numbers[i] <= max,
    ensures
        numbers_of(decimal_texts(numbers), max) == Ok::<Seq<u64>, SpecParseError>(numbers),
    decreases numbers.len(),
{
    let pieces = decimal_texts(numbers);
    if numbers.len() == 0 {
        assert(numbers =~= Seq::empty());
    } else {
        lemma_numbers_round_trip(numbers.drop_last(), max);
        assert(pieces.drop_last() =~= decimal_texts(numbers.drop_last()));
        assert(numbers.last() <= max);
        lemma_unsigned_round_trip(numbers.last() as nat, max as nat);
        assert(numbers.drop_last().push(numbers.last()) =~= numbers);
    }
}

/// Reading a written list of numbers gives the numbers.
pub proof fn lemma_number_list_round_trip(numbers: Seq<u64>, max: u64)
    requires
        forall|i: int| 0 <= i < numbers.len() ==> #[trigger] numbers[i] <= max,
    ensures
        number_list(join(decimal_texts(numbers), ','), max) == Ok::<Seq<u64>, SpecParseError>(
            numbers,
        ),
{
    let pieces = decimal_texts(numbers);
    if numbers.len() == 0 {
        assert(numbers =~= Seq::empty());
    } else {
        assert forall|i: int| 0 <= i < pieces.len() implies free_of(#[trigger] pieces[i], ',') by {
            lemma_decimal_text(numbers[i] as nat);
            lemma_digits_free_of(pieces[i], ',');
        }
        lemma_decimal_text(numbers[0] as nat);
        lemma_join_not_empty(pieces, ',');
        lemma_split_join(pieces, ',');
        lemma_numbers_round_trip(numbers, max);
    }
}

/// Reading a written list of bytes gives the bytes.
pub proof fn lemma_byte_list_round_trip(bytes: Seq<u8>)
    ensures
        byte_list(join(decimal_texts(numbers_of_bytes(bytes)), ',')) == Ok::<
            Seq<u8>,
            SpecParseError,
        >(bytes),
{
    lemma_number_list_round_trip(numbers_of_bytes(bytes), 255);
    assert(bytes_of_numbers(numbers_of_bytes(bytes)) =~= bytes);
}

/// Reading the written pieces of a public key gives the key.
pub proof fn lemma_key_round_trip(key: SpecKey)
    requires
        key.well_formed(),
        exists|text: Seq<char>| writes_bytes(text, key.x),
        exists|text: Seq<char>| writes_bytes(text, key.y),
    ensures
        key_of_pieces(split(join(key_pieces(key), ','), ',')) == Ok::<SpecKey, ParseErrorKind>(key),
{
    let pieces = key_pieces(key);
    assert(writes_bytes(base64_text(key.x), key.x));
    assert(writes_bytes(base64_text(key.y), key.y));
    assert forall|i: int| 0 <= i < pieces.len() implies free_of(#[trigger] pieces[i], ',') by {}
    lemma_split_join(pieces, ',');
    key.kty.lemma_code_and_name_round_trip();
    key.crv.lemma_code_and_name_round_trip();
    key.alg.lemma_code_and_name_round_trip();
    key.use_.lemma_code_and_name_round_trip();
}

/// What `plain_fields` says of each field.
pub proof fn lemma_plain_fields(
    fields: Seq<(String, Type)>,
    values: Seq<(Seq<char>, SpecValue)>,
    float: FloatReading,
)
    requires
        plain_fields(fields, values, float),
    ensures
        fields.len() == values.len(),
        forall|i: int|
            0 <= i < fields.len() ==> {
                &&& (#[trigger] values[i]).0 == fields[i].0@
                &&& plain(fields[i].1, values[i].1, float)
                &&& free_of(rendered(values[i].1, float), ',')
            },
    decreases fields.len(),
{
    if fields.len() > 0 {
        lemma_plain_fields(fields.drop_last(), values.drop_last(), float);
        assert forall|i: int| 0 <= i < fields.len() implies {
            &&& (#[trigger] values[i]).0 == fields[i].0@
            &&& plain(fields[i].1, values[i].1, float)
            &&& free_of(rendered(values[i].1, float), ',')
        } by {
            if i < fields.len() - 1 {
                assert(values.drop_last()[i] == values[i]);
                assert(fields.drop_last()[i] == fields[i]);
            }
        }
    }
}

/// Reading the pieces of a written record gives its first fields back.
pub proof fn lemma_fields_round_trip(
    fields: Seq<(String, Type)>,
    values: Seq<(Seq<char>, SpecValue)>,
    pieces: Seq<Seq<char>>,
    float: FloatReading,
)
    requires
        plain_fields(fields, values, float),
        fields.len() <= pieces.len(),
        forall|i: int| 0 <= i < fields.len() ==> #[trigger] pieces[i] == rendered(values[i].1, float),
    ensures
        fields_of_text(fields, pieces, float) == Ok::<
            Seq<(Seq<char>, SpecValue)>,
            SpecParseError,
        >(values),
    decreases fields, 0nat, 0nat,
{
    if fields.len() == 0 {
        assert(values =~= Seq::empty());
    } else {
        assert forall|i: int| 0 <= i < fields.len() - 1 implies #[trigger] pieces[i] == rendered(
            values.drop_last()[i].1,
            float,
        ) by {
            assert(values.drop_last()[i] == values[i]);
        }
        lemma_fields_round_trip(fields.drop_last(), values.drop_last(), pieces, float);
        assert(pieces[fields.len() - 1] == rendered(values[fields.len() - 1].1, float));
        lemma_parsing_returns_what_was_rendered(fields.last().1, values.last().1, float);
        assert(values.drop_last().push((fields.last().0@, values.last().1)) =~= values);
    }
}

/// Reading the pieces of a written list gives its first items back.
pub proof fn lemma_items_round_trip(
    ty: Type,
    items: Seq<SpecValue>,
    float: FloatReading,
    count: nat,
)
    requires
        ty is Array,
        forall|i: int| 0 <= i < items.len() ==> plain(*ty->Array_0, #[trigger] items[i], float),
        count <= items.len(),
    ensures
        items_of_text(ty, item_texts(items, float), count, float) == Ok::<
            Seq<SpecValue>,
            SpecParseError,
        >(items.take(count as int)),
    decreases ty, 0nat, count,
{
    if count == 0 {
        assert(items.take(0) =~= Seq::<SpecValue>::empty());
    } else {
        lemma_items_round_trip(ty, items, float, (count - 1) as nat);
        lemma_parsing_returns_what_was_rendered(*ty->Array_0, items[count - 1], float);
        assert(items.take(count - 1).push(items[count - 1]) =~= items.take(count as int));
    }
}

/// Reading the pieces of a written map gives its first entries back.
pub proof fn lemma_entries_round_trip(
    ty: Type,
    entries: Seq<(SpecValue, SpecValue)>,
    float: FloatReading,
    count: nat,
)
    requires
        ty is Mapping,
        forall|i: int|
            0 <= i < entries.len() ==> {
                &&& plain(*ty->Mapping_0, (#[trigger] entries[i]).0, float)
                &&& plain(*ty->Mapping_1, entries[i].1, float)
            },
        count <= entries.len(),
    ensures
        entries_of_text(ty, entry_texts(entries, float), count, float) == Ok::<
            Seq<(SpecValue, SpecValue)>,
            SpecParseError,
        >(entries.take(count as int)),
    decreases ty, 0nat, count,
{
    if count == 0 {
        assert(entries.take(0) =~= Seq::<(SpecValue, SpecValue)>::empty());
    } else {
        lemma_entries_round_trip(ty, entries, float, (count - 1) as nat);
        let entry = entries[count - 1];
        let pieces = entry_texts(entries, float);
        lemma_parsing_returns_what_was_rendered(*ty->Mapping_0, entry.0, float);
        lemma_parsing_returns_what_was_rendered(*ty->Mapping_1, entry.1, float);
        assert((2 * count - 2) / 2 == count - 1 && (2 * count - 2) % 2 == 0);
        assert((2 * count - 1) / 2 == count - 1 && (2 * count - 1) % 2 == 1);
        assert(pieces[2 * count - 2] == rendered(entry.0, float));
        assert(pieces[2 * count - 1] == rendered(entry.1, float));
        assert(entries.take(count - 1).push((entry.0, entry.1)) =~= entries.take(count as int));
    }
}

/// Round trip through text: reading the text of a plainly written value of
/// type `ty` gives the value back.
pub proof fn lemma_parsing_returns_what_was_rendered(ty: Type, v: SpecValue, float: FloatReading)
    requires
        plain(ty, v, float),
    ensures
        parsed(ty, rendered(v, float), float) == Ok::<SpecValue, SpecParseError>(v),
    decreases ty, 1nat, 0nat,
{
    let text = rendered(v, float);
    match (ty, v) {
        (Type::Nullable(_), SpecValue::Nullable(None)) => {},
        (Type::Nullable(inner), SpecValue::Nullable(Some(present))) => {
            lemma_parsing_returns_what_was_rendered(*inner, *present, float);
        },
        (Type::PrimitiveType(PrimitiveType::Boolean), SpecValue::Boolean(b)) => {
            assert(seq!['t', 'r', 'u', 'e'].len() != seq!['f', 'a', 'l', 's', 'e'].len());
        },
        (Type::PrimitiveType(PrimitiveType::UInt32), SpecValue::UInt32(x)) => {
            lemma_unsigned_round_trip(x as nat, u32::MAX as nat);
        },
        (Type::PrimitiveType(PrimitiveType::UInt64), SpecValue::UInt64(x)) => {
            lemma_unsigned_round_trip(x as nat, u64::MAX as nat);
        },
        (Type::PrimitiveType(PrimitiveType::Int32), SpecValue::Int32(x)) => {
            lemma_signed_round_trip(x as int);
        },
        (Type::PrimitiveType(PrimitiveType::Float32), SpecValue::Float32(bits)) => {
            assert(writes_float(float, text, bits));
        },
        (Type::Struct(s), SpecValue::StructValue(values)) => {
            let pieces = field_texts(values, float);
            lemma_plain_fields(s.fields@, values, float);
            if values.len() == 0 {
                assert(values =~= Seq::empty());
                assert(fields_of_text(s.fields@, split(text, ','), float) == Ok::<
                    Seq<(Seq<char>, SpecValue)>,
                    SpecParseError,
                >(Seq::empty()));
            } else {
                assert forall|i: int| 0 <= i < pieces.len() implies free_of(
                    #[trigger] pieces[i],
                    ',',
                ) by {
                    assert(free_of(rendered(values[i].1, float), ','));
                }
                lemma_split_join(pieces, ',');
                lemma_fields_round_trip(s.fields@, values, pieces, float);
            }
        },
        (Type::Hash, SpecValue::Hash(limbs)) => {
            lemma_number_list_round_trip(limbs, u64::MAX);
        },
        (Type::String, SpecValue::String(_)) => {},
        (Type::Bytes, SpecValue::Bytes(bytes)) => {
            lemma_byte_list_round_trip(bytes);
        },
        (Type::CollectionReference { .. }, SpecValue::CollectionReference(bytes)) => {
            lemma_byte_list_round_trip(bytes);
        },
        (Type::Array(_), SpecValue::Array(items)) => {
            let pieces = item_texts(items, float);
            if items.len() == 0 {
                assert(items =~= Seq::empty());
            } else {
                assert forall|i: int| 0 <= i < pieces.len() implies free_of(
                    #[trigger] pieces[i],
                    ';',
                ) by {
                    assert(free_of(rendered(items[i], float), ';'));
                }
                lemma_join_not_empty(pieces, ';');
                lemma_split_join(pieces, ';');
                lemma_items_round_trip(ty, items, float, items.len());
                assert(items.take(items.len() as int) =~= items);
            }
        },
        (Type::Mapping(_, _), SpecValue::Mapping(entries)) => {
            let pieces = entry_texts(entries, float);
            if entries.len() == 0 {
                assert(entries =~= Seq::empty());
            } else {
                assert forall|i: int| 0 <= i < pieces.len() implies free_of(
                    #[trigger] pieces[i],
                    ';',
                ) by {
                    let entry = entries[i / 2];
                    assert(free_of(rendered(entry.0, float), ';'));
                    assert(free_of(rendered(entry.1, float), ';'));
                }
                lemma_join_not_empty(pieces, ';');
                lemma_split_join(pieces, ';');
                assert((pieces.len() + 1) / 2 == entries.len());
                lemma_entries_round_trip(ty, entries, float, entries.len());
                assert(entries.take(entries.len() as int) =~= entries);
            }
        },
        (Type::PublicKey, SpecValue::PublicKey(key)) => {
            lemma_key_round_trip(key);
        },
        _ => {},
    }
}

} // verus!
