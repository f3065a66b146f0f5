//! The text decoder: from a type and a delimited text to a value.
//!
//! The grammar, type by type:
//! - a boolean is `true` or `false`; a number is decimal digits, with `+` or,
//!   for a signed number, `-` allowed in front;
//! - a nullable value is `null` or the text of the value;
//! - a string is the text itself;
//! - bytes and a collection reference are decimal bytes with commas between
//!   them, and the empty text is no bytes; a hash is four limbs written the
//!   same way;
//! - an array is its elements with semicolons between them, and the empty
//!   text is no elements; a map is written like an array of its keys and
//!   values, each key in front of its value;
//! - a record is the text cut at its commas, one piece for each field in
//!   order; pieces behind the last field are not read, so a comma may follow
//!   the last field;
//! - a public key is six pieces with commas between them: the names of key
//!   type, curve, algorithm and use, then x and y in URL-safe base64.
//!
//! Nothing escapes a separator: the text of a field cannot hold a comma of
//! its own, nor that of an element a semicolon. This is a limit of the format.
//!
//! This library holds no floating-point code. The caller hands in the function
//! that reads a floating-point literal and gives the bits of the number.

use base64::Engine;
use vstd::prelude::*;
use crate::path::{path_model, prepend, PathStep, SpecPathStep};
use crate::shape::{has_shape, lemma_parsed_has_shape};
use crate::publickey::{coordinate_from, Alg, Crv, Key, Kty, SpecKey, Use};
use crate::text::{
    boolean_of_text, chars_of, parse_boolean, parse_int32, parse_unsigned, signed_of_text, split,
    split_at, string_of, texts_of, unsigned_of_text,
};
use crate::types::{PrimitiveType, Struct, Type};
use crate::value::{
    entry_models_of, field_models_of, lemma_entry_models_of_push, lemma_field_models_of_push,
    lemma_models_of_push, models_of, SpecValue, Value,
};

verus! {

/// Why reading a text failed.
#[derive(Clone, Copy, Debug, PartialEq, Eq, Structural)]
pub enum ParseErrorKind {
    /// A literal could not be read, or a part of the text was missing.
    MalformedText,
    /// A map held a key without a value behind it.
    MissingMapValue,
    /// A coordinate of a public key was not base64, or not of 32 bytes.
    InvalidKeyEncoding,
    /// A header field of a public key held a name that names nothing.
    InvalidEnumValue,
}

/// A failure of the text decoder, with the path to the part that failed.
#[derive(Debug, PartialEq, Eq)]
pub struct ParseError {
    pub kind: ParseErrorKind,
    pub context: Vec<PathStep>,
}

/// What a `ParseError` holds.
pub ghost struct SpecParseError {
    pub kind: ParseErrorKind,
    pub context: Seq<SpecPathStep>,
}

impl View for ParseError {
    type V = SpecParseError;

    open spec fn view(&self) -> SpecParseError {
        SpecParseError { kind: self.kind, context: path_model(self.context@) }
    }
}

impl SpecParseError {
    /// The failure `kind` at the value itself.
    pub open spec fn here(kind: ParseErrorKind) -> SpecParseError {
        SpecParseError { kind, context: Seq::empty() }
    }

    /// This failure, seen from the value that holds the failing part behind `step`.
    pub open spec fn within(self, step: SpecPathStep) -> SpecParseError {
        SpecParseError { kind: self.kind, context: seq![step] + self.context }
    }
}

/// How floating-point literals are read: from a text to the bits of the number
/// it writes, or `None` where it writes none.
pub type FloatReading = spec_fn(Seq<char>) -> Option<u32>;

/// What `URL_SAFE.decode` of the base64 crate makes of a text: the bytes it
/// encodes, or `None` where the engine refuses it.
pub uninterp spec fn base64_url_decoded(text: Seq<char>) -> Option<Seq<u8>>;

/// `base64::engine::general_purpose::URL_SAFE.decode`: decodes base64 in the
/// URL-safe alphabet with canonical padding. The result depends on the text alone.
#[verifier::external_body]
fn decode_base64_url(text: &str) -> (bytes: Option<Vec<u8>>)
    ensures
        base64_url_decoded(text@) == (match bytes {
            Some(b) => Some(b@),
            None => None,
        }),
{
    base64::engine::general_purpose::URL_SAFE.decode(text).ok()
}

/// The value of a primitive kind that `text` writes.
pub open spec fn primitive_of_text(kind: PrimitiveType, text: Seq<char>, float: FloatReading)
    -> Option<SpecValue> {
    match kind {
        PrimitiveType::Boolean => match boolean_of_text(text) {
            Some(b) => Some(SpecValue::Boolean(b)),
            None => None,
        },
        PrimitiveType::UInt32 => match unsigned_of_text(text, u32::MAX as nat) {
            Some(n) => Some(SpecValue::UInt32(n as u32)),
            None => None,
        },
        PrimitiveType::UInt64 => match unsigned_of_text(text, u64::MAX as nat) {
            Some(n) => Some(SpecValue::UInt64(n as u64)),
            None => None,
        },
        PrimitiveType::Int32 => match signed_of_text(text, 0x8000_0000, 0x7fff_ffff) {
            Some(n) => Some(SpecValue::Int32(n as i32)),
            None => None,
        },
        PrimitiveType::Float32 => match float(text) {
            Some(bits) => Some(SpecValue::Float32(bits)),
            None => None,
        },
    }
}

/// The numbers that `pieces` write, each no more than `max`.
pub open spec fn numbers_of(pieces: Seq<Seq<char>>, max: u64) -> Result<Seq<u64>, SpecParseError>
    decreases pieces.len(),
{
    if pieces.len() == 0 {
        Ok(Seq::empty())
    } else {
        match numbers_of(pieces.drop_last(), max) {
            Err(e) => Err(e),
            Ok(done) => match unsigned_of_text(pieces.last(), max as nat) {
                None => Err(
                    SpecParseError::here(ParseErrorKind::MalformedText).within(
                        SpecPathStep::Index((pieces.len() - 1) as u64),
                    ),
                ),
                Some(n) => Ok(done.push(n as u64)),
            },
        }
    }
}

/// The numbers of a comma-separated list. The empty text is the empty list.
pub open spec fn number_list(text: Seq<char>, max: u64) -> Result<Seq<u64>, SpecParseError> {
    if text.len() == 0 {
        Ok(Seq::empty())
    } else {
        numbers_of(split(text, ','), max)
    }
}

/// Each number as a byte.
pub open spec fn bytes_of_numbers(numbers: Seq<u64>) -> Seq<u8> {
    Seq::new(numbers.len(), |i: int| numbers[i] as u8)
}

/// The bytes of a comma-separated list of decimal bytes.
pub open spec fn byte_list(text: Seq<char>) -> Result<Seq<u8>, SpecParseError> {
    match number_list(text, 255) {
        Err(e) => Err(e),
        Ok(numbers) => Ok(bytes_of_numbers(numbers)),
    }
}

/// The public key that the comma-separated `pieces` write: the names of key
/// type, curve, algorithm and use, then x and y in base64. Pieces after the
/// sixth are not looked at.
pub open spec fn key_of_pieces(pieces: Seq<Seq<char>>) -> Result<SpecKey, ParseErrorKind> {
    if pieces.len() < 6 {
        Err(ParseErrorKind::MalformedText)
    } else {
        match (base64_url_decoded(pieces[4]), base64_url_decoded(pieces[5])) {
            (Some(x), Some(y)) => match (
                Kty::spec_from_name(pieces[0]),
                Crv::spec_from_name(pieces[1]),
                Alg::spec_from_name(pieces[2]),
                Use::spec_from_name(pieces[3]),
            ) {
                (Some(kty), Some(crv), Some(alg), Some(use_)) => if x.len() == 32 && y.len()
                    == 32 {
                    Ok(SpecKey { kty, crv, alg, use_, x, y })
                } else {
                    Err(ParseErrorKind::InvalidKeyEncoding)
                },
                _ => Err(ParseErrorKind::InvalidEnumValue),
            },
            _ => Err(ParseErrorKind::InvalidKeyEncoding),
        }
    }
}

/// The fields of a record, each read from the piece at its position.
pub open spec fn fields_of_text(
    fields: Seq<(String, Type)>,
    pieces: Seq<Seq<char>>,
    float: FloatReading,
) -> Result<Seq<(Seq<char>, SpecValue)>, SpecParseError>
    decreases fields, 0nat, 0nat,
{
    if fields.len() == 0 {
        Ok(Seq::empty())
    } else {
        match fields_of_text(fields.drop_last(), pieces, float) {
            Err(e) => Err(e),
            Ok(done) => if fields.len() > pieces.len() {
                Err(
                    SpecParseError::here(ParseErrorKind::MalformedText).within(
                        SpecPathStep::Field(fields.last().0@),
                    ),
                )
            } else {
                match parsed(fields.last().1, pieces[fields.len() - 1], float) {
                    Err(e) => Err(e.within(SpecPathStep::Field(fields.last().0@))),
                    Ok(value) => Ok(done.push((fields.last().0@, value))),
                }
            },
        }
    }
}

/// The first `count` elements of the array type `ty`, one from each piece.
pub open spec fn items_of_text(ty: Type, pieces: Seq<Seq<char>>, count: nat, float: FloatReading)
    -> Result<Seq<SpecValue>, SpecParseError>
    decreases ty, 0nat, count,
{
    match ty {
        Type::Array(element) => if count == 0 || count > pieces.len() {
            Ok(Seq::empty())
        } else {
            match items_of_text(ty, pieces, (count - 1) as nat, float) {
                Err(e) => Err(e),
                Ok(done) => match parsed(*element, pieces[count - 1], float) {
                    Err(e) => Err(e.within(SpecPathStep::Index((count - 1) as u64))),
                    Ok(value) => Ok(done.push(value)),
                },
            }
        },
        _ => Ok(Seq::empty()),
    }
}

/// The first `count` entries of the map type `ty`: each key from a piece at an
/// even position, its value from the piece behind it.
pub open spec fn entries_of_text(ty: Type, pieces: Seq<Seq<char>>, count: nat, float: FloatReading)
    -> Result<Seq<(SpecValue, SpecValue)>, SpecParseError>
    decreases ty, 0nat, count,
{
    match ty {
        Type::Mapping(key_type, value_type) => if count == 0 || 2 * count - 2 >= pieces.len() {
            Ok(Seq::empty())
        } else {
            match entries_of_text(ty, pieces, (count - 1) as nat, float) {
                Err(e) => Err(e),
                Ok(done) => if 2 * count - 1 >= pieces.len() {
                    Err(
                        SpecParseError::here(ParseErrorKind::MissingMapValue).within(
                            SpecPathStep::MapValue((count - 1) as u64),
                        ),
                    )
                } else {
                    match parsed(*key_type, pieces[2 * count - 2], float) {
                        Err(e) => Err(e.within(SpecPathStep::MapKey((count - 1) as u64))),
                        Ok(key) => match parsed(*value_type, pieces[2 * count - 1], float) {
                            Err(e) => Err(e.within(SpecPathStep::MapValue((count - 1) as u64))),
                            Ok(value) => Ok(done.push((key, value))),
                        },
                    }
                },
            }
        },
        _ => Ok(Seq::empty()),
    }
}

/// The value of type `ty` that `text` writes.
pub open spec fn parsed(ty: Type, text: Seq<char>, float: FloatReading) -> Result<
    SpecValue,
    SpecParseError,
>
    decreases ty, 1nat, 0nat,
{
    match ty {
        Type::Nullable(inner) => if text == seq!['n', 'u', 'l', 'l'] {
            Ok(SpecValue::Nullable(None))
        } else {
            match parsed(*inner, text, float) {
                Err(e) => Err(e),
                Ok(value) => Ok(SpecValue::Nullable(Some(Box::new(value)))),
            }
        },
        Type::PrimitiveType(kind) => match primitive_of_text(kind, text, float) {
            Some(value) => Ok(value),
            None => Err(SpecParseError::here(ParseErrorKind::MalformedText)),
        },
        Type::Struct(s) => match fields_of_text(s.fields@, split(text, ','), float) {
            Err(e) => Err(e),
            Ok(fields) => Ok(SpecValue::StructValue(fields)),
        },
        Type::Hash => match number_list(text, u64::MAX) {
            Err(e) => Err(e),
            Ok(limbs) => if limbs.len() == 4 {
                Ok(SpecValue::Hash(limbs))
            } else {
                Err(SpecParseError::here(ParseErrorKind::MalformedText))
            },
        },
        Type::String => Ok(SpecValue::String(text)),
        Type::Bytes => match byte_list(text) {
            Err(e) => Err(e),
            Ok(bytes) => Ok(SpecValue::Bytes(bytes)),
        },
        Type::CollectionReference { .. } => match byte_list(text) {
            Err(e) => Err(e),
            Ok(bytes) => Ok(SpecValue::CollectionReference(bytes)),
        },
        Type::Array(_) => if text.len() == 0 {
            Ok(SpecValue::Array(Seq::empty()))
        } else {
            match items_of_text(ty, split(text, ';'), split(text, ';').len(), float) {
                Err(e) => Err(e),
                Ok(items) => Ok(SpecValue::Array(items)),
            }
        },
        Type::Mapping(_, _) => if text.len() == 0 {
            Ok(SpecValue::Mapping(Seq::empty()))
        } else {
            match entries_of_text(
                ty,
                split(text, ';'),
                ((split(text, ';').len() + 1) / 2) as nat,
                float,
            ) {
                Err(e) => Err(e),
                Ok(entries) => Ok(SpecValue::Mapping(entries)),
            }
        },
        Type::PublicKey => match key_of_pieces(split(text, ',')) {
            Err(kind) => Err(SpecParseError::here(kind)),
            Ok(key) => Ok(SpecValue::PublicKey(key)),
        },
    }
}

/// `f` answers the text `t` with the bits `bits`.
pub open spec fn reads_as<F: Fn(&str) -> Option<u32>>(f: F, t: &str, bits: u32) -> bool {
    call_ensures(f, (t,), Some(bits))
}

/// What `f` makes of each text: the bits that it answers a text of these
/// characters with, and `None` for a text that it never answers with bits.
pub open spec fn float_reading<F: Fn(&str) -> Option<u32>>(f: F) -> FloatReading {
    |text: Seq<char>|
        if exists|call: (&str, u32)| #[trigger] reads_as(f, call.0, call.1) && call.0@ == text {
            Some((choose|call: (&str, u32)| #[trigger] reads_as(f, call.0, call.1) && call.0@ == text).1)
        } else {
            None
        }
}

/// `f` can be called on every text, and its answer depends on the characters
/// of the text alone.
pub open spec fn reads_floats<F: Fn(&str) -> Option<u32>>(f: F) -> bool {
    &&& forall|t: &str| call_requires(f, (t,))
    &&& forall|t1: &str, t2: &str, r1: Option<u32>, r2: Option<u32>|
        t1@ == t2@ && #[trigger] call_ensures(f, (t1,), r1) && #[trigger] call_ensures(f, (t2,), r2)
            ==> r1 == r2
}

/// What a call of `f` returned is what `float_reading` says of the text.
pub proof fn lemma_float_reading<F: Fn(&str) -> Option<u32>>(f: F, t: &str, bits: Option<u32>)
    requires
        reads_floats(f),
        call_ensures(f, (t,), bits),
    ensures
        float_reading(f)(t@) == bits,
{
    if exists|call: (&str, u32)| #[trigger] reads_as(f, call.0, call.1) && call.0@ == t@ {
        let chosen = choose|call: (&str, u32)| #[trigger] reads_as(f, call.0, call.1) && call.0@ == t@;
        assert(call_ensures(f, (chosen.0,), Some(chosen.1)) && call_ensures(f, (t,), bits));
    } else {
        match bits {
            Some(b) => {
                let witness = (t, b);
                assert(reads_as(f, witness.0, witness.1) && witness.0@ == t@);
            },
            None => {},
        }
    }
}

/// The model of what the text decoder returned.
pub open spec fn outcome_model(r: Result<Value, ParseError>) -> Result<SpecValue, SpecParseError> {
    match r {
        Ok(value) => Ok(value@),
        Err(e) => Err(e@),
    }
}

/// Once a piece is no number, no longer list is one.
pub proof fn lemma_numbers_failure_persists(pieces: Seq<Seq<char>>, max: u64, failed: int)
    requires
        0 <= failed <= pieces.len(),
        numbers_of(pieces.take(failed), max) is Err,
    ensures
        numbers_of(pieces, max) == numbers_of(pieces.take(failed), max),
    decreases pieces.len(),
{
    if failed < pieces.len() {
        assert(pieces.drop_last().take(failed) =~= pieces.take(failed));
        lemma_numbers_failure_persists(pieces.drop_last(), max, failed);
    } else {
        assert(pieces.take(failed) =~= pieces);
    }
}

/// Once a field cannot be read, no record with more fields can.
pub proof fn lemma_fields_failure_persists(
    fields: Seq<(String, Type)>,
    pieces: Seq<Seq<char>>,
    float: FloatReading,
    failed: int,
)
    requires
        0 <= failed <= fields.len(),
        fields_of_text(fields.take(failed), pieces, float) is Err,
    ensures
        fields_of_text(fields, pieces, float) == fields_of_text(fields.take(failed), pieces, float),
    decreases fields.len(),
{
    if failed < fields.len() {
        assert(fields.drop_last().take(failed) =~= fields.take(failed));
        lemma_fields_failure_persists(fields.drop_last(), pieces, float, failed);
    } else {
        assert(fields.take(failed) =~= fields);
    }
}

/// One more field: the fields before it, then the field itself.
pub proof fn lemma_fields_step(
    fields: Seq<(String, Type)>,
    pieces: Seq<Seq<char>>,
    float: FloatReading,
    done: int,
)
    requires
        0 <= done < fields.len(),
    ensures
        fields_of_text(fields.take(done + 1), pieces, float) == (match fields_of_text(
            fields.take(done),
            pieces,
            float,
        ) {
            Err(e) => Err(e),
            Ok(values) => if done >= pieces.len() {
                Err(
                    SpecParseError::here(ParseErrorKind::MalformedText).within(
                        SpecPathStep::Field(fields[done].0@),
                    ),
                )
            } else {
                match parsed(fields[done].1, pieces[done], float) {
                    Err(e) => Err(e.within(SpecPathStep::Field(fields[done].0@))),
                    Ok(value) => Ok(values.push((fields[done].0@, value))),
                }
            },
        }),
{
    assert(fields.take(done + 1).drop_last() =~= fields.take(done));
    assert(fields.take(done + 1).last() == fields[done]);
}

/// Once an element cannot be read, no longer list can.
pub proof fn lemma_items_failure_persists(
    ty: Type,
    pieces: Seq<Seq<char>>,
    float: FloatReading,
    failed: nat,
    count: nat,
)
    requires
        failed <= count <= pieces.len(),
        items_of_text(ty, pieces, failed, float) is Err,
    ensures
        items_of_text(ty, pieces, count, float) == items_of_text(ty, pieces, failed, float),
    decreases count,
{
    if failed < count {
        lemma_items_failure_persists(ty, pieces, float, failed, (count - 1) as nat);
    }
}

/// One more element: the elements before it, then the element itself.
pub proof fn lemma_items_step(ty: Type, pieces: Seq<Seq<char>>, float: FloatReading, done: nat)
    requires
        ty is Array,
        done < pieces.len(),
    ensures
        items_of_text(ty, pieces, done + 1, float) == (match items_of_text(
            ty,
            pieces,
            done,
            float,
        ) {
            Err(e) => Err(e),
            Ok(items) => match parsed(*ty->Array_0, pieces[done as int], float) {
                Err(e) => Err(e.within(SpecPathStep::Index(done as u64))),
                Ok(value) => Ok(items.push(value)),
            },
        }),
{
    assert((done + 1 - 1) as nat == done);
}

/// Once an entry cannot be read, no longer map can.
pub proof fn lemma_entries_failure_persists(
    ty: Type,
    pieces: Seq<Seq<char>>,
    float: FloatReading,
    failed: nat,
    count: nat,
)
    requires
        failed <= count,
        2 * count - 2 < pieces.len() || count == 0,
        entries_of_text(ty, pieces, failed, float) is Err,
    ensures
        entries_of_text(ty, pieces, count, float) == entries_of_text(ty, pieces, failed, float),
    decreases count,
{
    if failed < count {
        lemma_entries_failure_persists(ty, pieces, float, failed, (count - 1) as nat);
    }
}

/// One more entry: the entries before it, then its key and its value.
pub proof fn lemma_entries_step(ty: Type, pieces: Seq<Seq<char>>, float: FloatReading, done: nat)
    requires
        ty is Mapping,
        2 * done < pieces.len(),
    ensures
        entries_of_text(ty, pieces, done + 1, float) == (match entries_of_text(
            ty,
            pieces,
            done,
            float,
        ) {
            Err(e) => Err(e),
            Ok(entries) => if 2 * done + 1 >= pieces.len() {
                Err(
                    SpecParseError::here(ParseErrorKind::MissingMapValue).within(
                        SpecPathStep::MapValue(done as u64),
                    ),
                )
            } else {
                match parsed(*ty->Mapping_0, pieces[(2 * done) as int], float) {
                    Err(e) => Err(e.within(SpecPathStep::MapKey(done as u64))),
                    Ok(key) => match parsed(*ty->Mapping_1, pieces[(2 * done + 1) as int], float) {
                        Err(e) => Err(e.within(SpecPathStep::MapValue(done as u64))),
                        Ok(value) => Ok(entries.push((key, value))),
                    },
                }
            },
        }),
{
    assert((done + 1 - 1) as nat == done);
    assert(2 * (done + 1) - 2 == 2 * done);
    assert(2 * (done + 1) - 1 == 2 * done + 1);
}

/// The failure `kind` at the value itself.
fn failure(kind: ParseErrorKind) -> (e: ParseError)
    ensures
        e@ == SpecParseError::here(kind),
{
    let e = ParseError { kind, context: Vec::new() };
    assert(e@.context =~= Seq::empty());
    e
}

/// The failure `e`, seen from the value that holds the failing part behind `step`.
fn wrap(e: ParseError, step: PathStep) -> (wrapped: ParseError)
    ensures
        wrapped@ == e@.within(step@),
{
    let mut e = e;
    prepend(&mut e.context, step);
    e
}

/// Reads a value of a primitive kind.
fn parse_primitive<F: Fn(&str) -> Option<u32>>(kind: &PrimitiveType, chars: &[char], float: &F)
    -> (r: Option<Value>)
    requires
        reads_floats(*float),
    ensures
        match r {
            Some(value) => primitive_of_text(*kind, chars@, float_reading(*float)) == Some(value@),
            None => primitive_of_text(*kind, chars@, float_reading(*float)) is None,
        },
{
    match kind {
        PrimitiveType::Boolean => match parse_boolean(chars) {
            Some(b) => Some(Value::Boolean(b)),
            None => None,
        },
        PrimitiveType::UInt32 => match parse_unsigned(chars, u32::MAX as u64) {
            Some(n) => Some(Value::UInt32(n as u32)),
            None => None,
        },
        PrimitiveType::UInt64 => match parse_unsigned(chars, u64::MAX) {
            Some(n) => Some(Value::UInt64(n)),
            None => None,
        },
        PrimitiveType::Int32 => match parse_int32(chars) {
            Some(n) => Some(Value::Int32(n)),
            None => None,
        },
        PrimitiveType::Float32 => {
            let text = string_of(chars);
            let literal: &str = text.as_str();
            let bits = float(literal);
            proof {
                lemma_float_reading(*float, literal, bits);
            }
            match bits {
                Some(bits) => Some(Value::Float32(bits)),
                None => None,
            }
        },
    }
}

/// Reads a comma-separated list of numbers, each no more than `max`.
fn parse_numbers(chars: &[char], max: u64) -> (r: Result<Vec<u64>, ParseError>)
    ensures
        match r {
            Ok(numbers) => number_list(chars@, max) == Ok::<Seq<u64>, SpecParseError>(numbers@),
            Err(e) => number_list(chars@, max) == Err::<Seq<u64>, SpecParseError>(e@),
        },
{
    let mut numbers: Vec<u64> = Vec::new();
    if chars.len() == 0 {
        return Ok(numbers);
    }
    let pieces = split_at(chars, ',');
    let ghost texts = split(chars@, ',');
    let mut i: usize = 0;
    assert(texts.take(0) =~= Seq::<Seq<char>>::empty());
    while i < pieces.len()
        invariant
            i <= pieces.len(),
            chars.len() > 0,
            texts == split(chars@, ','),
            texts == texts_of(pieces@),
            numbers_of(texts.take(i as int), max) == Ok::<Seq<u64>, SpecParseError>(numbers@),
        decreases pieces.len() - i,
    {
        proof {
            assert(texts.take(i + 1).drop_last() =~= texts.take(i as int));
            assert(texts.take(i + 1).last() == pieces@[i as int]@);
        }
        match parse_unsigned(pieces[i].as_slice(), max) {
            None => {
                let e = wrap(failure(ParseErrorKind::MalformedText), PathStep::Index(i as u64));
                proof {
                    lemma_numbers_failure_persists(texts, max, i + 1);
                }
                return Err(e);
            },
            Some(n) => {
                numbers.push(n);
            },
        }
        i += 1;
    }
    assert(texts.take(i as int) =~= texts);
    Ok(numbers)
}

/// Reads a comma-separated list of decimal bytes.
fn parse_bytes(chars: &[char]) -> (r: Result<Vec<u8>, ParseError>)
    ensures
        match r {
            Ok(bytes) => byte_list(chars@) == Ok::<Seq<u8>, SpecParseError>(bytes@),
            Err(e) => byte_list(chars@) == Err::<Seq<u8>, SpecParseError>(e@),
        },
{
    let numbers = parse_numbers(chars, 255)?;
    let mut bytes: Vec<u8> = Vec::new();
    let mut i: usize = 0;
    while i < numbers.len()
        invariant
            i <= numbers.len(),
            bytes@ == bytes_of_numbers(numbers@.take(i as int)),
        decreases numbers.len() - i,
    {
        bytes.push(#[verifier::truncate] (numbers[i] as u8));
        assert(bytes@ =~= bytes_of_numbers(numbers@.take(i + 1)));
        i += 1;
    }
    assert(numbers@.take(i as int) =~= numbers@);
    Ok(bytes)
}

/// Reads a public key from the pieces of its text.
fn parse_key(pieces: &Vec<Vec<char>>) -> (r: Result<Key, ParseErrorKind>)
    ensures
        match r {
            Ok(key) => key_of_pieces(texts_of(pieces@)) == Ok::<SpecKey, ParseErrorKind>(key@),
            Err(kind) => key_of_pieces(texts_of(pieces@)) == Err::<SpecKey, ParseErrorKind>(kind),
        },
{
    if pieces.len() < 6 {
        return Err(ParseErrorKind::MalformedText);
    }
    let x_text = string_of(pieces[4].as_slice());
    let y_text = string_of(pieces[5].as_slice());
    let x = match decode_base64_url(x_text.as_str()) {
        Some(x) => x,
        None => {
            return Err(ParseErrorKind::InvalidKeyEncoding);
        },
    };
    let y = match decode_base64_url(y_text.as_str()) {
        Some(y) => y,
        None => {
            return Err(ParseErrorKind::InvalidKeyEncoding);
        },
    };
    let kty = match Kty::from_name(pieces[0].as_slice()) {
        Some(kty) => kty,
        None => {
            return Err(ParseErrorKind::InvalidEnumValue);
        },
    };
    let crv = match Crv::from_name(pieces[1].as_slice()) {
        Some(crv) => crv,
        None => {
            return Err(ParseErrorKind::InvalidEnumValue);
        },
    };
    let alg = match Alg::from_name(pieces[2].as_slice()) {
        Some(alg) => alg,
        None => {
            return Err(ParseErrorKind::InvalidEnumValue);
        },
    };
    let use_ = match Use::from_name(pieces[3].as_slice()) {
        Some(use_) => use_,
        None => {
            return Err(ParseErrorKind::InvalidEnumValue);
        },
    };
    if x.len() != 32 || y.len() != 32 {
        return Err(ParseErrorKind::InvalidKeyEncoding);
    }
    let key = Key {
        kty,
        crv,
        alg,
        use_,
        x: coordinate_from(x.as_slice(), 0),
        y: coordinate_from(y.as_slice(), 0),
    };
    assert(key@.x =~= x@);
    assert(key@.y =~= y@);
    Ok(key)
}

/// Reads the value of type `ty` that `chars` write.
fn parse_chars<F: Fn(&str) -> Option<u32>>(ty: &Type, chars: &[char], float: &F) -> (r: Result<
    Value,
    ParseError,
>)
    requires
        reads_floats(*float),
    ensures
        outcome_model(r) == parsed(*ty, chars@, float_reading(*float)),
    decreases ty, 1nat,
{
    match ty {
        Type::Nullable(inner) => {
            let null: [char; 4] = ['n', 'u', 'l', 'l'];
            assert(null@ =~= seq!['n', 'u', 'l', 'l']);
            if crate::text::same_text(chars, null.as_slice()) {
                Ok(Value::Nullable(None))
            } else {
                let value = parse_chars(inner, chars, float)?;
                Ok(Value::Nullable(Some(Box::new(value))))
            }
        },
        Type::PrimitiveType(kind) => match parse_primitive(kind, chars, float) {
            Some(value) => Ok(value),
            None => Err(failure(ParseErrorKind::MalformedText)),
        },
        Type::Struct(s) => {
            let pieces = split_at(chars, ',');
            let fields = parse_fields(&s.fields, &pieces, float)?;
            Ok(Value::StructValue(fields))
        },
        Type::Hash => {
            let limbs = parse_numbers(chars, u64::MAX)?;
            if limbs.len() == 4 {
                let hash: [u64; 4] = [limbs[0], limbs[1], limbs[2], limbs[3]];
                assert(hash@ =~= limbs@);
                Ok(Value::Hash(hash))
            } else {
                Err(failure(ParseErrorKind::MalformedText))
            }
        },
        Type::String => Ok(Value::String(string_of(chars))),
        Type::Bytes => {
            let bytes = parse_bytes(chars)?;
            Ok(Value::Bytes(bytes))
        },
        Type::CollectionReference { .. } => {
            let bytes = parse_bytes(chars)?;
            Ok(Value::CollectionReference(bytes))
        },
        Type::Array(_) => {
            if chars.len() == 0 {
                let items: Vec<Value> = Vec::new();
                assert(models_of(items@) == Seq::<SpecValue>::empty());
                Ok(Value::Array(items))
            } else {
                let pieces = split_at(chars, ';');
                let items = parse_items(ty, &pieces, float)?;
                Ok(Value::Array(items))
            }
        },
        Type::Mapping(_, _) => {
            if chars.len() == 0 {
                let entries: Vec<(Value, Value)> = Vec::new();
                assert(entry_models_of(entries@) == Seq::<(SpecValue, SpecValue)>::empty());
                Ok(Value::Mapping(entries))
            } else {
                let pieces = split_at(chars, ';');
                let entries = parse_entries(ty, &pieces, float)?;
                Ok(Value::Mapping(entries))
            }
        },
        Type::PublicKey => {
            let pieces = split_at(chars, ',');
            match parse_key(&pieces) {
                Ok(key) => Ok(Value::PublicKey(key)),
                Err(kind) => Err(failure(kind)),
            }
        },
    }
}

/// Reads the fields of a record, each from the piece at its position.
fn parse_fields<F: Fn(&str) -> Option<u32>>(
    fields: &Vec<(String, Type)>,
    pieces: &Vec<Vec<char>>,
    float: &F,
) -> (r: Result<Vec<(String, Value)>, ParseError>)
    requires
        reads_floats(*float),
    ensures
        match r {
            Ok(values) => fields_of_text(fields@, texts_of(pieces@), float_reading(*float)) == Ok::<
                Seq<(Seq<char>, SpecValue)>,
                SpecParseError,
            >(field_models_of(values@)),
            Err(e) => fields_of_text(fields@, texts_of(pieces@), float_reading(*float)) == Err::<
                Seq<(Seq<char>, SpecValue)>,
                SpecParseError,
            >(e@),
        },
    decreases fields, 0nat,
{
    let ghost texts = texts_of(pieces@);
    let ghost reading = float_reading(*float);
    let mut values: Vec<(String, Value)> = Vec::new();
    let mut i: usize = 0;
    assert(fields@.take(0) =~= Seq::<(String, Type)>::empty());
    while i < fields.len()
        invariant
            i <= fields.len(),
            reads_floats(*float),
            texts == texts_of(pieces@),
            reading == float_reading(*float),
            fields_of_text(fields@.take(i as int), texts, reading) == Ok::<
                Seq<(Seq<char>, SpecValue)>,
                SpecParseError,
            >(field_models_of(values@)),
        decreases fields.len() - i,
    {
        proof {
            vstd::std_specs::vec::axiom_vec_index_decreases(*fields, i as int);
            lemma_fields_step(fields@, texts, reading, i as int);
        }
        let name = fields[i].0.clone();
        assert(name@ == fields@[i as int].0@);
        let read = if i < pieces.len() {
            parse_chars(&fields[i].1, pieces[i].as_slice(), float)
        } else {
            Err(failure(ParseErrorKind::MalformedText))
        };
        match read {
            Err(e) => {
                let e = wrap(e, PathStep::Field(name));
                proof {
                    lemma_fields_failure_persists(fields@, texts, reading, i + 1);
                }
                return Err(e);
            },
            Ok(value) => {
                proof {
                    lemma_field_models_of_push(values@, (name, value));
                }
                values.push((name, value));
            },
        }
        i += 1;
    }
    assert(fields@.take(i as int) =~= fields@);
    Ok(values)
}

/// Reads the elements of the array type `ty`, one from each piece.
fn parse_items<F: Fn(&str) -> Option<u32>>(ty: &Type, pieces: &Vec<Vec<char>>, float: &F) -> (r:
    Result<Vec<Value>, ParseError>)
    requires
        reads_floats(*float),
    ensures
        match r {
            Ok(items) => items_of_text(
                *ty,
                texts_of(pieces@),
                pieces.len() as nat,
                float_reading(*float),
            ) == Ok::<Seq<SpecValue>, SpecParseError>(models_of(items@)),
            Err(e) => items_of_text(
                *ty,
                texts_of(pieces@),
                pieces.len() as nat,
                float_reading(*float),
            ) == Err::<Seq<SpecValue>, SpecParseError>(e@),
        },
    decreases ty, 0nat,
{
    let ghost texts = texts_of(pieces@);
    let ghost reading = float_reading(*float);
    let mut items: Vec<Value> = Vec::new();
    let mut i: usize = 0;
    while i < pieces.len()
        invariant
            i <= pieces.len(),
            reads_floats(*float),
            texts == texts_of(pieces@),
            reading == float_reading(*float),
            items_of_text(*ty, texts, i as nat, reading) == Ok::<Seq<SpecValue>, SpecParseError>(
                models_of(items@),
            ),
        decreases pieces.len() - i,
    {
        match ty {
            Type::Array(element) => {
                proof {
                    lemma_items_step(*ty, texts, reading, i as nat);
                }
                match parse_chars(element, pieces[i].as_slice(), float) {
                    Err(e) => {
                        let e = wrap(e, PathStep::Index(i as u64));
                        proof {
                            lemma_items_failure_persists(
                                *ty,
                                texts,
                                reading,
                                (i + 1) as nat,
                                pieces.len() as nat,
                            );
                        }
                        return Err(e);
                    },
                    Ok(value) => {
                        proof {
                            lemma_models_of_push(items@, value);
                        }
                        items.push(value);
                    },
                }
            },
            _ => {},
        }
        i += 1;
    }
    Ok(items)
}

/// Reads the entries of the map type `ty`: each key from a piece at an even
/// position, its value from the piece behind it.
fn parse_entries<F: Fn(&str) -> Option<u32>>(ty: &Type, pieces: &Vec<Vec<char>>, float: &F) -> (r:
    Result<Vec<(Value, Value)>, ParseError>)
    requires
        reads_floats(*float),
    ensures
        match r {
            Ok(entries) => entries_of_text(
                *ty,
                texts_of(pieces@),
                ((pieces.len() + 1) / 2) as nat,
                float_reading(*float),
            ) == Ok::<Seq<(SpecValue, SpecValue)>, SpecParseError>(entry_models_of(entries@)),
            Err(e) => entries_of_text(
                *ty,
                texts_of(pieces@),
                ((pieces.len() + 1) / 2) as nat,
                float_reading(*float),
            ) == Err::<Seq<(SpecValue, SpecValue)>, SpecParseError>(e@),
        },
    decreases ty, 0nat,
{
    let ghost texts = texts_of(pieces@);
    let ghost reading = float_reading(*float);
    let ghost count = ((pieces.len() + 1) / 2) as nat;
    let mut entries: Vec<(Value, Value)> = Vec::new();
    let mut i: usize = 0;
    while i < pieces.len()
        invariant
            i <= pieces.len(),
            i % 2 == 0,
            reads_floats(*float),
            texts == texts_of(pieces@),
            reading == float_reading(*float),
            count == ((pieces.len() + 1) / 2) as nat,
            entries_of_text(*ty, texts, (i / 2) as nat, reading) == Ok::<
                Seq<(SpecValue, SpecValue)>,
                SpecParseError,
            >(entry_models_of(entries@)),
        decreases pieces.len() - i,
    {
        let entry: u64 = (i / 2) as u64;
        match ty {
            Type::Mapping(key_type, value_type) => {
                proof {
                    lemma_entries_step(*ty, texts, reading, (i / 2) as nat);
                }
                if i + 1 >= pieces.len() {
                    let e = wrap(
                        failure(ParseErrorKind::MissingMapValue),
                        PathStep::MapValue(entry),
                    );
                    proof {
                        lemma_entries_failure_persists(
                            *ty,
                            texts,
                            reading,
                            (i / 2 + 1) as nat,
                            count,
                        );
                    }
                    return Err(e);
                }
                let key = match parse_chars(key_type, pieces[i].as_slice(), float) {
                    Err(e) => {
                        let e = wrap(e, PathStep::MapKey(entry));
                        proof {
                            lemma_entries_failure_persists(
                                *ty,
                                texts,
                                reading,
                                (i / 2 + 1) as nat,
                                count,
                            );
                        }
                        return Err(e);
                    },
                    Ok(key) => key,
                };
                match parse_chars(value_type, pieces[i + 1].as_slice(), float) {
                    Err(e) => {
                        let e = wrap(e, PathStep::MapValue(entry));
                        proof {
                            lemma_entries_failure_persists(
                                *ty,
                                texts,
                                reading,
                                (i / 2 + 1) as nat,
                                count,
                            );
                        }
                        return Err(e);
                    },
                    Ok(value) => {
                        proof {
                            lemma_entry_models_of_push(entries@, (key, value));
                        }
                        entries.push((key, value));
                    },
                }
            },
            _ => {
                return Ok(Vec::new());
            },
        }
        i += 2;
    }
    Ok(entries)
}

/// The reader of floating-point literals that refuses every text. With it, no
/// text writes a value of kind `Float32`.
pub fn refuse_floats(text: &str) -> (bits: Option<u32>)
    ensures
        bits is None,
{
    None
}

/// Reads the value of type `ty` that `text` writes.
///
/// `float_bits` reads a floating-point literal and gives the bits of the
/// 32-bit number it writes, or `None` where the text is no such literal.
/// Reading stops at the first part that fails, and the error names the path
/// to that part.
pub fn parse<F: Fn(&str) -> Option<u32>>(ty: &Type, text: &str, float_bits: &F) -> (result: Result<
    Value,
    ParseError,
>)
    requires
        reads_floats(*float_bits),
    ensures
        outcome_model(result) == parsed(*ty, text@, float_reading(*float_bits)),
        result matches Ok(value) ==> has_shape(*ty, value@),
{
    proof {
        lemma_parsed_has_shape(*ty, text@, float_reading(*float_bits));
    }
    let chars = chars_of(text);
    parse_chars(ty, chars.as_slice(), float_bits)
}

/// A type descriptor that can read a value of its type from text.
pub trait Parser {
    /// What `parse` gives for a text.
    spec fn parsing(&self, text: Seq<char>, float: FloatReading) -> Result<SpecValue, SpecParseError>;

    /// Reads the value that `text` writes. See the free function `parse`.
    fn parse<F: Fn(&str) -> Option<u32>>(&self, text: &str, float_bits: &F) -> (result: Result<
        Value,
        ParseError,
    >)
        requires
            reads_floats(*float_bits),
        ensures
            outcome_model(result) == self.parsing(text@, float_reading(*float_bits)),
    ;
}

impl Parser for PrimitiveType {
    open spec fn parsing(&self, text: Seq<char>, float: FloatReading) -> Result<
        SpecValue,
        SpecParseError,
    > {
        parsed(Type::PrimitiveType(*self), text, float)
    }

    fn parse<F: Fn(&str) -> Option<u32>>(&self, text: &str, float_bits: &F) -> (result: Result<
        Value,
        ParseError,
    >) {
        let chars = chars_of(text);
        match parse_primitive(self, chars.as_slice(), float_bits) {
            Some(value) => Ok(value),
            None => Err(failure(ParseErrorKind::MalformedText)),
        }
    }
}

impl Parser for Struct {
    open spec fn parsing(&self, text: Seq<char>, float: FloatReading) -> Result<
        SpecValue,
        SpecParseError,
    > {
        match fields_of_text(self.fields@, split(text, ','), float) {
            Err(e) => Err(e),
            Ok(fields) => Ok(SpecValue::StructValue(fields)),
        }
    }

    fn parse<F: Fn(&str) -> Option<u32>>(&self, text: &str, float_bits: &F) -> (result: Result<
        Value,
        ParseError,
    >) {
        let chars = chars_of(text);
        let pieces = split_at(chars.as_slice(), ',');
        let fields = parse_fields(&self.fields, &pieces, float_bits)?;
        Ok(Value::StructValue(fields))
    }
}

impl Parser for Type {
    open spec fn parsing(&self, text: Seq<char>, float: FloatReading) -> Result<
        SpecValue,
        SpecParseError,
    > {
        parsed(*self, text, float)
    }

    fn parse<F: Fn(&str) -> Option<u32>>(&self, text: &str, float_bits: &F) -> (result: Result<
        Value,
        ParseError,
    >) {
        parse(self, text, float_bits)
    }
}

/// Reading through a record type is reading through the type that wraps it.
pub proof fn lemma_struct_parsing(s: Struct, text: Seq<char>, float: FloatReading)
    ensures
        s.parsing(text, float) == parsed(Type::Struct(s), text, float),
{
}

} // verus!
