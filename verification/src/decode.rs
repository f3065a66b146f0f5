//! The memory decoder: from a type, a memory snapshot and an address to a value.
//!
//! A value lies in memory as its type says, never as the data suggests:
//! - a primitive value and a hash take one word; a 64-bit number has its high
//!   half in the first limb and its low half in the second;
//! - a nullable value is a flag word, then the value where the flag is not zero;
//! - a record is its fields one after another, each as wide as its type;
//! - a string, bytes and a collection reference are a header of length and
//!   pointer, and behind the pointer one byte in each word;
//! - an array is a header of a reserved word, length and pointer, and behind
//!   the pointer its elements at the stride of their type;
//! - a map is two array headers, one for its keys and one for its values,
//!   with the length taken from the first;
//! - a public key is a header of key type, curve, algorithm, use and
//!   pointer, and behind the pointer the bytes of x, then of y.
//!
//! Every length that the memory holds is charged against a budget before the
//! items behind it are read: one unit for each payload byte, each array element
//! and each map entry. Decoding stops at the first failure, and the error
//! carries the path to the part that failed.

use vstd::prelude::*;
use vstd::utf8::{decode_utf8, valid_utf8};
use crate::layout::{
    ARRAY_LENGTH_OFFSET, ARRAY_POINTER_OFFSET, BYTES_LENGTH_OFFSET, BYTES_POINTER_OFFSET,
    MAP_KEYS_POINTER_OFFSET, MAP_VALUES_POINTER_OFFSET, NULLABLE_FLAG_WIDTH,
    PUBLIC_KEY_ALG_OFFSET, PUBLIC_KEY_CRV_OFFSET, PUBLIC_KEY_KTY_OFFSET,
    PUBLIC_KEY_PAYLOAD_WORDS, PUBLIC_KEY_POINTER_OFFSET, PUBLIC_KEY_USE_OFFSET,
};
use crate::memory::{word_at, Word, WordReader};
use crate::memory_layout::items_in;
use crate::path::{path_model, prepend, PathStep, SpecPathStep};
use crate::shape::{has_shape, lemma_decoded_has_shape};
use crate::publickey::{coordinate_from, Alg, Crv, Key, Kty, SpecKey, Use};
use crate::types::{
    checked_width, fields_width, lemma_fields_width_step, type_width,
    PrimitiveType, Struct, Type,
};
use crate::value::{
    entry_models_of, field_models_of, lemma_entry_models_of_push, lemma_field_models_of_push,
    lemma_models_of_push, models_of, SpecValue, Value,
};

verus! {

/// Why decoding failed.
#[derive(Clone, Copy, Debug, PartialEq, Eq, Structural)]
pub enum DecodeErrorKind {
    /// A word was needed at an address that was never written.
    AddressOutOfBounds { address: u64 },
    /// The limb of a boolean was neither 0 nor 1.
    InvalidBoolean,
    /// A header field of a public key held a number that names nothing.
    InvalidEnumValue,
    /// The payload of a string was not valid UTF-8.
    InvalidText,
    /// A limb did not fit the number it stands for, or an address went
    /// past the last one.
    SizeOverflow,
    /// The lengths found in memory asked for more items than the budget allows.
    BudgetExceeded,
}

/// A failure of the memory decoder, with the path to the part that failed.
#[derive(Debug, PartialEq, Eq)]
pub struct DecodeError {
    pub kind: DecodeErrorKind,
    pub context: Vec<PathStep>,
}

/// What a `DecodeError` holds.
pub ghost struct SpecDecodeError {
    pub kind: DecodeErrorKind,
    pub context: Seq<SpecPathStep>,
}

impl View for DecodeError {
    type V = SpecDecodeError;

    open spec fn view(&self) -> SpecDecodeError {
        SpecDecodeError { kind: self.kind, context: path_model(self.context@) }
    }
}

impl SpecDecodeError {
    /// The failure `kind` at the value itself.
    pub open spec fn here(kind: DecodeErrorKind) -> SpecDecodeError {
        SpecDecodeError { kind, context: Seq::empty() }
    }

    /// This failure, seen from the value that holds the failing part behind `step`.
    pub open spec fn within(self, step: SpecPathStep) -> SpecDecodeError {
        SpecDecodeError { kind: self.kind, context: seq![step] + self.context }
    }
}

/// The budget that stands for no limit.
pub const UNLIMITED: u64 = u64::MAX;

/// The word at `address`.
pub open spec fn word_needed(memory: Map<u64, Word>, address: int) -> Result<Word, SpecDecodeError> {
    if address < 0 || address > u64::MAX {
        Err(SpecDecodeError::here(DecodeErrorKind::SizeOverflow))
    } else {
        match word_at(memory, address as u64) {
            Some(word) => Ok(word),
            None => Err(
                SpecDecodeError::here(DecodeErrorKind::AddressOutOfBounds { address: address as u64 }),
            ),
        }
    }
}

/// The first limb of the word at `address`.
pub open spec fn limb_needed(memory: Map<u64, Word>, address: int) -> Result<u64, SpecDecodeError> {
    match word_needed(memory, address) {
        Ok(word) => Ok(word[0]),
        Err(e) => Err(e),
    }
}

/// What is left of `budget` after `count` items.
pub open spec fn charged(budget: nat, count: nat) -> Result<nat, SpecDecodeError> {
    if count <= budget {
        Ok((budget - count) as nat)
    } else {
        Err(SpecDecodeError::here(DecodeErrorKind::BudgetExceeded))
    }
}

/// The value of a primitive kind that a word holds.
pub open spec fn primitive_of_word(kind: PrimitiveType, word: Word) -> Result<
    SpecValue,
    DecodeErrorKind,
> {
    match kind {
        PrimitiveType::Boolean => if word[0] == 0 {
            Ok(SpecValue::Boolean(false))
        } else if word[0] == 1 {
            Ok(SpecValue::Boolean(true))
        } else {
            Err(DecodeErrorKind::InvalidBoolean)
        },
        PrimitiveType::UInt32 => if word[0] <= u32::MAX {
            Ok(SpecValue::UInt32(word[0] as u32))
        } else {
            Err(DecodeErrorKind::SizeOverflow)
        },
        PrimitiveType::Int32 => if word[0] <= i32::MAX {
            Ok(SpecValue::Int32(word[0] as i32))
        } else {
            Err(DecodeErrorKind::SizeOverflow)
        },
        PrimitiveType::UInt64 => Ok(SpecValue::UInt64((word[0] << 32) | word[1])),
        PrimitiveType::Float32 => Ok(SpecValue::Float32((word[0] % 0x1_0000_0000) as u32)),
    }
}

/// The `count` bytes behind `pointer`: of each word the first limb, cut to its
/// low eight bits.
pub open spec fn payload_bytes(memory: Map<u64, Word>, pointer: int, count: nat) -> Result<
    Seq<u8>,
    SpecDecodeError,
>
    decreases count,
{
    if count == 0 {
        Ok(Seq::empty())
    } else {
        match payload_bytes(memory, pointer, (count - 1) as nat) {
            Err(e) => Err(e),
            Ok(bytes) => match limb_needed(memory, pointer + count - 1) {
                Err(e) => Err(e.within(SpecPathStep::Index((count - 1) as u64))),
                Ok(limb) => Ok(bytes.push((limb % 256) as u8)),
            },
        }
    }
}

/// The payload whose header, a length and then a pointer, lies at `address`.
pub open spec fn payload_at(memory: Map<u64, Word>, address: int, budget: nat) -> Result<
    (Seq<u8>, nat),
    SpecDecodeError,
> {
    match limb_needed(memory, address + BYTES_LENGTH_OFFSET) {
        Err(e) => Err(e),
        Ok(length) => match limb_needed(memory, address + BYTES_POINTER_OFFSET) {
            Err(e) => Err(e),
            Ok(pointer) => match charged(budget, length as nat) {
                Err(e) => Err(e),
                Ok(left) => match payload_bytes(memory, pointer as int, length as nat) {
                    Err(e) => Err(e),
                    Ok(bytes) => Ok((bytes, left)),
                },
            },
        },
    }
}

/// The public key that four header numbers and 64 payload bytes stand for.
pub open spec fn key_of_parts(kty: u64, crv: u64, alg: u64, use_: u64, bytes: Seq<u8>) -> Result<
    SpecKey,
    DecodeErrorKind,
> {
    match (
        Kty::spec_from_code(kty),
        Crv::spec_from_code(crv),
        Alg::spec_from_code(alg),
        Use::spec_from_code(use_),
    ) {
        (Some(kty), Some(crv), Some(alg), Some(use_)) => Ok(
            SpecKey { kty, crv, alg, use_, x: bytes.subrange(0, 32), y: bytes.subrange(32, 64) },
        ),
        _ => Err(DecodeErrorKind::InvalidEnumValue),
    }
}

/// The public key whose header lies at `address`.
pub open spec fn key_at(memory: Map<u64, Word>, address: int, budget: nat) -> Result<
    (SpecKey, nat),
    SpecDecodeError,
> {
    match limb_needed(memory, address + PUBLIC_KEY_KTY_OFFSET) {
        Err(e) => Err(e),
        Ok(kty) => match limb_needed(memory, address + PUBLIC_KEY_CRV_OFFSET) {
            Err(e) => Err(e),
            Ok(crv) => match limb_needed(memory, address + PUBLIC_KEY_ALG_OFFSET) {
                Err(e) => Err(e),
                Ok(alg) => match limb_needed(memory, address + PUBLIC_KEY_USE_OFFSET) {
                    Err(e) => Err(e),
                    Ok(use_) => match limb_needed(memory, address + PUBLIC_KEY_POINTER_OFFSET) {
                        Err(e) => Err(e),
                        Ok(pointer) => match charged(budget, PUBLIC_KEY_PAYLOAD_WORDS as nat) {
                            Err(e) => Err(e),
                            Ok(left) => match payload_bytes(
                                memory,
                                pointer as int,
                                PUBLIC_KEY_PAYLOAD_WORDS as nat,
                            ) {
                                Err(e) => Err(e),
                                Ok(bytes) => match key_of_parts(kty, crv, alg, use_, bytes) {
                                    Err(kind) => Err(SpecDecodeError::here(kind)),
                                    Ok(key) => Ok((key, left)),
                                },
                            },
                        },
                    },
                },
            },
        },
    }
}

/// The fields of a record that starts at `address`, each at the address that
/// the widths of the fields before it give.
pub open spec fn fields_at(
    fields: Seq<(String, Type)>,
    memory: Map<u64, Word>,
    address: int,
    budget: nat,
) -> Result<(Seq<(Seq<char>, SpecValue)>, nat), SpecDecodeError>
    decreases fields, 0nat, 0nat,
{
    if fields.len() == 0 {
        Ok((Seq::empty(), budget))
    } else {
        match fields_at(fields.drop_last(), memory, address, budget) {
            Err(e) => Err(e),
            Ok((done, left)) => match value_at(
                fields.last().1,
                memory,
                address + fields_width(fields.drop_last()),
                left,
            ) {
                Err(e) => Err(e.within(SpecPathStep::Field(fields.last().0@))),
                Ok((value, left)) => Ok((done.push((fields.last().0@, value)), left)),
            },
        }
    }
}

/// The first `count` elements of the array type `ty`, packed behind `pointer`
/// at the stride of the element type.
pub open spec fn elements_at(
    ty: Type,
    memory: Map<u64, Word>,
    pointer: int,
    count: nat,
    budget: nat,
) -> Result<(Seq<SpecValue>, nat), SpecDecodeError>
    decreases ty, 0nat, count,
{
    match ty {
        Type::Array(element) => if count == 0 {
            Ok((Seq::empty(), budget))
        } else {
            match elements_at(ty, memory, pointer, (count - 1) as nat, budget) {
                Err(e) => Err(e),
                Ok((done, left)) => match value_at(
                    *element,
                    memory,
                    pointer + (count - 1) * type_width(*element),
                    left,
                ) {
                    Err(e) => Err(e.within(SpecPathStep::Index((count - 1) as u64))),
                    Ok((value, left)) => Ok((done.push(value), left)),
                },
            }
        },
        _ => Ok((Seq::empty(), budget)),
    }
}

/// The first `count` entries of the map type `ty`: the keys packed behind
/// `keys` and the values behind `values`, each at the stride of its type, read
/// entry by entry.
pub open spec fn entries_at(
    ty: Type,
    memory: Map<u64, Word>,
    keys: int,
    values: int,
    count: nat,
    budget: nat,
) -> Result<(Seq<(SpecValue, SpecValue)>, nat), SpecDecodeError>
    decreases ty, 0nat, count,
{
    match ty {
        Type::Mapping(key_type, value_type) => if count == 0 {
            Ok((Seq::empty(), budget))
        } else {
            match entries_at(ty, memory, keys, values, (count - 1) as nat, budget) {
                Err(e) => Err(e),
                Ok((done, left)) => match value_at(
                    *key_type,
                    memory,
                    keys + (count - 1) * type_width(*key_type),
                    left,
                ) {
                    Err(e) => Err(e.within(SpecPathStep::MapKey((count - 1) as u64))),
                    Ok((key, left)) => match value_at(
                        *value_type,
                        memory,
                        values + (count - 1) * type_width(*value_type),
                        left,
                    ) {
                        Err(e) => Err(e.within(SpecPathStep::MapValue((count - 1) as u64))),
                        Ok((value, left)) => Ok((done.push((key, value)), left)),
                    },
                },
            }
        },
        _ => Ok((Seq::empty(), budget)),
    }
}

/// The value of type `ty` at `address`, and what is left of `budget` after it.
pub open spec fn value_at(ty: Type, memory: Map<u64, Word>, address: int, budget: nat) -> Result<
    (SpecValue, nat),
    SpecDecodeError,
>
    decreases ty, 1nat, 0nat,
{
    if address < 0 || address > u64::MAX {
        Err(SpecDecodeError::here(DecodeErrorKind::SizeOverflow))
    } else {
        match ty {
            Type::Nullable(inner) => match limb_needed(memory, address) {
                Err(e) => Err(e),
                Ok(flag) => if flag == 0 {
                    Ok((SpecValue::Nullable(None), budget))
                } else {
                    match value_at(*inner, memory, address + NULLABLE_FLAG_WIDTH, budget) {
                        Err(e) => Err(e),
                        Ok((value, left)) => Ok((SpecValue::Nullable(Some(Box::new(value))), left)),
                    }
                },
            },
            Type::PrimitiveType(kind) => match word_needed(memory, address) {
                Err(e) => Err(e),
                Ok(word) => match primitive_of_word(kind, word) {
                    Err(kind) => Err(SpecDecodeError::here(kind)),
                    Ok(value) => Ok((value, budget)),
                },
            },
            Type::Struct(s) => match fields_at(s.fields@, memory, address, budget) {
                Err(e) => Err(e),
                Ok((fields, left)) => Ok((SpecValue::StructValue(fields), left)),
            },
            Type::Hash => match word_needed(memory, address) {
                Err(e) => Err(e),
                Ok(word) => Ok((SpecValue::Hash(word@), budget)),
            },
            Type::String => match payload_at(memory, address, budget) {
                Err(e) => Err(e),
                Ok((bytes, left)) => if valid_utf8(bytes) {
                    Ok((SpecValue::String(decode_utf8(bytes)), left))
                } else {
                    Err(SpecDecodeError::here(DecodeErrorKind::InvalidText))
                },
            },
            Type::Bytes => match payload_at(memory, address, budget) {
                Err(e) => Err(e),
                Ok((bytes, left)) => Ok((SpecValue::Bytes(bytes), left)),
            },
            Type::CollectionReference { .. } => match payload_at(memory, address, budget) {
                Err(e) => Err(e),
                Ok((bytes, left)) => Ok((SpecValue::CollectionReference(bytes), left)),
            },
            Type::Array(_) => match limb_needed(memory, address + ARRAY_LENGTH_OFFSET) {
                Err(e) => Err(e),
                Ok(length) => match limb_needed(memory, address + ARRAY_POINTER_OFFSET) {
                    Err(e) => Err(e),
                    Ok(pointer) => match charged(budget, length as nat) {
                        Err(e) => Err(e),
                        Ok(left) => match elements_at(
                            ty,
                            memory,
                            pointer as int,
                            length as nat,
                            left,
                        ) {
                            Err(e) => Err(e),
                            Ok((items, left)) => Ok((SpecValue::Array(items), left)),
                        },
                    },
                },
            },
            Type::Mapping(_, _) => match limb_needed(memory, address + ARRAY_LENGTH_OFFSET) {
                Err(e) => Err(e),
                Ok(length) => match limb_needed(memory, address + MAP_KEYS_POINTER_OFFSET) {
                    Err(e) => Err(e),
                    Ok(keys) => match limb_needed(memory, address + MAP_VALUES_POINTER_OFFSET) {
                        Err(e) => Err(e),
                        Ok(values) => match charged(budget, length as nat) {
                            Err(e) => Err(e),
                            Ok(left) => match entries_at(
                                ty,
                                memory,
                                keys as int,
                                values as int,
                                length as nat,
                                left,
                            ) {
                                Err(e) => Err(e),
                                Ok((entries, left)) => Ok((SpecValue::Mapping(entries), left)),
                            },
                        },
                    },
                },
            },
            Type::PublicKey => match key_at(memory, address, budget) {
                Err(e) => Err(e),
                Ok((key, left)) => Ok((SpecValue::PublicKey(key), left)),
            },
        }
    }
}

/// What decoding a value of type `ty` at `address` gives, with `budget` items
/// allowed behind the lengths found on the way.
pub open spec fn decoding(ty: Type, memory: Map<u64, Word>, address: u64, budget: u64) -> Result<
    SpecValue,
    SpecDecodeError,
> {
    match value_at(ty, memory, address as int, budget as nat) {
        Ok((value, _)) => Ok(value),
        Err(e) => Err(e),
    }
}

/// The model of what a step of the decoder returned.
pub open spec fn read_model<T>(r: Result<T, DecodeError>) -> Result<T, SpecDecodeError> {
    match r {
        Ok(x) => Ok(x),
        Err(e) => Err(e@),
    }
}

/// The model of a decoded value together with the budget that is left.
pub open spec fn step_model(r: Result<(Value, u64), DecodeError>) -> Result<
    (SpecValue, nat),
    SpecDecodeError,
> {
    match r {
        Ok((value, left)) => Ok((value@, left as nat)),
        Err(e) => Err(e@),
    }
}

/// The model of what the decoder returned.
pub open spec fn outcome_model(r: Result<Value, DecodeError>) -> Result<SpecValue, SpecDecodeError> {
    match r {
        Ok(value) => Ok(value@),
        Err(e) => Err(e@),
    }
}

/// Once a byte of a payload cannot be read, no longer payload can.
pub proof fn lemma_payload_failure_persists(
    memory: Map<u64, Word>,
    pointer: int,
    failed: nat,
    count: nat,
)
    requires
        failed <= count,
        payload_bytes(memory, pointer, failed) is Err,
    ensures
        payload_bytes(memory, pointer, count) == payload_bytes(memory, pointer, failed),
    decreases count,
{
    if failed < count {
        lemma_payload_failure_persists(memory, pointer, failed, (count - 1) as nat);
    }
}

/// Once a field cannot be decoded, no record with more fields can.
pub proof fn lemma_fields_failure_persists(
    fields: Seq<(String, Type)>,
    memory: Map<u64, Word>,
    address: int,
    budget: nat,
    failed: int,
)
    requires
        0 <= failed <= fields.len(),
        fields_at(fields.take(failed), memory, address, budget) is Err,
    ensures
        fields_at(fields, memory, address, budget) == fields_at(
            fields.take(failed),
            memory,
            address,
            budget,
        ),
    decreases fields.len(),
{
    if failed < fields.len() {
        assert(fields.drop_last().take(failed) =~= fields.take(failed));
        lemma_fields_failure_persists(fields.drop_last(), memory, address, budget, failed);
    } else {
        assert(fields.take(failed) =~= fields);
    }
}

/// Once an element cannot be decoded, no longer array can.
pub proof fn lemma_elements_failure_persists(
    ty: Type,
    memory: Map<u64, Word>,
    pointer: int,
    budget: nat,
    failed: nat,
    count: nat,
)
    requires
        failed <= count,
        elements_at(ty, memory, pointer, failed, budget) is Err,
    ensures
        elements_at(ty, memory, pointer, count, budget) == elements_at(
            ty,
            memory,
            pointer,
            failed,
            budget,
        ),
    decreases count,
{
    if failed < count {
        lemma_elements_failure_persists(ty, memory, pointer, budget, failed, (count - 1) as nat);
    }
}

/// Once an entry cannot be decoded, no longer map can.
pub proof fn lemma_entries_failure_persists(
    ty: Type,
    memory: Map<u64, Word>,
    keys: int,
    values: int,
    budget: nat,
    failed: nat,
    count: nat,
)
    requires
        failed <= count,
        entries_at(ty, memory, keys, values, failed, budget) is Err,
    ensures
        entries_at(ty, memory, keys, values, count, budget) == entries_at(
            ty,
            memory,
            keys,
            values,
            failed,
            budget,
        ),
    decreases count,
{
    if failed < count {
        lemma_entries_failure_persists(
            ty,
            memory,
            keys,
            values,
            budget,
            failed,
            (count - 1) as nat,
        );
    }
}

/// No value lies past the last address.
pub proof fn lemma_nothing_past_the_end(ty: Type, memory: Map<u64, Word>, address: int, budget: nat)
    requires
        address > u64::MAX,
    ensures
        value_at(ty, memory, address, budget) == Err::<(SpecValue, nat), SpecDecodeError>(
            SpecDecodeError::here(DecodeErrorKind::SizeOverflow),
        ),
{
}

/// One more field: the fields before it, then the field itself.
pub proof fn lemma_fields_step(
    fields: Seq<(String, Type)>,
    memory: Map<u64, Word>,
    address: int,
    budget: nat,
    done: int,
)
    requires
        0 <= done < fields.len(),
    ensures
        fields_at(fields.take(done + 1), memory, address, budget) == (match fields_at(
            fields.take(done),
            memory,
            address,
            budget,
        ) {
            Err(e) => Err(e),
            Ok((values, left)) => match value_at(
                fields[done].1,
                memory,
                address + fields_width(fields.take(done)),
                left,
            ) {
                Err(e) => Err(e.within(SpecPathStep::Field(fields[done].0@))),
                Ok((value, left)) => Ok((values.push((fields[done].0@, value)), left)),
            },
        }),
{
    assert(fields.take(done + 1).drop_last() =~= fields.take(done));
    assert(fields.take(done + 1).last() == fields[done]);
}

/// One more element: the elements before it, then the element itself.
pub proof fn lemma_elements_step(
    ty: Type,
    memory: Map<u64, Word>,
    pointer: int,
    budget: nat,
    done: nat,
)
    requires
        ty is Array,
    ensures
        elements_at(ty, memory, pointer, done + 1, budget) == (match elements_at(
            ty,
            memory,
            pointer,
            done,
            budget,
        ) {
            Err(e) => Err(e),
            Ok((items, left)) => match value_at(
                *ty->Array_0,
                memory,
                pointer + done * type_width(*ty->Array_0),
                left,
            ) {
                Err(e) => Err(e.within(SpecPathStep::Index(done as u64))),
                Ok((value, left)) => Ok((items.push(value), left)),
            },
        }),
{
    assert((done + 1 - 1) as nat == done);
}

/// One more entry: the entries before it, then its key, then its value.
pub proof fn lemma_entries_step(
    ty: Type,
    memory: Map<u64, Word>,
    keys: int,
    values: int,
    budget: nat,
    done: nat,
)
    requires
        ty is Mapping,
    ensures
        entries_at(ty, memory, keys, values, done + 1, budget) == (match entries_at(
            ty,
            memory,
            keys,
            values,
            done,
            budget,
        ) {
            Err(e) => Err(e),
            Ok((entries, left)) => match value_at(
                *ty->Mapping_0,
                memory,
                keys + done * type_width(*ty->Mapping_0),
                left,
            ) {
                Err(e) => Err(e.within(SpecPathStep::MapKey(done as u64))),
                Ok((key, left)) => match value_at(
                    *ty->Mapping_1,
                    memory,
                    values + done * type_width(*ty->Mapping_1),
                    left,
                ) {
                    Err(e) => Err(e.within(SpecPathStep::MapValue(done as u64))),
                    Ok((value, left)) => Ok((entries.push((key, value)), left)),
                },
            },
        }),
{
    assert((done + 1 - 1) as nat == done);
}

/// `String::from_utf8`: the text that `bytes` encode, where they are valid
/// UTF-8, and `None` where they are not.
#[verifier::external_body]
fn string_from_utf8(bytes: Vec<u8>) -> (text: Option<String>)
    ensures
        text is Some <==> valid_utf8(bytes@),
        text matches Some(s) ==> s@ == decode_utf8(bytes@),
{
    String::from_utf8(bytes).ok()
}

/// The failure `kind` at the value itself.
fn failure(kind: DecodeErrorKind) -> (e: DecodeError)
    ensures
        e@ == SpecDecodeError::here(kind),
{
    let e = DecodeError { kind, context: Vec::new() };
    assert(e@.context =~= Seq::empty());
    e
}

/// The failure `e`, seen from the value that holds the failing part behind `step`.
fn wrap(e: DecodeError, step: PathStep) -> (wrapped: DecodeError)
    ensures
        wrapped@ == e@.within(step@),
{
    let mut e = e;
    prepend(&mut e.context, step);
    e
}

/// The address `offset` words after `base`, where there is one.
fn address_after(base: u64, offset: u64) -> (r: Result<u64, DecodeError>)
    ensures
        base + offset <= u64::MAX ==> r == Ok::<u64, DecodeError>((base + offset) as u64),
        base + offset > u64::MAX ==> r is Err && r->Err_0@ == SpecDecodeError::here(
            DecodeErrorKind::SizeOverflow,
        ),
{
    match base.checked_add(offset) {
        Some(address) => Ok(address),
        None => Err(failure(DecodeErrorKind::SizeOverflow)),
    }
}

/// Reads the word `offset` words after `base`.
fn read_word<R: WordReader>(reader: &R, base: u64, offset: u64) -> (r: Result<Word, DecodeError>)
    ensures
        read_model(r) == word_needed(reader.memory(), base + offset),
{
    let address = address_after(base, offset)?;
    match reader.read(address) {
        Some(word) => Ok(word),
        None => Err(failure(DecodeErrorKind::AddressOutOfBounds { address })),
    }
}

/// Reads the first limb of the word `offset` words after `base`.
fn read_limb<R: WordReader>(reader: &R, base: u64, offset: u64) -> (r: Result<u64, DecodeError>)
    ensures
        read_model(r) == limb_needed(reader.memory(), base + offset),
{
    let word = read_word(reader, base, offset)?;
    Ok(word[0])
}

/// Takes `count` items from `budget`.
fn charge(budget: u64, count: u64) -> (r: Result<u64, DecodeError>)
    ensures
        match r {
            Ok(left) => charged(budget as nat, count as nat) == Ok::<nat, SpecDecodeError>(
                left as nat,
            ),
            Err(e) => charged(budget as nat, count as nat) == Err::<nat, SpecDecodeError>(e@),
        },
{
    if count <= budget {
        Ok(budget - count)
    } else {
        Err(failure(DecodeErrorKind::BudgetExceeded))
    }
}

/// The value of a primitive kind that `word` holds.
fn decode_primitive(kind: &PrimitiveType, word: Word) -> (r: Result<Value, DecodeErrorKind>)
    ensures
        match r {
            Ok(value) => primitive_of_word(*kind, word) == Ok::<SpecValue, DecodeErrorKind>(value@),
            Err(e) => primitive_of_word(*kind, word) == Err::<SpecValue, DecodeErrorKind>(e),
        },
{
    let limb: u64 = word[0];
    match kind {
        PrimitiveType::Boolean => {
            if limb == 0 {
                Ok(Value::Boolean(false))
            } else if limb == 1 {
                Ok(Value::Boolean(true))
            } else {
                Err(DecodeErrorKind::InvalidBoolean)
            }
        },
        PrimitiveType::UInt32 => {
            if limb <= u32::MAX as u64 {
                Ok(Value::UInt32(limb as u32))
            } else {
                Err(DecodeErrorKind::SizeOverflow)
            }
        },
        PrimitiveType::Int32 => {
            if limb <= i32::MAX as u64 {
                Ok(Value::Int32(limb as i32))
            } else {
                Err(DecodeErrorKind::SizeOverflow)
            }
        },
        PrimitiveType::UInt64 => Ok(Value::UInt64((limb << 32) | word[1])),
        PrimitiveType::Float32 => {
            assert(#[verifier::truncate] (limb as u32) == (limb % 0x1_0000_0000) as u32)
                by (bit_vector);
            Ok(Value::Float32(#[verifier::truncate] (limb as u32)))
        },
    }
}

/// Reads the `count` bytes behind `pointer`.
fn read_payload_bytes<R: WordReader>(reader: &R, pointer: u64, count: u64) -> (r: Result<
    Vec<u8>,
    DecodeError,
>)
    ensures
        match r {
            Ok(bytes) => bytes.len() == count && payload_bytes(
                reader.memory(),
                pointer as int,
                count as nat,
            ) == Ok::<Seq<u8>, SpecDecodeError>(bytes@),
            Err(e) => payload_bytes(reader.memory(), pointer as int, count as nat) == Err::<
                Seq<u8>,
                SpecDecodeError,
            >(e@),
        },
{
    let mut bytes: Vec<u8> = Vec::new();
    let mut i: u64 = 0;
    while i < count
        invariant
            i <= count,
            bytes.len() == i,
            payload_bytes(reader.memory(), pointer as int, i as nat) == Ok::<
                Seq<u8>,
                SpecDecodeError,
            >(bytes@),
        decreases count - i,
    {
        match read_limb(reader, pointer, i) {
            Err(e) => {
                let e = wrap(e, PathStep::Index(i));
                proof {
                    lemma_payload_failure_persists(
                        reader.memory(),
                        pointer as int,
                        (i + 1) as nat,
                        count as nat,
                    );
                }
                return Err(e);
            },
            Ok(limb) => {
                assert(#[verifier::truncate] (limb as u8) == (limb % 256) as u8) by (bit_vector);
                bytes.push(#[verifier::truncate] (limb as u8));
            },
        }
        i += 1;
    }
    Ok(bytes)
}

/// Reads the payload whose header lies at `address`.
fn read_payload<R: WordReader>(reader: &R, address: u64, budget: u64) -> (r: Result<
    (Vec<u8>, u64),
    DecodeError,
>)
    ensures
        match r {
            Ok((bytes, left)) => payload_at(reader.memory(), address as int, budget as nat) == Ok::<
                (Seq<u8>, nat),
                SpecDecodeError,
            >((bytes@, left as nat)),
            Err(e) => payload_at(reader.memory(), address as int, budget as nat) == Err::<
                (Seq<u8>, nat),
                SpecDecodeError,
            >(e@),
        },
{
    let length = read_limb(reader, address, BYTES_LENGTH_OFFSET)?;
    let pointer = read_limb(reader, address, BYTES_POINTER_OFFSET)?;
    let left = charge(budget, length)?;
    let bytes = read_payload_bytes(reader, pointer, length)?;
    Ok((bytes, left))
}

/// Reads the public key whose header lies at `address`.
fn read_key<R: WordReader>(reader: &R, address: u64, budget: u64) -> (r: Result<
    (Key, u64),
    DecodeError,
>)
    ensures
        match r {
            Ok((key, left)) => key_at(reader.memory(), address as int, budget as nat) == Ok::<
                (SpecKey, nat),
                SpecDecodeError,
            >((key@, left as nat)),
            Err(e) => key_at(reader.memory(), address as int, budget as nat) == Err::<
                (SpecKey, nat),
                SpecDecodeError,
            >(e@),
        },
{
    let kty = read_limb(reader, address, PUBLIC_KEY_KTY_OFFSET)?;
    let crv = read_limb(reader, address, PUBLIC_KEY_CRV_OFFSET)?;
    let alg = read_limb(reader, address, PUBLIC_KEY_ALG_OFFSET)?;
    let use_ = read_limb(reader, address, PUBLIC_KEY_USE_OFFSET)?;
    let pointer = read_limb(reader, address, PUBLIC_KEY_POINTER_OFFSET)?;
    let left = charge(budget, PUBLIC_KEY_PAYLOAD_WORDS)?;
    let bytes = read_payload_bytes(reader, pointer, PUBLIC_KEY_PAYLOAD_WORDS)?;
    match (Kty::from_code(kty), Crv::from_code(crv), Alg::from_code(alg), Use::from_code(use_)) {
        (Some(kty), Some(crv), Some(alg), Some(use_)) => {
            let x = coordinate_from(bytes.as_slice(), 0);
            let y = coordinate_from(bytes.as_slice(), 32);
            Ok((Key { kty, crv, alg, use_, x, y }, left))
        },
        _ => Err(failure(DecodeErrorKind::InvalidEnumValue)),
    }
}

/// Decodes the value of type `ty` at `address`.
fn decode_at<R: WordReader>(ty: &Type, reader: &R, address: u64, budget: u64) -> (r: Result<
    (Value, u64),
    DecodeError,
>)
    ensures
        step_model(r) == value_at(*ty, reader.memory(), address as int, budget as nat),
    decreases ty, 1nat,
{
    match ty {
        Type::Nullable(inner) => {
            let flag = read_limb(reader, address, 0)?;
            if flag == 0 {
                Ok((Value::Nullable(None), budget))
            } else {
                match address_after(address, NULLABLE_FLAG_WIDTH) {
                    Err(e) => {
                        proof {
                            lemma_nothing_past_the_end(
                                **inner,
                                reader.memory(),
                                address + 1,
                                budget as nat,
                            );
                        }
                        Err(e)
                    },
                    Ok(next) => {
                        let (value, left) = decode_at(inner, reader, next, budget)?;
                        Ok((Value::Nullable(Some(Box::new(value))), left))
                    },
                }
            }
        },
        Type::PrimitiveType(kind) => {
            let word = read_word(reader, address, 0)?;
            match decode_primitive(kind, word) {
                Ok(value) => Ok((value, budget)),
                Err(kind) => Err(failure(kind)),
            }
        },
        Type::Struct(s) => {
            let (fields, left) = decode_fields(&s.fields, reader, address, budget)?;
            Ok((Value::StructValue(fields), left))
        },
        Type::Hash => {
            let word = read_word(reader, address, 0)?;
            Ok((Value::Hash(word), budget))
        },
        Type::String => {
            let (bytes, left) = read_payload(reader, address, budget)?;
            match string_from_utf8(bytes) {
                Some(text) => Ok((Value::String(text), left)),
                None => Err(failure(DecodeErrorKind::InvalidText)),
            }
        },
        Type::Bytes => {
            let (bytes, left) = read_payload(reader, address, budget)?;
            Ok((Value::Bytes(bytes), left))
        },
        Type::CollectionReference { .. } => {
            let (bytes, left) = read_payload(reader, address, budget)?;
            Ok((Value::CollectionReference(bytes), left))
        },
        Type::Array(_) => {
            let length = read_limb(reader, address, ARRAY_LENGTH_OFFSET)?;
            let pointer = read_limb(reader, address, ARRAY_POINTER_OFFSET)?;
            let left = charge(budget, length)?;
            let (items, left) = decode_elements(ty, reader, pointer, length, left)?;
            Ok((Value::Array(items), left))
        },
        Type::Mapping(_, _) => {
            let length = read_limb(reader, address, ARRAY_LENGTH_OFFSET)?;
            let keys = read_limb(reader, address, MAP_KEYS_POINTER_OFFSET)?;
            let values = read_limb(reader, address, MAP_VALUES_POINTER_OFFSET)?;
            let left = charge(budget, length)?;
            let (entries, left) = decode_entries(ty, reader, keys, values, length, left)?;
            Ok((Value::Mapping(entries), left))
        },
        Type::PublicKey => {
            let (key, left) = read_key(reader, address, budget)?;
            Ok((Value::PublicKey(key), left))
        },
    }
}

/// The address of the item at `index` behind `pointer`, at the given stride.
fn item_address(pointer: u64, index: u64, stride: Option<u64>, Ghost(width): Ghost<nat>) -> (r:
    Result<u64, DecodeError>)
    requires
        stride == checked_width(width),
    ensures
        pointer + index * width <= u64::MAX ==> r == Ok::<u64, DecodeError>(
            (pointer + index * width) as u64,
        ),
        pointer + index * width > u64::MAX ==> r is Err && r->Err_0@ == SpecDecodeError::here(
            DecodeErrorKind::SizeOverflow,
        ),
{
    if index == 0 {
        return Ok(pointer);
    }
    match stride {
        None => {
            assert(index * width >= width) by (nonlinear_arith)
                requires
                    index >= 1,
            ;
            Err(failure(DecodeErrorKind::SizeOverflow))
        },
        Some(stride) => match index.checked_mul(stride) {
            None => Err(failure(DecodeErrorKind::SizeOverflow)),
            Some(offset) => address_after(pointer, offset),
        },
    }
}

/// Decodes the fields of a record that starts at `address`.
fn decode_fields<R: WordReader>(
    fields: &Vec<(String, Type)>,
    reader: &R,
    address: u64,
    budget: u64,
) -> (r: Result<(Vec<(String, Value)>, u64), DecodeError>)
    ensures
        match r {
            Ok((values, left)) => fields_at(
                fields@,
                reader.memory(),
                address as int,
                budget as nat,
            ) == Ok::<(Seq<(Seq<char>, SpecValue)>, nat), SpecDecodeError>(
                (field_models_of(values@), left as nat),
            ),
            Err(e) => fields_at(fields@, reader.memory(), address as int, budget as nat) == Err::<
                (Seq<(Seq<char>, SpecValue)>, nat),
                SpecDecodeError,
            >(e@),
        },
    decreases fields, 0nat,
{
    let mut values: Vec<(String, Value)> = Vec::new();
    let mut left: u64 = budget;
    let mut offset: Option<u64> = Some(0);
    let mut i: usize = 0;
    while i < fields.len()
        invariant
            i <= fields.len(),
            offset == checked_width(fields_width(fields@.take(i as int))),
            fields_at(fields@.take(i as int), reader.memory(), address as int, budget as nat) == Ok::<
                (Seq<(Seq<char>, SpecValue)>, nat),
                SpecDecodeError,
            >((field_models_of(values@), left as nat)),
        decreases fields.len() - i,
    {
        proof {
            vstd::std_specs::vec::axiom_vec_index_decreases(*fields, i as int);
            lemma_fields_width_step(fields@, i as int);
            lemma_fields_step(fields@, reader.memory(), address as int, budget as nat, i as int);
        }
        let name = fields[i].0.clone();
        assert(name@ == fields@[i as int].0@);
        let at = match offset {
            Some(offset) => address_after(address, offset),
            None => Err(failure(DecodeErrorKind::SizeOverflow)),
        };
        let decoded = match at {
            Ok(at) => decode_at(&fields[i].1, reader, at, left),
            Err(e) => {
                proof {
                    lemma_nothing_past_the_end(
                        fields@[i as int].1,
                        reader.memory(),
                        address + fields_width(fields@.take(i as int)),
                        left as nat,
                    );
                }
                Err(e)
            },
        };
        match decoded {
            Err(e) => {
                let e = wrap(e, PathStep::Field(name));
                proof {
                    lemma_fields_failure_persists(
                        fields@,
                        reader.memory(),
                        address as int,
                        budget as nat,
                        i + 1,
                    );
                }
                return Err(e);
            },
            Ok((value, rest)) => {
                proof {
                    lemma_field_models_of_push(values@, (name, value));
                }
                values.push((name, value));
                left = rest;
            },
        }
        offset = match (offset, fields[i].1.width()) {
            (Some(offset), Some(width)) => offset.checked_add(width),
            _ => None,
        };
        i += 1;
    }
    assert(fields@.take(i as int) =~= fields@);
    Ok((values, left))
}

/// Decodes `count` elements of the array type `ty` behind `pointer`.
fn decode_elements<R: WordReader>(
    ty: &Type,
    reader: &R,
    pointer: u64,
    count: u64,
    budget: u64,
) -> (r: Result<(Vec<Value>, u64), DecodeError>)
    ensures
        match r {
            Ok((items, left)) => elements_at(
                *ty,
                reader.memory(),
                pointer as int,
                count as nat,
                budget as nat,
            ) == Ok::<(Seq<SpecValue>, nat), SpecDecodeError>((models_of(items@), left as nat)),
            Err(e) => elements_at(
                *ty,
                reader.memory(),
                pointer as int,
                count as nat,
                budget as nat,
            ) == Err::<(Seq<SpecValue>, nat), SpecDecodeError>(e@),
        },
    decreases ty, 0nat,
{
    let mut items: Vec<Value> = Vec::new();
    let mut left: u64 = budget;
    let mut i: u64 = 0;
    while i < count
        invariant
            i <= count,
            elements_at(*ty, reader.memory(), pointer as int, i as nat, budget as nat) == Ok::<
                (Seq<SpecValue>, nat),
                SpecDecodeError,
            >((models_of(items@), left as nat)),
        decreases count - i,
    {
        match ty {
            Type::Array(element) => {
                proof {
                    lemma_elements_step(
                        *ty,
                        reader.memory(),
                        pointer as int,
                        budget as nat,
                        i as nat,
                    );
                }
                let decoded = match item_address(
                    pointer,
                    i,
                    element.width(),
                    Ghost(type_width(**element)),
                ) {
                    Ok(at) => decode_at(element, reader, at, left),
                    Err(e) => {
                        proof {
                            lemma_nothing_past_the_end(
                                **element,
                                reader.memory(),
                                pointer + i * type_width(**element),
                                left as nat,
                            );
                        }
                        Err(e)
                    },
                };
                match decoded {
                    Err(e) => {
                        let e = wrap(e, PathStep::Index(i));
                        proof {
                            lemma_elements_failure_persists(
                                *ty,
                                reader.memory(),
                                pointer as int,
                                budget as nat,
                                (i + 1) as nat,
                                count as nat,
                            );
                        }
                        return Err(e);
                    },
                    Ok((value, rest)) => {
                        proof {
                            lemma_models_of_push(items@, value);
                        }
                        items.push(value);
                        left = rest;
                    },
                }
            },
            _ => {},
        }
        i += 1;
    }
    Ok((items, left))
}

/// Decodes `count` entries of the map type `ty`, keys behind `keys` and values
/// behind `values`.
fn decode_entries<R: WordReader>(
    ty: &Type,
    reader: &R,
    keys: u64,
    values: u64,
    count: u64,
    budget: u64,
) -> (r: Result<(Vec<(Value, Value)>, u64), DecodeError>)
    ensures
        match r {
            Ok((entries, left)) => entries_at(
                *ty,
                reader.memory(),
                keys as int,
                values as int,
                count as nat,
                budget as nat,
            ) == Ok::<(Seq<(SpecValue, SpecValue)>, nat), SpecDecodeError>(
                (entry_models_of(entries@), left as nat),
            ),
            Err(e) => entries_at(
                *ty,
                reader.memory(),
                keys as int,
                values as int,
                count as nat,
                budget as nat,
            ) == Err::<(Seq<(SpecValue, SpecValue)>, nat), SpecDecodeError>(e@),
        },
    decreases ty, 0nat,
{
    let mut entries: Vec<(Value, Value)> = Vec::new();
    let mut left: u64 = budget;
    let mut i: u64 = 0;
    while i < count
        invariant
            i <= count,
            entries_at(
                *ty,
                reader.memory(),
                keys as int,
                values as int,
                i as nat,
                budget as nat,
            ) == Ok::<(Seq<(SpecValue, SpecValue)>, nat), SpecDecodeError>(
                (entry_models_of(entries@), left as nat),
            ),
        decreases count - i,
    {
        match ty {
            Type::Mapping(key_type, value_type) => {
                proof {
                    lemma_entries_step(
                        *ty,
                        reader.memory(),
                        keys as int,
                        values as int,
                        budget as nat,
                        i as nat,
                    );
                }
                let decoded_key = match item_address(
                    keys,
                    i,
                    key_type.width(),
                    Ghost(type_width(**key_type)),
                ) {
                    Ok(at) => decode_at(key_type, reader, at, left),
                    Err(e) => {
                        proof {
                            lemma_nothing_past_the_end(
                                **key_type,
                                reader.memory(),
                                keys + i * type_width(**key_type),
                                left as nat,
                            );
                        }
                        Err(e)
                    },
                };
                let (key, rest) = match decoded_key {
                    Err(e) => {
                        let e = wrap(e, PathStep::MapKey(i));
                        proof {
                            lemma_entries_failure_persists(
                                *ty,
                                reader.memory(),
                                keys as int,
                                values as int,
                                budget as nat,
                                (i + 1) as nat,
                                count as nat,
                            );
                        }
                        return Err(e);
                    },
                    Ok(decoded) => decoded,
                };
                let decoded_value = match item_address(
                    values,
                    i,
                    value_type.width(),
                    Ghost(type_width(**value_type)),
                ) {
                    Ok(at) => decode_at(value_type, reader, at, rest),
                    Err(e) => {
                        proof {
                            lemma_nothing_past_the_end(
                                **value_type,
                                reader.memory(),
                                values + i * type_width(**value_type),
                                rest as nat,
                            );
                        }
                        Err(e)
                    },
                };
                match decoded_value {
                    Err(e) => {
                        let e = wrap(e, PathStep::MapValue(i));
                        proof {
                            lemma_entries_failure_persists(
                                *ty,
                                reader.memory(),
                                keys as int,
                                values as int,
                                budget as nat,
                                (i + 1) as nat,
                                count as nat,
                            );
                        }
                        return Err(e);
                    },
                    Ok((value, rest)) => {
                        proof {
                            lemma_entry_models_of_push(entries@, (key, value));
                        }
                        entries.push((key, value));
                        left = rest;
                    },
                }
            },
            _ => {},
        }
        i += 1;
    }
    Ok((entries, left))
}

/// Decodes the value of type `ty` that lies at `address`, reading at most
/// `budget` payload bytes, array elements and map entries in all.
///
/// Decoding stops at the first part that fails, and the error names the path
/// to that part.
pub fn decode_within<R: WordReader>(ty: &Type, reader: &R, address: u64, budget: u64) -> (result:
    Result<Value, DecodeError>)
    ensures
        outcome_model(result) == decoding(*ty, reader.memory(), address, budget),
        result matches Ok(value) ==> has_shape(*ty, value@) && items_in(value@) <= budget,
{
    proof {
        lemma_decoded_has_shape(*ty, reader.memory(), address as int, budget as nat);
    }
    match decode_at(ty, reader, address, budget) {
        Ok((value, _)) => Ok(value),
        Err(e) => Err(e),
    }
}

/// Decodes the value of type `ty` that lies at `address`, with no limit on
/// the lengths found in memory.
pub fn decode<R: WordReader>(ty: &Type, reader: &R, address: u64) -> (result: Result<
    Value,
    DecodeError,
>)
    ensures
        outcome_model(result) == decoding(*ty, reader.memory(), address, UNLIMITED),
        result matches Ok(value) ==> has_shape(*ty, value@),
{
    decode_within(ty, reader, address, UNLIMITED)
}

/// A type descriptor that can read a value of its type out of memory.
pub trait TypeReader {
    /// What `read` gives for a memory and an address.
    spec fn reading(&self, memory: Map<u64, Word>, address: u64) -> Result<
        SpecValue,
        SpecDecodeError,
    >;

    /// Reads the value at `address`, with no limit on the lengths found in memory.
    fn read<R: WordReader>(&self, reader: &R, address: u64) -> (result: Result<Value, DecodeError>)
        ensures
            outcome_model(result) == self.reading(reader.memory(), address),
    ;
}

impl TypeReader for PrimitiveType {
    open spec fn reading(&self, memory: Map<u64, Word>, address: u64) -> Result<
        SpecValue,
        SpecDecodeError,
    > {
        decoding(Type::PrimitiveType(*self), memory, address, UNLIMITED)
    }

    fn read<R: WordReader>(&self, reader: &R, address: u64) -> (result: Result<Value, DecodeError>) {
        let word = read_word(reader, address, 0)?;
        match decode_primitive(self, word) {
            Ok(value) => Ok(value),
            Err(kind) => Err(failure(kind)),
        }
    }
}

impl TypeReader for Struct {
    open spec fn reading(&self, memory: Map<u64, Word>, address: u64) -> Result<
        SpecValue,
        SpecDecodeError,
    > {
        match fields_at(self.fields@, memory, address as int, UNLIMITED as nat) {
            Ok((fields, _)) => Ok(SpecValue::StructValue(fields)),
            Err(e) => Err(e),
        }
    }

    fn read<R: WordReader>(&self, reader: &R, address: u64) -> (result: Result<Value, DecodeError>) {
        let (fields, _) = decode_fields(&self.fields, reader, address, UNLIMITED)?;
        Ok(Value::StructValue(fields))
    }
}

impl TypeReader for Type {
    open spec fn reading(&self, memory: Map<u64, Word>, address: u64) -> Result<
        SpecValue,
        SpecDecodeError,
    > {
        decoding(*self, memory, address, UNLIMITED)
    }

    fn read<R: WordReader>(&self, reader: &R, address: u64) -> (result: Result<Value, DecodeError>) {
        decode(self, reader, address)
    }
}

/// Reading through a record type is decoding the type that wraps it.
pub proof fn lemma_struct_reading(s: Struct, memory: Map<u64, Word>, address: u64)
    ensures
        s.reading(memory, address) == decoding(Type::Struct(s), memory, address, UNLIMITED),
{
}

} // verus!
