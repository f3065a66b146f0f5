//! How a value lies in memory, and the law that decoding returns it.
//!
//! `laid_out` states the layout rules on their own, address by address. The
//! law at the end of this file says that the decoder reads back every value that
//! lies in memory by these rules.

use vstd::prelude::*;
use vstd::utf8::{encode_utf8, encode_utf8_decode_utf8, encode_utf8_valid_utf8};
use crate::decode::{
    decoding, elements_at, entries_at, fields_at, key_at, key_of_parts, limb_needed,
    payload_at, payload_bytes, primitive_of_word, value_at, SpecDecodeError,
};
use crate::layout::{
    ARRAY_LENGTH_OFFSET, ARRAY_POINTER_OFFSET, BYTES_LENGTH_OFFSET, BYTES_POINTER_OFFSET,
    MAP_KEYS_POINTER_OFFSET, MAP_VALUES_POINTER_OFFSET, NULLABLE_FLAG_WIDTH,
    PUBLIC_KEY_ALG_OFFSET, PUBLIC_KEY_CRV_OFFSET, PUBLIC_KEY_KTY_OFFSET,
    PUBLIC_KEY_POINTER_OFFSET, PUBLIC_KEY_USE_OFFSET,
};
use crate::memory::Word;
use crate::publickey::SpecKey;
use crate::types::{fields_width, type_width, PrimitiveType, Type};
use crate::value::SpecValue;

verus! {

/// The word at `address` was written, and its first limb is `limb`.
pub open spec fn limb_is(memory: Map<u64, Word>, address: int, limb: int) -> bool {
    &&& 0 <= address <= u64::MAX
    &&& memory.contains_key(address as u64)
    &&& memory[address as u64][0] == limb
}

/// The first limb of the word at `address`.
pub open spec fn limb_of(memory: Map<u64, Word>, address: int) -> int {
    memory[address as u64][0] as int
}

/// Each byte of `bytes` is the first limb of one word, from `pointer` on.
pub open spec fn bytes_laid_out(memory: Map<u64, Word>, pointer: int, bytes: Seq<u8>) -> bool {
    forall|i: int| 0 <= i < bytes.len() ==> limb_is(memory, pointer + i, #[trigger] bytes[i] as int)
}

/// The header at `address` holds the length of `bytes` and a pointer, and the
/// bytes lie behind that pointer.
pub open spec fn payload_laid_out(memory: Map<u64, Word>, address: int, bytes: Seq<u8>) -> bool {
    &&& limb_is(memory, address + BYTES_LENGTH_OFFSET, bytes.len() as int)
    &&& limb_is(
        memory,
        address + BYTES_POINTER_OFFSET,
        limb_of(memory, address + BYTES_POINTER_OFFSET),
    )
    &&& bytes_laid_out(memory, limb_of(memory, address + BYTES_POINTER_OFFSET), bytes)
}

/// The word at `address` holds a value of a primitive kind.
pub open spec fn primitive_laid_out(
    kind: PrimitiveType,
    memory: Map<u64, Word>,
    address: int,
    v: SpecValue,
) -> bool {
    &&& 0 <= address <= u64::MAX
    &&& memory.contains_key(address as u64)
    &&& match (kind, v) {
        (PrimitiveType::Boolean, SpecValue::Boolean(b)) => limb_of(memory, address) == (if b {
            1int
        } else {
            0int
        }),
        (PrimitiveType::UInt32, SpecValue::UInt32(x)) => limb_of(memory, address) == x,
        (PrimitiveType::Int32, SpecValue::Int32(x)) => limb_of(memory, address) == x,
        (PrimitiveType::UInt64, SpecValue::UInt64(x)) => {
            &&& memory[address as u64][0] == x / 0x1_0000_0000
            &&& memory[address as u64][1] == x % 0x1_0000_0000
        },
        (PrimitiveType::Float32, SpecValue::Float32(bits)) => limb_of(memory, address) == bits,
        _ => false,
    }
}

/// The header of a public key lies at `address`, and its coordinates behind
/// the pointer of the header: x, then y.
pub open spec fn key_laid_out(memory: Map<u64, Word>, address: int, key: SpecKey) -> bool {
    &&& key.well_formed()
    &&& limb_is(memory, address + PUBLIC_KEY_KTY_OFFSET, key.kty.spec_code() as int)
    &&& limb_is(memory, address + PUBLIC_KEY_CRV_OFFSET, key.crv.spec_code() as int)
    &&& limb_is(memory, address + PUBLIC_KEY_ALG_OFFSET, key.alg.spec_code() as int)
    &&& limb_is(memory, address + PUBLIC_KEY_USE_OFFSET, key.use_.spec_code() as int)
    &&& limb_is(
        memory,
        address + PUBLIC_KEY_POINTER_OFFSET,
        limb_of(memory, address + PUBLIC_KEY_POINTER_OFFSET),
    )
    &&& bytes_laid_out(
        memory,
        limb_of(memory, address + PUBLIC_KEY_POINTER_OFFSET),
        key.x + key.y,
    )
}

/// The fields of a record lie one after another from `address` on.
pub open spec fn fields_laid_out(
    fields: Seq<(String, Type)>,
    memory: Map<u64, Word>,
    address: int,
    values: Seq<(Seq<char>, SpecValue)>,
) -> bool
    decreases fields, 0nat,
{
    &&& fields.len() == values.len()
    &&& fields.len() > 0 ==> {
        &&& fields_laid_out(fields.drop_last(), memory, address, values.drop_last())
        &&& values.last().0 == fields.last().0@
        &&& laid_out(
            fields.last().1,
            memory,
            address + fields_width(fields.drop_last()),
            values.last().1,
        )
    }
}

/// The value `v` of type `ty` lies at `address`: every word of it, and of what
/// its headers point to, holds what the layout rules say.
pub open spec fn laid_out(ty: Type, memory: Map<u64, Word>, address: int, v: SpecValue) -> bool
    decreases ty, 1nat,
{
    &&& 0 <= address <= u64::MAX
    &&& match (ty, v) {
        (Type::Nullable(_), SpecValue::Nullable(None)) => limb_is(memory, address, 0),
        (Type::Nullable(inner), SpecValue::Nullable(Some(present))) => {
            &&& limb_is(memory, address, limb_of(memory, address))
            &&& limb_of(memory, address) != 0
            &&& laid_out(*inner, memory, address + NULLABLE_FLAG_WIDTH, *present)
        },
        (Type::PrimitiveType(kind), _) => primitive_laid_out(kind, memory, address, v),
        (Type::Struct(s), SpecValue::StructValue(values)) => fields_laid_out(
            s.fields@,
            memory,
            address,
            values,
        ),
        (Type::Hash, SpecValue::Hash(limbs)) => {
            &&& memory.contains_key(address as u64)
            &&& memory[address as u64]@ == limbs
        },
        (Type::String, SpecValue::String(s)) => payload_laid_out(memory, address, encode_utf8(s)),
        (Type::Bytes, SpecValue::Bytes(bytes)) => payload_laid_out(memory, address, bytes),
        (Type::CollectionReference { .. }, SpecValue::CollectionReference(bytes)) => payload_laid_out(
            memory,
            address,
            bytes,
        ),
        (Type::Array(element), SpecValue::Array(items)) => {
            &&& limb_is(memory, address + ARRAY_LENGTH_OFFSET, items.len() as int)
            &&& limb_is(
                memory,
                address + ARRAY_POINTER_OFFSET,
                limb_of(memory, address + ARRAY_POINTER_OFFSET),
            )
            &&& forall|i: int|
                0 <= i < items.len() ==> laid_out(
                    *element,
                    memory,
                    limb_of(memory, address + ARRAY_POINTER_OFFSET) + i * type_width(*element),
                    #[trigger] items[i],
                )
        },
        (Type::Mapping(key_type, value_type), SpecValue::Mapping(entries)) => {
            &&& limb_is(memory, address + ARRAY_LENGTH_OFFSET, entries.len() as int)
            &&& limb_is(
                memory,
                address + MAP_KEYS_POINTER_OFFSET,
                limb_of(memory, address + MAP_KEYS_POINTER_OFFSET),
            )
            &&& limb_is(
                memory,
                address + MAP_VALUES_POINTER_OFFSET,
                limb_of(memory, address + MAP_VALUES_POINTER_OFFSET),
            )
            &&& forall|i: int|
                0 <= i < entries.len() ==> {
                    &&& laid_out(
                        *key_type,
                        memory,
                        limb_of(memory, address + MAP_KEYS_POINTER_OFFSET) + i * type_width(
                            *key_type,
                        ),
                        (#[trigger] entries[i]).0,
                    )
                    &&& laid_out(
                        *value_type,
                        memory,
                        limb_of(memory, address + MAP_VALUES_POINTER_OFFSET) + i * type_width(
                            *value_type,
                        ),
                        entries[i].1,
                    )
                }
        },
        (Type::PublicKey, SpecValue::PublicKey(key)) => key_laid_out(memory, address, key),
        _ => false,
    }
}

/// The items that the lengths inside the values of `items` ask for.
pub open spec fn items_in_all(items: Seq<SpecValue>) -> nat
    decreases items,
{
    if items.len() == 0 {
        0
    } else {
        items_in_all(items.drop_last()) + items_in(items.last())
    }
}

/// The items that the lengths inside the keys and values of `entries` ask for.
pub open spec fn items_in_entries(entries: Seq<(SpecValue, SpecValue)>) -> nat
    decreases entries,
{
    if entries.len() == 0 {
        0
    } else {
        items_in_entries(entries.drop_last()) + items_in(entries.last().0) + items_in(
            entries.last().1,
        )
    }
}

/// The items that the lengths inside the values of `fields` ask for.
pub open spec fn items_in_fields(fields: Seq<(Seq<char>, SpecValue)>) -> nat
    decreases fields,
{
    if fields.len() == 0 {
        0
    } else {
        items_in_fields(fields.drop_last()) + items_in(fields.last().1)
    }
}

/// The budget that decoding `v` uses up: one for each payload byte, each
/// array element and each map entry, at every depth.
pub open spec fn items_in(v: SpecValue) -> nat
    decreases v,
{
    match v {
        SpecValue::Nullable(Some(present)) => items_in(*present),
        SpecValue::String(s) => encode_utf8(s).len(),
        SpecValue::Bytes(bytes) => bytes.len(),
        SpecValue::CollectionReference(bytes) => bytes.len(),
        SpecValue::Array(items) => items.len() + items_in_all(items),
        SpecValue::Mapping(entries) => entries.len() + items_in_entries(entries),
        SpecValue::PublicKey(_) => 64,
        SpecValue::StructValue(fields) => items_in_fields(fields),
        _ => 0,
    }
}

/// A limb that lies in memory is the limb that the decoder reads.
pub proof fn lemma_limb_read(memory: Map<u64, Word>, address: int, limb: int)
    requires
        limb_is(memory, address, limb),
    ensures
        limb_needed(memory, address) == Ok::<u64, SpecDecodeError>(limb as u64),
        0 <= limb <= u64::MAX,
{
}

/// Bytes that lie behind a pointer are the bytes that the decoder reads there.
pub proof fn lemma_bytes_read(memory: Map<u64, Word>, pointer: int, bytes: Seq<u8>, count: nat)
    requires
        bytes_laid_out(memory, pointer, bytes),
        count <= bytes.len(),
    ensures
        payload_bytes(memory, pointer, count) == Ok::<Seq<u8>, SpecDecodeError>(
            bytes.take(count as int),
        ),
    decreases count,
{
    if count == 0 {
        assert(bytes.take(0) =~= Seq::<u8>::empty());
    } else {
        lemma_bytes_read(memory, pointer, bytes, (count - 1) as nat);
        let byte = bytes[count - 1];
        assert(limb_is(memory, pointer + (count - 1), byte as int));
        let limb = memory[(pointer + count - 1) as u64][0];
        assert(limb == byte);
        assert((limb % 256) as u8 == byte);
        assert(bytes.take(count as int) =~= bytes.take(count - 1).push(byte));
    }
}

/// A payload that lies in memory is the payload that the decoder reads.
pub proof fn lemma_payload_read(memory: Map<u64, Word>, address: int, bytes: Seq<u8>, budget: nat)
    requires
        payload_laid_out(memory, address, bytes),
        bytes.len() <= budget,
    ensures
        payload_at(memory, address, budget) == Ok::<(Seq<u8>, nat), SpecDecodeError>(
            (bytes, (budget - bytes.len()) as nat),
        ),
{
    lemma_limb_read(memory, address, bytes.len() as int);
    lemma_limb_read(memory, address + 1, limb_of(memory, address + 1));
    lemma_bytes_read(memory, limb_of(memory, address + 1), bytes, bytes.len());
    assert(bytes.take(bytes.len() as int) =~= bytes);
}

/// A public key that lies in memory is the key that the decoder reads.
pub proof fn lemma_key_read(memory: Map<u64, Word>, address: int, key: SpecKey, budget: nat)
    requires
        key_laid_out(memory, address, key),
        64 <= budget,
    ensures
        key_at(memory, address, budget) == Ok::<(SpecKey, nat), SpecDecodeError>(
            (key, (budget - 64) as nat),
        ),
{
    lemma_limb_read(memory, address, key.kty.spec_code() as int);
    lemma_limb_read(memory, address + 1, key.crv.spec_code() as int);
    lemma_limb_read(memory, address + 2, key.alg.spec_code() as int);
    lemma_limb_read(memory, address + 3, key.use_.spec_code() as int);
    lemma_limb_read(memory, address + 4, limb_of(memory, address + 4));
    let bytes = key.x + key.y;
    lemma_bytes_read(memory, limb_of(memory, address + 4), bytes, 64);
    assert(bytes.take(64) =~= bytes);
    assert(bytes.subrange(0, 32) =~= key.x);
    assert(bytes.subrange(32, 64) =~= key.y);
    key.kty.lemma_code_and_name_round_trip();
    key.crv.lemma_code_and_name_round_trip();
    key.alg.lemma_code_and_name_round_trip();
    key.use_.lemma_code_and_name_round_trip();
    let parts = key_of_parts(
        key.kty.spec_code() as u64,
        key.crv.spec_code() as u64,
        key.alg.spec_code() as u64,
        key.use_.spec_code() as u64,
        bytes,
    );
    assert(parts == Ok::<SpecKey, crate::decode::DecodeErrorKind>(key));
}

/// A word that holds a primitive value by the layout rules decodes to it.
pub proof fn lemma_primitive_read(
    kind: PrimitiveType,
    memory: Map<u64, Word>,
    address: int,
    v: SpecValue,
)
    requires
        primitive_laid_out(kind, memory, address, v),
    ensures
        primitive_of_word(kind, memory[address as u64]) == Ok::<
            SpecValue,
            crate::decode::DecodeErrorKind,
        >(v),
{
    let word = memory[address as u64];
    match (kind, v) {
        (PrimitiveType::UInt64, SpecValue::UInt64(x)) => {
            let high: u64 = word[0];
            let low: u64 = word[1];
            assert((high << 32) | low == x) by (bit_vector)
                requires
                    high == x / 0x1_0000_0000,
                    low == x % 0x1_0000_0000,
            ;
        },
        (PrimitiveType::Float32, SpecValue::Float32(bits)) => {
            assert((word[0] % 0x1_0000_0000) as u32 == bits);
        },
        _ => {},
    }
}

/// Fewer values never ask for more items.
pub proof fn lemma_items_in_all_grows(items: Seq<SpecValue>, n: int)
    requires
        0 <= n <= items.len(),
    ensures
        items_in_all(items.take(n)) <= items_in_all(items),
    decreases items.len(),
{
    if n < items.len() {
        lemma_items_in_all_grows(items.drop_last(), n);
        assert(items.drop_last().take(n) =~= items.take(n));
    } else {
        assert(items.take(n) =~= items);
    }
}

/// Fewer entries never ask for more items.
pub proof fn lemma_items_in_entries_grows(entries: Seq<(SpecValue, SpecValue)>, n: int)
    requires
        0 <= n <= entries.len(),
    ensures
        items_in_entries(entries.take(n)) <= items_in_entries(entries),
    decreases entries.len(),
{
    if n < entries.len() {
        lemma_items_in_entries_grows(entries.drop_last(), n);
        assert(entries.drop_last().take(n) =~= entries.take(n));
    } else {
        assert(entries.take(n) =~= entries);
    }
}

/// The fields of a record that lie in memory are the fields that the decoder reads.
pub proof fn lemma_fields_read(
    fields: Seq<(String, Type)>,
    memory: Map<u64, Word>,
    address: int,
    values: Seq<(Seq<char>, SpecValue)>,
    budget: nat,
)
    requires
        fields_laid_out(fields, memory, address, values),
        items_in_fields(values) <= budget,
    ensures
        fields_at(fields, memory, address, budget) == Ok::<
            (Seq<(Seq<char>, SpecValue)>, nat),
            SpecDecodeError,
        >((values, (budget - items_in_fields(values)) as nat)),
    decreases fields, 0nat, 0nat,
{
    if fields.len() == 0 {
        assert(values =~= Seq::empty());
    } else {
        lemma_fields_read(fields.drop_last(), memory, address, values.drop_last(), budget);
        let left = (budget - items_in_fields(values.drop_last())) as nat;
        lemma_value_read(
            fields.last().1,
            memory,
            address + fields_width(fields.drop_last()),
            values.last().1,
            left,
        );
        assert(values.drop_last().push((fields.last().0@, values.last().1)) =~= values);
    }
}

/// The first `count` elements of an array that lies in memory are the
/// elements that the decoder reads.
pub proof fn lemma_elements_read(
    ty: Type,
    memory: Map<u64, Word>,
    pointer: int,
    items: Seq<SpecValue>,
    budget: nat,
    count: nat,
)
    requires
        ty is Array,
        forall|i: int|
            0 <= i < items.len() ==> laid_out(
                *ty->Array_0,
                memory,
                pointer + i * type_width(*ty->Array_0),
                #[trigger] items[i],
            ),
        count <= items.len(),
        items_in_all(items) <= budget,
    ensures
        items_in_all(items.take(count as int)) <= budget,
        elements_at(ty, memory, pointer, count, budget) == Ok::<
            (Seq<SpecValue>, nat),
            SpecDecodeError,
        >((items.take(count as int), (budget - items_in_all(items.take(count as int))) as nat)),
    decreases ty, 0nat, count,
{
    lemma_items_in_all_grows(items, count as int);
    if count == 0 {
        assert(items.take(0) =~= Seq::<SpecValue>::empty());
    } else {
        lemma_elements_read(ty, memory, pointer, items, budget, (count - 1) as nat);
        let done = items.take(count - 1);
        let left = (budget - items_in_all(done)) as nat;
        assert(items.take(count as int).drop_last() =~= done);
        assert(items.take(count as int).last() == items[count - 1]);
        lemma_value_read(
            *ty->Array_0,
            memory,
            pointer + (count - 1) * type_width(*ty->Array_0),
            items[count - 1],
            left,
        );
        assert(done.push(items[count - 1]) =~= items.take(count as int));
    }
}

/// The first `count` entries of a map that lies in memory are the entries
/// that the decoder reads.
pub proof fn lemma_entries_read(
    ty: Type,
    memory: Map<u64, Word>,
    keys: int,
    values: int,
    entries: Seq<(SpecValue, SpecValue)>,
    budget: nat,
    count: nat,
)
    requires
        ty is Mapping,
        forall|i: int|
            0 <= i < entries.len() ==> {
                &&& laid_out(
                    *ty->Mapping_0,
                    memory,
                    keys + i * type_width(*ty->Mapping_0),
                    (#[trigger] entries[i]).0,
                )
                &&& laid_out(
                    *ty->Mapping_1,
                    memory,
                    values + i * type_width(*ty->Mapping_1),
                    entries[i].1,
                )
            },
        count <= entries.len(),
        items_in_entries(entries) <= budget,
    ensures
        items_in_entries(entries.take(count as int)) <= budget,
        entries_at(ty, memory, keys, values, count, budget) == Ok::<
            (Seq<(SpecValue, SpecValue)>, nat),
            SpecDecodeError,
        >(
            (
                entries.take(count as int),
                (budget - items_in_entries(entries.take(count as int))) as nat,
            ),
        ),
    decreases ty, 0nat, count,
{
    lemma_items_in_entries_grows(entries, count as int);
    if count == 0 {
        assert(entries.take(0) =~= Seq::<(SpecValue, SpecValue)>::empty());
    } else {
        lemma_entries_read(ty, memory, keys, values, entries, budget, (count - 1) as nat);
        let done = entries.take(count - 1);
        let left = (budget - items_in_entries(done)) as nat;
        let entry = entries[count - 1];
        assert(entries.take(count as int).drop_last() =~= done);
        assert(entries.take(count as int).last() == entry);
        lemma_value_read(
            *ty->Mapping_0,
            memory,
            keys + (count - 1) * type_width(*ty->Mapping_0),
            entry.0,
            left,
        );
        lemma_value_read(
            *ty->Mapping_1,
            memory,
            values + (count - 1) * type_width(*ty->Mapping_1),
            entry.1,
            (left - items_in(entry.0)) as nat,
        );
        assert(done.push((entry.0, entry.1)) =~= entries.take(count as int));
    }
}

/// A value that lies in memory is the value that the decoder reads, and
/// reading it uses up `items_in` of the budget.
pub proof fn lemma_value_read(
    ty: Type,
    memory: Map<u64, Word>,
    address: int,
    v: SpecValue,
    budget: nat,
)
    requires
        laid_out(ty, memory, address, v),
        items_in(v) <= budget,
    ensures
        value_at(ty, memory, address, budget) == Ok::<(SpecValue, nat), SpecDecodeError>(
            (v, (budget - items_in(v)) as nat),
        ),
    decreases ty, 1nat, 0nat,
{
    match (ty, v) {
        (Type::Nullable(_), SpecValue::Nullable(None)) => {
            lemma_limb_read(memory, address, 0);
        },
        (Type::Nullable(inner), SpecValue::Nullable(Some(present))) => {
            lemma_limb_read(memory, address, limb_of(memory, address));
            lemma_value_read(*inner, memory, address + 1, *present, budget);
        },
        (Type::PrimitiveType(kind), _) => {
            lemma_primitive_read(kind, memory, address, v);
        },
        (Type::Struct(s), SpecValue::StructValue(values)) => {
            lemma_fields_read(s.fields@, memory, address, values, budget);
        },
        (Type::Hash, SpecValue::Hash(_)) => {},
        (Type::String, SpecValue::String(s)) => {
            lemma_payload_read(memory, address, encode_utf8(s), budget);
            encode_utf8_valid_utf8(s);
            encode_utf8_decode_utf8(s);
        },
        (Type::Bytes, SpecValue::Bytes(bytes)) => {
            lemma_payload_read(memory, address, bytes, budget);
        },
        (Type::CollectionReference { .. }, SpecValue::CollectionReference(bytes)) => {
            lemma_payload_read(memory, address, bytes, budget);
        },
        (Type::Array(_), SpecValue::Array(items)) => {
            lemma_limb_read(memory, address + 1, items.len() as int);
            lemma_limb_read(memory, address + 2, limb_of(memory, address + 2));
            let left = (budget - items.len()) as nat;
            lemma_elements_read(
                ty,
                memory,
                limb_of(memory, address + 2),
                items,
                left,
                items.len(),
            );
            assert(items.take(items.len() as int) =~= items);
        },
        (Type::Mapping(_, _), SpecValue::Mapping(entries)) => {
            lemma_limb_read(memory, address + 1, entries.len() as int);
            lemma_limb_read(memory, address + 2, limb_of(memory, address + 2));
            lemma_limb_read(memory, address + 5, limb_of(memory, address + 5));
            let left = (budget - entries.len()) as nat;
            lemma_entries_read(
                ty,
                memory,
                limb_of(memory, address + 2),
                limb_of(memory, address + 5),
                entries,
                left,
                entries.len(),
            );
            assert(entries.take(entries.len() as int) =~= entries);
        },
        (Type::PublicKey, SpecValue::PublicKey(key)) => {
            lemma_key_read(memory, address, key, budget);
        },
        _ => {},
    }
}

/// Round trip through memory: where the value `v` of type `ty` lies at
/// `address` by the layout rules, and the budget covers the items in it,
/// decoding type `ty` at `address` returns `v`.
pub proof fn lemma_decoding_returns_what_lies_in_memory(
    ty: Type,
    memory: Map<u64, Word>,
    address: u64,
    v: SpecValue,
    budget: u64,
)
    requires
        laid_out(ty, memory, address as int, v),
        items_in(v) <= budget,
    ensures
        decoding(ty, memory, address, budget) == Ok::<SpecValue, SpecDecodeError>(v),
{
    lemma_value_read(ty, memory, address as int, v, budget as nat);
}

} // verus!
