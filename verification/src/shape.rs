//! The shape of a value, and the law that the decoders keep it: what was
//! decoded for a type has the shape of that type, whatever the data held.

use vstd::prelude::*;
use crate::decode::{
    charged, elements_at, entries_at, fields_at, key_at, payload_at, payload_bytes, value_at,
};
use crate::memory::Word;
use crate::memory_layout::{items_in, items_in_all, items_in_entries, items_in_fields};
use crate::parse::{entries_of_text, fields_of_text, items_of_text, parsed, FloatReading};
use crate::types::{PrimitiveType, Type};
use crate::value::SpecValue;

verus! {

/// The values are those of the fields of a record: as many, under the same
/// names, each of the shape of its type.
pub open spec fn fields_have_shape(
    fields: Seq<(String, Type)>,
    values: Seq<(Seq<char>, SpecValue)>,
) -> bool
    decreases fields, 0nat,
{
    &&& fields.len() == values.len()
    &&& fields.len() > 0 ==> {
        &&& fields_have_shape(fields.drop_last(), values.drop_last())
        &&& values.last().0 == fields.last().0@
        &&& has_shape(fields.last().1, values.last().1)
    }
}

/// The value `v` has the shape that the type `ty` describes.
pub open spec fn has_shape(ty: Type, v: SpecValue) -> bool
    decreases ty, 1nat,
{
    match (ty, v) {
        (Type::Nullable(_), SpecValue::Nullable(None)) => true,
        (Type::Nullable(inner), SpecValue::Nullable(Some(present))) => has_shape(*inner, *present),
        (Type::PrimitiveType(PrimitiveType::Boolean), SpecValue::Boolean(_)) => true,
        (Type::PrimitiveType(PrimitiveType::UInt32), SpecValue::UInt32(_)) => true,
        (Type::PrimitiveType(PrimitiveType::UInt64), SpecValue::UInt64(_)) => true,
        (Type::PrimitiveType(PrimitiveType::Int32), SpecValue::Int32(_)) => true,
        (Type::PrimitiveType(PrimitiveType::Float32), SpecValue::Float32(_)) => true,
        (Type::Struct(s), SpecValue::StructValue(values)) => fields_have_shape(s.fields@, values),
        (Type::Hash, SpecValue::Hash(limbs)) => limbs.len() == 4,
        (Type::String, SpecValue::String(_)) => true,
        (Type::Bytes, SpecValue::Bytes(_)) => true,
        (Type::CollectionReference { .. }, SpecValue::CollectionReference(_)) => true,
        (Type::Array(element), SpecValue::Array(items)) => forall|i: int|
            0 <= i < items.len() ==> has_shape(*element, #[trigger] items[i]),
        (Type::Mapping(key_type, value_type), SpecValue::Mapping(entries)) => forall|i: int|
            0 <= i < entries.len() ==> {
                &&& has_shape(*key_type, (#[trigger] entries[i]).0)
                &&& has_shape(*value_type, entries[i].1)
            },
        (Type::PublicKey, SpecValue::PublicKey(key)) => key.well_formed(),
        _ => false,
    }
}

/// The bytes read behind a pointer are as many as were asked for.
pub proof fn lemma_payload_bytes_length(memory: Map<u64, Word>, pointer: int, count: nat)
    ensures
        payload_bytes(memory, pointer, count) matches Ok(bytes) ==> bytes.len() == count,
    decreases count,
{
    if count > 0 {
        lemma_payload_bytes_length(memory, pointer, (count - 1) as nat);
    }
}

/// A payload that was read used up one unit of budget for each of its bytes.
pub proof fn lemma_payload_at_budget(memory: Map<u64, Word>, address: int, budget: nat)
    ensures
        payload_at(memory, address, budget) matches Ok((bytes, left)) ==> left + bytes.len()
            == budget,
{
    match payload_at(memory, address, budget) {
        Ok((bytes, left)) => {
            let length = crate::decode::limb_needed(memory, address + 0)->Ok_0;
            let pointer = crate::decode::limb_needed(memory, address + 1)->Ok_0;
            lemma_payload_bytes_length(memory, pointer as int, length as nat);
        },
        Err(_) => {},
    }
}

/// The fields that were decoded for a record are its fields, and used up
/// the budget of the items in them.
pub proof fn lemma_decoded_fields_have_shape(
    fields: Seq<(String, Type)>,
    memory: Map<u64, Word>,
    address: int,
    budget: nat,
)
    ensures
        fields_at(fields, memory, address, budget) matches Ok((values, left)) ==> {
            &&& fields_have_shape(fields, values)
            &&& left + items_in_fields(values) == budget
        },
    decreases fields, 0nat, 0nat,
{
    if fields.len() > 0 {
        lemma_decoded_fields_have_shape(fields.drop_last(), memory, address, budget);
        match fields_at(fields.drop_last(), memory, address, budget) {
            Ok((done, left)) => {
                lemma_decoded_has_shape(
                    fields.last().1,
                    memory,
                    address + crate::types::fields_width(fields.drop_last()),
                    left,
                );
                match fields_at(fields, memory, address, budget) {
                    Ok((values, _)) => {
                        assert(values.drop_last() =~= done);
                    },
                    Err(_) => {},
                }
            },
            Err(_) => {},
        }
    }
}

/// The elements that were decoded for an array are as many as were asked
/// for, have the shape of the element type, and used up the budget of the
/// items in them.
pub proof fn lemma_decoded_elements_have_shape(
    ty: Type,
    memory: Map<u64, Word>,
    pointer: int,
    count: nat,
    budget: nat,
)
    requires
        ty is Array,
    ensures
        elements_at(ty, memory, pointer, count, budget) matches Ok((items, left)) ==> {
            &&& items.len() == count
            &&& forall|i: int| 0 <= i < items.len() ==> has_shape(*ty->Array_0, #[trigger] items[i])
            &&& left + items_in_all(items) == budget
        },
    decreases ty, 0nat, count,
{
    if count > 0 {
        lemma_decoded_elements_have_shape(ty, memory, pointer, (count - 1) as nat, budget);
        match elements_at(ty, memory, pointer, (count - 1) as nat, budget) {
            Ok((done, left)) => {
                lemma_decoded_has_shape(
                    *ty->Array_0,
                    memory,
                    pointer + (count - 1) * crate::types::type_width(*ty->Array_0),
                    left,
                );
                match elements_at(ty, memory, pointer, count, budget) {
                    Ok((items, _)) => {
                        assert(items.drop_last() =~= done);
                    },
                    Err(_) => {},
                }
            },
            Err(_) => {},
        }
    }
}

/// The entries that were decoded for a map are as many as were asked for,
/// have the shapes of the key and value types, and used up the budget of the
/// items in them.
pub proof fn lemma_decoded_entries_have_shape(
    ty: Type,
    memory: Map<u64, Word>,
    keys: int,
    values: int,
    count: nat,
    budget: nat,
)
    requires
        ty is Mapping,
    ensures
        entries_at(ty, memory, keys, values, count, budget) matches Ok((entries, left)) ==> {
            &&& entries.len() == count
            &&& forall|i: int|
                0 <= i < entries.len() ==> {
                    &&& has_shape(*ty->Mapping_0, (#[trigger] entries[i]).0)
                    &&& has_shape(*ty->Mapping_1, entries[i].1)
                }
            &&& left + items_in_entries(entries) == budget
        },
    decreases ty, 0nat, count,
{
    if count > 0 {
        lemma_decoded_entries_have_shape(ty, memory, keys, values, (count - 1) as nat, budget);
        match entries_at(ty, memory, keys, values, (count - 1) as nat, budget) {
            Ok((done, left)) => {
                let key_at = keys + (count - 1) * crate::types::type_width(*ty->Mapping_0);
                let value_at_ = values + (count - 1) * crate::types::type_width(*ty->Mapping_1);
                lemma_decoded_has_shape(*ty->Mapping_0, memory, key_at, left);
                match value_at(*ty->Mapping_0, memory, key_at, left) {
                    Ok((_, rest)) => {
                        lemma_decoded_has_shape(*ty->Mapping_1, memory, value_at_, rest);
                    },
                    Err(_) => {},
                }
                match entries_at(ty, memory, keys, values, count, budget) {
                    Ok((entries, _)) => {
                        assert(entries.drop_last() =~= done);
                    },
                    Err(_) => {},
                }
            },
            Err(_) => {},
        }
    }
}

/// Shape of what was decoded: a value decoded for the type `ty` has the
/// shape of `ty`, and decoding it used up exactly the budget of the items in it.
pub proof fn lemma_decoded_has_shape(ty: Type, memory: Map<u64, Word>, address: int, budget: nat)
    ensures
        value_at(ty, memory, address, budget) matches Ok((v, left)) ==> {
            &&& has_shape(ty, v)
            &&& left + items_in(v) == budget
        },
    decreases ty, 1nat, 0nat,
{
    if 0 <= address <= u64::MAX {
        match ty {
            Type::Nullable(inner) => {
                lemma_decoded_has_shape(*inner, memory, address + 1, budget);
            },
            Type::PrimitiveType(_) => {},
            Type::Struct(s) => {
                lemma_decoded_fields_have_shape(s.fields@, memory, address, budget);
            },
            Type::Hash => {},
            Type::String => {
                lemma_payload_at_budget(memory, address, budget);
                match payload_at(memory, address, budget) {
                    Ok((bytes, _)) => {
                        if vstd::utf8::valid_utf8(bytes) {
                            vstd::utf8::decode_utf8_encode_utf8(bytes);
                        }
                    },
                    Err(_) => {},
                }
            },
            Type::Bytes => {
                lemma_payload_at_budget(memory, address, budget);
            },
            Type::CollectionReference { .. } => {
                lemma_payload_at_budget(memory, address, budget);
            },
            Type::Array(_) => {
                match (
                    crate::decode::limb_needed(memory, address + 1),
                    crate::decode::limb_needed(memory, address + 2),
                ) {
                    (Ok(length), Ok(pointer)) => {
                        match charged(budget, length as nat) {
                            Ok(left) => {
                                lemma_decoded_elements_have_shape(
                                    ty,
                                    memory,
                                    pointer as int,
                                    length as nat,
                                    left,
                                );
                            },
                            Err(_) => {},
                        }
                    },
                    _ => {},
                }
            },
            Type::Mapping(_, _) => {
                match (
                    crate::decode::limb_needed(memory, address + 1),
                    crate::decode::limb_needed(memory, address + 2),
                    crate::decode::limb_needed(memory, address + 5),
                ) {
                    (Ok(length), Ok(keys), Ok(values)) => {
                        match charged(budget, length as nat) {
                            Ok(left) => {
                                lemma_decoded_entries_have_shape(
                                    ty,
                                    memory,
                                    keys as int,
                                    values as int,
                                    length as nat,
                                    left,
                                );
                            },
                            Err(_) => {},
                        }
                    },
                    _ => {},
                }
            },
            Type::PublicKey => {
                match key_at(memory, address, budget) {
                    Ok((key, _)) => {
                        let pointer = crate::decode::limb_needed(memory, address + 4)->Ok_0;
                        lemma_payload_bytes_length(memory, pointer as int, 64);
                    },
                    Err(_) => {},
                }
            },
        }
    }
}

/// The fields that were read for a record are its fields.
pub proof fn lemma_parsed_fields_have_shape(
    fields: Seq<(String, Type)>,
    pieces: Seq<Seq<char>>,
    float: FloatReading,
)
    ensures
        fields_of_text(fields, pieces, float) matches Ok(values) ==> fields_have_shape(
            fields,
            values,
        ),
    decreases fields, 0nat, 0nat,
{
    if fields.len() > 0 {
        lemma_parsed_fields_have_shape(fields.drop_last(), pieces, float);
        match fields_of_text(fields.drop_last(), pieces, float) {
            Ok(done) => {
                if fields.len() <= pieces.len() {
                    lemma_parsed_has_shape(fields.last().1, pieces[fields.len() - 1], float);
                }
                match fields_of_text(fields, pieces, float) {
                    Ok(values) => {
                        assert(values.drop_last() =~= done);
                    },
                    Err(_) => {},
                }
            },
            Err(_) => {},
        }
    }
}

/// The elements that were read for an array have the shape of the element type.
pub proof fn lemma_parsed_items_have_shape(
    ty: Type,
    pieces: Seq<Seq<char>>,
    count: nat,
    float: FloatReading,
)
    requires
        ty is Array,
    ensures
        items_of_text(ty, pieces, count, float) matches Ok(items) ==> forall|i: int|
            0 <= i < items.len() ==> has_shape(*ty->Array_0, #[trigger] items[i]),
    decreases ty, 0nat, count,
{
    if count > 0 && count <= pieces.len() {
        lemma_parsed_items_have_shape(ty, pieces, (count - 1) as nat, float);
        match items_of_text(ty, pieces, (count - 1) as nat, float) {
            Ok(done) => {
                lemma_parsed_has_shape(*ty->Array_0, pieces[count - 1], float);
                match items_of_text(ty, pieces, count, float) {
                    Ok(items) => {
                        assert(items.drop_last() =~= done);
                    },
                    Err(_) => {},
                }
            },
            Err(_) => {},
        }
    }
}

/// The entries that were read for a map have the shapes of the key and value types.
pub proof fn lemma_parsed_entries_have_shape(
    ty: Type,
    pieces: Seq<Seq<char>>,
    count: nat,
    float: FloatReading,
)
    requires
        ty is Mapping,
    ensures
        entries_of_text(ty, pieces, count, float) matches Ok(entries) ==> forall|i: int|
            0 <= i < entries.len() ==> {
                &&& has_shape(*ty->Mapping_0, (#[trigger] entries[i]).0)
                &&& has_shape(*ty->Mapping_1, entries[i].1)
            },
    decreases ty, 0nat, count,
{
    if count > 0 && 2 * count - 2 < pieces.len() {
        lemma_parsed_entries_have_shape(ty, pieces, (count - 1) as nat, float);
        match entries_of_text(ty, pieces, (count - 1) as nat, float) {
            Ok(done) => {
                if 2 * count - 1 < pieces.len() {
                    lemma_parsed_has_shape(*ty->Mapping_0, pieces[2 * count - 2], float);
                    lemma_parsed_has_shape(*ty->Mapping_1, pieces[2 * count - 1], float);
                }
                match entries_of_text(ty, pieces, count, float) {
                    Ok(entries) => {
                        assert(entries.drop_last() =~= done);
                    },
                    Err(_) => {},
                }
            },
            Err(_) => {},
        }
    }
}

/// Shape of what was read: a value read for the type `ty` has the shape of `ty`.
pub proof fn lemma_parsed_has_shape(ty: Type, text: Seq<char>, float: FloatReading)
    ensures
        parsed(ty, text, float) matches Ok(v) ==> has_shape(ty, v),
    decreases ty, 1nat, 0nat,
{
    match ty {
        Type::Nullable(inner) => {
            lemma_parsed_has_shape(*inner, text, float);
        },
        Type::Struct(s) => {
            lemma_parsed_fields_have_shape(s.fields@, crate::text::split(text, ','), float);
        },
        Type::Array(_) => {
            let pieces = crate::text::split(text, ';');
            lemma_parsed_items_have_shape(ty, pieces, pieces.len(), float);
        },
        Type::Mapping(_, _) => {
            let pieces = crate::text::split(text, ';');
            lemma_parsed_entries_have_shape(ty, pieces, ((pieces.len() + 1) / 2) as nat, float);
        },
        _ => {},
    }
}

} // verus!
