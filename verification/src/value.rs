//! Values, and the mathematical model that the contracts of the codecs speak of.

use vstd::prelude::*;
use crate::publickey::{Key, SpecKey};

verus! {

/// One materialized value. `Float32` holds the bit pattern of the number, and
/// `Mapping` holds its entries in layout order.
#[derive(Debug, PartialEq)]
pub enum Value {
    Nullable(Option<Box<Value>>),
    Boolean(bool),
    UInt32(u32),
    UInt64(u64),
    Float32(u32),
    Hash([u64; 4]),
    Int32(i32),
    String(String),
    Bytes(Vec<u8>),
    CollectionReference(Vec<u8>),
    Array(Vec<Value>),
    Mapping(Vec<(Value, Value)>),
    PublicKey(Key),
    StructValue(Vec<(String, Value)>),
}

/// What a `Value` holds: text as characters, lists as sequences.
pub ghost enum SpecValue {
    Nullable(Option<Box<SpecValue>>),
    Boolean(bool),
    UInt32(u32),
    UInt64(u64),
    Float32(u32),
    Hash(Seq<u64>),
    Int32(i32),
    String(Seq<char>),
    Bytes(Seq<u8>),
    CollectionReference(Seq<u8>),
    Array(Seq<SpecValue>),
    Mapping(Seq<(SpecValue, SpecValue)>),
    PublicKey(SpecKey),
    StructValue(Seq<(Seq<char>, SpecValue)>),
}

/// The models of the values in `items`, in order.
pub open spec fn models_of(items: Seq<Value>) -> Seq<SpecValue>
    decreases items,
{
    if items.len() == 0 {
        Seq::empty()
    } else {
        models_of(items.drop_last()).push(model_of(items.last()))
    }
}

/// The models of the entries of a map, in order.
pub open spec fn entry_models_of(entries: Seq<(Value, Value)>) -> Seq<(SpecValue, SpecValue)>
    decreases entries,
{
    if entries.len() == 0 {
        Seq::empty()
    } else {
        entry_models_of(entries.drop_last()).push(
            (model_of(entries.last().0), model_of(entries.last().1)),
        )
    }
}

/// The models of the fields of a record, in order.
pub open spec fn field_models_of(fields: Seq<(String, Value)>) -> Seq<(Seq<char>, SpecValue)>
    decreases fields,
{
    if fields.len() == 0 {
        Seq::empty()
    } else {
        field_models_of(fields.drop_last()).push((fields.last().0@, model_of(fields.last().1)))
    }
}

/// The model of a value.
pub open spec fn model_of(v: Value) -> SpecValue
    decreases v,
{
    match v {
        Value::Nullable(None) => SpecValue::Nullable(None),
        Value::Nullable(Some(inner)) => SpecValue::Nullable(Some(Box::new(model_of(*inner)))),
        Value::Boolean(b) => SpecValue::Boolean(b),
        Value::UInt32(x) => SpecValue::UInt32(x),
        Value::UInt64(x) => SpecValue::UInt64(x),
        Value::Float32(bits) => SpecValue::Float32(bits),
        Value::Hash(limbs) => SpecValue::Hash(limbs@),
        Value::Int32(x) => SpecValue::Int32(x),
        Value::String(s) => SpecValue::String(s@),
        Value::Bytes(b) => SpecValue::Bytes(b@),
        Value::CollectionReference(b) => SpecValue::CollectionReference(b@),
        Value::Array(items) => SpecValue::Array(models_of(items@)),
        Value::Mapping(entries) => SpecValue::Mapping(entry_models_of(entries@)),
        Value::PublicKey(key) => SpecValue::PublicKey(key@),
        Value::StructValue(fields) => SpecValue::StructValue(field_models_of(fields@)),
    }
}

impl View for Value {
    type V = SpecValue;

    open spec fn view(&self) -> SpecValue {
        model_of(*self)
    }
}

/// `models_of` keeps the length and maps item by item.
pub proof fn lemma_models_of(items: Seq<Value>)
    ensures
        models_of(items).len() == items.len(),
        forall|i: int| 0 <= i < items.len() ==> #[trigger] models_of(items)[i] == model_of(items[i]),
    decreases items.len(),
{
    if items.len() > 0 {
        lemma_models_of(items.drop_last());
    }
}

/// One more item adds its model at the end.
pub proof fn lemma_models_of_push(items: Seq<Value>, item: Value)
    ensures
        models_of(items.push(item)) == models_of(items).push(model_of(item)),
{
    assert(items.push(item).drop_last() =~= items);
}

/// `entry_models_of` keeps the length and maps entry by entry.
pub proof fn lemma_entry_models_of(entries: Seq<(Value, Value)>)
    ensures
        entry_models_of(entries).len() == entries.len(),
        forall|i: int|
            0 <= i < entries.len() ==> #[trigger] entry_models_of(entries)[i] == (
                model_of(entries[i].0),
                model_of(entries[i].1),
            ),
    decreases entries.len(),
{
    if entries.len() > 0 {
        lemma_entry_models_of(entries.drop_last());
    }
}

/// One more entry adds its model at the end.
pub proof fn lemma_entry_models_of_push(entries: Seq<(Value, Value)>, entry: (Value, Value))
    ensures
        entry_models_of(entries.push(entry)) == entry_models_of(entries).push(
            (model_of(entry.0), model_of(entry.1)),
        ),
{
    assert(entries.push(entry).drop_last() =~= entries);
}

/// `field_models_of` keeps the length and maps field by field.
pub proof fn lemma_field_models_of(fields: Seq<(String, Value)>)
    ensures
        field_models_of(fields).len() == fields.len(),
        forall|i: int|
            0 <= i < fields.len() ==> #[trigger] field_models_of(fields)[i] == (
                fields[i].0@,
                model_of(fields[i].1),
            ),
    decreases fields.len(),
{
    if fields.len() > 0 {
        lemma_field_models_of(fields.drop_last());
    }
}

/// One more field adds its model at the end.
pub proof fn lemma_field_models_of_push(fields: Seq<(String, Value)>, field: (String, Value))
    ensures
        field_models_of(fields.push(field)) == field_models_of(fields).push(
            (field.0@, model_of(field.1)),
        ),
{
    assert(fields.push(field).drop_last() =~= fields);
}

} // verus!
