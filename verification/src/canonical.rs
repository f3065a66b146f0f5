//! The canonical encoding: a value as a flat, pointer-free sequence of limbs.

use vstd::prelude::*;
use vstd::utf8::encode_utf8;
use crate::publickey::SpecKey;
use crate::value::{
    entry_models_of, field_models_of, lemma_entry_models_of, lemma_field_models_of,
    lemma_models_of, models_of, SpecValue, Value,
};

verus! {

/// Each byte as one limb.
pub open spec fn limbs_of_bytes(bytes: Seq<u8>) -> Seq<u64> {
    Seq::new(bytes.len(), |i: int| bytes[i] as u64)
}

/// The limb of a signed number: the number itself, or 2^64 more where it is negative.
pub open spec fn limb_of_int32(x: i32) -> u64 {
    if x >= 0 {
        x as u64
    } else {
        (x + 0x1_0000_0000_0000_0000) as u64
    }
}

/// A length followed by that many bytes, one limb each.
pub open spec fn limbs_of_payload(bytes: Seq<u8>) -> Seq<u64> {
    seq![bytes.len() as u64] + limbs_of_bytes(bytes)
}

/// The four header numbers of a key, then its x and its y bytes.
pub open spec fn limbs_of_key(key: SpecKey) -> Seq<u64> {
    seq![
        key.kty.spec_code() as u64,
        key.crv.spec_code() as u64,
        key.alg.spec_code() as u64,
        key.use_.spec_code() as u64,
    ] + limbs_of_bytes(key.x) + limbs_of_bytes(key.y)
}

/// The encodings of `items`, one after another.
pub open spec fn limbs_of_all(items: Seq<SpecValue>) -> Seq<u64>
    decreases items,
{
    if items.len() == 0 {
        Seq::empty()
    } else {
        limbs_of_all(items.drop_last()) + canonical_limbs(items.last())
    }
}

/// The encodings of the keys of `entries`, one after another.
pub open spec fn limbs_of_keys(entries: Seq<(SpecValue, SpecValue)>) -> Seq<u64>
    decreases entries,
{
    if entries.len() == 0 {
        Seq::empty()
    } else {
        limbs_of_keys(entries.drop_last()) + canonical_limbs(entries.last().0)
    }
}

/// The encodings of the values of `entries`, one after another.
pub open spec fn limbs_of_values(entries: Seq<(SpecValue, SpecValue)>) -> Seq<u64>
    decreases entries,
{
    if entries.len() == 0 {
        Seq::empty()
    } else {
        limbs_of_values(entries.drop_last()) + canonical_limbs(entries.last().1)
    }
}

/// The encodings of the values of `fields`, one after another, without framing.
pub open spec fn limbs_of_fields(fields: Seq<(Seq<char>, SpecValue)>) -> Seq<u64>
    decreases fields,
{
    if fields.len() == 0 {
        Seq::empty()
    } else {
        limbs_of_fields(fields.drop_last()) + canonical_limbs(fields.last().1)
    }
}

/// The canonical encoding of a value.
pub open spec fn canonical_limbs(v: SpecValue) -> Seq<u64>
    decreases v,
{
    match v {
        SpecValue::Nullable(None) => seq![0u64],
        SpecValue::Nullable(Some(inner)) => seq![1u64] + canonical_limbs(*inner),
        SpecValue::Boolean(b) => seq![if b { 1u64 } else { 0u64 }],
        SpecValue::UInt32(x) => seq![x as u64],
        SpecValue::UInt64(x) => seq![x / 0x1_0000_0000, x % 0x1_0000_0000],
        SpecValue::Float32(bits) => seq![bits as u64],
        SpecValue::Hash(limbs) => limbs,
        SpecValue::Int32(x) => seq![limb_of_int32(x)],
        SpecValue::String(s) => limbs_of_payload(encode_utf8(s)),
        SpecValue::Bytes(b) => limbs_of_payload(b),
        SpecValue::CollectionReference(b) => limbs_of_payload(b),
        SpecValue::Array(items) => seq![items.len() as u64] + limbs_of_all(items),
        SpecValue::Mapping(entries) => seq![entries.len() as u64] + limbs_of_keys(entries)
            + seq![entries.len() as u64] + limbs_of_values(entries),
        SpecValue::PublicKey(key) => limbs_of_key(key),
        SpecValue::StructValue(fields) => limbs_of_fields(fields),
    }
}

/// One more item adds its encoding at the end.
pub proof fn lemma_limbs_of_all_step(items: Seq<SpecValue>, n: int)
    requires
        0 <= n < items.len(),
    ensures
        limbs_of_all(items.take(n + 1)) == limbs_of_all(items.take(n)) + canonical_limbs(items[n]),
{
    assert(items.take(n + 1).drop_last() =~= items.take(n));
}

/// One more entry adds the encoding of its key at the end.
pub proof fn lemma_limbs_of_keys_step(entries: Seq<(SpecValue, SpecValue)>, n: int)
    requires
        0 <= n < entries.len(),
    ensures
        limbs_of_keys(entries.take(n + 1)) == limbs_of_keys(entries.take(n)) + canonical_limbs(
            entries[n].0,
        ),
{
    assert(entries.take(n + 1).drop_last() =~= entries.take(n));
}

/// One more entry adds the encoding of its value at the end.
pub proof fn lemma_limbs_of_values_step(entries: Seq<(SpecValue, SpecValue)>, n: int)
    requires
        0 <= n < entries.len(),
    ensures
        limbs_of_values(entries.take(n + 1)) == limbs_of_values(entries.take(n)) + canonical_limbs(
            entries[n].1,
        ),
{
    assert(entries.take(n + 1).drop_last() =~= entries.take(n));
}

/// One more field adds the encoding of its value at the end.
pub proof fn lemma_limbs_of_fields_step(fields: Seq<(Seq<char>, SpecValue)>, n: int)
    requires
        0 <= n < fields.len(),
    ensures
        limbs_of_fields(fields.take(n + 1)) == limbs_of_fields(fields.take(n)) + canonical_limbs(
            fields[n].1,
        ),
{
    assert(fields.take(n + 1).drop_last() =~= fields.take(n));
}

/// The keys of `entries`, in order.
pub open spec fn keys_of(entries: Seq<(SpecValue, SpecValue)>) -> Seq<SpecValue> {
    Seq::new(entries.len(), |i: int| entries[i].0)
}

/// The values of `entries`, in order.
pub open spec fn values_of(entries: Seq<(SpecValue, SpecValue)>) -> Seq<SpecValue> {
    Seq::new(entries.len(), |i: int| entries[i].1)
}

/// The encodings of the keys are the encodings of the list of keys, and the
/// same for the values.
pub proof fn lemma_limbs_of_keys_and_values(entries: Seq<(SpecValue, SpecValue)>)
    ensures
        limbs_of_keys(entries) == limbs_of_all(keys_of(entries)),
        limbs_of_values(entries) == limbs_of_all(values_of(entries)),
    decreases entries.len(),
{
    if entries.len() > 0 {
        lemma_limbs_of_keys_and_values(entries.drop_last());
        assert(keys_of(entries).drop_last() =~= keys_of(entries.drop_last()));
        assert(values_of(entries).drop_last() =~= values_of(entries.drop_last()));
    }
}

/// A map is encoded as two arrays back to back: the array of its keys, then
/// the array of its values. What reads an array off the tape reads each half.
pub proof fn lemma_map_is_two_arrays(entries: Seq<(SpecValue, SpecValue)>)
    ensures
        canonical_limbs(SpecValue::Mapping(entries)) == canonical_limbs(
            SpecValue::Array(keys_of(entries)),
        ) + canonical_limbs(SpecValue::Array(values_of(entries))),
{
    lemma_limbs_of_keys_and_values(entries);
    assert(canonical_limbs(SpecValue::Mapping(entries)) =~= canonical_limbs(
        SpecValue::Array(keys_of(entries)),
    ) + canonical_limbs(SpecValue::Array(values_of(entries))));
}

/// Appends each byte of `bytes` to `out` as one limb.
fn push_bytes(out: &mut Vec<u64>, bytes: &[u8])
    ensures
        final(out)@ == old(out)@ + limbs_of_bytes(bytes@),
{
    let mut i: usize = 0;
    while i < bytes.len()
        invariant
            i <= bytes.len(),
            out@ == old(out)@ + limbs_of_bytes(bytes@.take(i as int)),
        decreases bytes.len() - i,
    {
        out.push(bytes[i] as u64);
        assert(limbs_of_bytes(bytes@.take(i + 1)) =~= limbs_of_bytes(bytes@.take(i as int)).push(
            bytes@[i as int] as u64,
        ));
        i += 1;
    }
    assert(bytes@.take(i as int) =~= bytes@);
}

/// Appends the length of `bytes`, then each byte as one limb.
fn push_payload(out: &mut Vec<u64>, bytes: &[u8])
    ensures
        final(out)@ == old(out)@ + limbs_of_payload(bytes@),
{
    out.push(bytes.len() as u64);
    push_bytes(out, bytes);
}

/// Appends the canonical encoding of `v` to `out`.
fn serialize_into(v: &Value, out: &mut Vec<u64>)
    ensures
        final(out)@ == old(out)@ + canonical_limbs(v@),
    decreases v,
{
    match v {
        Value::Nullable(None) => {
            out.push(0);
            assert(out@ =~= old(out)@ + canonical_limbs(v@));
        },
        Value::Nullable(Some(inner)) => {
            out.push(1);
            serialize_into(inner, out);
            assert(out@ =~= old(out)@ + canonical_limbs(v@));
        },
        Value::Boolean(b) => {
            out.push(if *b { 1 } else { 0 });
            assert(out@ =~= old(out)@ + canonical_limbs(v@));
        },
        Value::UInt32(x) => {
            out.push(*x as u64);
            assert(out@ =~= old(out)@ + canonical_limbs(v@));
        },
        Value::UInt64(x) => {
            let x: u64 = *x;
            assert(x >> 32 == x / 0x1_0000_0000) by (bit_vector);
            assert(x & 0xffff_ffff == x % 0x1_0000_0000) by (bit_vector);
            out.push(x >> 32);
            out.push(x & 0xffff_ffff);
            assert(out@ =~= old(out)@ + canonical_limbs(v@));
        },
        Value::Float32(bits) => {
            out.push(*bits as u64);
            assert(out@ =~= old(out)@ + canonical_limbs(v@));
        },
        Value::Hash(limbs) => {
            let mut i: usize = 0;
            while i < 4
                invariant
                    i <= 4,
                    out@ == old(out)@ + limbs@.take(i as int),
                decreases 4 - i,
            {
                out.push(limbs[i]);
                assert(limbs@.take(i + 1) =~= limbs@.take(i as int).push(limbs@[i as int]));
                i += 1;
            }
            assert(limbs@.take(4) =~= limbs@);
            assert(out@ =~= old(out)@ + canonical_limbs(v@));
        },
        Value::Int32(x) => {
            let x: i32 = *x;
            assert(x < 0 ==> #[verifier::truncate] (x as u64) == (x + 0x1_0000_0000_0000_0000) as u64) by (bit_vector);
            out.push(#[verifier::truncate] (x as u64));
            assert(out@ =~= old(out)@ + canonical_limbs(v@));
        },
        Value::String(s) => {
            push_payload(out, s.as_str().as_bytes());
            assert(out@ =~= old(out)@ + canonical_limbs(v@));
        },
        Value::Bytes(b) => {
            push_payload(out, b.as_slice());
            assert(out@ =~= old(out)@ + canonical_limbs(v@));
        },
        Value::CollectionReference(b) => {
            push_payload(out, b.as_slice());
            assert(out@ =~= old(out)@ + canonical_limbs(v@));
        },
        Value::Array(items) => {
            out.push(items.len() as u64);
            serialize_all_into(items, out);
            proof {
                lemma_models_of(items@);
            }
            assert(out@ =~= old(out)@ + canonical_limbs(v@));
        },
        Value::Mapping(entries) => {
            out.push(entries.len() as u64);
            serialize_keys_into(entries, out);
            out.push(entries.len() as u64);
            serialize_values_into(entries, out);
            proof {
                lemma_entry_models_of(entries@);
            }
            assert(out@ =~= old(out)@ + canonical_limbs(v@));
        },
        Value::PublicKey(key) => {
            out.push(key.kty.code() as u64);
            out.push(key.crv.code() as u64);
            out.push(key.alg.code() as u64);
            out.push(key.use_.code() as u64);
            push_bytes(out, key.x.as_slice());
            push_bytes(out, key.y.as_slice());
            assert(out@ =~= old(out)@ + canonical_limbs(v@));
        },
        Value::StructValue(fields) => {
            serialize_fields_into(fields, out);
            assert(out@ =~= old(out)@ + canonical_limbs(v@));
        },
    }
}

/// Appends the encodings of `items`, one after another.
fn serialize_all_into(items: &Vec<Value>, out: &mut Vec<u64>)
    ensures
        final(out)@ == old(out)@ + limbs_of_all(models_of(items@)),
    decreases items,
{
    let ghost models = models_of(items@);
    proof {
        lemma_models_of(items@);
    }
    let mut i: usize = 0;
    while i < items.len()
        invariant
            i <= items.len(),
            models.len() == items.len(),
            forall|j: int| 0 <= j < items.len() ==> #[trigger] models[j] == items@[j]@,
            out@ == old(out)@ + limbs_of_all(models.take(i as int)),
        decreases items.len() - i,
    {
        proof {
            vstd::std_specs::vec::axiom_vec_index_decreases(*items, i as int);
            lemma_limbs_of_all_step(models, i as int);
        }
        serialize_into(&items[i], out);
        i += 1;
    }
    assert(models.take(i as int) =~= models);
}

/// Appends the encodings of the keys of `entries`, one after another.
fn serialize_keys_into(entries: &Vec<(Value, Value)>, out: &mut Vec<u64>)
    ensures
        final(out)@ == old(out)@ + limbs_of_keys(entry_models_of(entries@)),
    decreases entries,
{
    let ghost models = entry_models_of(entries@);
    proof {
        lemma_entry_models_of(entries@);
    }
    let mut i: usize = 0;
    while i < entries.len()
        invariant
            i <= entries.len(),
            models.len() == entries.len(),
            forall|j: int|
                0 <= j < entries.len() ==> #[trigger] models[j] == (entries@[j].0@, entries@[j].1@),
            out@ == old(out)@ + limbs_of_keys(models.take(i as int)),
        decreases entries.len() - i,
    {
        proof {
            vstd::std_specs::vec::axiom_vec_index_decreases(*entries, i as int);
            lemma_limbs_of_keys_step(models, i as int);
        }
        serialize_into(&entries[i].0, out);
        i += 1;
    }
    assert(models.take(i as int) =~= models);
}

/// Appends the encodings of the values of `entries`, one after another.
fn serialize_values_into(entries: &Vec<(Value, Value)>, out: &mut Vec<u64>)
    ensures
        final(out)@ == old(out)@ + limbs_of_values(entry_models_of(entries@)),
    decreases entries,
{
    let ghost models = entry_models_of(entries@);
    proof {
        lemma_entry_models_of(entries@);
    }
    let mut i: usize = 0;
    while i < entries.len()
        invariant
            i <= entries.len(),
            models.len() == entries.len(),
            forall|j: int|
                0 <= j < entries.len() ==> #[trigger] models[j] == (entries@[j].0@, entries@[j].1@),
            out@ == old(out)@ + limbs_of_values(models.take(i as int)),
        decreases entries.len() - i,
    {
        proof {
            vstd::std_specs::vec::axiom_vec_index_decreases(*entries, i as int);
            lemma_limbs_of_values_step(models, i as int);
        }
        serialize_into(&entries[i].1, out);
        i += 1;
    }
    assert(models.take(i as int) =~= models);
}

/// Appends the encodings of the values of `fields`, one after another.
fn serialize_fields_into(fields: &Vec<(String, Value)>, out: &mut Vec<u64>)
    ensures
        final(out)@ == old(out)@ + limbs_of_fields(field_models_of(fields@)),
    decreases fields,
{
    let ghost models = field_models_of(fields@);
    proof {
        lemma_field_models_of(fields@);
    }
    let mut i: usize = 0;
    while i < fields.len()
        invariant
            i <= fields.len(),
            models.len() == fields.len(),
            forall|j: int|
                0 <= j < fields.len() ==> #[trigger] models[j] == (fields@[j].0@, fields@[j].1@),
            out@ == old(out)@ + limbs_of_fields(models.take(i as int)),
        decreases fields.len() - i,
    {
        proof {
            vstd::std_specs::vec::axiom_vec_index_decreases(*fields, i as int);
            lemma_limbs_of_fields_step(models, i as int);
        }
        serialize_into(&fields[i].1, out);
        i += 1;
    }
    assert(models.take(i as int) =~= models);
}

impl Value {
    /// The canonical encoding of this value: the limbs that the proving engine
    /// takes as its input tape.
    pub fn serialize(&self) -> (limbs: Vec<u64>)
        ensures
            limbs@ == canonical_limbs(self@),
    {
        let mut limbs: Vec<u64> = Vec::new();
        serialize_into(self, &mut limbs);
        limbs
    }
}

} // verus!
