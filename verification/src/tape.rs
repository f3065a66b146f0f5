//! The law that the limb tape can be read back: among the values of one
//! type, the canonical encoding tells the value, and where it ends.

use vstd::prelude::*;
use vstd::utf8::{encode_utf8, encode_utf8_decode_utf8};
use crate::canonical::{
    canonical_limbs, limb_of_int32, limbs_of_all, limbs_of_bytes, limbs_of_fields, limbs_of_key,
    limbs_of_keys, limbs_of_payload, limbs_of_values,
};
use crate::publickey::SpecKey;
use crate::shape::{fields_have_shape, has_shape};
use crate::types::{PrimitiveType, Type};
use crate::value::SpecValue;

verus! {

/// Every length inside `v` fits in a limb. This holds of every value that a
/// program holds.
pub open spec fn lengths_fit(v: SpecValue) -> bool
    decreases v,
{
    match v {
        SpecValue::Nullable(Some(present)) => lengths_fit(*present),
        SpecValue::String(s) => encode_utf8(s).len() <= u64::MAX,
        SpecValue::Bytes(bytes) => bytes.len() <= u64::MAX,
        SpecValue::CollectionReference(bytes) => bytes.len() <= u64::MAX,
        SpecValue::Array(items) => {
            &&& items.len() <= u64::MAX
            &&& forall|i: int| 0 <= i < items.len() ==> lengths_fit(#[trigger] items[i])
        },
        SpecValue::Mapping(entries) => {
            &&& entries.len() <= u64::MAX
            &&& forall|i: int|
                0 <= i < entries.len() ==> lengths_fit((#[trigger] entries[i]).0) && lengths_fit(
                    entries[i].1,
                )
        },
        SpecValue::StructValue(fields) => forall|i: int|
            0 <= i < fields.len() ==> lengths_fit((#[trigger] fields[i]).1),
        _ => true,
    }
}

/// Two sequences that agree, and whose first parts are equally long, agree
/// part by part.
pub proof fn lemma_split_alike(a: Seq<u64>, rest_a: Seq<u64>, b: Seq<u64>, rest_b: Seq<u64>)
    requires
        a + rest_a == b + rest_b,
        a.len() == b.len(),
    ensures
        a == b,
        rest_a == rest_b,
{
    let whole = a + rest_a;
    assert(whole.take(a.len() as int) =~= a);
    assert((b + rest_b).take(a.len() as int) =~= b);
    assert(whole.skip(a.len() as int) =~= rest_a);
    assert((b + rest_b).skip(a.len() as int) =~= rest_b);
}

/// Equally many bytes with the same limbs are the same bytes.
pub proof fn lemma_bytes_determined(x: Seq<u8>, rest_x: Seq<u64>, y: Seq<u8>, rest_y: Seq<u64>)
    requires
        x.len() == y.len(),
        limbs_of_bytes(x) + rest_x == limbs_of_bytes(y) + rest_y,
    ensures
        x == y,
        rest_x == rest_y,
{
    lemma_split_alike(limbs_of_bytes(x), rest_x, limbs_of_bytes(y), rest_y);
    assert forall|i: int| 0 <= i < x.len() implies x[i] == y[i] by {
        assert(limbs_of_bytes(x)[i] == limbs_of_bytes(y)[i]);
    }
    assert(x =~= y);
}

/// A length and its bytes on the tape tell the bytes.
pub proof fn lemma_payload_determined(
    x: Seq<u8>,
    rest_x: Seq<u64>,
    y: Seq<u8>,
    rest_y: Seq<u64>,
)
    requires
        x.len() <= u64::MAX,
        y.len() <= u64::MAX,
        limbs_of_payload(x) + rest_x == limbs_of_payload(y) + rest_y,
    ensures
        x == y,
        rest_x == rest_y,
{
    let left = limbs_of_payload(x) + rest_x;
    let right = limbs_of_payload(y) + rest_y;
    assert(left[0] == x.len() as u64);
    assert(right[0] == y.len() as u64);
    assert(left.skip(1) =~= limbs_of_bytes(x) + rest_x);
    assert(right.skip(1) =~= limbs_of_bytes(y) + rest_y);
    lemma_bytes_determined(x, rest_x, y, rest_y);
}

/// The limbs of a public key tell the key.
pub proof fn lemma_key_determined(x: SpecKey, rest_x: Seq<u64>, y: SpecKey, rest_y: Seq<u64>)
    requires
        x.well_formed(),
        y.well_formed(),
        limbs_of_key(x) + rest_x == limbs_of_key(y) + rest_y,
    ensures
        x == y,
        rest_x == rest_y,
{
    lemma_split_alike(limbs_of_key(x), rest_x, limbs_of_key(y), rest_y);
    let lx = limbs_of_key(x);
    let ly = limbs_of_key(y);
    assert(lx.skip(4) =~= limbs_of_bytes(x.x) + limbs_of_bytes(x.y));
    assert(ly.skip(4) =~= limbs_of_bytes(y.x) + limbs_of_bytes(y.y));
    lemma_bytes_determined(x.x, limbs_of_bytes(x.y), y.x, limbs_of_bytes(y.y));
    lemma_bytes_determined(x.y, Seq::empty(), y.y, Seq::empty());
}

/// What `fields_have_shape` says of each field.
pub proof fn lemma_fields_have_shape(
    fields: Seq<(String, Type)>,
    values: Seq<(Seq<char>, SpecValue)>,
)
    requires
        fields_have_shape(fields, values),
    ensures
        fields.len() == values.len(),
        forall|i: int|
            0 <= i < fields.len() ==> {
                &&& (#[trigger] values[i]).0 == fields[i].0@
                &&& has_shape(fields[i].1, values[i].1)
            },
    decreases fields.len(),
{
    if fields.len() > 0 {
        lemma_fields_have_shape(fields.drop_last(), values.drop_last());
        assert forall|i: int| 0 <= i < fields.len() implies {
            &&& (#[trigger] values[i]).0 == fields[i].0@
            &&& has_shape(fields[i].1, values[i].1)
        } by {
            if i < fields.len() - 1 {
                assert(values.drop_last()[i] == values[i]);
                assert(fields.drop_last()[i] == fields[i]);
            }
        }
    }
}

/// The limbs of the fields of a record tell the fields.
pub proof fn lemma_fields_determined(
    fields: Seq<(String, Type)>,
    x: Seq<(Seq<char>, SpecValue)>,
    rest_x: Seq<u64>,
    y: Seq<(Seq<char>, SpecValue)>,
    rest_y: Seq<u64>,
)
    requires
        fields_have_shape(fields, x),
        fields_have_shape(fields, y),
        forall|i: int| 0 <= i < x.len() ==> lengths_fit((#[trigger] x[i]).1),
        forall|i: int| 0 <= i < y.len() ==> lengths_fit((#[trigger] y[i]).1),
        limbs_of_fields(x) + rest_x == limbs_of_fields(y) + rest_y,
    ensures
        x == y,
        rest_x == rest_y,
    decreases fields, 0nat, 0nat,
{
    if fields.len() == 0 {
        assert(x =~= y);
        assert(limbs_of_fields(x) + rest_x =~= rest_x);
        assert(limbs_of_fields(y) + rest_y =~= rest_y);
    } else {
        let more_x = canonical_limbs(x.last().1) + rest_x;
        let more_y = canonical_limbs(y.last().1) + rest_y;
        assert(limbs_of_fields(x.drop_last()) + more_x =~= limbs_of_fields(x) + rest_x);
        assert(limbs_of_fields(y.drop_last()) + more_y =~= limbs_of_fields(y) + rest_y);
        assert forall|i: int| 0 <= i < x.drop_last().len() implies lengths_fit(
            (#[trigger] x.drop_last()[i]).1,
        ) by {
            assert(x.drop_last()[i] == x[i]);
        }
        assert forall|i: int| 0 <= i < y.drop_last().len() implies lengths_fit(
            (#[trigger] y.drop_last()[i]).1,
        ) by {
            assert(y.drop_last()[i] == y[i]);
        }
        lemma_fields_determined(fields.drop_last(), x.drop_last(), more_x, y.drop_last(), more_y);
        assert(lengths_fit(x[x.len() - 1].1));
        assert(lengths_fit(y[y.len() - 1].1));
        lemma_value_determined(fields.last().1, x.last().1, rest_x, y.last().1, rest_y);
        assert(x =~= x.drop_last().push(x.last()));
        assert(y =~= y.drop_last().push(y.last()));
    }
}

/// The limbs of equally many elements of an array tell the elements.
pub proof fn lemma_elements_determined(
    ty: Type,
    x: Seq<SpecValue>,
    rest_x: Seq<u64>,
    y: Seq<SpecValue>,
    rest_y: Seq<u64>,
)
    requires
        ty is Array,
        x.len() == y.len(),
        forall|i: int| 0 <= i < x.len() ==> has_shape(*ty->Array_0, #[trigger] x[i]),
        forall|i: int| 0 <= i < y.len() ==> has_shape(*ty->Array_0, #[trigger] y[i]),
        forall|i: int| 0 <= i < x.len() ==> lengths_fit(#[trigger] x[i]),
        forall|i: int| 0 <= i < y.len() ==> lengths_fit(#[trigger] y[i]),
        limbs_of_all(x) + rest_x == limbs_of_all(y) + rest_y,
    ensures
        x == y,
        rest_x == rest_y,
    decreases ty, 0nat, x.len(),
{
    if x.len() == 0 {
        assert(x =~= y);
        assert(limbs_of_all(x) + rest_x =~= rest_x);
        assert(limbs_of_all(y) + rest_y =~= rest_y);
    } else {
        let more_x = canonical_limbs(x.last()) + rest_x;
        let more_y = canonical_limbs(y.last()) + rest_y;
        assert(limbs_of_all(x.drop_last()) + more_x =~= limbs_of_all(x) + rest_x);
        assert(limbs_of_all(y.drop_last()) + more_y =~= limbs_of_all(y) + rest_y);
        assert forall|i: int| 0 <= i < x.drop_last().len() implies has_shape(
            *ty->Array_0,
            #[trigger] x.drop_last()[i],
        ) && lengths_fit(x.drop_last()[i]) by {
            assert(x.drop_last()[i] == x[i]);
        }
        assert forall|i: int| 0 <= i < y.drop_last().len() implies has_shape(
            *ty->Array_0,
            #[trigger] y.drop_last()[i],
        ) && lengths_fit(y.drop_last()[i]) by {
            assert(y.drop_last()[i] == y[i]);
        }
        lemma_elements_determined(ty, x.drop_last(), more_x, y.drop_last(), more_y);
        assert(has_shape(*ty->Array_0, x[x.len() - 1]) && lengths_fit(x[x.len() - 1]));
        assert(has_shape(*ty->Array_0, y[y.len() - 1]) && lengths_fit(y[y.len() - 1]));
        lemma_value_determined(*ty->Array_0, x.last(), rest_x, y.last(), rest_y);
        assert(x =~= x.drop_last().push(x.last()));
        assert(y =~= y.drop_last().push(y.last()));
    }
}

/// The limbs of the keys of equally many entries of a map tell the keys.
pub proof fn lemma_keys_determined(
    ty: Type,
    x: Seq<(SpecValue, SpecValue)>,
    rest_x: Seq<u64>,
    y: Seq<(SpecValue, SpecValue)>,
    rest_y: Seq<u64>,
)
    requires
        ty is Mapping,
        x.len() == y.len(),
        forall|i: int| 0 <= i < x.len() ==> has_shape(*ty->Mapping_0, (#[trigger] x[i]).0),
        forall|i: int| 0 <= i < y.len() ==> has_shape(*ty->Mapping_0, (#[trigger] y[i]).0),
        forall|i: int| 0 <= i < x.len() ==> lengths_fit((#[trigger] x[i]).0),
        forall|i: int| 0 <= i < y.len() ==> lengths_fit((#[trigger] y[i]).0),
        limbs_of_keys(x) + rest_x == limbs_of_keys(y) + rest_y,
    ensures
        forall|i: int| 0 <= i < x.len() ==> (#[trigger] x[i]).0 == y[i].0,
        rest_x == rest_y,
    decreases ty, 0nat, x.len(),
{
    if x.len() == 0 {
        assert(limbs_of_keys(x) + rest_x =~= rest_x);
        assert(limbs_of_keys(y) + rest_y =~= rest_y);
    } else {
        let more_x = canonical_limbs(x.last().0) + rest_x;
        let more_y = canonical_limbs(y.last().0) + rest_y;
        assert(limbs_of_keys(x.drop_last()) + more_x =~= limbs_of_keys(x) + rest_x);
        assert(limbs_of_keys(y.drop_last()) + more_y =~= limbs_of_keys(y) + rest_y);
        assert forall|i: int| 0 <= i < x.drop_last().len() implies has_shape(
            *ty->Mapping_0,
            (#[trigger] x.drop_last()[i]).0,
        ) && lengths_fit(x.drop_last()[i].0) by {
            assert(x.drop_last()[i] == x[i]);
        }
        assert forall|i: int| 0 <= i < y.drop_last().len() implies has_shape(
            *ty->Mapping_0,
            (#[trigger] y.drop_last()[i]).0,
        ) && lengths_fit(y.drop_last()[i].0) by {
            assert(y.drop_last()[i] == y[i]);
        }
        lemma_keys_determined(ty, x.drop_last(), more_x, y.drop_last(), more_y);
        let last = x.len() - 1;
        assert(has_shape(*ty->Mapping_0, x[last].0) && lengths_fit(x[last].0));
        assert(has_shape(*ty->Mapping_0, y[last].0) && lengths_fit(y[last].0));
        lemma_value_determined(*ty->Mapping_0, x.last().0, rest_x, y.last().0, rest_y);
        assert forall|i: int| 0 <= i < x.len() implies (#[trigger] x[i]).0 == y[i].0 by {
            if i < last {
                assert(x.drop_last()[i] == x[i]);
                assert(y.drop_last()[i] == y[i]);
            }
        }
    }
}

/// The limbs of the values of equally many entries of a map tell the values.
pub proof fn lemma_values_determined(
    ty: Type,
    x: Seq<(SpecValue, SpecValue)>,
    rest_x: Seq<u64>,
    y: Seq<(SpecValue, SpecValue)>,
    rest_y: Seq<u64>,
)
    requires
        ty is Mapping,
        x.len() == y.len(),
        forall|i: int| 0 <= i < x.len() ==> has_shape(*ty->Mapping_1, (#[trigger] x[i]).1),
        forall|i: int| 0 <= i < y.len() ==> has_shape(*ty->Mapping_1, (#[trigger] y[i]).1),
        forall|i: int| 0 <= i < x.len() ==> lengths_fit((#[trigger] x[i]).1),
        forall|i: int| 0 <= i < y.len() ==> lengths_fit((#[trigger] y[i]).1),
        limbs_of_values(x) + rest_x == limbs_of_values(y) + rest_y,
    ensures
        forall|i: int| 0 <= i < x.len() ==> (#[trigger] x[i]).1 == y[i].1,
        rest_x == rest_y,
    decreases ty, 0nat, x.len(),
{
    if x.len() == 0 {
        assert(limbs_of_values(x) + rest_x =~= rest_x);
        assert(limbs_of_values(y) + rest_y =~= rest_y);
    } else {
        let more_x = canonical_limbs(x.last().1) + rest_x;
        let more_y = canonical_limbs(y.last().1) + rest_y;
        assert(limbs_of_values(x.drop_last()) + more_x =~= limbs_of_values(x) + rest_x);
        assert(limbs_of_values(y.drop_last()) + more_y =~= limbs_of_values(y) + rest_y);
        assert forall|i: int| 0 <= i < x.drop_last().len() implies has_shape(
            *ty->Mapping_1,
            (#[trigger] x.drop_last()[i]).1,
        ) && lengths_fit(x.drop_last()[i].1) by {
            assert(x.drop_last()[i] == x[i]);
        }
        assert forall|i: int| 0 <= i < y.drop_last().len() implies has_shape(
            *ty->Mapping_1,
            (#[trigger] y.drop_last()[i]).1,
        ) && lengths_fit(y.drop_last()[i].1) by {
            assert(y.drop_last()[i] == y[i]);
        }
        lemma_values_determined(ty, x.drop_last(), more_x, y.drop_last(), more_y);
        let last = x.len() - 1;
        assert(has_shape(*ty->Mapping_1, x[last].1) && lengths_fit(x[last].1));
        assert(has_shape(*ty->Mapping_1, y[last].1) && lengths_fit(y[last].1));
        lemma_value_determined(*ty->Mapping_1, x.last().1, rest_x, y.last().1, rest_y);
        assert forall|i: int| 0 <= i < x.len() implies (#[trigger] x[i]).1 == y[i].1 by {
            if i < last {
                assert(x.drop_last()[i] == x[i]);
                assert(y.drop_last()[i] == y[i]);
            }
        }
    }
}

/// Reading the tape: where the encodings of two values of the type `ty`,
/// each followed by more limbs, are the same limbs, the values are the same,
/// and so is what follows them.
pub proof fn lemma_value_determined(
    ty: Type,
    x: SpecValue,
    rest_x: Seq<u64>,
    y: SpecValue,
    rest_y: Seq<u64>,
)
    requires
        has_shape(ty, x),
        has_shape(ty, y),
        lengths_fit(x),
        lengths_fit(y),
        canonical_limbs(x) + rest_x == canonical_limbs(y) + rest_y,
    ensures
        x == y,
        rest_x == rest_y,
    decreases ty, 1nat, 0nat,
{
    let left = canonical_limbs(x) + rest_x;
    let right = canonical_limbs(y) + rest_y;
    match (ty, x, y) {
        (Type::Nullable(_), SpecValue::Nullable(None), SpecValue::Nullable(None)) => {
            lemma_split_alike(canonical_limbs(x), rest_x, canonical_limbs(y), rest_y);
        },
        (Type::Nullable(_), SpecValue::Nullable(None), SpecValue::Nullable(Some(_))) => {
            assert(left[0] == 0 && right[0] == 1);
        },
        (Type::Nullable(_), SpecValue::Nullable(Some(_)), SpecValue::Nullable(None)) => {
            assert(left[0] == 1 && right[0] == 0);
        },
        (Type::Nullable(inner), SpecValue::Nullable(Some(px)), SpecValue::Nullable(Some(py))) => {
            assert(left.skip(1) =~= canonical_limbs(*px) + rest_x);
            assert(right.skip(1) =~= canonical_limbs(*py) + rest_y);
            lemma_value_determined(*inner, *px, rest_x, *py, rest_y);
        },
        (Type::PrimitiveType(_), SpecValue::UInt64(a), SpecValue::UInt64(b)) => {
            lemma_split_alike(canonical_limbs(x), rest_x, canonical_limbs(y), rest_y);
            assert(canonical_limbs(x)[0] == a / 0x1_0000_0000);
            assert(canonical_limbs(x)[1] == a % 0x1_0000_0000);
            assert(canonical_limbs(y)[0] == b / 0x1_0000_0000);
            assert(canonical_limbs(y)[1] == b % 0x1_0000_0000);
        },
        (Type::PrimitiveType(_), SpecValue::Int32(a), SpecValue::Int32(b)) => {
            lemma_split_alike(canonical_limbs(x), rest_x, canonical_limbs(y), rest_y);
            assert(canonical_limbs(x)[0] == limb_of_int32(a));
            assert(canonical_limbs(y)[0] == limb_of_int32(b));
        },
        (Type::PrimitiveType(_), _, _) => {
            lemma_split_alike(canonical_limbs(x), rest_x, canonical_limbs(y), rest_y);
            assert(canonical_limbs(x)[0] == canonical_limbs(y)[0]);
        },
        (Type::Struct(s), SpecValue::StructValue(fx), SpecValue::StructValue(fy)) => {
            lemma_fields_determined(s.fields@, fx, rest_x, fy, rest_y);
        },
        (Type::Hash, SpecValue::Hash(_), SpecValue::Hash(_)) => {
            lemma_split_alike(canonical_limbs(x), rest_x, canonical_limbs(y), rest_y);
        },
        (Type::String, SpecValue::String(sx), SpecValue::String(sy)) => {
            lemma_payload_determined(encode_utf8(sx), rest_x, encode_utf8(sy), rest_y);
            encode_utf8_decode_utf8(sx);
            encode_utf8_decode_utf8(sy);
        },
        (Type::Bytes, SpecValue::Bytes(bx), SpecValue::Bytes(by)) => {
            lemma_payload_determined(bx, rest_x, by, rest_y);
        },
        (
            Type::CollectionReference { .. },
            SpecValue::CollectionReference(bx),
            SpecValue::CollectionReference(by),
        ) => {
            lemma_payload_determined(bx, rest_x, by, rest_y);
        },
        (Type::Array(_), SpecValue::Array(ix), SpecValue::Array(iy)) => {
            assert(left[0] == ix.len() as u64);
            assert(right[0] == iy.len() as u64);
            assert(left.skip(1) =~= limbs_of_all(ix) + rest_x);
            assert(right.skip(1) =~= limbs_of_all(iy) + rest_y);
            lemma_elements_determined(ty, ix, rest_x, iy, rest_y);
        },
        (Type::Mapping(_, _), SpecValue::Mapping(ex), SpecValue::Mapping(ey)) => {
            assert(left[0] == ex.len() as u64);
            assert(right[0] == ey.len() as u64);
            let after_keys_x = seq![ex.len() as u64] + limbs_of_values(ex) + rest_x;
            let after_keys_y = seq![ey.len() as u64] + limbs_of_values(ey) + rest_y;
            assert(left.skip(1) =~= limbs_of_keys(ex) + after_keys_x);
            assert(right.skip(1) =~= limbs_of_keys(ey) + after_keys_y);
            lemma_keys_determined(ty, ex, after_keys_x, ey, after_keys_y);
            assert(after_keys_x.skip(1) =~= limbs_of_values(ex) + rest_x);
            assert(after_keys_y.skip(1) =~= limbs_of_values(ey) + rest_y);
            lemma_values_determined(ty, ex, rest_x, ey, rest_y);
            assert forall|i: int| 0 <= i < ex.len() implies ex[i] == ey[i] by {
                assert(ex[i].0 == ey[i].0 && ex[i].1 == ey[i].1);
            }
            assert(ex =~= ey);
        },
        (Type::PublicKey, SpecValue::PublicKey(kx), SpecValue::PublicKey(ky)) => {
            lemma_key_determined(kx, rest_x, ky, rest_y);
        },
        _ => {},
    }
}

/// Among the values of one type, the encoding tells the value.
pub proof fn lemma_encoding_tells_the_value(ty: Type, x: SpecValue, y: SpecValue)
    requires
        has_shape(ty, x),
        has_shape(ty, y),
        lengths_fit(x),
        lengths_fit(y),
        canonical_limbs(x) == canonical_limbs(y),
    ensures
        x == y,
{
    lemma_value_determined(ty, x, Seq::empty(), y, Seq::empty());
}

} // verus!
