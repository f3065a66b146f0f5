use polylang::publickey::{Alg, Crv, Key, Kty, Use};
use polylang::value::Value;

fn sample_key() -> Key {
    let mut x = [0u8; 32];
    let mut y = [0u8; 32];
    for i in 0..32 {
        x[i] = i as u8;
        y[i] = 100 + i as u8;
    }
    Key { kty: Kty::EC, crv: Crv::Secp256k1, alg: Alg::ES256K, use_: Use::Sig, x, y }
}

#[test]
fn serialize_absent_nullable_is_a_single_zero() {
    assert_eq!(Value::Nullable(None).serialize(), vec![0]);
}

#[test]
fn serialize_present_nullable_is_one_then_the_value() {
    let v = Value::Nullable(Some(Box::new(Value::UInt32(7))));
    assert_eq!(v.serialize(), vec![1, 7]);
}

#[test]
fn serialize_booleans() {
    assert_eq!(Value::Boolean(false).serialize(), vec![0]);
    assert_eq!(Value::Boolean(true).serialize(), vec![1]);
}

#[test]
fn serialize_uint32() {
    assert_eq!(Value::UInt32(4294967295).serialize(), vec![4294967295]);
}

#[test]
fn serialize_uint64_is_high_then_low() {
    assert_eq!(Value::UInt64(4294967296).serialize(), vec![1, 0]);
    assert_eq!(Value::UInt64(0x1234_5678_9abc_def0).serialize(), vec![0x1234_5678, 0x9abc_def0]);
    assert_eq!(Value::UInt64(u64::MAX).serialize(), vec![0xffff_ffff, 0xffff_ffff]);
}

#[test]
fn serialize_int32_extends_the_sign() {
    assert_eq!(Value::Int32(5).serialize(), vec![5]);
    assert_eq!(Value::Int32(-1).serialize(), vec![u64::MAX]);
    assert_eq!(Value::Int32(i32::MIN).serialize(), vec![0xffff_ffff_8000_0000]);
}

#[test]
fn serialize_float32_is_its_bit_pattern() {
    assert_eq!(Value::Float32(1.5f32.to_bits()).serialize(), vec![0x3fc0_0000]);
}

#[test]
fn serialize_hash_is_its_four_limbs() {
    assert_eq!(Value::Hash([1, 2, 3, u64::MAX]).serialize(), vec![1, 2, 3, u64::MAX]);
}

#[test]
fn serialize_string_is_byte_length_then_bytes() {
    assert_eq!(Value::String("ab".to_string()).serialize(), vec![2, 97, 98]);
    assert_eq!(Value::String("é".to_string()).serialize(), vec![2, 0xc3, 0xa9]);
    assert_eq!(Value::String(String::new()).serialize(), vec![0]);
}

#[test]
fn serialize_bytes_and_collection_reference() {
    assert_eq!(Value::Bytes(vec![1, 2, 255]).serialize(), vec![3, 1, 2, 255]);
    assert_eq!(Value::CollectionReference(vec![9]).serialize(), vec![1, 9]);
    assert_eq!(Value::Bytes(vec![]).serialize(), vec![0]);
}

#[test]
fn serialize_array_is_length_then_elements() {
    let v = Value::Array(vec![Value::UInt64(1), Value::UInt64(2)]);
    assert_eq!(v.serialize(), vec![2, 0, 1, 0, 2]);
    assert_eq!(Value::Array(vec![]).serialize(), vec![0]);
}

#[test]
fn serialize_map_is_two_blocks_in_entry_order() {
    let v = Value::Mapping(vec![
        (Value::String("a".to_string()), Value::UInt32(1)),
        (Value::String("b".to_string()), Value::UInt32(2)),
    ]);
    let mut expected = vec![2];
    expected.extend(Value::String("a".to_string()).serialize());
    expected.extend(Value::String("b".to_string()).serialize());
    expected.push(2);
    expected.extend(Value::UInt32(1).serialize());
    expected.extend(Value::UInt32(2).serialize());
    assert_eq!(v.serialize(), expected);
    assert_eq!(v.serialize(), vec![2, 1, 97, 1, 98, 2, 1, 2]);
}

#[test]
fn serialize_map_keeps_unsorted_order() {
    let v = Value::Mapping(vec![
        (Value::UInt32(9), Value::UInt32(1)),
        (Value::UInt32(3), Value::UInt32(2)),
    ]);
    assert_eq!(v.serialize(), vec![2, 9, 3, 2, 1, 2]);
}

#[test]
fn serialize_empty_map() {
    assert_eq!(Value::Mapping(vec![]).serialize(), vec![0, 0]);
}

#[test]
fn serialize_public_key() {
    let limbs = Value::PublicKey(sample_key()).serialize();
    assert_eq!(limbs.len(), 68);
    assert_eq!(&limbs[0..4], &[1, 1, 1, 1]);
    for i in 0..32 {
        assert_eq!(limbs[4 + i], i as u64);
        assert_eq!(limbs[36 + i], 100 + i as u64);
    }
}

#[test]
fn serialize_struct_has_no_framing() {
    let v = Value::StructValue(vec![
        ("id".to_string(), Value::String("x".to_string())),
        ("age".to_string(), Value::UInt32(30)),
        ("tags".to_string(), Value::Array(vec![Value::Boolean(true)])),
    ]);
    assert_eq!(v.serialize(), vec![1, 120, 30, 1, 1]);
    assert_eq!(Value::StructValue(vec![]).serialize(), Vec::<u64>::new());
}

#[test]
fn key_codes_and_names() {
    assert_eq!(Kty::EC.code(), 1);
    assert_eq!(Crv::Secp256k1.code(), 1);
    assert_eq!(Alg::ES256K.code(), 1);
    assert_eq!(Use::Sig.code(), 1);
    assert_eq!(Kty::from_code(1), Some(Kty::EC));
    assert_eq!(Kty::from_code(0), None);
    assert_eq!(Crv::from_code(2), None);
    assert_eq!(Alg::from_code(257), None);
    assert_eq!(Use::from_code(u64::MAX), None);
    let name: Vec<char> = "secp256k1".chars().collect();
    assert_eq!(Crv::from_name(&name), Some(Crv::Secp256k1));
    let name: Vec<char> = "EC".chars().collect();
    assert_eq!(Kty::from_name(&name), Some(Kty::EC));
    let name: Vec<char> = "ec".chars().collect();
    assert_eq!(Kty::from_name(&name), None);
    let name: Vec<char> = "ES256K".chars().collect();
    assert_eq!(Alg::from_name(&name), Some(Alg::ES256K));
    let name: Vec<char> = "sig".chars().collect();
    assert_eq!(Use::from_name(&name), Some(Use::Sig));
    let name: Vec<char> = "sign".chars().collect();
    assert_eq!(Use::from_name(&name), None);
}

#[test]
fn serialize_map_is_the_array_of_keys_then_the_array_of_values() {
    let keys = vec![Value::String("k".to_string()), Value::String("".to_string())];
    let values = vec![Value::Bytes(vec![1, 2]), Value::Bytes(vec![])];
    let map = Value::Mapping(vec![
        (Value::String("k".to_string()), Value::Bytes(vec![1, 2])),
        (Value::String("".to_string()), Value::Bytes(vec![])),
    ]);
    let mut expected = Value::Array(keys).serialize();
    expected.extend(Value::Array(values).serialize());
    assert_eq!(map.serialize(), expected);
}

#[test]
fn serialize_tells_values_of_one_type_apart() {
    let lists = vec![
        Value::Array(vec![]),
        Value::Array(vec![Value::Bytes(vec![])]),
        Value::Array(vec![Value::Bytes(vec![]), Value::Bytes(vec![])]),
        Value::Array(vec![Value::Bytes(vec![0])]),
        Value::Array(vec![Value::Bytes(vec![1])]),
        Value::Array(vec![Value::Bytes(vec![1, 0])]),
        Value::Array(vec![Value::Bytes(vec![1]), Value::Bytes(vec![0])]),
        Value::Array(vec![Value::Bytes(vec![]), Value::Bytes(vec![1, 0])]),
    ];
    for (i, a) in lists.iter().enumerate() {
        for (j, b) in lists.iter().enumerate() {
            assert_eq!(a.serialize() == b.serialize(), i == j, "{:?} {:?}", a, b);
        }
    }
}
