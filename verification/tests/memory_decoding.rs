use polylang::decode::{
    decode, decode_within, DecodeError, DecodeErrorKind, TypeReader, UNLIMITED,
};
use polylang::memory::{SparseMemory, WordMemory, WordReader};
use polylang::path::PathStep;
use polylang::publickey::{Alg, Crv, Kty, Use};
use polylang::types::{PrimitiveType, Struct, Type};
use polylang::value::Value;

fn w(limb: u64) -> [u64; 4] {
    [limb, 0, 0, 0]
}

fn memory(cells: &[(u64, [u64; 4])]) -> SparseMemory {
    let mut m = SparseMemory::new();
    for (address, word) in cells {
        m.store(*address, *word);
    }
    m
}

fn uint32() -> Type {
    Type::PrimitiveType(PrimitiveType::UInt32)
}

fn fails(kind: DecodeErrorKind, context: Vec<PathStep>) -> Result<Value, DecodeError> {
    Err(DecodeError { kind, context })
}

#[test]
fn readers_give_back_what_was_stored() {
    let m = memory(&[(5, [1, 2, 3, 4])]);
    assert_eq!(m.read(5), Some([1, 2, 3, 4]));
    assert_eq!(m.read(6), None);
    let run = WordMemory::new(10, vec![w(1), w(2)]);
    assert_eq!(run.read(9), None);
    assert_eq!(run.read(10), Some(w(1)));
    assert_eq!(run.read(11), Some(w(2)));
    assert_eq!(run.read(12), None);
    let top = WordMemory::new(u64::MAX, vec![w(7), w(8)]);
    assert_eq!(top.read(u64::MAX), Some(w(7)));
    assert_eq!(top.read(0), None);
}

#[test]
fn uint64_combines_high_and_low_limbs() {
    let m = memory(&[(0, [1, 0, 0, 0])]);
    let ty = Type::PrimitiveType(PrimitiveType::UInt64);
    assert_eq!(decode(&ty, &m, 0), Ok(Value::UInt64(4294967296)));
    let m = memory(&[(3, [0x1234_5678, 0x9abc_def0, 9, 9])]);
    assert_eq!(decode(&ty, &m, 3), Ok(Value::UInt64(0x1234_5678_9abc_def0)));
}

#[test]
fn boolean_must_be_zero_or_one() {
    let ty = Type::PrimitiveType(PrimitiveType::Boolean);
    assert_eq!(decode(&ty, &memory(&[(0, w(0))]), 0), Ok(Value::Boolean(false)));
    assert_eq!(decode(&ty, &memory(&[(0, w(1))]), 0), Ok(Value::Boolean(true)));
    assert_eq!(
        decode(&ty, &memory(&[(0, w(2))]), 0),
        fails(DecodeErrorKind::InvalidBoolean, vec![])
    );
}

#[test]
fn uint32_and_int32_check_their_range() {
    let u = uint32();
    let i = Type::PrimitiveType(PrimitiveType::Int32);
    assert_eq!(decode(&u, &memory(&[(0, w(4294967295))]), 0), Ok(Value::UInt32(4294967295)));
    assert_eq!(
        decode(&u, &memory(&[(0, w(4294967296))]), 0),
        fails(DecodeErrorKind::SizeOverflow, vec![])
    );
    assert_eq!(decode(&i, &memory(&[(0, w(2147483647))]), 0), Ok(Value::Int32(2147483647)));
    assert_eq!(
        decode(&i, &memory(&[(0, w(2147483648))]), 0),
        fails(DecodeErrorKind::SizeOverflow, vec![])
    );
}

#[test]
fn float32_takes_the_low_bits_of_the_limb() {
    let ty = Type::PrimitiveType(PrimitiveType::Float32);
    let bits = 2.5f32.to_bits();
    assert_eq!(decode(&ty, &memory(&[(0, w(bits as u64))]), 0), Ok(Value::Float32(bits)));
    assert_eq!(
        decode(&ty, &memory(&[(0, w((7u64 << 32) | bits as u64))]), 0),
        Ok(Value::Float32(bits))
    );
}

#[test]
fn hash_is_the_word_itself() {
    let m = memory(&[(4, [1, 2, 3, 4])]);
    assert_eq!(decode(&Type::Hash, &m, 4), Ok(Value::Hash([1, 2, 3, 4])));
}

#[test]
fn missing_word_is_out_of_bounds() {
    let m = memory(&[]);
    assert_eq!(
        decode(&uint32(), &m, 17),
        fails(DecodeErrorKind::AddressOutOfBounds { address: 17 }, vec![])
    );
    assert_eq!(
        decode(&Type::Hash, &m, 18),
        fails(DecodeErrorKind::AddressOutOfBounds { address: 18 }, vec![])
    );
}

#[test]
fn nullable_reads_the_flag_then_the_value() {
    let ty = Type::Nullable(Box::new(uint32()));
    assert_eq!(decode(&ty, &memory(&[(0, w(0))]), 0), Ok(Value::Nullable(None)));
    assert_eq!(
        decode(&ty, &memory(&[(0, w(1)), (1, w(9))]), 0),
        Ok(Value::Nullable(Some(Box::new(Value::UInt32(9)))))
    );
    assert_eq!(
        decode(&ty, &memory(&[(0, w(5)), (1, w(9))]), 0),
        Ok(Value::Nullable(Some(Box::new(Value::UInt32(9)))))
    );
    assert_eq!(
        decode(&ty, &memory(&[(0, w(1))]), 0),
        fails(DecodeErrorKind::AddressOutOfBounds { address: 1 }, vec![])
    );
}

#[test]
fn nullable_at_the_last_address_cannot_hold_a_value() {
    let ty = Type::Nullable(Box::new(uint32()));
    let m = memory(&[(u64::MAX, w(1))]);
    assert_eq!(decode(&ty, &m, u64::MAX), fails(DecodeErrorKind::SizeOverflow, vec![]));
}

#[test]
fn string_reads_length_pointer_and_bytes() {
    let m = memory(&[(0, w(2)), (1, w(50)), (50, w(104)), (51, w(105))]);
    assert_eq!(decode(&Type::String, &m, 0), Ok(Value::String("hi".to_string())));
    assert_eq!(decode(&Type::Bytes, &m, 0), Ok(Value::Bytes(vec![104, 105])));
    let cr = Type::CollectionReference { collection: "c".to_string() };
    assert_eq!(decode(&cr, &m, 0), Ok(Value::CollectionReference(vec![104, 105])));
}

#[test]
fn payload_bytes_are_cut_to_eight_bits() {
    let m = memory(&[(0, w(1)), (1, w(9)), (9, w(0x141))]);
    assert_eq!(decode(&Type::Bytes, &m, 0), Ok(Value::Bytes(vec![0x41])));
}

#[test]
fn string_payload_must_be_utf8() {
    let m = memory(&[(0, w(1)), (1, w(9)), (9, w(0xff))]);
    assert_eq!(decode(&Type::String, &m, 0), fails(DecodeErrorKind::InvalidText, vec![]));
    let m = memory(&[(0, w(2)), (1, w(9)), (9, w(0xc3)), (10, w(0xa9))]);
    assert_eq!(decode(&Type::String, &m, 0), Ok(Value::String("é".to_string())));
}

#[test]
fn string_shorter_than_its_length_fails_at_the_first_missing_byte() {
    let mut cells = vec![(0, w(10)), (1, w(100))];
    for i in 0..5 {
        cells.push((100 + i, w(97 + i)));
    }
    let m = memory(&cells);
    assert_eq!(
        decode(&Type::String, &m, 0),
        fails(DecodeErrorKind::AddressOutOfBounds { address: 105 }, vec![PathStep::Index(5)])
    );
}

#[test]
fn string_header_must_be_readable() {
    assert_eq!(
        decode(&Type::String, &memory(&[]), 3),
        fails(DecodeErrorKind::AddressOutOfBounds { address: 3 }, vec![])
    );
    assert_eq!(
        decode(&Type::String, &memory(&[(3, w(0))]), 3),
        fails(DecodeErrorKind::AddressOutOfBounds { address: 4 }, vec![])
    );
    assert_eq!(
        decode(&Type::String, &memory(&[(3, w(0)), (4, w(0))]), 3),
        Ok(Value::String(String::new()))
    );
}

#[test]
fn array_reads_elements_at_the_stride_of_their_type() {
    let ty = Type::Array(Box::new(Type::Nullable(Box::new(uint32()))));
    let m = memory(&[
        (11, w(3)),
        (12, w(40)),
        (40, w(1)),
        (41, w(7)),
        (42, w(0)),
        (44, w(1)),
        (45, w(8)),
    ]);
    assert_eq!(
        decode(&ty, &m, 10),
        Ok(Value::Array(vec![
            Value::Nullable(Some(Box::new(Value::UInt32(7)))),
            Value::Nullable(None),
            Value::Nullable(Some(Box::new(Value::UInt32(8)))),
        ]))
    );
}

#[test]
fn array_does_not_read_its_reserved_word() {
    let ty = Type::Array(Box::new(uint32()));
    let m = memory(&[(1, w(0)), (2, w(0))]);
    assert_eq!(decode(&ty, &m, 0), Ok(Value::Array(vec![])));
}

#[test]
fn array_failure_names_the_element() {
    let ty = Type::Array(Box::new(Type::PrimitiveType(PrimitiveType::Boolean)));
    let m = memory(&[(1, w(3)), (2, w(20)), (20, w(1)), (21, w(2)), (22, w(0))]);
    assert_eq!(
        decode(&ty, &m, 0),
        fails(DecodeErrorKind::InvalidBoolean, vec![PathStep::Index(1)])
    );
}

#[test]
fn struct_fields_follow_each_other_by_width() {
    let ty = Type::Struct(Struct {
        name: "Account".to_string(),
        fields: vec![
            ("name".to_string(), Type::String),
            ("age".to_string(), uint32()),
            ("nick".to_string(), Type::Nullable(Box::new(uint32()))),
            ("ok".to_string(), Type::PrimitiveType(PrimitiveType::Boolean)),
        ],
    });
    let m = memory(&[
        (100, w(1)),
        (101, w(500)),
        (102, w(33)),
        (103, w(0)),
        (105, w(1)),
        (500, w(65)),
    ]);
    assert_eq!(
        decode(&ty, &m, 100),
        Ok(Value::StructValue(vec![
            ("name".to_string(), Value::String("A".to_string())),
            ("age".to_string(), Value::UInt32(33)),
            ("nick".to_string(), Value::Nullable(None)),
            ("ok".to_string(), Value::Boolean(true)),
        ]))
    );
}

#[test]
fn struct_failure_names_the_path() {
    let inner = Type::Struct(Struct {
        name: "Inner".to_string(),
        fields: vec![
            ("a".to_string(), uint32()),
            ("items".to_string(), Type::Array(Box::new(Type::String))),
        ],
    });
    let ty = Type::Struct(Struct {
        name: "Outer".to_string(),
        fields: vec![("first".to_string(), uint32()), ("inner".to_string(), inner)],
    });
    let m = memory(&[
        (0, w(1)),
        (1, w(2)),
        (3, w(2)),
        (4, w(30)),
        (30, w(0)),
        (31, w(0)),
        (32, w(1)),
        (33, w(90)),
    ]);
    assert_eq!(
        decode(&ty, &m, 0),
        fails(
            DecodeErrorKind::AddressOutOfBounds { address: 90 },
            vec![
                PathStep::Field("inner".to_string()),
                PathStep::Field("items".to_string()),
                PathStep::Index(1),
                PathStep::Index(0),
            ]
        )
    );
}

#[test]
fn struct_stops_at_the_first_failing_field() {
    let ty = Type::Struct(Struct {
        name: "S".to_string(),
        fields: vec![
            ("a".to_string(), Type::PrimitiveType(PrimitiveType::Boolean)),
            ("b".to_string(), uint32()),
        ],
    });
    let m = memory(&[(0, w(7))]);
    assert_eq!(
        decode(&ty, &m, 0),
        fails(DecodeErrorKind::InvalidBoolean, vec![PathStep::Field("a".to_string())])
    );
}

#[test]
fn map_pairs_keys_and_values_in_layout_order() {
    let ty = Type::Mapping(Box::new(Type::String), Box::new(uint32()));
    let m = memory(&[
        (1, w(2)),
        (2, w(20)),
        (5, w(30)),
        (20, w(1)),
        (21, w(40)),
        (22, w(1)),
        (23, w(41)),
        (30, w(1)),
        (31, w(2)),
        (40, w(98)),
        (41, w(97)),
    ]);
    assert_eq!(
        decode(&ty, &m, 0),
        Ok(Value::Mapping(vec![
            (Value::String("b".to_string()), Value::UInt32(1)),
            (Value::String("a".to_string()), Value::UInt32(2)),
        ]))
    );
}

#[test]
fn map_of_a_and_b_keeps_its_pairs() {
    let ty = Type::Mapping(Box::new(Type::String), Box::new(uint32()));
    let m = memory(&[
        (1, w(2)),
        (2, w(20)),
        (5, w(30)),
        (20, w(1)),
        (21, w(40)),
        (22, w(1)),
        (23, w(41)),
        (30, w(1)),
        (31, w(2)),
        (40, w(97)),
        (41, w(98)),
    ]);
    let decoded = decode(&ty, &m, 0).unwrap();
    assert_eq!(
        decoded,
        Value::Mapping(vec![
            (Value::String("a".to_string()), Value::UInt32(1)),
            (Value::String("b".to_string()), Value::UInt32(2)),
        ])
    );
    assert_eq!(decoded.serialize(), vec![2, 1, 97, 1, 98, 2, 1, 2]);
}

#[test]
fn map_header_words_must_be_readable() {
    let ty = Type::Mapping(Box::new(uint32()), Box::new(uint32()));
    assert_eq!(
        decode(&ty, &memory(&[]), 0),
        fails(DecodeErrorKind::AddressOutOfBounds { address: 1 }, vec![])
    );
    assert_eq!(
        decode(&ty, &memory(&[(1, w(0))]), 0),
        fails(DecodeErrorKind::AddressOutOfBounds { address: 2 }, vec![])
    );
    assert_eq!(
        decode(&ty, &memory(&[(1, w(0)), (2, w(0))]), 0),
        fails(DecodeErrorKind::AddressOutOfBounds { address: 5 }, vec![])
    );
    assert_eq!(decode(&ty, &memory(&[(1, w(0)), (2, w(0)), (5, w(0))]), 0), Ok(Value::Mapping(vec![])));
}

#[test]
fn map_failure_names_key_or_value() {
    let ty = Type::Mapping(Box::new(uint32()), Box::new(Type::PrimitiveType(PrimitiveType::Boolean)));
    let m = memory(&[(1, w(2)), (2, w(20)), (5, w(30)), (20, w(1)), (21, w(2)), (30, w(1)), (31, w(4))]);
    assert_eq!(
        decode(&ty, &m, 0),
        fails(DecodeErrorKind::InvalidBoolean, vec![PathStep::MapValue(1)])
    );
    let m = memory(&[(1, w(2)), (2, w(20)), (5, w(30)), (20, w(1)), (30, w(1)), (31, w(1))]);
    assert_eq!(
        decode(&ty, &m, 0),
        fails(DecodeErrorKind::AddressOutOfBounds { address: 21 }, vec![PathStep::MapKey(1)])
    );
}

fn key_cells(address: u64, pointer: u64, header: [u64; 4]) -> Vec<(u64, [u64; 4])> {
    let mut cells = vec![
        (address, w(header[0])),
        (address + 1, w(header[1])),
        (address + 2, w(header[2])),
        (address + 3, w(header[3])),
        (address + 4, w(pointer)),
    ];
    for i in 0..64u64 {
        cells.push((pointer + i, w(i + 1)));
    }
    cells
}

#[test]
fn public_key_reads_header_and_coordinates() {
    let m = memory(&key_cells(10, 200, [1, 1, 1, 1]));
    let decoded = decode(&Type::PublicKey, &m, 10).unwrap();
    match decoded {
        Value::PublicKey(key) => {
            assert_eq!(key.kty, Kty::EC);
            assert_eq!(key.crv, Crv::Secp256k1);
            assert_eq!(key.alg, Alg::ES256K);
            assert_eq!(key.use_, Use::Sig);
            for i in 0..32 {
                assert_eq!(key.x[i], (i + 1) as u8);
                assert_eq!(key.y[i], (i + 33) as u8);
            }
        }
        other => panic!("{:?}", other),
    }
}

#[test]
fn public_key_header_numbers_must_name_something() {
    for bad in [[0, 1, 1, 1], [1, 2, 1, 1], [1, 1, 257, 1], [1, 1, 1, 0]] {
        let m = memory(&key_cells(0, 100, bad));
        assert_eq!(
            decode(&Type::PublicKey, &m, 0),
            fails(DecodeErrorKind::InvalidEnumValue, vec![])
        );
    }
}

#[test]
fn public_key_needs_all_its_payload() {
    let mut cells = key_cells(0, 100, [1, 1, 1, 1]);
    cells.pop();
    let m = memory(&cells);
    assert_eq!(
        decode(&Type::PublicKey, &m, 0),
        fails(DecodeErrorKind::AddressOutOfBounds { address: 163 }, vec![PathStep::Index(63)])
    );
}

#[test]
fn budget_counts_bytes_elements_and_entries() {
    let ty = Type::Array(Box::new(Type::Bytes));
    let m = memory(&[
        (1, w(2)),
        (2, w(10)),
        (10, w(2)),
        (11, w(50)),
        (12, w(1)),
        (13, w(60)),
        (50, w(1)),
        (51, w(2)),
        (60, w(3)),
    ]);
    let expected = Value::Array(vec![Value::Bytes(vec![1, 2]), Value::Bytes(vec![3])]);
    assert_eq!(decode_within(&ty, &m, 0, 5), Ok(Value::Array(vec![Value::Bytes(vec![1, 2]), Value::Bytes(vec![3])])));
    assert_eq!(decode_within(&ty, &m, 0, UNLIMITED), Ok(expected));
    assert_eq!(
        decode_within(&ty, &m, 0, 4),
        fails(DecodeErrorKind::BudgetExceeded, vec![PathStep::Index(1)])
    );
    assert_eq!(
        decode_within(&ty, &m, 0, 3),
        fails(DecodeErrorKind::BudgetExceeded, vec![PathStep::Index(0)])
    );
    assert_eq!(decode_within(&ty, &m, 0, 1), fails(DecodeErrorKind::BudgetExceeded, vec![]));
}

#[test]
fn budget_stops_a_huge_length_before_any_read() {
    let m = memory(&[(0, w(u64::MAX)), (1, w(0))]);
    assert_eq!(
        decode_within(&Type::Bytes, &m, 0, 1000),
        fails(DecodeErrorKind::BudgetExceeded, vec![])
    );
    let m = memory(&key_cells(0, 100, [1, 1, 1, 1]));
    assert_eq!(
        decode_within(&Type::PublicKey, &m, 0, 63),
        fails(DecodeErrorKind::BudgetExceeded, vec![])
    );
    assert!(decode_within(&Type::PublicKey, &m, 0, 64).is_ok());
}

#[test]
fn element_address_past_the_end_is_an_overflow() {
    let ty = Type::Array(Box::new(uint32()));
    let m = memory(&[(1, w(2)), (2, w(u64::MAX)), (u64::MAX, w(4))]);
    assert_eq!(
        decode(&ty, &m, 0),
        fails(DecodeErrorKind::SizeOverflow, vec![PathStep::Index(1)])
    );
}

#[test]
fn type_readers_read_like_decode() {
    let m = WordMemory::new(0, vec![w(1), w(9), w(0)]);
    assert_eq!(PrimitiveType::Boolean.read(&m, 0), Ok(Value::Boolean(true)));
    assert_eq!(
        PrimitiveType::Boolean.read(&m, 1),
        fails(DecodeErrorKind::InvalidBoolean, vec![])
    );
    let s = Struct {
        name: "S".to_string(),
        fields: vec![
            ("a".to_string(), uint32()),
            ("b".to_string(), uint32()),
            ("c".to_string(), Type::Nullable(Box::new(uint32()))),
        ],
    };
    let expected = Value::StructValue(vec![
        ("a".to_string(), Value::UInt32(1)),
        ("b".to_string(), Value::UInt32(9)),
        ("c".to_string(), Value::Nullable(None)),
    ]);
    assert_eq!(s.read(&m, 0), Ok(expected));
    let ty = Type::Struct(s);
    assert_eq!(ty.read(&m, 0), decode(&ty, &m, 0));
    assert_eq!(
        ty.read(&m, 1),
        fails(
            DecodeErrorKind::AddressOutOfBounds { address: 3 },
            vec![PathStep::Field("c".to_string())]
        )
    );
}
