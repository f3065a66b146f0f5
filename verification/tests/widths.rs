use polylang::layout::{ARRAY_HEADER_WIDTH, MAP_HEADER_WIDTH, MAP_VALUES_POINTER_OFFSET};
use polylang::types::{PrimitiveType, Struct, Type};

fn uint32() -> Type {
    Type::PrimitiveType(PrimitiveType::UInt32)
}

#[test]
fn primitive_and_hash_take_one_word() {
    assert_eq!(Type::PrimitiveType(PrimitiveType::Boolean).width(), Some(1));
    assert_eq!(Type::PrimitiveType(PrimitiveType::UInt32).width(), Some(1));
    assert_eq!(Type::PrimitiveType(PrimitiveType::UInt64).width(), Some(1));
    assert_eq!(Type::PrimitiveType(PrimitiveType::Int32).width(), Some(1));
    assert_eq!(Type::PrimitiveType(PrimitiveType::Float32).width(), Some(1));
    assert_eq!(PrimitiveType::UInt64.width(), 1);
    assert_eq!(Type::Hash.width(), Some(1));
}

#[test]
fn headers_have_fixed_widths() {
    assert_eq!(Type::String.width(), Some(2));
    assert_eq!(Type::Bytes.width(), Some(2));
    assert_eq!(Type::CollectionReference { collection: "Account".to_string() }.width(), Some(2));
    assert_eq!(Type::Array(Box::new(Type::String)).width(), Some(3));
    assert_eq!(Type::Mapping(Box::new(Type::String), Box::new(uint32())).width(), Some(6));
    assert_eq!(Type::PublicKey.width(), Some(5));
}

#[test]
fn map_header_is_two_array_headers() {
    assert_eq!(ARRAY_HEADER_WIDTH, 3);
    assert_eq!(MAP_HEADER_WIDTH, 2 * ARRAY_HEADER_WIDTH);
    assert_eq!(MAP_VALUES_POINTER_OFFSET, ARRAY_HEADER_WIDTH + 2);
}

#[test]
fn nullable_adds_one_word() {
    assert_eq!(Type::Nullable(Box::new(uint32())).width(), Some(2));
    assert_eq!(Type::Nullable(Box::new(Type::Nullable(Box::new(Type::PublicKey)))).width(), Some(7));
}

#[test]
fn struct_width_is_the_sum_of_its_fields() {
    let inner = Struct {
        name: "Inner".to_string(),
        fields: vec![("a".to_string(), Type::String), ("b".to_string(), Type::Hash)],
    };
    assert_eq!(inner.width(), Some(3));
    let outer = Type::Struct(Struct {
        name: "Outer".to_string(),
        fields: vec![
            ("inner".to_string(), Type::Struct(inner)),
            ("list".to_string(), Type::Array(Box::new(uint32()))),
            ("maybe".to_string(), Type::Nullable(Box::new(Type::Bytes))),
        ],
    });
    assert_eq!(outer.width(), Some(9));
    let empty = Type::Struct(Struct { name: "Empty".to_string(), fields: vec![] });
    assert_eq!(empty.width(), Some(0));
}
