use base64::Engine;
use polylang::parse::{parse, refuse_floats, ParseError, ParseErrorKind, Parser};
use polylang::path::PathStep;
use polylang::publickey::{Alg, Crv, Kty, Use};
use polylang::types::{PrimitiveType, Struct, Type};
use polylang::value::Value;

fn float_bits(text: &str) -> Option<u32> {
    text.parse::<f32>().ok().map(|x| x.to_bits())
}

fn read(ty: &Type, text: &str) -> Result<Value, ParseError> {
    parse(ty, text, &float_bits)
}

fn fails(kind: ParseErrorKind, context: Vec<PathStep>) -> Result<Value, ParseError> {
    Err(ParseError { kind, context })
}

fn prim(kind: PrimitiveType) -> Type {
    Type::PrimitiveType(kind)
}

fn malformed() -> Result<Value, ParseError> {
    fails(ParseErrorKind::MalformedText, vec![])
}

#[test]
fn parse_bytes_of_empty_text_is_empty() {
    assert_eq!(read(&Type::Bytes, ""), Ok(Value::Bytes(vec![])));
}

#[test]
fn parse_bytes_of_a_list() {
    assert_eq!(read(&Type::Bytes, "1,2,3"), Ok(Value::Bytes(vec![1, 2, 3])));
    assert_eq!(read(&Type::Bytes, "255"), Ok(Value::Bytes(vec![255])));
    assert_eq!(read(&Type::Bytes, "+7,007"), Ok(Value::Bytes(vec![7, 7])));
}

#[test]
fn parse_bytes_rejects_what_is_no_byte() {
    assert_eq!(
        read(&Type::Bytes, "1,256"),
        fails(ParseErrorKind::MalformedText, vec![PathStep::Index(1)])
    );
    assert_eq!(
        read(&Type::Bytes, "1,,3"),
        fails(ParseErrorKind::MalformedText, vec![PathStep::Index(1)])
    );
    assert_eq!(
        read(&Type::Bytes, "1,2,"),
        fails(ParseErrorKind::MalformedText, vec![PathStep::Index(2)])
    );
    assert_eq!(
        read(&Type::Bytes, "-1"),
        fails(ParseErrorKind::MalformedText, vec![PathStep::Index(0)])
    );
    assert_eq!(
        read(&Type::Bytes, " 1"),
        fails(ParseErrorKind::MalformedText, vec![PathStep::Index(0)])
    );
}

#[test]
fn parse_collection_reference() {
    let ty = Type::CollectionReference { collection: "Account".to_string() };
    assert_eq!(read(&ty, ""), Ok(Value::CollectionReference(vec![])));
    assert_eq!(read(&ty, "9,8"), Ok(Value::CollectionReference(vec![9, 8])));
}

#[test]
fn parse_hash_needs_four_limbs() {
    assert_eq!(
        read(&Type::Hash, "1,2,3,18446744073709551615"),
        Ok(Value::Hash([1, 2, 3, u64::MAX]))
    );
    assert_eq!(read(&Type::Hash, "1,2,3"), malformed());
    assert_eq!(read(&Type::Hash, "1,2,3,4,5"), malformed());
    assert_eq!(read(&Type::Hash, ""), malformed());
    assert_eq!(
        read(&Type::Hash, "1,2,3,18446744073709551616"),
        fails(ParseErrorKind::MalformedText, vec![PathStep::Index(3)])
    );
}

#[test]
fn parse_booleans() {
    assert_eq!(read(&prim(PrimitiveType::Boolean), "true"), Ok(Value::Boolean(true)));
    assert_eq!(read(&prim(PrimitiveType::Boolean), "false"), Ok(Value::Boolean(false)));
    assert_eq!(read(&prim(PrimitiveType::Boolean), "True"), malformed());
    assert_eq!(read(&prim(PrimitiveType::Boolean), "1"), malformed());
    assert_eq!(read(&prim(PrimitiveType::Boolean), ""), malformed());
}

#[test]
fn parse_unsigned_numbers() {
    let u32_ = prim(PrimitiveType::UInt32);
    let u64_ = prim(PrimitiveType::UInt64);
    assert_eq!(read(&u32_, "0"), Ok(Value::UInt32(0)));
    assert_eq!(read(&u32_, "42"), Ok(Value::UInt32(42)));
    assert_eq!(read(&u32_, "+42"), Ok(Value::UInt32(42)));
    assert_eq!(read(&u32_, "0042"), Ok(Value::UInt32(42)));
    assert_eq!(read(&u32_, "4294967295"), Ok(Value::UInt32(u32::MAX)));
    assert_eq!(read(&u32_, "4294967296"), malformed());
    assert_eq!(read(&u32_, "-0"), malformed());
    assert_eq!(read(&u32_, "+"), malformed());
    assert_eq!(read(&u32_, ""), malformed());
    assert_eq!(read(&u32_, "4 2"), malformed());
    assert_eq!(read(&u32_, "٤٢"), malformed());
    assert_eq!(read(&u32_, "1e3"), malformed());
    assert_eq!(read(&u64_, "4294967296"), Ok(Value::UInt64(4294967296)));
    assert_eq!(read(&u64_, "18446744073709551615"), Ok(Value::UInt64(u64::MAX)));
    assert_eq!(read(&u64_, "18446744073709551616"), malformed());
    assert_eq!(read(&u64_, "000000000000000000000000000001"), Ok(Value::UInt64(1)));
    assert_eq!(read(&u64_, "99999999999999999999999999999"), malformed());
}

#[test]
fn parse_signed_numbers() {
    let i32_ = prim(PrimitiveType::Int32);
    assert_eq!(read(&i32_, "-1"), Ok(Value::Int32(-1)));
    assert_eq!(read(&i32_, "+1"), Ok(Value::Int32(1)));
    assert_eq!(read(&i32_, "-0"), Ok(Value::Int32(0)));
    assert_eq!(read(&i32_, "2147483647"), Ok(Value::Int32(i32::MAX)));
    assert_eq!(read(&i32_, "-2147483648"), Ok(Value::Int32(i32::MIN)));
    assert_eq!(read(&i32_, "2147483648"), malformed());
    assert_eq!(read(&i32_, "-2147483649"), malformed());
    assert_eq!(read(&i32_, "-"), malformed());
    assert_eq!(read(&i32_, "--1"), malformed());
    assert_eq!(read(&i32_, "-+1"), malformed());
    assert_eq!(read(&i32_, "+-1"), malformed());
}

#[test]
fn numbers_read_like_the_standard_library() {
    let texts = [
        "", "0", "+0", "-0", "00", "+", "-", "1", "255", "256", "0255", "+255", "-255", " 1", "1 ",
        "1_0", "0x10", "4294967295", "4294967296", "2147483647", "2147483648", "-2147483648",
        "-2147483649", "18446744073709551615", "18446744073709551616", "++1", "1+", "١",
    ];
    for text in texts {
        let as_u32 = text.parse::<u32>().ok().map(Value::UInt32);
        let as_u64 = text.parse::<u64>().ok().map(Value::UInt64);
        let as_i32 = text.parse::<i32>().ok().map(Value::Int32);
        let as_bool = text.parse::<bool>().ok().map(Value::Boolean);
        assert_eq!(read(&prim(PrimitiveType::UInt32), text).ok(), as_u32, "{:?}", text);
        assert_eq!(read(&prim(PrimitiveType::UInt64), text).ok(), as_u64, "{:?}", text);
        assert_eq!(read(&prim(PrimitiveType::Int32), text).ok(), as_i32, "{:?}", text);
        assert_eq!(read(&prim(PrimitiveType::Boolean), text).ok(), as_bool, "{:?}", text);
        let as_bytes = text.parse::<u8>().ok().map(|b| Value::Bytes(vec![b]));
        if !text.is_empty() {
            assert_eq!(read(&Type::Bytes, text).ok(), as_bytes, "{:?}", text);
        }
    }
}

#[test]
fn parse_float_uses_the_given_reader() {
    let ty = prim(PrimitiveType::Float32);
    assert_eq!(read(&ty, "1.5"), Ok(Value::Float32(1.5f32.to_bits())));
    assert_eq!(read(&ty, "-0"), Ok(Value::Float32((-0.0f32).to_bits())));
    assert_eq!(read(&ty, "1e3"), Ok(Value::Float32(1000f32.to_bits())));
    assert_eq!(read(&ty, "abc"), malformed());
    assert_eq!(parse(&ty, "1.5", &refuse_floats), malformed());
    assert_eq!(parse(&ty, "1.5", &|_: &str| Some(7)), Ok(Value::Float32(7)));
    let list = Type::Array(Box::new(prim(PrimitiveType::Float32)));
    assert_eq!(
        read(&list, "0.5;x"),
        fails(ParseErrorKind::MalformedText, vec![PathStep::Index(1)])
    );
    assert_eq!(
        read(&list, "0.5;2"),
        Ok(Value::Array(vec![Value::Float32(0.5f32.to_bits()), Value::Float32(2f32.to_bits())]))
    );
}

#[test]
fn parse_string_is_the_text_itself() {
    assert_eq!(read(&Type::String, "a,b;c"), Ok(Value::String("a,b;c".to_string())));
    assert_eq!(read(&Type::String, ""), Ok(Value::String(String::new())));
    assert_eq!(read(&Type::String, "zażółć 🦀"), Ok(Value::String("zażółć 🦀".to_string())));
}

#[test]
fn parse_nullable() {
    let ty = Type::Nullable(Box::new(prim(PrimitiveType::UInt32)));
    assert_eq!(read(&ty, "null"), Ok(Value::Nullable(None)));
    assert_eq!(read(&ty, "5"), Ok(Value::Nullable(Some(Box::new(Value::UInt32(5))))));
    assert_eq!(read(&ty, "Null"), malformed());
    let text = Type::Nullable(Box::new(Type::String));
    assert_eq!(read(&text, "null"), Ok(Value::Nullable(None)));
    assert_eq!(
        read(&text, "nulls"),
        Ok(Value::Nullable(Some(Box::new(Value::String("nulls".to_string())))))
    );
}

#[test]
fn parse_array_splits_at_semicolons() {
    let ty = Type::Array(Box::new(prim(PrimitiveType::UInt32)));
    assert_eq!(read(&ty, ""), Ok(Value::Array(vec![])));
    assert_eq!(read(&ty, "7"), Ok(Value::Array(vec![Value::UInt32(7)])));
    assert_eq!(
        read(&ty, "1;2;3"),
        Ok(Value::Array(vec![Value::UInt32(1), Value::UInt32(2), Value::UInt32(3)]))
    );
    assert_eq!(
        read(&ty, "1;;3"),
        fails(ParseErrorKind::MalformedText, vec![PathStep::Index(1)])
    );
    assert_eq!(
        read(&ty, "1;2;"),
        fails(ParseErrorKind::MalformedText, vec![PathStep::Index(2)])
    );
    let lists = Type::Array(Box::new(Type::Bytes));
    assert_eq!(
        read(&lists, "1,2;;3"),
        Ok(Value::Array(vec![Value::Bytes(vec![1, 2]), Value::Bytes(vec![]), Value::Bytes(vec![3])]))
    );
    let texts = Type::Array(Box::new(Type::String));
    assert_eq!(
        read(&texts, ";"),
        Ok(Value::Array(vec![Value::String(String::new()), Value::String(String::new())]))
    );
}

#[test]
fn parse_map_reads_pairs_in_order() {
    let ty = Type::Mapping(Box::new(Type::String), Box::new(prim(PrimitiveType::UInt32)));
    assert_eq!(read(&ty, ""), Ok(Value::Mapping(vec![])));
    assert_eq!(
        read(&ty, "b;1;a;2"),
        Ok(Value::Mapping(vec![
            (Value::String("b".to_string()), Value::UInt32(1)),
            (Value::String("a".to_string()), Value::UInt32(2)),
        ]))
    );
}

#[test]
fn parse_map_with_an_odd_count_misses_a_value() {
    let ty = Type::Mapping(Box::new(prim(PrimitiveType::UInt32)), Box::new(prim(PrimitiveType::UInt32)));
    assert_eq!(
        read(&ty, "1"),
        fails(ParseErrorKind::MissingMapValue, vec![PathStep::MapValue(0)])
    );
    assert_eq!(
        read(&ty, "1;2;3"),
        fails(ParseErrorKind::MissingMapValue, vec![PathStep::MapValue(1)])
    );
    assert_eq!(
        read(&ty, "x;2;3"),
        fails(ParseErrorKind::MalformedText, vec![PathStep::MapKey(0)])
    );
    assert_eq!(
        read(&ty, "1;x;3"),
        fails(ParseErrorKind::MalformedText, vec![PathStep::MapValue(0)])
    );
    assert_eq!(
        read(&ty, "1;2;x"),
        fails(ParseErrorKind::MissingMapValue, vec![PathStep::MapValue(1)])
    );
    assert_eq!(
        read(&ty, "1;2;3;x"),
        fails(ParseErrorKind::MalformedText, vec![PathStep::MapValue(1)])
    );
}

fn account() -> Struct {
    Struct {
        name: "Account".to_string(),
        fields: vec![
            ("name".to_string(), Type::String),
            ("age".to_string(), prim(PrimitiveType::UInt32)),
            ("ok".to_string(), prim(PrimitiveType::Boolean)),
        ],
    }
}

fn account_value() -> Value {
    Value::StructValue(vec![
        ("name".to_string(), Value::String("ann".to_string())),
        ("age".to_string(), Value::UInt32(30)),
        ("ok".to_string(), Value::Boolean(true)),
    ])
}

#[test]
fn parse_struct_takes_fields_by_position() {
    let ty = Type::Struct(account());
    assert_eq!(read(&ty, "ann,30,true"), Ok(account_value()));
}

#[test]
fn parse_struct_accepts_a_comma_behind_every_field() {
    let ty = Type::Struct(account());
    assert_eq!(read(&ty, "ann,30,true,"), Ok(account_value()));
    assert_eq!(read(&ty, "ann,30,true,whatever,else"), Ok(account_value()));
}

#[test]
fn parse_struct_reports_the_failing_field() {
    let ty = Type::Struct(account());
    assert_eq!(
        read(&ty, "ann,30"),
        fails(ParseErrorKind::MalformedText, vec![PathStep::Field("ok".to_string())])
    );
    assert_eq!(
        read(&ty, "ann,x,true"),
        fails(ParseErrorKind::MalformedText, vec![PathStep::Field("age".to_string())])
    );
    assert_eq!(
        read(&ty, "ann,x"),
        fails(ParseErrorKind::MalformedText, vec![PathStep::Field("age".to_string())])
    );
    assert_eq!(
        read(&ty, ""),
        fails(ParseErrorKind::MalformedText, vec![PathStep::Field("age".to_string())])
    );
}

#[test]
fn parse_struct_cannot_hold_a_comma_in_a_field() {
    let ty = Type::Struct(Struct {
        name: "S".to_string(),
        fields: vec![("bytes".to_string(), Type::Bytes), ("n".to_string(), prim(PrimitiveType::UInt32))],
    });
    assert_eq!(
        read(&ty, "1,2,3"),
        Ok(Value::StructValue(vec![
            ("bytes".to_string(), Value::Bytes(vec![1])),
            ("n".to_string(), Value::UInt32(2)),
        ]))
    );
}

#[test]
fn parse_empty_struct() {
    let ty = Type::Struct(Struct { name: "Empty".to_string(), fields: vec![] });
    assert_eq!(read(&ty, ""), Ok(Value::StructValue(vec![])));
    assert_eq!(read(&ty, "anything"), Ok(Value::StructValue(vec![])));
}

#[test]
fn parse_nested_path() {
    let ty = Type::Array(Box::new(Type::Struct(Struct {
        name: "P".to_string(),
        fields: vec![
            ("a".to_string(), prim(PrimitiveType::UInt32)),
            ("m".to_string(), Type::Nullable(Box::new(prim(PrimitiveType::Boolean)))),
        ],
    })));
    assert_eq!(
        read(&ty, "1,null;2,maybe"),
        fails(
            ParseErrorKind::MalformedText,
            vec![PathStep::Index(1), PathStep::Field("m".to_string())]
        )
    );
}

fn b64(bytes: &[u8]) -> String {
    base64::engine::general_purpose::URL_SAFE.encode(bytes)
}

#[test]
fn parse_public_key() {
    let x: Vec<u8> = (0..32).map(|i| 250u8.wrapping_add(i)).collect();
    let y: Vec<u8> = (0..32).map(|i| 3 * i).collect();
    let text = format!("EC,secp256k1,ES256K,sig,{},{}", b64(&x), b64(&y));
    match read(&Type::PublicKey, &text) {
        Ok(Value::PublicKey(key)) => {
            assert_eq!(key.kty, Kty::EC);
            assert_eq!(key.crv, Crv::Secp256k1);
            assert_eq!(key.alg, Alg::ES256K);
            assert_eq!(key.use_, Use::Sig);
            assert_eq!(key.x.to_vec(), x);
            assert_eq!(key.y.to_vec(), y);
        }
        other => panic!("{:?}", other),
    }
    let more = format!("{},ignored", text);
    assert!(read(&Type::PublicKey, &more).is_ok());
}

#[test]
fn parse_public_key_with_a_short_x_fails() {
    let x = [7u8; 31];
    let y = [9u8; 32];
    let text = format!("EC,secp256k1,ES256K,sig,{},{}", b64(&x), b64(&y));
    assert_eq!(
        read(&Type::PublicKey, &text),
        fails(ParseErrorKind::InvalidKeyEncoding, vec![])
    );
}

#[test]
fn parse_public_key_failures() {
    let good = b64(&[1u8; 32]);
    let long = b64(&[1u8; 33]);
    let key_encoding = fails(ParseErrorKind::InvalidKeyEncoding, vec![]);
    let enum_value = fails(ParseErrorKind::InvalidEnumValue, vec![]);
    let text = |kty: &str, crv: &str, alg: &str, use_: &str, x: &str, y: &str| {
        format!("{},{},{},{},{},{}", kty, crv, alg, use_, x, y)
    };
    assert_eq!(read(&Type::PublicKey, ""), malformed());
    assert_eq!(read(&Type::PublicKey, "EC,secp256k1,ES256K,sig"), malformed());
    assert_eq!(
        read(&Type::PublicKey, &format!("EC,secp256k1,ES256K,sig,{}", good)),
        malformed()
    );
    assert_eq!(
        read(&Type::PublicKey, &text("EC", "secp256k1", "ES256K", "sig", &good, &long)),
        key_encoding
    );
    assert_eq!(
        read(&Type::PublicKey, &text("EC", "secp256k1", "ES256K", "sig", "!!", &good)),
        key_encoding
    );
    assert_eq!(
        read(&Type::PublicKey, &text("EC", "secp256k1", "ES256K", "sig", &good, "AAA")),
        key_encoding
    );
    assert_eq!(
        read(&Type::PublicKey, &text("RSA", "secp256k1", "ES256K", "sig", &good, &good)),
        enum_value
    );
    assert_eq!(
        read(&Type::PublicKey, &text("EC", "P-256", "ES256K", "sig", &good, &good)),
        enum_value
    );
    assert_eq!(
        read(&Type::PublicKey, &text("EC", "secp256k1", "ES256", "sig", &good, &good)),
        enum_value
    );
    assert_eq!(
        read(&Type::PublicKey, &text("EC", "secp256k1", "ES256K", "enc", &good, &good)),
        enum_value
    );
    assert_eq!(
        read(&Type::PublicKey, &text("RSA", "secp256k1", "ES256K", "sig", "!!", &good)),
        key_encoding
    );
    assert_eq!(
        read(&Type::PublicKey, &text("RSA", "secp256k1", "ES256K", "sig", &long, &good)),
        enum_value
    );
}

#[test]
fn parse_public_key_uses_the_url_safe_alphabet() {
    let x = [0xfbu8; 32];
    let encoded = b64(&x);
    assert!(encoded.contains('-') || encoded.contains('_'));
    let text = format!("EC,secp256k1,ES256K,sig,{},{}", encoded, encoded);
    match read(&Type::PublicKey, &text) {
        Ok(Value::PublicKey(key)) => assert_eq!(key.x, x),
        other => panic!("{:?}", other),
    }
    let standard = base64::engine::general_purpose::STANDARD.encode(x);
    let text = format!("EC,secp256k1,ES256K,sig,{},{}", standard, encoded);
    assert_eq!(
        read(&Type::PublicKey, &text),
        fails(ParseErrorKind::InvalidKeyEncoding, vec![])
    );
}

#[test]
fn parsers_read_like_parse() {
    assert_eq!(PrimitiveType::UInt32.parse("12", &float_bits), Ok(Value::UInt32(12)));
    assert_eq!(PrimitiveType::Float32.parse("0.25", &float_bits), Ok(Value::Float32(0.25f32.to_bits())));
    assert_eq!(PrimitiveType::Boolean.parse("yes", &float_bits), malformed());
    assert_eq!(account().parse("ann,30,true", &float_bits), Ok(account_value()));
    let ty = Type::Struct(account());
    assert_eq!(Parser::parse(&ty, "ann,30,true", &float_bits), Ok(account_value()));
    assert_eq!(Parser::parse(&ty, "ann", &float_bits), read(&ty, "ann"));
}
