use base64::Engine;
use polylang::decode::{decode, decode_within};
use polylang::memory::{FnMemory, SparseMemory, WordReader};
use polylang::parse::parse;
use polylang::publickey::{Alg, Crv, Key, Kty, Use};
use polylang::types::{PrimitiveType, Struct, Type};
use polylang::value::Value;

fn float_bits(text: &str) -> Option<u32> {
    text.parse::<f32>().ok().map(|x| x.to_bits())
}

fn prim(kind: PrimitiveType) -> Type {
    Type::PrimitiveType(kind)
}

struct Writer {
    memory: SparseMemory,
    free: u64,
}

fn width(ty: &Type) -> u64 {
    ty.width().unwrap()
}

fn put(w: &mut Writer, address: u64, limb: u64) {
    w.memory.store(address, [limb, 0, 0, 0]);
}

fn reserve(w: &mut Writer, words: u64) -> u64 {
    let at = w.free;
    w.free += words + 1;
    at
}

fn put_payload(w: &mut Writer, address: u64, bytes: &[u8]) {
    let pointer = reserve(w, bytes.len() as u64);
    put(w, address, bytes.len() as u64);
    put(w, address + 1, pointer);
    for (i, b) in bytes.iter().enumerate() {
        put(w, pointer + i as u64, *b as u64);
    }
}

fn lay_out(w: &mut Writer, ty: &Type, address: u64, v: &Value) {
    match (ty, v) {
        (Type::Nullable(_), Value::Nullable(None)) => put(w, address, 0),
        (Type::Nullable(inner), Value::Nullable(Some(x))) => {
            put(w, address, 1);
            lay_out(w, inner, address + 1, x);
        }
        (Type::PrimitiveType(_), Value::Boolean(b)) => put(w, address, *b as u64),
        (Type::PrimitiveType(_), Value::UInt32(x)) => put(w, address, *x as u64),
        (Type::PrimitiveType(_), Value::Int32(x)) => put(w, address, *x as u64),
        (Type::PrimitiveType(_), Value::Float32(bits)) => put(w, address, *bits as u64),
        (Type::PrimitiveType(_), Value::UInt64(x)) => {
            w.memory.store(address, [*x >> 32, *x & 0xffff_ffff, 0, 0]);
        }
        (Type::Hash, Value::Hash(limbs)) => w.memory.store(address, *limbs),
        (Type::String, Value::String(s)) => put_payload(w, address, s.as_bytes()),
        (Type::Bytes, Value::Bytes(b)) => put_payload(w, address, b),
        (Type::CollectionReference { .. }, Value::CollectionReference(b)) => {
            put_payload(w, address, b)
        }
        (Type::Array(element), Value::Array(items)) => {
            let stride = width(element);
            let pointer = reserve(w, stride * items.len() as u64);
            put(w, address + 1, items.len() as u64);
            put(w, address + 2, pointer);
            for (i, item) in items.iter().enumerate() {
                lay_out(w, element, pointer + i as u64 * stride, item);
            }
        }
        (Type::Mapping(kt, vt), Value::Mapping(entries)) => {
            let keys = reserve(w, width(kt) * entries.len() as u64);
            let values = reserve(w, width(vt) * entries.len() as u64);
            put(w, address + 1, entries.len() as u64);
            put(w, address + 2, keys);
            put(w, address + 4, entries.len() as u64);
            put(w, address + 5, values);
            for (i, (k, v)) in entries.iter().enumerate() {
                lay_out(w, kt, keys + i as u64 * width(kt), k);
                lay_out(w, vt, values + i as u64 * width(vt), v);
            }
        }
        (Type::PublicKey, Value::PublicKey(key)) => {
            let pointer = reserve(w, 64);
            put(w, address, key.kty.code() as u64);
            put(w, address + 1, key.crv.code() as u64);
            put(w, address + 2, key.alg.code() as u64);
            put(w, address + 3, key.use_.code() as u64);
            put(w, address + 4, pointer);
            for i in 0..32 {
                put(w, pointer + i as u64, key.x[i] as u64);
                put(w, pointer + 32 + i as u64, key.y[i] as u64);
            }
        }
        (Type::Struct(s), Value::StructValue(fields)) => {
            let mut at = address;
            for ((_, field_type), (_, value)) in s.fields.iter().zip(fields.iter()) {
                lay_out(w, field_type, at, value);
                at += width(field_type);
            }
        }
        other => panic!("{:?}", other),
    }
}

fn render(v: &Value) -> String {
    match v {
        Value::Nullable(None) => "null".to_string(),
        Value::Nullable(Some(x)) => render(x),
        Value::Boolean(b) => b.to_string(),
        Value::UInt32(x) => x.to_string(),
        Value::UInt64(x) => x.to_string(),
        Value::Int32(x) => x.to_string(),
        Value::Float32(bits) => format!("{:e}", f32::from_bits(*bits)),
        Value::Hash(limbs) => limbs.iter().map(|l| l.to_string()).collect::<Vec<_>>().join(","),
        Value::String(s) => s.clone(),
        Value::Bytes(b) | Value::CollectionReference(b) => {
            b.iter().map(|x| x.to_string()).collect::<Vec<_>>().join(",")
        }
        Value::Array(items) => items.iter().map(render).collect::<Vec<_>>().join(";"),
        Value::Mapping(entries) => entries
            .iter()
            .flat_map(|(k, v)| vec![render(k), render(v)])
            .collect::<Vec<_>>()
            .join(";"),
        Value::PublicKey(key) => format!(
            "EC,secp256k1,ES256K,sig,{},{}",
            base64::engine::general_purpose::URL_SAFE.encode(key.x),
            base64::engine::general_purpose::URL_SAFE.encode(key.y)
        ),
        Value::StructValue(fields) => {
            fields.iter().map(|(_, v)| render(v)).collect::<Vec<_>>().join(",")
        }
    }
}

fn sample_key() -> Key {
    let mut x = [0u8; 32];
    let mut y = [0u8; 32];
    for i in 0..32 {
        x[i] = 255 - i as u8;
        y[i] = 7 * i as u8;
    }
    Key { kty: Kty::EC, crv: Crv::Secp256k1, alg: Alg::ES256K, use_: Use::Sig, x, y }
}

fn person() -> Type {
    Type::Struct(Struct {
        name: "Person".to_string(),
        fields: vec![
            ("name".to_string(), Type::String),
            ("age".to_string(), prim(PrimitiveType::UInt32)),
            ("score".to_string(), prim(PrimitiveType::Float32)),
            ("key".to_string(), Type::Nullable(Box::new(Type::Hash))),
        ],
    })
}

fn person_value(name: &str, age: u32, key: Option<[u64; 4]>) -> Value {
    Value::StructValue(vec![
        ("name".to_string(), Value::String(name.to_string())),
        ("age".to_string(), Value::UInt32(age)),
        ("score".to_string(), Value::Float32(0.75f32.to_bits())),
        ("key".to_string(), Value::Nullable(key.map(|h| Box::new(Value::Hash(h))))),
    ])
}

fn samples_for_memory() -> Vec<(Type, Value)> {
    vec![
        (prim(PrimitiveType::Boolean), Value::Boolean(true)),
        (prim(PrimitiveType::UInt32), Value::UInt32(u32::MAX)),
        (prim(PrimitiveType::UInt64), Value::UInt64(u64::MAX - 5)),
        (prim(PrimitiveType::Int32), Value::Int32(i32::MAX)),
        (prim(PrimitiveType::Float32), Value::Float32((-1.25f32).to_bits())),
        (Type::Hash, Value::Hash([u64::MAX, 0, 7, 1 << 40])),
        (Type::String, Value::String("zażółć gęślą jaźń".to_string())),
        (Type::Bytes, Value::Bytes(vec![0, 255, 3])),
        (
            Type::CollectionReference { collection: "Account".to_string() },
            Value::CollectionReference(vec![1, 2]),
        ),
        (Type::PublicKey, Value::PublicKey(sample_key())),
        (person(), person_value("ann", 30, None)),
        (person(), person_value("bob", 31, Some([1, 2, 3, 4]))),
        (
            Type::Array(Box::new(person())),
            Value::Array(vec![person_value("a,b", 1, None), person_value("c;d", 2, Some([9; 4]))]),
        ),
        (
            Type::Mapping(Box::new(Type::String), Box::new(Type::Array(Box::new(Type::PublicKey)))),
            Value::Mapping(vec![
                (Value::String("z".to_string()), Value::Array(vec![Value::PublicKey(sample_key())])),
                (Value::String("a".to_string()), Value::Array(vec![])),
            ]),
        ),
        (
            Type::Nullable(Box::new(Type::Nullable(Box::new(Type::Bytes)))),
            Value::Nullable(Some(Box::new(Value::Nullable(Some(Box::new(Value::Bytes(vec![]))))))),
        ),
    ]
}

#[test]
fn decoding_returns_what_was_laid_out() {
    for (ty, value) in samples_for_memory() {
        for address in [0u64, 17, 1 << 40] {
            let mut w = Writer { memory: SparseMemory::new(), free: address + 1000 };
            lay_out(&mut w, &ty, address, &value);
            assert_eq!(decode(&ty, &w.memory, address).as_ref(), Ok(&value));
        }
    }
}

#[test]
fn decoding_uses_the_budget_that_the_value_needs() {
    let ty = Type::Array(Box::new(Type::String));
    let value = Value::Array(vec![
        Value::String("ab".to_string()),
        Value::String("cde".to_string()),
    ]);
    let mut w = Writer { memory: SparseMemory::new(), free: 100 };
    lay_out(&mut w, &ty, 0, &value);
    assert_eq!(decode_within(&ty, &w.memory, 0, 7).as_ref(), Ok(&value));
    assert!(decode_within(&ty, &w.memory, 0, 6).is_err());
}

#[test]
fn decoding_through_a_function_is_decoding_its_memory() {
    for (ty, value) in samples_for_memory() {
        let mut w = Writer { memory: SparseMemory::new(), free: 5000 };
        lay_out(&mut w, &ty, 3, &value);
        let memory = w.memory;
        let through = FnMemory::new(|address: u64| memory.read(address));
        assert_eq!(through.read(3), memory.read(3));
        assert_eq!(through.read(u64::MAX), None);
        assert_eq!(decode(&ty, &through, 3).as_ref(), Ok(&value));
    }
}

fn samples_for_text() -> Vec<(Type, Value)> {
    let flat = Type::Struct(Struct {
        name: "Flat".to_string(),
        fields: vec![
            ("name".to_string(), Type::String),
            ("age".to_string(), prim(PrimitiveType::Int32)),
            ("ok".to_string(), Type::Nullable(Box::new(prim(PrimitiveType::Boolean)))),
        ],
    });
    let flat_value = |name: &str, age: i32, ok: Option<bool>| {
        Value::StructValue(vec![
            ("name".to_string(), Value::String(name.to_string())),
            ("age".to_string(), Value::Int32(age)),
            ("ok".to_string(), Value::Nullable(ok.map(|b| Box::new(Value::Boolean(b))))),
        ])
    };
    vec![
        (prim(PrimitiveType::Boolean), Value::Boolean(false)),
        (prim(PrimitiveType::UInt32), Value::UInt32(0)),
        (prim(PrimitiveType::UInt32), Value::UInt32(u32::MAX)),
        (prim(PrimitiveType::UInt64), Value::UInt64(u64::MAX)),
        (prim(PrimitiveType::Int32), Value::Int32(i32::MIN)),
        (prim(PrimitiveType::Int32), Value::Int32(-7)),
        (prim(PrimitiveType::Float32), Value::Float32(3.5e-7f32.to_bits())),
        (prim(PrimitiveType::Float32), Value::Float32(f32::MAX.to_bits())),
        (Type::Hash, Value::Hash([0, 1, u64::MAX, 42])),
        (Type::String, Value::String("any, text; at all".to_string())),
        (Type::Bytes, Value::Bytes(vec![])),
        (Type::Bytes, Value::Bytes(vec![0, 10, 255])),
        (
            Type::CollectionReference { collection: "c".to_string() },
            Value::CollectionReference(vec![5]),
        ),
        (Type::PublicKey, Value::PublicKey(sample_key())),
        (flat_value_type(&flat), flat_value("ann", -3, Some(true))),
        (flat_value_type(&flat), flat_value("", 0, None)),
        (
            Type::Array(Box::new(flat_value_type(&flat))),
            Value::Array(vec![flat_value("a", 1, None), flat_value("b", 2, Some(false))]),
        ),
        (Type::Array(Box::new(Type::Bytes)), Value::Array(vec![Value::Bytes(vec![1, 2]), Value::Bytes(vec![])])),
        (Type::Array(Box::new(prim(PrimitiveType::UInt32))), Value::Array(vec![])),
        (
            Type::Mapping(Box::new(Type::String), Box::new(prim(PrimitiveType::UInt64))),
            Value::Mapping(vec![
                (Value::String("b".to_string()), Value::UInt64(1)),
                (Value::String("a".to_string()), Value::UInt64(2)),
            ]),
        ),
        (
            Type::Nullable(Box::new(Type::Array(Box::new(Type::PublicKey)))),
            Value::Nullable(Some(Box::new(Value::Array(vec![
                Value::PublicKey(sample_key()),
                Value::PublicKey(sample_key()),
            ])))),
        ),
        (Type::Nullable(Box::new(Type::String)), Value::Nullable(None)),
    ]
}

fn flat_value_type(flat: &Type) -> Type {
    match flat {
        Type::Struct(s) => Type::Struct(Struct {
            name: s.name.clone(),
            fields: vec![
                ("name".to_string(), Type::String),
                ("age".to_string(), prim(PrimitiveType::Int32)),
                ("ok".to_string(), Type::Nullable(Box::new(prim(PrimitiveType::Boolean)))),
            ],
        }),
        _ => unreachable!(),
    }
}

#[test]
fn reading_returns_what_was_written() {
    for (ty, value) in samples_for_text() {
        let text = render(&value);
        assert_eq!(parse(&ty, &text, &float_bits).as_ref(), Ok(&value), "{:?}", text);
    }
}

#[test]
fn reading_does_not_return_what_was_written_ambiguously() {
    let ty = Type::Array(Box::new(Type::String));
    let value = Value::Array(vec![Value::String("a;b".to_string())]);
    assert_ne!(parse(&ty, &render(&value), &float_bits).as_ref(), Ok(&value));
    let value = Value::Array(vec![Value::String(String::new())]);
    assert_ne!(parse(&ty, &render(&value), &float_bits).as_ref(), Ok(&value));
    let ty = Type::Nullable(Box::new(Type::String));
    let value = Value::Nullable(Some(Box::new(Value::String("null".to_string()))));
    assert_ne!(parse(&ty, &render(&value), &float_bits).as_ref(), Ok(&value));
}
