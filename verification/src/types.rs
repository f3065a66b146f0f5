//! Type descriptors and the number of words a value of each takes in memory.

use vstd::prelude::*;
use crate::layout::{
    ARRAY_HEADER_WIDTH, BYTES_HEADER_WIDTH, MAP_HEADER_WIDTH, NULLABLE_FLAG_WIDTH,
    PUBLIC_KEY_HEADER_WIDTH, WORD_WIDTH,
};

verus! {

/// The kinds whose value fits in one word.
#[derive(Clone, Copy, Debug, PartialEq, Eq, Structural)]
pub enum PrimitiveType {
    Boolean,
    UInt32,
    UInt64,
    Int32,
    Float32,
}

/// A record type: its name and its fields in declaration order.
#[derive(Debug, PartialEq, Eq)]
pub struct Struct {
    pub name: String,
    pub fields: Vec<(String, Type)>,
}

/// The shape of a value.
#[derive(Debug, PartialEq, Eq)]
pub enum Type {
    Nullable(Box<Type>),
    PrimitiveType(PrimitiveType),
    Struct(Struct),
    Hash,
    String,
    Bytes,
    CollectionReference { collection: String },
    Array(Box<Type>),
    Mapping(Box<Type>, Box<Type>),
    PublicKey,
}

/// Words taken in line by `fields` laid out one after another.
pub open spec fn fields_width(fields: Seq<(String, Type)>) -> nat
    decreases fields,
{
    if fields.len() == 0 {
        0
    } else {
        fields_width(fields.drop_last()) + type_width(fields.last().1)
    }
}

/// Words taken in line by a value of type `ty`. Payloads that a header points
/// to lie elsewhere and do not count.
pub open spec fn type_width(ty: Type) -> nat
    decreases ty,
{
    match ty {
        Type::Nullable(inner) => NULLABLE_FLAG_WIDTH as nat + type_width(*inner),
        Type::PrimitiveType(_) => WORD_WIDTH as nat,
        Type::Struct(s) => fields_width(s.fields@),
        Type::Hash => WORD_WIDTH as nat,
        Type::String => BYTES_HEADER_WIDTH as nat,
        Type::Bytes => BYTES_HEADER_WIDTH as nat,
        Type::CollectionReference { .. } => BYTES_HEADER_WIDTH as nat,
        Type::Array(_) => ARRAY_HEADER_WIDTH as nat,
        Type::Mapping(_, _) => MAP_HEADER_WIDTH as nat,
        Type::PublicKey => PUBLIC_KEY_HEADER_WIDTH as nat,
    }
}

/// The width as a machine number, where it is one.
pub open spec fn checked_width(width: nat) -> Option<u64> {
    if width <= u64::MAX {
        Some(width as u64)
    } else {
        None
    }
}

/// The fields before the `n`-th take no more words than all of them.
pub proof fn lemma_fields_width_monotone(fields: Seq<(String, Type)>, n: int)
    requires
        0 <= n <= fields.len(),
    ensures
        fields_width(fields.take(n)) <= fields_width(fields),
    decreases fields.len(),
{
    if n < fields.len() {
        lemma_fields_width_monotone(fields.drop_last(), n);
        assert(fields.drop_last().take(n) =~= fields.take(n));
    } else {
        assert(fields.take(n) =~= fields);
    }
}

/// One more field adds its own width.
pub proof fn lemma_fields_width_step(fields: Seq<(String, Type)>, n: int)
    requires
        0 <= n < fields.len(),
    ensures
        fields_width(fields.take(n + 1)) == fields_width(fields.take(n)) + type_width(fields[n].1),
{
    assert(fields.take(n + 1).drop_last() =~= fields.take(n));
    assert(fields.take(n + 1).last() == fields[n]);
}

impl PrimitiveType {
    /// Words taken by a primitive value: always one.
    pub fn width(&self) -> (w: u64)
        ensures
            w == WORD_WIDTH,
    {
        WORD_WIDTH
    }
}

impl Struct {
    /// Words taken in line by a value of this record type, or `None` where
    /// that number does not fit in 64 bits.
    pub fn width(&self) -> (w: Option<u64>)
        ensures
            w == checked_width(fields_width(self.fields@)),
    {
        fields_width_of(&self.fields)
    }
}

impl Type {
    /// Words taken in line by a value of this type, or `None` where that
    /// number does not fit in 64 bits.
    pub fn width(&self) -> (w: Option<u64>)
        ensures
            w == checked_width(type_width(*self)),
    {
        width_of(self)
    }
}

fn width_of(ty: &Type) -> (w: Option<u64>)
    ensures
        w == checked_width(type_width(*ty)),
    decreases ty,
{
    match ty {
        Type::Nullable(inner) => {
            match width_of(inner) {
                Some(w) => w.checked_add(NULLABLE_FLAG_WIDTH),
                None => None,
            }
        },
        Type::PrimitiveType(p) => Some(p.width()),
        Type::Struct(s) => fields_width_of(&s.fields),
        Type::Hash => Some(WORD_WIDTH),
        Type::String => Some(BYTES_HEADER_WIDTH),
        Type::Bytes => Some(BYTES_HEADER_WIDTH),
        Type::CollectionReference { .. } => Some(BYTES_HEADER_WIDTH),
        Type::Array(_) => Some(ARRAY_HEADER_WIDTH),
        Type::Mapping(_, _) => Some(MAP_HEADER_WIDTH),
        Type::PublicKey => Some(PUBLIC_KEY_HEADER_WIDTH),
    }
}

fn fields_width_of(fields: &Vec<(String, Type)>) -> (w: Option<u64>)
    ensures
        w == checked_width(fields_width(fields@)),
    decreases fields,
{
    let mut total: u64 = 0;
    let mut i: usize = 0;
    while i < fields.len()
        invariant
            i <= fields.len(),
            total == fields_width(fields@.take(i as int)),
        decreases fields.len() - i,
    {
        proof {
            vstd::std_specs::vec::axiom_vec_index_decreases(*fields, i as int);
            lemma_fields_width_step(fields@, i as int);
            lemma_fields_width_monotone(fields@, i + 1);
        }
        match width_of(&fields[i].1) {
            Some(w) => {
                match total.checked_add(w) {
                    Some(sum) => {
                        total = sum;
                    },
                    None => {
                        return None;
                    },
                }
            },
            None => {
                return None;
            },
        }
        i += 1;
    }
    assert(fields@.take(i as int) =~= fields@);
    Some(total)
}

} // verus!
