//! The codec of the application binary interface: a type-directed translation
//! between structured values and three representations.
//!
//! - Word-addressed memory, as the virtual machine leaves it behind:
//!   [`decode`] reads a value of a given type at a given address.
//! - Delimited text, as people and fixtures write it: [`parse`] reads a value
//!   of a given type from a text.
//! - The limb tape, as the proving engine takes it: [`value::Value::serialize`]
//!   writes a value as a flat sequence of limbs without pointers.
//!
//! The three depend on [`types`] and [`value`] alone, not on each other.
//! [`layout`] holds every width and offset of the memory layout.
//!
//! What holds of all values is stated and proved beside the codecs:
//! [`memory_layout`] (what lies in memory is read back), [`text_rendering`]
//! (what is written plainly is read back), [`shape`] (what is decoded has the
//! shape of its type) and [`tape`] (the tape tells the value).
//!
//! [`diagnostics`] turns a failure of the source parser into the message for
//! the user.

pub mod layout;
pub mod publickey;
pub mod types;
pub mod value;
pub mod canonical;
pub mod memory;
pub mod path;
pub mod decode;
pub mod text;
pub mod parse;
pub mod memory_layout;
pub mod text_rendering;
pub mod shape;
pub mod tape;
pub mod error;
pub mod diagnostics;

pub use decode::decode;
pub use error::Error;
pub use parse::parse;
