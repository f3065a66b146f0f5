//! Word counts and offsets shared by the width computation and the memory decoder.
//!
//! These constants are the single source for every stride and header offset in the
//! crate; the program that fills the memory must be generated from the same numbers.

use vstd::prelude::*;

verus! {

/// Words taken by a value of a primitive kind or by a hash.
pub const WORD_WIDTH: u64 = 1;

/// Words taken by the presence flag in front of a nullable value.
pub const NULLABLE_FLAG_WIDTH: u64 = 1;

/// Words in the header of a string, of bytes and of a collection reference:
/// the length, then the pointer to the payload.
pub const BYTES_HEADER_WIDTH: u64 = 2;

/// Offset of the length inside the header of a string, of bytes and of a
/// collection reference.
pub const BYTES_LENGTH_OFFSET: u64 = 0;

/// Offset of the payload pointer inside that header.
pub const BYTES_POINTER_OFFSET: u64 = 1;

/// Words in the header of an array: a reserved word, the length, then the
/// pointer to the elements.
pub const ARRAY_HEADER_WIDTH: u64 = 3;

/// Offset of the length inside an array header, and so inside a map header.
pub const ARRAY_LENGTH_OFFSET: u64 = 1;

/// Offset of the element pointer inside an array header.
pub const ARRAY_POINTER_OFFSET: u64 = 2;

/// Offset, inside a map header, of the pointer to the keys: the element
/// pointer of the first array header.
pub const MAP_KEYS_POINTER_OFFSET: u64 = 2;

/// Words in the header of a map: the header of the key array directly followed
/// by the header of the value array.
pub const MAP_HEADER_WIDTH: u64 = 6;

/// Offset, inside a map header, of the pointer to the values: the element
/// pointer of the second array header.
pub const MAP_VALUES_POINTER_OFFSET: u64 = 5;

/// Words in the header of a public key: key type, curve, algorithm, use, then
/// the pointer to the coordinates.
pub const PUBLIC_KEY_HEADER_WIDTH: u64 = 5;

/// Offset of the key type inside a public key header.
pub const PUBLIC_KEY_KTY_OFFSET: u64 = 0;

/// Offset of the curve inside a public key header.
pub const PUBLIC_KEY_CRV_OFFSET: u64 = 1;

/// Offset of the algorithm inside a public key header.
pub const PUBLIC_KEY_ALG_OFFSET: u64 = 2;

/// Offset of the use inside a public key header.
pub const PUBLIC_KEY_USE_OFFSET: u64 = 3;

/// Offset of the coordinate pointer inside a public key header.
pub const PUBLIC_KEY_POINTER_OFFSET: u64 = 4;

/// Bytes in one coordinate of a public key.
pub const COORDINATE_BYTES: usize = 32;

/// Words behind the coordinate pointer of a public key, one byte in each:
/// the x coordinate, then the y coordinate.
pub const PUBLIC_KEY_PAYLOAD_WORDS: u64 = 64;

/// The map header is two array headers, and the pointer to the values sits
/// where the second header keeps its element pointer.
pub proof fn lemma_map_header_is_two_array_headers()
    ensures
        MAP_HEADER_WIDTH == 2 * ARRAY_HEADER_WIDTH,
        MAP_KEYS_POINTER_OFFSET == ARRAY_POINTER_OFFSET,
        MAP_VALUES_POINTER_OFFSET == ARRAY_HEADER_WIDTH + ARRAY_POINTER_OFFSET,
        PUBLIC_KEY_PAYLOAD_WORDS == 2 * COORDINATE_BYTES,
{
}

} // verus!
