//! Public keys and the small enumerations of their header.
//!
//! Each enumeration has a number, which stands for it in memory and on the limb
//! tape, and a name, which stands for it in text.

use vstd::prelude::*;

verus! {

/// Key type.
#[derive(Clone, Copy, Debug, PartialEq, Eq, Structural)]
pub enum Kty {
    EC,
}

impl Kty {
    /// The number that stands for this key type.
    pub open spec fn spec_code(self) -> u8 {
        match self {
            Kty::EC => 1,
        }
    }

    /// The key type that a number stands for, if any.
    pub open spec fn spec_from_code(code: u64) -> Option<Kty> {
        if code == 1 {
            Some(Kty::EC)
        } else {
            None
        }
    }

    /// The name of this key type in text.
    pub open spec fn spec_name(self) -> Seq<char> {
        match self {
            Kty::EC => seq!['E', 'C'],
        }
    }

    /// The key type that a name stands for, if any.
    pub open spec fn spec_from_name(name: Seq<char>) -> Option<Kty> {
        if name == seq!['E', 'C'] {
            Some(Kty::EC)
        } else {
            None
        }
    }

    pub fn code(self) -> (code: u8)
        ensures
            code == self.spec_code(),
    {
        match self {
            Kty::EC => 1,
        }
    }

    pub fn from_code(code: u64) -> (found: Option<Kty>)
        ensures
            found == Kty::spec_from_code(code),
    {
        if code == 1 {
            Some(Kty::EC)
        } else {
            None
        }
    }

    pub fn from_name(name: &[char]) -> (found: Option<Kty>)
        ensures
            found == Kty::spec_from_name(name@),
    {
        let expected: [char; 2] = ['E', 'C'];
        assert(expected@ =~= seq!['E', 'C']);
        if crate::text::same_text(name, expected.as_slice()) {
            Some(Kty::EC)
        } else {
            None
        }
    }

    /// A number names a key type exactly when it is the number of one, and a name
    /// exactly when it is the name of one.
    pub proof fn lemma_code_and_name_round_trip(self)
        ensures
            Kty::spec_from_code(self.spec_code() as u64) == Some(self),
            Kty::spec_from_name(self.spec_name()) == Some(self),
    {
    }
}

/// Curve.
#[derive(Clone, Copy, Debug, PartialEq, Eq, Structural)]
pub enum Crv {
    Secp256k1,
}

impl Crv {
    /// The number that stands for this curve.
    pub open spec fn spec_code(self) -> u8 {
        match self {
            Crv::Secp256k1 => 1,
        }
    }

    /// The curve that a number stands for, if any.
    pub open spec fn spec_from_code(code: u64) -> Option<Crv> {
        if code == 1 {
            Some(Crv::Secp256k1)
        } else {
            None
        }
    }

    /// The name of this curve in text.
    pub open spec fn spec_name(self) -> Seq<char> {
        match self {
            Crv::Secp256k1 => seq!['s', 'e', 'c', 'p', '2', '5', '6', 'k', '1'],
        }
    }

    /// The curve that a name stands for, if any.
    pub open spec fn spec_from_name(name: Seq<char>) -> Option<Crv> {
        if name == seq!['s', 'e', 'c', 'p', '2', '5', '6', 'k', '1'] {
            Some(Crv::Secp256k1)
        } else {
            None
        }
    }

    pub fn code(self) -> (code: u8)
        ensures
            code == self.spec_code(),
    {
        match self {
            Crv::Secp256k1 => 1,
        }
    }

    pub fn from_code(code: u64) -> (found: Option<Crv>)
        ensures
            found == Crv::spec_from_code(code),
    {
        if code == 1 {
            Some(Crv::Secp256k1)
        } else {
            None
        }
    }

    pub fn from_name(name: &[char]) -> (found: Option<Crv>)
        ensures
            found == Crv::spec_from_name(name@),
    {
        let expected: [char; 9] = ['s', 'e', 'c', 'p', '2', '5', '6', 'k', '1'];
        assert(expected@ =~= seq!['s', 'e', 'c', 'p', '2', '5', '6', 'k', '1']);
        if crate::text::same_text(name, expected.as_slice()) {
            Some(Crv::Secp256k1)
        } else {
            None
        }
    }

    /// A number names a curve exactly when it is the number of one, and a name
    /// exactly when it is the name of one.
    pub proof fn lemma_code_and_name_round_trip(self)
        ensures
            Crv::spec_from_code(self.spec_code() as u64) == Some(self),
            Crv::spec_from_name(self.spec_name()) == Some(self),
    {
    }
}

/// Signature algorithm.
#[derive(Clone, Copy, Debug, PartialEq, Eq, Structural)]
pub enum Alg {
    ES256K,
}

impl Alg {
    /// The number that stands for this algorithm.
    pub open spec fn spec_code(self) -> u8 {
        match self {
            Alg::ES256K => 1,
        }
    }

    /// The algorithm that a number stands for, if any.
    pub open spec fn spec_from_code(code: u64) -> Option<Alg> {
        if code == 1 {
            Some(Alg::ES256K)
        } else {
            None
        }
    }

    /// The name of this algorithm in text.
    pub open spec fn spec_name(self) -> Seq<char> {
        match self {
            Alg::ES256K => seq!['E', 'S', '2', '5', '6', 'K'],
        }
    }

    /// The algorithm that a name stands for, if any.
    pub open spec fn spec_from_name(name: Seq<char>) -> Option<Alg> {
        if name == seq!['E', 'S', '2', '5', '6', 'K'] {
            Some(Alg::ES256K)
        } else {
            None
        }
    }

    pub fn code(self) -> (code: u8)
        ensures
            code == self.spec_code(),
    {
        match self {
            Alg::ES256K => 1,
        }
    }

    pub fn from_code(code: u64) -> (found: Option<Alg>)
        ensures
            found == Alg::spec_from_code(code),
    {
        if code == 1 {
            Some(Alg::ES256K)
        } else {
            None
        }
    }

    pub fn from_name(name: &[char]) -> (found: Option<Alg>)
        ensures
            found == Alg::spec_from_name(name@),
    {
        let expected: [char; 6] = ['E', 'S', '2', '5', '6', 'K'];
        assert(expected@ =~= seq!['E', 'S', '2', '5', '6', 'K']);
        if crate::text::same_text(name, expected.as_slice()) {
            Some(Alg::ES256K)
        } else {
            None
        }
    }

    /// A number names a algorithm exactly when it is the number of one, and a name
    /// exactly when it is the name of one.
    pub proof fn lemma_code_and_name_round_trip(self)
        ensures
            Alg::spec_from_code(self.spec_code() as u64) == Some(self),
            Alg::spec_from_name(self.spec_name()) == Some(self),
    {
    }
}

/// Intended use of the key.
#[derive(Clone, Copy, Debug, PartialEq, Eq, Structural)]
pub enum Use {
    Sig,
}

impl Use {
    /// The number that stands for this use.
    pub open spec fn spec_code(self) -> u8 {
        match self {
            Use::Sig => 1,
        }
    }

    /// The use that a number stands for, if any.
    pub open spec fn spec_from_code(code: u64) -> Option<Use> {
        if code == 1 {
            Some(Use::Sig)
        } else {
            None
        }
    }

    /// The name of this use in text.
    pub open spec fn spec_name(self) -> Seq<char> {
        match self {
            Use::Sig => seq!['s', 'i', 'g'],
        }
    }

    /// The use that a name stands for, if any.
    pub open spec fn spec_from_name(name: Seq<char>) -> Option<Use> {
        if name == seq!['s', 'i', 'g'] {
            Some(Use::Sig)
        } else {
            None
        }
    }

    pub fn code(self) -> (code: u8)
        ensures
            code == self.spec_code(),
    {
        match self {
            Use::Sig => 1,
        }
    }

    pub fn from_code(code: u64) -> (found: Option<Use>)
        ensures
            found == Use::spec_from_code(code),
    {
        if code == 1 {
            Some(Use::Sig)
        } else {
            None
        }
    }

    pub fn from_name(name: &[char]) -> (found: Option<Use>)
        ensures
            found == Use::spec_from_name(name@),
    {
        let expected: [char; 3] = ['s', 'i', 'g'];
        assert(expected@ =~= seq!['s', 'i', 'g']);
        if crate::text::same_text(name, expected.as_slice()) {
            Some(Use::Sig)
        } else {
            None
        }
    }

    /// A number names a use exactly when it is the number of one, and a name
    /// exactly when it is the name of one.
    pub proof fn lemma_code_and_name_round_trip(self)
        ensures
            Use::spec_from_code(self.spec_code() as u64) == Some(self),
            Use::spec_from_name(self.spec_name()) == Some(self),
    {
    }
}

/// A public key: its header fields and the two coordinates of its point.
#[derive(Clone, Copy, Debug, PartialEq, Eq)]
pub struct Key {
    pub kty: Kty,
    pub crv: Crv,
    pub alg: Alg,
    pub use_: Use,
    pub x: [u8; 32],
    pub y: [u8; 32],
}

/// What a public key holds, with the coordinates as sequences of bytes.
pub ghost struct SpecKey {
    pub kty: Kty,
    pub crv: Crv,
    pub alg: Alg,
    pub use_: Use,
    pub x: Seq<u8>,
    pub y: Seq<u8>,
}

impl View for Key {
    type V = SpecKey;

    open spec fn view(&self) -> SpecKey {
        SpecKey { kty: self.kty, crv: self.crv, alg: self.alg, use_: self.use_, x: self.x@, y: self.y@ }
    }
}

impl SpecKey {
    /// Both coordinates have the length that a key requires.
    pub open spec fn well_formed(self) -> bool {
        self.x.len() == 32 && self.y.len() == 32
    }
}

/// Copies 32 bytes, starting at `from`, into a coordinate.
pub fn coordinate_from(bytes: &[u8], from: usize) -> (coordinate: [u8; 32])
    requires
        from + 32 <= bytes.len(),
    ensures
        coordinate@ == bytes@.subrange(from as int, from + 32),
{
    let mut coordinate: [u8; 32] = [0u8; 32];
    let mut i: usize = 0;
    while i < 32
        invariant
            i <= 32,
            from + 32 <= bytes.len(),
            forall|j: int| 0 <= j < i ==> coordinate@[j] == bytes@[from + j],
        decreases 32 - i,
    {
        coordinate[i] = bytes[from + i];
        i += 1;
    }
    assert(coordinate@ =~= bytes@.subrange(from as int, from + 32));
    coordinate
}

} // verus!
