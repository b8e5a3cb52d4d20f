//! The archive wire format: fixed-footprint, little-endian, structurally
//! validated before use.
//!
//! A value of an archivable type has one canonical byte form whose length is
//! statically known (the archived footprint, distinct from the in-memory
//! size).  Decoding never trusts its input: it checks the length and every
//! structural constraint before producing a value.

use vstd::bytes::*;
use vstd::prelude::*;

verus! {

/// An archivable type: one canonical fixed-width byte form, a strict parser,
/// and a proof that parsing inverts archiving.
pub trait Wire: Sized {
    /// Archived byte footprint of the type, statically known.
    spec fn spec_wire_len() -> nat;

    /// The canonical archived form of a value.
    spec fn to_wire(self) -> Seq<u8>;

    /// Strict structural parse: `Some` exactly on well-formed archives.
    spec fn of_wire(b: Seq<u8>) -> Option<Self>;

    fn wire_len() -> (n: usize)
        ensures
            n as nat == Self::spec_wire_len(),
    ;

    fn encode(&self) -> (out: Vec<u8>)
        ensures
            out@ == self.to_wire(),
    ;

    fn decode(b: &[u8]) -> (r: Option<Self>)
        ensures
            r == Self::of_wire(b@),
    ;

    /// The archived form has the advertised footprint.
    proof fn lemma_wire_len(self)
        ensures
            self.to_wire().len() == Self::spec_wire_len(),
    ;

    /// Archived footprints are small: offset arithmetic on them stays well
    /// inside the 32-bit wire range.
    proof fn lemma_wire_len_bound()
        ensures
            Self::spec_wire_len() <= 65536,
    ;

    /// Only byte strings of the advertised footprint parse.
    proof fn lemma_parse_len(b: Seq<u8>)
        ensures
            Self::of_wire(b) is Some ==> b.len() == Self::spec_wire_len(),
    ;

    /// Archive round-trip: decoding the archived form of a value yields the
    /// value itself.
    proof fn lemma_round_trip(self)
        ensures
            Self::of_wire(self.to_wire()) == Some(self),
    ;
}

impl Wire for u32 {
    open spec fn spec_wire_len() -> nat {
        4
    }

    open spec fn to_wire(self) -> Seq<u8> {
        spec_u32_to_le_bytes(self)
    }

    open spec fn of_wire(b: Seq<u8>) -> Option<Self> {
        if b.len() == 4 {
            Some(spec_u32_from_le_bytes(b))
        } else {
            None
        }
    }

    fn wire_len() -> usize {
        4
    }

    fn encode(&self) -> Vec<u8> {
        u32_to_le_bytes(*self)
    }

    fn decode(b: &[u8]) -> Option<Self> {
        if b.len() == 4 {
            Some(u32_from_le_bytes(b))
        } else {
            None
        }
    }

    proof fn lemma_wire_len(self) {
        lemma_auto_spec_u32_to_from_le_bytes();
    }

    proof fn lemma_wire_len_bound() {
    }

    proof fn lemma_parse_len(b: Seq<u8>) {
    }

    proof fn lemma_round_trip(self) {
        lemma_auto_spec_u32_to_from_le_bytes();
    }
}

impl Wire for u64 {
    open spec fn spec_wire_len() -> nat {
        8
    }

    open spec fn to_wire(self) -> Seq<u8> {
        spec_u64_to_le_bytes(self)
    }

    open spec fn of_wire(b: Seq<u8>) -> Option<Self> {
        if b.len() == 8 {
            Some(spec_u64_from_le_bytes(b))
        } else {
            None
        }
    }

    fn wire_len() -> usize {
        8
    }

    fn encode(&self) -> Vec<u8> {
        u64_to_le_bytes(*self)
    }

    fn decode(b: &[u8]) -> Option<Self> {
        if b.len() == 8 {
            Some(u64_from_le_bytes(b))
        } else {
            None
        }
    }

    proof fn lemma_wire_len(self) {
        lemma_auto_spec_u64_to_from_le_bytes();
    }

    proof fn lemma_wire_len_bound() {
    }

    proof fn lemma_parse_len(b: Seq<u8>) {
    }

    proof fn lemma_round_trip(self) {
        lemma_auto_spec_u64_to_from_le_bytes();
    }
}

impl Wire for i32 {
    open spec fn spec_wire_len() -> nat {
        4
    }

    open spec fn to_wire(self) -> Seq<u8> {
        spec_u32_to_le_bytes(self as u32)
    }

    open spec fn of_wire(b: Seq<u8>) -> Option<Self> {
        if b.len() == 4 {
            Some(spec_u32_from_le_bytes(b) as i32)
        } else {
            None
        }
    }

    fn wire_len() -> usize {
        4
    }

    fn encode(&self) -> Vec<u8> {
        u32_to_le_bytes(*self as u32)
    }

    fn decode(b: &[u8]) -> Option<Self> {
        if b.len() == 4 {
            Some(u32_from_le_bytes(b) as i32)
        } else {
            None
        }
    }

    proof fn lemma_wire_len(self) {
        lemma_auto_spec_u32_to_from_le_bytes();
    }

    proof fn lemma_wire_len_bound() {
    }

    proof fn lemma_parse_len(b: Seq<u8>) {
    }

    proof fn lemma_round_trip(self) {
        lemma_auto_spec_u32_to_from_le_bytes();
        assert(self as u32 as i32 == self) by (bit_vector);
    }
}

/// An optional value: a strict tag byte, then the payload; an absent value
/// carries a zeroed payload so every value has exactly one archive.
impl Wire for Option<i32> {
    open spec fn spec_wire_len() -> nat {
        5
    }

    open spec fn to_wire(self) -> Seq<u8> {
        match self {
            None => seq![0u8, 0u8, 0u8, 0u8, 0u8],
            Some(v) => seq![1u8] + v.to_wire(),
        }
    }

    open spec fn of_wire(b: Seq<u8>) -> Option<Self> {
        if b.len() == 5 {
            if b[0] == 0u8 {
                if b[1] == 0u8 && b[2] == 0u8 && b[3] == 0u8 && b[4] == 0u8 {
                    Some(None)
                } else {
                    None
                }
            } else if b[0] == 1u8 {
                match i32::of_wire(b.subrange(1, 5)) {
                    Some(v) => Some(Some(v)),
                    None => None,
                }
            } else {
                None
            }
        } else {
            None
        }
    }

    fn wire_len() -> usize {
        5
    }

    fn encode(&self) -> Vec<u8> {
        match self {
            None => vec![0u8, 0u8, 0u8, 0u8, 0u8],
            Some(v) => {
                let mut out: Vec<u8> = Vec::new();
                out.push(1u8);
                let payload = v.encode();
                out.extend_from_slice(payload.as_slice());
                proof {
                    assert(out@ =~= self.to_wire());
                }
                out
            },
        }
    }

    fn decode(b: &[u8]) -> Option<Self> {
        if b.len() != 5 {
            return None;
        }
        let tag = *vstd::slice::slice_index_get(b, 0);
        if tag == 0u8 {
            let z1 = *vstd::slice::slice_index_get(b, 1);
            let z2 = *vstd::slice::slice_index_get(b, 2);
            let z3 = *vstd::slice::slice_index_get(b, 3);
            let z4 = *vstd::slice::slice_index_get(b, 4);
            if z1 == 0u8 && z2 == 0u8 && z3 == 0u8 && z4 == 0u8 {
                Some(None)
            } else {
                None
            }
        } else if tag == 1u8 {
            let payload = vstd::slice::slice_subrange(b, 1, 5);
            match i32::decode(payload) {
                Some(v) => Some(Some(v)),
                None => None,
            }
        } else {
            None
        }
    }

    proof fn lemma_wire_len(self) {
        match self {
            None => {},
            Some(v) => {
                v.lemma_wire_len();
            },
        }
    }

    proof fn lemma_wire_len_bound() {
    }

    proof fn lemma_parse_len(b: Seq<u8>) {
    }

    proof fn lemma_round_trip(self) {
        match self {
            None => {},
            Some(v) => {
                let b = self.to_wire();
                v.lemma_wire_len();
                assert(b.subrange(1, 5) =~= v.to_wire());
                v.lemma_round_trip();
            },
        }
    }
}

/// The strict parse only accepts canonical archives: whatever an optional
/// integer was decoded from is the very archive it encodes back to.
pub proof fn lemma_option_i32_canonical(b: Seq<u8>)
    ensures
        <Option<i32> as Wire>::of_wire(b) matches Some(x) ==> x.to_wire() == b,
{
    match <Option<i32> as Wire>::of_wire(b) {
        Some(x) => match x {
            None => {
                assert(x.to_wire() =~= b);
            },
            Some(v) => {
                lemma_auto_spec_u32_to_from_le_bytes();
                let payload = b.subrange(1, 5);
                let u = spec_u32_from_le_bytes(payload);
                assert(u as i32 as u32 == u) by (bit_vector);
                assert(spec_u32_to_le_bytes(u) =~= payload);
                assert(x.to_wire() =~= b);
            },
        },
        None => {},
    }
}

impl Wire for () {
    open spec fn spec_wire_len() -> nat {
        0
    }

    open spec fn to_wire(self) -> Seq<u8> {
        Seq::empty()
    }

    open spec fn of_wire(b: Seq<u8>) -> Option<Self> {
        if b.len() == 0 {
            Some(())
        } else {
            None
        }
    }

    fn wire_len() -> usize {
        0
    }

    fn encode(&self) -> Vec<u8> {
        Vec::new()
    }

    fn decode(b: &[u8]) -> Option<Self> {
        if b.len() == 0 {
            Some(())
        } else {
            None
        }
    }

    proof fn lemma_wire_len(self) {
    }

    proof fn lemma_wire_len_bound() {
    }

    proof fn lemma_parse_len(b: Seq<u8>) {
    }

    proof fn lemma_round_trip(self) {
        assert(self.to_wire().len() == 0);
    }
}

} // verus!
