//! Durable, order-preserving identifiers for namespace nodes.
//!
//! An `Id` is a fixed-width integer encoded as 8 big-endian bytes, so that
//! the lexicographic order of the encodings matches the numeric order of the
//! identifiers. The root of the namespace has the reserved value 0; fresh
//! identifiers are assigned strictly increasing and never reused.

use vstd::prelude::*;
use crate::canonical::lex_le;

verus! {

/// Identifier of one namespace node.
#[derive(Clone, Copy, PartialEq, Eq, Structural, Debug, Hash)]
pub struct Id {
    value: u64,
}

/// The 8-byte big-endian encoding of a 64-bit value.
pub open spec fn u64_be_bytes(v: u64) -> Seq<u8> {
    seq![
        (v >> 56) as u8,
        (v >> 48) as u8,
        (v >> 40) as u8,
        (v >> 32) as u8,
        (v >> 24) as u8,
        (v >> 16) as u8,
        (v >> 8) as u8,
        v as u8,
    ]
}

/// The 64-bit value encoded by 8 big-endian bytes.
pub open spec fn u64_from_be_bytes(s: Seq<u8>) -> u64
    recommends
        s.len() == 8,
{
    (((s[0] as u64) << 56) | ((s[1] as u64) << 48) | ((s[2] as u64) << 40) | ((s[3] as u64) << 32)
        | ((s[4] as u64) << 24) | ((s[5] as u64) << 16) | ((s[6] as u64) << 8) | (
    s[7] as u64)) as u64
}

/// Decoding inverts encoding: the 8 big-endian bytes of a value decode back
/// to that value.
pub broadcast proof fn lemma_u64_be_bytes_roundtrip(v: u64)
    ensures
        u64_from_be_bytes(#[trigger] u64_be_bytes(v)) == v,
{
    assert(((((v >> 56) as u8) as u64) << 56) | ((((v >> 48) as u8) as u64) << 48) | ((((v
        >> 40) as u8) as u64) << 40) | ((((v >> 32) as u8) as u64) << 32) | ((((v
        >> 24) as u8) as u64) << 24) | ((((v >> 16) as u8) as u64) << 16) | ((((v
        >> 8) as u8) as u64) << 8) | (((v as u8) as u64)) == v) by (bit_vector);
}


/// The 8-byte big-endian encoding is order-preserving: lexicographic order
/// of the encodings coincides with numeric order of the identifiers, so an
/// ordered store keyed by encoded ids iterates them in numeric order.
pub proof fn lemma_u64_be_bytes_order(a: u64, b: u64)
    ensures
        lex_le(u64_be_bytes(a), u64_be_bytes(b)) <==> a <= b,
{
    reveal_with_fuel(lex_le, 10);
    let sa = u64_be_bytes(a);
    let sb = u64_be_bytes(b);
    let sa1: Seq<u8> = seq![((a >> 48) as u8), ((a >> 40) as u8), ((a >> 32) as u8), ((a >> 24) as u8), ((a >> 16) as u8), ((a >> 8) as u8), (a as u8)];
    let sb1: Seq<u8> = seq![((b >> 48) as u8), ((b >> 40) as u8), ((b >> 32) as u8), ((b >> 24) as u8), ((b >> 16) as u8), ((b >> 8) as u8), (b as u8)];
    assert(sa.drop_first() =~= sa1);
    assert(sb.drop_first() =~= sb1);
    let sa2: Seq<u8> = seq![((a >> 40) as u8), ((a >> 32) as u8), ((a >> 24) as u8), ((a >> 16) as u8), ((a >> 8) as u8), (a as u8)];
    let sb2: Seq<u8> = seq![((b >> 40) as u8), ((b >> 32) as u8), ((b >> 24) as u8), ((b >> 16) as u8), ((b >> 8) as u8), (b as u8)];
    assert(sa1.drop_first() =~= sa2);
    assert(sb1.drop_first() =~= sb2);
    let sa3: Seq<u8> = seq![((a >> 32) as u8), ((a >> 24) as u8), ((a >> 16) as u8), ((a >> 8) as u8), (a as u8)];
    let sb3: Seq<u8> = seq![((b >> 32) as u8), ((b >> 24) as u8), ((b >> 16) as u8), ((b >> 8) as u8), (b as u8)];
    assert(sa2.drop_first() =~= sa3);
    assert(sb2.drop_first() =~= sb3);
    let sa4: Seq<u8> = seq![((a >> 24) as u8), ((a >> 16) as u8), ((a >> 8) as u8), (a as u8)];
    let sb4: Seq<u8> = seq![((b >> 24) as u8), ((b >> 16) as u8), ((b >> 8) as u8), (b as u8)];
    assert(sa3.drop_first() =~= sa4);
    assert(sb3.drop_first() =~= sb4);
    let sa5: Seq<u8> = seq![((a >> 16) as u8), ((a >> 8) as u8), (a as u8)];
    let sb5: Seq<u8> = seq![((b >> 16) as u8), ((b >> 8) as u8), (b as u8)];
    assert(sa4.drop_first() =~= sa5);
    assert(sb4.drop_first() =~= sb5);
    let sa6: Seq<u8> = seq![((a >> 8) as u8), (a as u8)];
    let sb6: Seq<u8> = seq![((b >> 8) as u8), (b as u8)];
    assert(sa5.drop_first() =~= sa6);
    assert(sb5.drop_first() =~= sb6);
    let sa7: Seq<u8> = seq![(a as u8)];
    let sb7: Seq<u8> = seq![(b as u8)];
    assert(sa6.drop_first() =~= sa7);
    assert(sb6.drop_first() =~= sb7);
    assert(sa7.drop_first() =~= Seq::<u8>::empty());
    assert(sb7.drop_first() =~= Seq::<u8>::empty());
    assert(((((a >> 56) as u8) < ((b >> 56) as u8) || (((a >> 56) as u8) == ((b >> 56) as u8) && (((a >> 48) as u8) < ((b >> 48) as u8) || (((a >> 48) as u8) == ((b >> 48) as u8) && (((a >> 40) as u8) < ((b >> 40) as u8) || (((a >> 40) as u8) == ((b >> 40) as u8) && (((a >> 32) as u8) < ((b >> 32) as u8) || (((a >> 32) as u8) == ((b >> 32) as u8) && (((a >> 24) as u8) < ((b >> 24) as u8) || (((a >> 24) as u8) == ((b >> 24) as u8) && (((a >> 16) as u8) < ((b >> 16) as u8) || (((a >> 16) as u8) == ((b >> 16) as u8) && (((a >> 8) as u8) < ((b >> 8) as u8) || (((a >> 8) as u8) == ((b >> 8) as u8) && ((a as u8) < (b as u8) || ((a as u8) == (b as u8) && true))))))))))))))))) <==> a <= b) by (bit_vector);
}

impl Id {
    /// The numeric value of this identifier.
    pub closed spec fn value(self) -> u64 {
        self.value
    }

    /// The 8-byte big-endian encoding of this identifier.
    pub open spec fn encoding(self) -> Seq<u8> {
        u64_be_bytes(self.value())
    }

    /// Read the numeric value of this identifier.
    pub fn value_of(&self) -> (r: u64)
        ensures
            r == self.value(),
    {
        self.value
    }

    /// The identifier of the namespace root.
    pub fn root() -> (r: Id)
        ensures
            r.value() == 0,
    {
        Id { value: 0 }
    }

    /// Construct an identifier from its numeric value.
    pub fn from_value(value: u64) -> (r: Id)
        ensures
            r.value() == value,
    {
        Id { value }
    }

    /// The successor identifier.
    pub fn next(self) -> (r: Id)
        requires
            self.value() < u64::MAX,
        ensures
            r.value() == self.value() + 1,
    {
        Id { value: self.value + 1 }
    }

    /// Encode this identifier as 8 big-endian bytes.
    pub fn as_bytes(&self) -> (r: Vec<u8>)
        ensures
            r@ == self.encoding(),
            r@.len() == 8,
    {
        let v = self.value;
        let r: Vec<u8> = vec![
            (v >> 56) as u8,
            (v >> 48) as u8,
            (v >> 40) as u8,
            (v >> 32) as u8,
            (v >> 24) as u8,
            (v >> 16) as u8,
            (v >> 8) as u8,
            v as u8,
        ];
        proof {
            assert(r@ =~= self.encoding());
        }
        r
    }

    /// Decode an identifier from its 8-byte big-endian encoding. Returns
    /// `None` when the slice does not hold exactly 8 bytes.
    pub fn from_bytes(bytes: &[u8]) -> (r: Option<Id>)
        ensures
            bytes@.len() == 8 ==> (r matches Some(id) && id.value() == u64_from_be_bytes(bytes@)),
            bytes@.len() != 8 ==> r is None,
    {
        if bytes.len() != 8 {
            return None;
        }
        let value: u64 = ((bytes[0] as u64) << 56) | ((bytes[1] as u64) << 48) | ((bytes[2]
            as u64) << 40) | ((bytes[3] as u64) << 32) | ((bytes[4] as u64) << 24) | ((bytes[5]
            as u64) << 16) | ((bytes[6] as u64) << 8) | (bytes[7] as u64);
        Some(Id { value })
    }
}

} // verus!
