//! Records of the append-only audit log.
//!
//! A block carries an assigned identifier, an opaque payload, and optionally
//! a trailing witness. Once written under a given id a block is immutable
//! forever: the log offers no update or delete operation.

use vstd::prelude::*;
use vstd::slice::slice_to_vec;
use crate::id::{u64_be_bytes, Id};
use crate::witness::{sig_views, SignatureView, Witness};

verus! {

/// The mathematical content of a block.
pub ghost struct BlockView {
    /// Numeric value of the assigned identifier, if one is assigned.
    pub id: Option<u64>,
    /// The opaque payload bytes.
    pub payload: Seq<u8>,
    /// The trailing witness, if one is attached.
    pub witness: Option<Seq<SignatureView>>,
}

/// One append-only audit-log record.
pub struct Block {
    /// The assigned identifier; callers must assign one before the block is
    /// appended to the log.
    pub id: Option<Id>,
    /// The opaque payload bytes.
    pub payload: Vec<u8>,
    /// The trailing witness, if one is attached.
    pub witness: Option<Witness>,
}

impl View for Block {
    type V = BlockView;

    open spec fn view(&self) -> BlockView {
        BlockView {
            id: match self.id {
                Some(id) => Some(id.value()),
                None => None,
            },
            payload: self.payload@,
            witness: match self.witness {
                Some(w) => Some(w@),
                None => None,
            },
        }
    }
}

/// The durable byte form of one signature: its signer and raw bytes, each
/// length-prefixed.
pub open spec fn sig_encoding(s: SignatureView) -> Seq<u8> {
    u64_be_bytes(s.signer.len() as u64) + s.signer + u64_be_bytes(s.bytes.len() as u64) + s.bytes
}

/// The durable byte form of a sequence of signatures, in order.
pub open spec fn sigs_encoding(ss: Seq<SignatureView>) -> Seq<u8>
    decreases ss.len(),
{
    if ss.len() == 0 {
        Seq::empty()
    } else {
        sig_encoding(ss[0]) + sigs_encoding(ss.drop_first())
    }
}

/// Appending a signature extends the encoded form at its end.
pub proof fn lemma_sigs_encoding_push(ss: Seq<SignatureView>, s: SignatureView)
    ensures
        sigs_encoding(ss.push(s)) == sigs_encoding(ss) + sig_encoding(s),
    decreases ss.len(),
{
    if ss.len() == 0 {
        assert(ss.push(s).drop_first() =~= Seq::<SignatureView>::empty());
        assert(ss.push(s)[0] == s);
        assert(sigs_encoding(Seq::<SignatureView>::empty()) =~= Seq::<u8>::empty());
        assert(sigs_encoding(ss.push(s)) =~= sigs_encoding(ss) + sig_encoding(s));
    } else {
        assert(ss.push(s).drop_first() =~= ss.drop_first().push(s));
        lemma_sigs_encoding_push(ss.drop_first(), s);
        assert(sigs_encoding(ss.push(s)) =~= sigs_encoding(ss) + sig_encoding(s));
    }
}

/// The durable byte form of a witness: its signature count, then each
/// signature in order.
pub open spec fn witness_encoding(w: Seq<SignatureView>) -> Seq<u8> {
    u64_be_bytes(w.len() as u64) + sigs_encoding(w)
}

/// The deterministic durable byte form of a block: its identifier, its
/// length-prefixed payload, and a tagged optional witness.
pub open spec fn block_encoding(b: BlockView) -> Seq<u8>
    recommends
        b.id is Some,
{
    let id = match b.id {
        Some(id) => id,
        None => 0,
    };
    u64_be_bytes(id) + u64_be_bytes(b.payload.len() as u64) + b.payload + (match b.witness {
        None => seq![0u8],
        Some(w) => seq![1u8] + witness_encoding(w),
    })
}

/// Encode a 64-bit value as 8 big-endian bytes.
fn u64_to_be_vec(v: u64) -> (r: Vec<u8>)
    ensures
        r@ == u64_be_bytes(v),
{
    Id::from_value(v).as_bytes()
}

impl Block {
    /// A block over the given payload, with no id assigned yet and no
    /// witness.
    pub fn new(payload: Vec<u8>) -> (r: Block)
        ensures
            r@ == (BlockView { id: None, payload: payload@, witness: None }),
    {
        Block { id: None, payload, witness: None }
    }

    /// Serialize this block deterministically into its durable byte form.
    pub fn to_bytes(&self) -> (r: Vec<u8>)
        requires
            self@.id is Some,
        ensures
            r@ == block_encoding(self@),
    {
        let id = match self.id {
            Some(id) => id,
            None => Id::root(),
        };
        let mut out = id.as_bytes();
        let mut len_bytes = u64_to_be_vec(self.payload.len() as u64);
        out.append(&mut len_bytes);
        let mut payload = slice_to_vec(self.payload.as_slice());
        out.append(&mut payload);
        match &self.witness {
            None => {
                out.push(0u8);
                proof {
                    assert(out@ =~= block_encoding(self@));
                }
            },
            Some(w) => {
                out.push(1u8);
                let sigs = w.get_signatures();
                let ghost ws = w@;
                let mut count_bytes = u64_to_be_vec(sigs.len() as u64);
                out.append(&mut count_bytes);
                let ghost head = out@;
                let n = sigs.len();
                let mut i: usize = 0;
                while i < n
                    invariant
                        n == sigs@.len(),
                        ws == sig_views(sigs@),
                        i <= n,
                        out@ == head + sigs_encoding(ws.take(i as int)),
                    decreases n - i,
                {
                    let sig = &sigs[i];
                    let mut piece = u64_to_be_vec(sig.signer.len() as u64);
                    out.append(&mut piece);
                    let mut signer = slice_to_vec(sig.signer.as_slice());
                    out.append(&mut signer);
                    let mut piece2 = u64_to_be_vec(sig.bytes.len() as u64);
                    out.append(&mut piece2);
                    let mut sig_bytes = slice_to_vec(sig.bytes.as_slice());
                    out.append(&mut sig_bytes);
                    proof {
                        lemma_sigs_encoding_push(ws.take(i as int), ws[i as int]);
                        assert(ws.take(i as int).push(ws[i as int]) =~= ws.take(i as int + 1));
                        assert(out@ =~= head + sigs_encoding(ws.take(i as int + 1)));
                    }
                    i += 1;
                }
                proof {
                    assert(ws.take(n as int) =~= ws);
                    assert(out@ =~= block_encoding(self@));
                }
            },
        }
        out
    }
}

} // verus!
