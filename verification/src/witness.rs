//! Witness data attached to a block of the audit log: an ordered bundle of
//! signatures attesting the block's canonical hash. Several independent
//! signers may co-sign the same hash; the signatures are kept in append
//! order.

use vstd::prelude::*;
use crate::canonical::{
    bytes_digest,
    dict_digest,
    hash_bytes,
    hash_list,
    hash_record,
    hash_str,
    list_digest,
    string_digest,
};
use crate::store::vec_views;

verus! {

/// The mathematical content of one signature.
pub ghost struct SignatureView {
    /// Identity of the signer.
    pub signer: Seq<u8>,
    /// The raw signature bytes.
    pub bytes: Seq<u8>,
}

/// One signer's attestation over a canonical hash. Opaque to the core:
/// produced and checked by an external signing capability.
pub struct Signature {
    /// Identity of the signer.
    pub signer: Vec<u8>,
    /// The raw signature bytes.
    pub bytes: Vec<u8>,
}

impl View for Signature {
    type V = SignatureView;

    open spec fn view(&self) -> SignatureView {
        SignatureView { signer: self.signer@, bytes: self.bytes@ }
    }
}

/// The views of a sequence of signatures.
pub open spec fn sig_views(s: Seq<Signature>) -> Seq<SignatureView> {
    s.map_values(|sig: Signature| sig@)
}

/// A bundle of signatures attesting one canonical hash, in append order.
pub struct Witness {
    signatures: Vec<Signature>,
}

impl View for Witness {
    type V = Seq<SignatureView>;

    closed spec fn view(&self) -> Seq<SignatureView> {
        sig_views(self.signatures@)
    }
}

impl Witness {
    /// A witness carrying no signatures yet.
    pub fn new() -> (r: Witness)
        ensures
            r@ == Seq::<SignatureView>::empty(),
    {
        let r = Witness { signatures: Vec::new() };
        proof {
            assert(r@ =~= Seq::<SignatureView>::empty());
        }
        r
    }

    /// Drop all signatures.
    pub fn clear_signatures(&mut self)
        ensures
            final(self)@ == Seq::<SignatureView>::empty(),
    {
        self.signatures = Vec::new();
        proof {
            assert(self@ =~= Seq::<SignatureView>::empty());
        }
    }

    /// Replace the signatures with the given bundle.
    pub fn set_signatures(&mut self, v: Vec<Signature>)
        ensures
            final(self)@ == sig_views(v@),
    {
        self.signatures = v;
    }

    /// Borrow the signatures mutably.
    pub fn mut_signatures(&mut self) -> (r: &mut Vec<Signature>)
        ensures
            sig_views((*r)@) == old(self)@,
            final(self)@ == sig_views((*final(r))@),
    {
        &mut self.signatures
    }

    /// Take the signatures out, leaving the witness empty.
    pub fn take_signatures(&mut self) -> (r: Vec<Signature>)
        ensures
            sig_views(r@) == old(self)@,
            final(self)@ == Seq::<SignatureView>::empty(),
    {
        let mut r: Vec<Signature> = Vec::new();
        core::mem::swap(&mut self.signatures, &mut r);
        proof {
            assert(self@ =~= Seq::<SignatureView>::empty());
        }
        r
    }

    /// Read the signatures in append order.
    pub fn get_signatures(&self) -> (r: &[Signature])
        ensures
            sig_views(r@) == self@,
    {
        self.signatures.as_slice()
    }

    /// Append one signature to the bundle.
    pub fn push_signature(&mut self, sig: Signature)
        ensures
            final(self)@ == old(self)@.push(sig@),
    {
        self.signatures.push(sig);
        proof {
            assert(self@ =~= old(self)@.push(sig@));
        }
    }
}

/// The field-name characters of a signature's signer field.
pub open spec fn signer_label() -> Seq<char> {
    seq!['s', 'i', 'g', 'n', 'e', 'r']
}

/// The field-name characters of a signature's raw-bytes field.
pub open spec fn signature_label() -> Seq<char> {
    seq!['s', 'i', 'g', 'n', 'a', 't', 'u', 'r', 'e']
}

/// The field-name characters of a witness's signature list.
pub open spec fn signatures_label() -> Seq<char> {
    seq!['s', 'i', 'g', 'n', 'a', 't', 'u', 'r', 'e', 's']
}

/// The canonical hash of one signature: a record of its signer identity
/// and raw signature bytes.
pub open spec fn signature_digest(s: SignatureView) -> Seq<u8> {
    dict_digest(
        seq![
            string_digest(signer_label()) + bytes_digest(s.signer),
            string_digest(signature_label()) + bytes_digest(s.bytes),
        ],
    )
}

/// The canonical hash of a witness: a record whose one field holds the
/// ordered list of its signatures' canonical hashes.
pub open spec fn witness_digest_of(w: Seq<SignatureView>) -> Seq<u8> {
    dict_digest(
        seq![
            string_digest(signatures_label()) + list_digest(
                w.map_values(|s: SignatureView| signature_digest(s)),
            ),
        ],
    )
}

impl Signature {
    /// The canonical, serialization-independent hash of this signature.
    pub fn objecthash(&self) -> (r: Vec<u8>)
        ensures
            r@ == signature_digest(self@),
    {
        proof {
            reveal_strlit("signer");
            reveal_strlit("signature");
            assert("signer"@ =~= signer_label());
            assert("signature"@ =~= signature_label());
        }
        let mut members: Vec<(Vec<u8>, Vec<u8>)> = Vec::new();
        members.push((hash_str("signer"), hash_bytes(self.signer.as_slice())));
        members.push((hash_str("signature"), hash_bytes(self.bytes.as_slice())));
        let r = hash_record(&members);
        proof {
            assert(members@.map_values(|m: (Vec<u8>, Vec<u8>)| m.0@ + m.1@) =~= seq![
                string_digest(signer_label()) + bytes_digest(self@.signer),
                string_digest(signature_label()) + bytes_digest(self@.bytes),
            ]);
        }
        r
    }
}

impl Witness {
    /// The canonical, serialization-independent hash of this witness: what
    /// co-signers attest when they sign over an existing witness.
    pub fn objecthash(&self) -> (r: Vec<u8>)
        ensures
            r@ == witness_digest_of(self@),
    {
        let mut digests: Vec<Vec<u8>> = Vec::new();
        let n = self.signatures.len();
        proof {
            assert(vec_views(digests@) =~= self@.take(0).map_values(
                |s: SignatureView| signature_digest(s),
            ));
        }
        let mut i: usize = 0;
        while i < n
            invariant
                n == self.signatures@.len(),
                self@ == sig_views(self.signatures@),
                i <= n,
                vec_views(digests@) == self@.take(i as int).map_values(
                    |s: SignatureView| signature_digest(s),
                ),
            decreases n - i,
        {
            let d = self.signatures[i].objecthash();
            let ghost d0 = vec_views(digests@);
            digests.push(d);
            proof {
                let f = |s: SignatureView| signature_digest(s);
                assert(self@.take(i as int + 1) =~= self@.take(i as int).push(self@[i as int]));
                assert(vec_views(digests@) =~= d0.push(f(self@[i as int])));
                assert(self@.take(i as int).push(self@[i as int]).map_values(f) =~= self@.take(
                    i as int,
                ).map_values(f).push(f(self@[i as int])));
            }
            i += 1;
        }
        proof {
            assert(self@.take(n as int) =~= self@);
            reveal_strlit("signatures");
            assert("signatures"@ =~= signatures_label());
        }
        let list = hash_list(&digests);
        let mut members: Vec<(Vec<u8>, Vec<u8>)> = Vec::new();
        members.push((hash_str("signatures"), list));
        let r = hash_record(&members);
        proof {
            assert(members@.map_values(|m: (Vec<u8>, Vec<u8>)| m.0@ + m.1@) =~= seq![
                string_digest(signatures_label()) + list_digest(
                    self@.map_values(|s: SignatureView| signature_digest(s)),
                ),
            ]);
        }
        r
    }
}

} // verus!
