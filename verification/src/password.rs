//! Password hashing and password-based key derivation.
//!
//! scrypt is presently the only supported password hashing function / KDF.
//! Verification uses a constant-time comparison whose running time does not
//! depend on where the first differing byte occurs, and never reveals why a
//! comparison failed. Generated secrets are human-typable: a fixed prefix,
//! a bubble-babble encoding of six random bytes, and two decimal groups.

use vstd::prelude::*;
use vstd::slice::slice_subrange;
use vstd::utf8::{encode_utf8, is_ascii_chars, is_ascii_chars_encode_utf8};
use crate::error::Error;
use crate::text::{bytes_to_string, lemma_ascii_bytes_utf8};

verus! {

/// Tag identifying which KDF produced a stored credential, persisted
/// alongside the salt and derived bytes so the algorithm can be migrated
/// without breaking old records.
#[allow(non_camel_case_types)]
#[derive(Clone, Copy, PartialEq, Eq, Structural, Debug)]
pub enum PasswordAlg {
    /// The scrypt password-based key derivation function.
    SCRYPT,
}

/// Size in bytes of a random salt to use with a password.
pub const RANDOM_SALT_SIZE: usize = 16;

/// Fixed cost parameters of the supported KDF: log2 of the CPU/memory cost.
pub const SCRYPT_LOG_N: u8 = 15;

/// Fixed cost parameters of the supported KDF: the block size.
pub const SCRYPT_R: u32 = 8;

/// Fixed cost parameters of the supported KDF: the parallelism.
pub const SCRYPT_P: u32 = 1;

/// The key scrypt derives from a password and salt under the given cost
/// parameters, filling `out_len` bytes. A pure function of its arguments:
/// the same inputs always yield the same key, which is what verification
/// relies on.
pub uninterp spec fn scrypt_of(
    password: Seq<u8>,
    salt: Seq<u8>,
    log_n: u8,
    r: u32,
    p: u32,
    out_len: nat,
) -> Seq<u8>;

/// Relies on `scrypt::scrypt` and `scrypt::Params::new`: the derived key
/// fills the requested buffer and depends on the password, salt, cost
/// parameters and output length alone.
#[verifier::external_body]
fn scrypt_derive(password: &[u8], salt: &[u8], log_n: u8, r: u32, p: u32, out_len: usize) -> (key:
    Vec<u8>)
    requires
        0 < log_n < 30,
        0 < r <= 64,
        0 < p <= 16,
        0 < out_len < 0x1_0000_0000,
    ensures
        key@.len() == out_len,
        key@ == scrypt_of(password@, salt@, log_n, r, p, out_len as nat),
{
    let params = scrypt::Params::new(log_n, r, p).expect("cost parameters are valid");
    let mut key = vec![0u8; out_len];
    scrypt::scrypt(password, salt, &params, &mut key).expect("output length is valid");
    key
}

/// Relies on `ring::constant_time::verify_slices_are_equal`: it returns Ok
/// exactly when the two slices hold equal bytes, in constant time.
#[verifier::external_body]
fn ct_eq(a: &[u8], b: &[u8]) -> (r: bool)
    ensures
        r == (a@ == b@),
{
    ring::constant_time::verify_slices_are_equal(a, b).is_ok()
}

/// Relies on `ring::rand::SystemRandom`: `fill` either fills the whole
/// buffer with random bytes or fails. Nothing is promised of the bytes.
#[verifier::external_body]
fn fill_random(len: usize) -> (r: Result<Vec<u8>, Error>)
    ensures
        match r {
            Ok(v) => v@.len() == len,
            Err(e) => e == Error::RandomnessUnavailable,
        },
{
    let mut buf = vec![0u8; len];
    match ring::rand::SecureRandom::fill(&ring::rand::SystemRandom::new(), &mut buf) {
        Ok(()) => Ok(buf),
        Err(_) => Err(Error::RandomnessUnavailable),
    }
}

/// Generate a random salt to use with a password.
pub fn random_salt() -> (r: Result<Vec<u8>, Error>)
    ensures
        match r {
            Ok(v) => v@.len() == RANDOM_SALT_SIZE,
            Err(e) => e == Error::RandomnessUnavailable,
        },
{
    fill_random(RANDOM_SALT_SIZE)
}

/// Derive a cryptographically secure key from the given password and salt,
/// filling the caller-sized output buffer. Deterministic: the same inputs
/// and output length always yield the same bytes.
pub fn derive(alg: PasswordAlg, salt: &[u8], password: &str, output_key: &mut Vec<u8>)
    requires
        alg == PasswordAlg::SCRYPT,
        0 < old(output_key).len() < 0x1_0000_0000,
    ensures
        final(output_key)@.len() == old(output_key)@.len(),
        final(output_key)@ == scrypt_of(
            encode_utf8(password@),
            salt@,
            SCRYPT_LOG_N,
            SCRYPT_R,
            SCRYPT_P,
            old(output_key)@.len(),
        ),
{
    let out_len = output_key.len();
    let key = scrypt_derive(password.as_bytes(), salt, SCRYPT_LOG_N, SCRYPT_R, SCRYPT_P, out_len);
    *output_key = key;
}

/// Whether verification accepts `derived` for this password and salt: the
/// stored bytes must equal the key the KDF re-derives at their length. An
/// empty stored key re-derives an empty buffer, which trivially matches.
pub open spec fn verify_accepts(password: Seq<char>, salt: Seq<u8>, derived: Seq<u8>) -> bool {
    if derived.len() == 0 {
        true
    } else {
        derived == scrypt_of(
            encode_utf8(password),
            salt,
            SCRYPT_LOG_N,
            SCRYPT_R,
            SCRYPT_P,
            derived.len(),
        )
    }
}

/// Verify a password against a previously derived key: re-derive a buffer
/// of the same length and compare in constant time. The result never
/// reveals why a comparison failed.
pub fn verify(alg: PasswordAlg, salt: &[u8], password: &str, previously_derived: &[u8]) -> (r:
    bool)
    requires
        alg == PasswordAlg::SCRYPT,
        previously_derived@.len() < 0x1_0000_0000,
    ensures
        r == verify_accepts(password@, salt@, previously_derived@),
{
    if previously_derived.len() == 0 {
        return true;
    }
    let out = scrypt_derive(
        password.as_bytes(),
        salt,
        SCRYPT_LOG_N,
        SCRYPT_R,
        SCRYPT_P,
        previously_derived.len(),
    );
    ct_eq(previously_derived, out.as_slice())
}

/// A derived key verifies against its originating password and salt: the
/// KDF is a function of password, salt, cost parameters and length alone,
/// so re-derivation reproduces the same bytes. (That verification rejects
/// every *other* password is a collision property of scrypt itself, outside
/// what its contract states; the tests exercise it on concrete values.)
pub proof fn lemma_derived_key_verifies(password: Seq<char>, salt: Seq<u8>, key: Seq<u8>)
    requires
        key.len() > 0,
        key == scrypt_of(
            encode_utf8(password),
            salt,
            SCRYPT_LOG_N,
            SCRYPT_R,
            SCRYPT_P,
            key.len(),
        ),
    ensures
        verify_accepts(password, salt, key),
{
}

/// The vowel alphabet of the bubble-babble encoding.
pub open spec fn babble_vowels() -> Seq<u8> {
    seq![0x61u8, 0x65u8, 0x69u8, 0x6fu8, 0x75u8, 0x79u8]
}

/// The consonant alphabet of the bubble-babble encoding.
pub open spec fn babble_consonants() -> Seq<u8> {
    seq![
        0x62u8,
        0x63u8,
        0x64u8,
        0x66u8,
        0x67u8,
        0x68u8,
        0x6bu8,
        0x6cu8,
        0x6du8,
        0x6eu8,
        0x70u8,
        0x72u8,
        0x73u8,
        0x74u8,
        0x76u8,
        0x7au8,
        0x78u8,
    ]
}

/// The vowel-consonant-vowel triple one data byte contributes, keyed by the
/// running checksum `c`.
pub open spec fn babble_triple(b: u8, c: int) -> Seq<u8>
    recommends
        0 <= c < 36,
{
    seq![
        babble_vowels()[((((b >> 6) & 3) as int) + c) % 6],
        babble_consonants()[((b >> 2) & 15) as int],
        babble_vowels()[(((b & 3) as int) + c / 6) % 6],
    ]
}

/// The consonant-dash-consonant separator the second byte of a pair
/// contributes.
pub open spec fn babble_sep(b: u8) -> Seq<u8> {
    seq![babble_consonants()[((b >> 4) & 15) as int], 0x2du8, babble_consonants()[(b & 15) as int]]
}

/// The bubble-babble body after the opening marker: bytes are consumed two
/// at a time, updating the checksum `c = (c*5 + b1*7 + b2) % 36`; a final
/// odd byte contributes a triple, and an exhausted input contributes one
/// triple computed from the checksum alone; the closing marker ends it.
pub open spec fn babble_rec(bytes: Seq<u8>, c: int) -> Seq<u8>
    recommends
        0 <= c < 36,
    decreases bytes.len(),
{
    if bytes.len() == 0 {
        seq![babble_vowels()[c % 6], babble_consonants()[16], babble_vowels()[c / 6], 0x78u8]
    } else if bytes.len() == 1 {
        babble_triple(bytes[0], c) + seq![0x78u8]
    } else {
        babble_triple(bytes[0], c) + babble_sep(bytes[1]) + babble_rec(
            bytes.skip(2),
            (c * 5 + (bytes[0] as int) * 7 + (bytes[1] as int)) % 36,
        )
    }
}

/// The bubble-babble encoding of a byte string: the body bracketed by the
/// two `x` markers, with the checksum seeded at 1.
pub open spec fn babble_encoding(bytes: Seq<u8>) -> Seq<u8> {
    seq![0x78u8] + babble_rec(bytes, 1)
}

/// Unfolds `babble_rec` at a pair boundary inside a longer input.
proof fn lemma_babble_skip(bytes: Seq<u8>, i: int, c: int)
    requires
        0 <= i,
        i + 2 <= bytes.len(),
    ensures
        babble_rec(bytes.skip(i), c) == babble_triple(bytes[i], c) + babble_sep(bytes[i + 1])
            + babble_rec(bytes.skip(i + 2), (c * 5 + (bytes[i] as int) * 7 + (bytes[i + 1] as int))
            % 36),
{
    assert(bytes.skip(i)[0] == bytes[i]);
    assert(bytes.skip(i)[1] == bytes[i + 1]);
    assert(bytes.skip(i).skip(2) =~= bytes.skip(i + 2));
}

/// Every byte of the bubble-babble body is ASCII.
proof fn lemma_babble_ascii(bytes: Seq<u8>, c: int)
    requires
        0 <= c < 36,
    ensures
        forall|i: int|
            0 <= i < babble_rec(bytes, c).len() ==> #[trigger] babble_rec(bytes, c)[i] < 128,
    decreases bytes.len(),
{
    assert(forall|k: int| 0 <= k < 6 ==> #[trigger] babble_vowels()[k] < 128);
    assert(forall|k: int| 0 <= k < 17 ==> #[trigger] babble_consonants()[k] < 128);
    let whole = babble_rec(bytes, c);
    if bytes.len() >= 2 {
        let c2 = (c * 5 + (bytes[0] as int) * 7 + (bytes[1] as int)) % 36;
        lemma_babble_ascii(bytes.skip(2), c2);
        let t = babble_triple(bytes[0], c);
        let sep = babble_sep(bytes[1]);
        let rest = babble_rec(bytes.skip(2), c2);
        assert(whole == t + sep + rest);
        let b0: u8 = bytes[0];
        let b1: u8 = bytes[1];
        assert(((b0 >> 2) & 15) < 16 && ((b1 >> 4) & 15) < 16 && (b1 & 15) < 16) by (bit_vector);
        assert forall|i: int| 0 <= i < whole.len() implies whole[i] < 128 by {
            assert(0 <= ((((b0 >> 6) & 3) as int) + c) % 6 < 6);
            assert(0 <= (((b0 & 3) as int) + c / 6) % 6 < 6);
            if i < 3 {
                assert(whole[i] == t[i]);
            } else if i < 6 {
                assert(whole[i] == sep[i - 3]);
            } else {
                assert(whole[i] == rest[i - 6]);
            }
        }
    } else if bytes.len() == 1 {
        let t = babble_triple(bytes[0], c);
        assert(whole == t + seq![0x78u8]);
        let b0: u8 = bytes[0];
        assert(((b0 >> 2) & 15) < 16) by (bit_vector);
        assert forall|i: int| 0 <= i < whole.len() implies whole[i] < 128 by {
            assert(0 <= ((((b0 >> 6) & 3) as int) + c) % 6 < 6);
            assert(0 <= (((b0 & 3) as int) + c / 6) % 6 < 6);
            if i < 3 {
                assert(whole[i] == t[i]);
            } else {
                assert(whole[i] == 0x78);
            }
        }
    }
}

/// Look up a bubble-babble vowel.
fn babble_vowel_at(i: usize) -> (r: u8)
    requires
        i < 6,
    ensures
        r == babble_vowels()[i as int],
{
    if i == 0 {
        0x61
    } else if i == 1 {
        0x65
    } else if i == 2 {
        0x69
    } else if i == 3 {
        0x6f
    } else if i == 4 {
        0x75
    } else {
        0x79
    }
}

/// Look up a bubble-babble consonant.
fn babble_consonant_at(i: usize) -> (r: u8)
    requires
        i < 17,
    ensures
        r == babble_consonants()[i as int],
{
    if i == 0 {
        0x62
    } else if i == 1 {
        0x63
    } else if i == 2 {
        0x64
    } else if i == 3 {
        0x66
    } else if i == 4 {
        0x67
    } else if i == 5 {
        0x68
    } else if i == 6 {
        0x6b
    } else if i == 7 {
        0x6c
    } else if i == 8 {
        0x6d
    } else if i == 9 {
        0x6e
    } else if i == 10 {
        0x70
    } else if i == 11 {
        0x72
    } else if i == 12 {
        0x73
    } else if i == 13 {
        0x74
    } else if i == 14 {
        0x76
    } else if i == 15 {
        0x7a
    } else {
        0x78
    }
}

/// Encode a byte string with the bubble-babble encoding.
pub fn encode_bubblebabble(bytes: &[u8]) -> (r: Vec<u8>)
    ensures
        r@ == babble_encoding(bytes@),
{
    let mut out: Vec<u8> = Vec::new();
    out.push(0x78);
    let mut c: usize = 1;
    let n = bytes.len();
    let mut i: usize = 0;
    proof {
        assert(bytes@.skip(0) =~= bytes@);
        assert(out@ =~= seq![0x78u8]);
    }
    while n - i >= 2
        invariant
            n == bytes@.len(),
            i <= n,
            c < 36,
            babble_encoding(bytes@) == out@ + babble_rec(bytes@.skip(i as int), c as int),
        decreases n - i,
    {
        let b1 = bytes[i];
        let b2 = bytes[i + 1];
        proof {
            lemma_babble_skip(bytes@, i as int, c as int);
            assert(((b1 >> 6) & 3) < 4 && ((b1 >> 2) & 15) < 16 && ((b1 & 3)) < 4) by (bit_vector);
            assert(((b2 >> 4) & 15) < 16 && ((b2 & 15)) < 16) by (bit_vector);
        }
        let ghost out0 = out@;
        out.push(babble_vowel_at((((b1 >> 6) & 3) as usize + c) % 6));
        out.push(babble_consonant_at(((b1 >> 2) & 15) as usize));
        out.push(babble_vowel_at(((b1 & 3) as usize + c / 6) % 6));
        out.push(babble_consonant_at(((b2 >> 4) & 15) as usize));
        out.push(0x2d);
        out.push(babble_consonant_at((b2 & 15) as usize));
        proof {
            assert(out@ =~= out0 + babble_triple(b1, c as int) + babble_sep(b2));
        }
        c = (c * 5 + (b1 as usize) * 7 + (b2 as usize)) % 36;
        i += 2;
    }
    if i < n {
        let b1 = bytes[i];
        let ghost out0 = out@;
        proof {
            assert(bytes@.skip(i as int).len() == 1);
            assert(bytes@.skip(i as int)[0] == bytes@[i as int]);
            assert(((b1 >> 6) & 3) < 4 && ((b1 >> 2) & 15) < 16 && ((b1 & 3)) < 4) by (bit_vector);
        }
        out.push(babble_vowel_at((((b1 >> 6) & 3) as usize + c) % 6));
        out.push(babble_consonant_at(((b1 >> 2) & 15) as usize));
        out.push(babble_vowel_at(((b1 & 3) as usize + c / 6) % 6));
        out.push(0x78);
        proof {
            assert(out@ =~= out0 + babble_triple(b1, c as int) + seq![0x78u8]);
        }
    } else {
        let ghost out0 = out@;
        proof {
            assert(bytes@.skip(i as int) =~= Seq::<u8>::empty());
        }
        out.push(babble_vowel_at(c % 6));
        out.push(babble_consonant_at(16));
        out.push(babble_vowel_at(c / 6));
        out.push(0x78);
        proof {
            assert(out@ =~= out0 + babble_rec(Seq::<u8>::empty(), c as int));
        }
    }
    out
}

/// The decimal digit byte of `n`'s last decimal place.
pub open spec fn dec_digit(n: int) -> u8 {
    (0x30 + n % 10) as u8
}

/// The bytes of the prefix added to all generated passwords.
pub open spec fn genpass_prefix() -> Seq<u8> {
    seq![
        0x49u8,
        0x54u8,
        0x48u8,
        0x4fu8,
        0x53u8,
        0x2du8,
        0x47u8,
        0x45u8,
        0x4eu8,
        0x50u8,
        0x41u8,
        0x53u8,
        0x53u8,
    ]
}

/// The bytes of the password generated from 8 random bytes: the fixed
/// prefix, a dash, the bubble-babble encoding of the first 6 bytes, a dash,
/// then two decimal digits of `b[6] % 100` and three of `b[7]`.
pub open spec fn generated_password_bytes(b: Seq<u8>) -> Seq<u8>
    recommends
        b.len() == 8,
{
    genpass_prefix() + seq![0x2du8] + babble_encoding(b.take(6)) + seq![0x2du8] + seq![
        dec_digit((b[6] as int) % 100 / 10),
        dec_digit((b[6] as int) % 100),
        dec_digit((b[7] as int) / 100),
        dec_digit((b[7] as int) / 10),
        dec_digit(b[7] as int),
    ]
}

/// Build the human-typable password the given 8 bytes determine. The
/// returned string is ASCII; its UTF-8 bytes are exactly
/// `generated_password_bytes` of the input.
pub fn generate_from_bytes(bytes: &[u8]) -> (r: String)
    requires
        bytes@.len() == 8,
    ensures
        encode_utf8(r@) == generated_password_bytes(bytes@),
        r@ == generated_password_bytes(bytes@).map_values(|b: u8| b as char),
{
    let mut out: Vec<u8> = vec![
        0x49u8,
        0x54u8,
        0x48u8,
        0x4fu8,
        0x53u8,
        0x2du8,
        0x47u8,
        0x45u8,
        0x4eu8,
        0x50u8,
        0x41u8,
        0x53u8,
        0x53u8,
    ];
    proof {
        assert(out@ =~= genpass_prefix());
    }
    out.push(0x2d);
    let mut bab = encode_bubblebabble(slice_subrange(bytes, 0, 6));
    proof {
        assert(bytes@.subrange(0, 6) =~= bytes@.take(6));
    }
    out.append(&mut bab);
    out.push(0x2d);
    let d1 = bytes[6] % 100;
    out.push(0x30 + d1 / 10);
    out.push(0x30 + d1 % 10);
    let d2 = bytes[7];
    out.push(0x30 + d2 / 100);
    out.push(0x30 + (d2 / 10) % 10);
    out.push(0x30 + d2 % 10);
    proof {
        assert(out@ =~= generated_password_bytes(bytes@));
        lemma_babble_ascii(bytes@.take(6), 1);
        let gp = generated_password_bytes(bytes@);
        let bab_s = babble_encoding(bytes@.take(6));
        let body = babble_rec(bytes@.take(6), 1);
        assert(forall|k: int| 0 <= k < 13 ==> #[trigger] genpass_prefix()[k] < 128);
        assert forall|k: int| 0 <= k < gp.len() implies gp[k] < 128 by {
            if k < 13 {
                assert(gp[k] == genpass_prefix()[k]);
            } else if k == 13 {
                assert(gp[k] == 0x2d);
            } else if k < 14 + bab_s.len() {
                assert(gp[k] == bab_s[k - 14]);
                if k > 14 {
                    assert(bab_s[k - 14] == body[k - 15]);
                } else {
                    assert(bab_s[0] == 0x78);
                }
            } else if k == 14 + bab_s.len() {
                assert(gp[k] == 0x2d);
            }
        }
        assert(forall|k: int| 0 <= k < out@.len() ==> out@[k] < 128);
        lemma_ascii_bytes_utf8(out@);
    }
    let ghost expected = out@;
    match bytes_to_string(out) {
        Some(s) => {
            proof {
                assert(s@ =~= expected.map_values(|b: u8| b as char));
                assert(is_ascii_chars(s@));
                is_ascii_chars_encode_utf8(s@);
                assert(encode_utf8(s@) =~= expected);
            }
            s
        },
        None => {
            proof {
                assert(false);
            }
            String::new()
        },
    }
}

/// Generate an easy-to-type password from the system's randomness source;
/// `RandomnessUnavailable` when it cannot supply enough entropy. Every
/// outcome is the password some 8 random bytes determine.
pub fn generate() -> (r: Result<String, Error>)
    ensures
        match r {
            Ok(s) => exists|b: Seq<u8>|
                b.len() == 8 && encode_utf8(s@) == #[trigger] generated_password_bytes(b),
            Err(e) => e == Error::RandomnessUnavailable,
        },
{
    let bytes = match fill_random(8) {
        Ok(bytes) => bytes,
        Err(e) => {
            return Err(e);
        },
    };
    let s = generate_from_bytes(bytes.as_slice());
    proof {
        assert(bytes@.len() == 8 && encode_utf8(s@) == generated_password_bytes(bytes@));
    }
    Ok(s)
}

} // verus!
