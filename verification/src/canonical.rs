//! Canonical, serialization-independent content hashing of structured
//! values.
//!
//! Two values with identical logical content hash identically regardless of
//! how they were serialized on the wire. Scalars hash a tag byte followed
//! by their canonical byte form; ordered sequences hash the tagged
//! concatenation of their elements' digests in order; unordered collections
//! sort the digests lexicographically first, so permutation cannot change
//! the result; composite records hash a tagged mapping from field-name
//! digest to field-value digest. Signatures attest these digests, so
//! re-encoding a record with a different serializer does not break them.

use vstd::prelude::*;
use vstd::relations::{sorted_by, total_ordering};
use vstd::seq_lib::lemma_sorted_unique;
use vstd::utf8::encode_utf8;
use crate::store::vec_views;

verus! {

/// The SHA-256 digest of a byte string: a pure function of the bytes.
pub uninterp spec fn sha256_of(bytes: Seq<u8>) -> Seq<u8>;

/// Relies on `ring::digest::digest` with `ring::digest::SHA256`: the
/// 32-byte digest depends on the input bytes alone.
#[verifier::external_body]
fn sha256(bytes: &[u8]) -> (r: Vec<u8>)
    ensures
        r@ == sha256_of(bytes@),
        r@.len() == 32,
{
    ring::digest::digest(&ring::digest::SHA256, bytes).as_ref().to_vec()
}

/// Lexicographic order on byte strings; a proper prefix comes first.
pub open spec fn lex_le(a: Seq<u8>, b: Seq<u8>) -> bool
    decreases a.len(),
{
    if a.len() == 0 {
        true
    } else if b.len() == 0 {
        false
    } else if a[0] < b[0] {
        true
    } else if a[0] > b[0] {
        false
    } else {
        lex_le(a.drop_first(), b.drop_first())
    }
}

/// The lexicographic order as a relation value.
pub open spec fn lex_leq() -> spec_fn(Seq<u8>, Seq<u8>) -> bool {
    |a: Seq<u8>, b: Seq<u8>| lex_le(a, b)
}

proof fn lemma_lex_le_antisymmetric(a: Seq<u8>, b: Seq<u8>)
    requires
        lex_le(a, b),
        lex_le(b, a),
    ensures
        a == b,
    decreases a.len(),
{
    if a.len() > 0 && b.len() > 0 {
        lemma_lex_le_antisymmetric(a.drop_first(), b.drop_first());
        assert(a =~= seq![a[0]] + a.drop_first());
        assert(b =~= seq![b[0]] + b.drop_first());
    } else {
        assert(a =~= b);
    }
}

proof fn lemma_lex_le_transitive(a: Seq<u8>, b: Seq<u8>, c: Seq<u8>)
    requires
        lex_le(a, b),
        lex_le(b, c),
    ensures
        lex_le(a, c),
    decreases a.len(),
{
    if a.len() > 0 && b.len() > 0 && c.len() > 0 {
        if a[0] == b[0] && b[0] == c[0] {
            lemma_lex_le_transitive(a.drop_first(), b.drop_first(), c.drop_first());
        }
    }
}

proof fn lemma_lex_le_connected(a: Seq<u8>, b: Seq<u8>)
    ensures
        lex_le(a, b) || lex_le(b, a),
    decreases a.len(),
{
    if a.len() > 0 && b.len() > 0 && a[0] == b[0] {
        lemma_lex_le_connected(a.drop_first(), b.drop_first());
    }
}

/// The lexicographic order on byte strings is a total order.
pub proof fn lemma_lex_le_total_ordering()
    ensures
        total_ordering(lex_leq()),
{
    let leq = lex_leq();
    assert forall|a: Seq<u8>| #[trigger] leq(a, a) by {
        lemma_lex_le_connected(a, a);
    }
    assert forall|a: Seq<u8>, b: Seq<u8>| #[trigger] leq(a, b) && #[trigger] leq(b, a) implies a
        == b by {
        lemma_lex_le_antisymmetric(a, b);
    }
    assert forall|a: Seq<u8>, b: Seq<u8>, c: Seq<u8>|
        #[trigger] leq(a, b) && #[trigger] leq(b, c) implies leq(a, c) by {
        lemma_lex_le_transitive(a, b, c);
    }
    assert forall|a: Seq<u8>, b: Seq<u8>| !(#[trigger] leq(a, b)) implies leq(b, a) by {
        lemma_lex_le_connected(a, b);
    }
}

/// Compare two byte strings lexicographically.
fn lex_le_bytes(a: &[u8], b: &[u8]) -> (r: bool)
    ensures
        r == lex_le(a@, b@),
{
    let n = if a.len() < b.len() {
        a.len()
    } else {
        b.len()
    };
    proof {
        assert(a@.skip(0) =~= a@);
        assert(b@.skip(0) =~= b@);
    }
    let mut i: usize = 0;
    while i < n
        invariant
            n == if a@.len() < b@.len() {
                a@.len()
            } else {
                b@.len()
            },
            i <= n,
            forall|k: int| 0 <= k < i ==> a@[k] == b@[k],
            lex_le(a@, b@) == lex_le(a@.skip(i as int), b@.skip(i as int)),
        decreases n - i,
    {
        proof {
            assert(a@.skip(i as int)[0] == a@[i as int]);
            assert(b@.skip(i as int)[0] == b@[i as int]);
            assert(a@.skip(i as int).drop_first() =~= a@.skip(i as int + 1));
            assert(b@.skip(i as int).drop_first() =~= b@.skip(i as int + 1));
        }
        if a[i] < b[i] {
            return true;
        }
        if a[i] > b[i] {
            return false;
        }
        i += 1;
    }
    proof {
        if a@.len() <= b@.len() {
            assert(a@.skip(i as int) =~= Seq::<u8>::empty());
        } else {
            assert(b@.skip(i as int) =~= Seq::<u8>::empty());
            assert(a@.skip(i as int).len() > 0);
        }
    }
    a.len() <= b.len()
}

/// Sort a collection of digests lexicographically: the sorted sequence is
/// exactly `sort_by` of the input under `lex_leq`.
fn sort_digests(input: &Vec<Vec<u8>>) -> (r: Vec<Vec<u8>>)
    ensures
        vec_views(r@) == vec_views(input@).sort_by(lex_leq()),
{
    proof {
        lemma_lex_le_total_ordering();
    }
    let mut out: Vec<Vec<u8>> = Vec::new();
    let n = input.len();
    proof {
        assert(vec_views(input@.take(0)) =~= Seq::<Seq<u8>>::empty());
        assert(vec_views(out@) =~= Seq::<Seq<u8>>::empty());
        vec_views(out@).to_multiset_ensures();
        vec_views(input@.take(0)).to_multiset_ensures();
        assert(vec_views(out@).to_multiset() =~= vec_views(input@.take(0)).to_multiset());
    }
    let mut i: usize = 0;
    while i < n
        invariant
            n == input@.len(),
            i <= n,
            sorted_by(vec_views(out@), lex_leq()),
            vec_views(out@).to_multiset() == vec_views(input@.take(i as int)).to_multiset(),
        decreases n - i,
    {
        let x = vstd::slice::slice_to_vec(input[i].as_slice());
        let mut j: usize = 0;
        while j < out.len() && lex_le_bytes(out[j].as_slice(), x.as_slice())
            invariant
                j <= out@.len(),
                forall|k: int| 0 <= k < j ==> lex_leq()(vec_views(out@)[k], x@),
            decreases out@.len() - j,
        {
            j += 1;
        }
        let ghost old_views = vec_views(out@);
        out.insert(j, x);
        proof {
            lemma_lex_le_total_ordering();
            assert(vec_views(out@) =~= old_views.insert(j as int, x@));
            assert forall|p: int, q: int|
                0 <= p < q < vec_views(out@).len() implies #[trigger] lex_leq()(
                vec_views(out@)[p],
                vec_views(out@)[q],
            ) by {
                let nv = vec_views(out@);
                if q < j {
                    assert(nv[p] == old_views[p] && nv[q] == old_views[q]);
                } else if p > j {
                    assert(nv[p] == old_views[p - 1] && nv[q] == old_views[q - 1]);
                } else if p < j && q == j {
                    assert(nv[p] == old_views[p] && nv[q] == x@);
                } else if p == j {
                    assert(nv[p] == x@ && nv[q] == old_views[q - 1]);
                    assert(j < old_views.len());
                    assert(!lex_le(old_views[j as int], x@));
                    lemma_lex_le_connected(old_views[j as int], x@);
                    if q - 1 > j {
                        assert(lex_leq()(old_views[j as int], old_views[q - 1]));
                        lemma_lex_le_transitive(x@, old_views[j as int], old_views[q - 1]);
                    }
                } else {
                    assert(p < j && q > j);
                    assert(nv[p] == old_views[p] && nv[q] == old_views[q - 1]);
                    assert(lex_leq()(old_views[p], old_views[q - 1]));
                }
            }
            vstd::seq_lib::to_multiset_insert(old_views, j as int, x@);
            vec_views(input@.take(i as int)).to_multiset_ensures();
            assert(vec_views(input@.take(i as int + 1)) =~= vec_views(input@.take(i as int)).push(
                input@[i as int]@,
            ));
        }
        i += 1;
    }
    proof {
        assert(input@.take(n as int) =~= input@);
        vec_views(input@).lemma_sort_by_ensures(lex_leq());
        lemma_lex_le_total_ordering();
        lemma_sorted_unique(vec_views(out@), vec_views(input@).sort_by(lex_leq()), lex_leq());
    }
    out
}

/// The concatenation of a sequence of byte strings, in order.
pub open spec fn concat_all(ss: Seq<Seq<u8>>) -> Seq<u8>
    decreases ss.len(),
{
    if ss.len() == 0 {
        Seq::empty()
    } else {
        ss[0] + concat_all(ss.drop_first())
    }
}

proof fn lemma_concat_all_push(ss: Seq<Seq<u8>>, x: Seq<u8>)
    ensures
        concat_all(ss.push(x)) == concat_all(ss) + x,
    decreases ss.len(),
{
    if ss.len() == 0 {
        assert(ss.push(x).drop_first() =~= Seq::<Seq<u8>>::empty());
        assert(ss.push(x)[0] == x);
        assert(concat_all(Seq::<Seq<u8>>::empty()) == Seq::<u8>::empty());
        assert(concat_all(ss.push(x)) =~= concat_all(ss) + x);
    } else {
        assert(ss.push(x).drop_first() =~= ss.drop_first().push(x));
        assert(ss.push(x)[0] == ss[0]);
        lemma_concat_all_push(ss.drop_first(), x);
        assert(concat_all(ss.push(x)) =~= concat_all(ss) + x);
    }
}

/// Concatenate a collection of byte strings in order.
fn concat_bytes(tag: u8, parts: &Vec<Vec<u8>>) -> (r: Vec<u8>)
    ensures
        r@ == seq![tag] + concat_all(vec_views(parts@)),
{
    let mut r: Vec<u8> = Vec::new();
    r.push(tag);
    let n = parts.len();
    proof {
        assert(vec_views(parts@.take(0)) =~= Seq::<Seq<u8>>::empty());
        assert(r@ =~= seq![tag] + concat_all(vec_views(parts@.take(0))));
    }
    let mut i: usize = 0;
    while i < n
        invariant
            n == parts@.len(),
            i <= n,
            r@ == seq![tag] + concat_all(vec_views(parts@.take(i as int))),
        decreases n - i,
    {
        let mut part = vstd::slice::slice_to_vec(parts[i].as_slice());
        r.append(&mut part);
        proof {
            assert(vec_views(parts@.take(i as int + 1)) =~= vec_views(parts@.take(i as int)).push(
                parts@[i as int]@,
            ));
            lemma_concat_all_push(vec_views(parts@.take(i as int)), parts@[i as int]@);
            assert(r@ =~= seq![tag] + concat_all(vec_views(parts@.take(i as int + 1))));
        }
        i += 1;
    }
    proof {
        assert(parts@.take(n as int) =~= parts@);
    }
    r
}

/// The decimal digit bytes of a number, most significant first.
pub open spec fn decimal_digits(n: nat) -> Seq<u8>
    decreases n,
{
    if n < 10 {
        seq![(0x30 + n) as u8]
    } else {
        decimal_digits(n / 10).push((0x30 + n % 10) as u8)
    }
}

/// The canonical digest of a byte sequence.
pub open spec fn bytes_digest(b: Seq<u8>) -> Seq<u8> {
    sha256_of(seq![0x6fu8] + b)
}

/// The canonical digest of a character string: its UTF-8 bytes, tagged.
pub open spec fn string_digest(s: Seq<char>) -> Seq<u8> {
    sha256_of(seq![0x75u8] + encode_utf8(s))
}

/// The canonical digest of an unsigned integer: its decimal digits, tagged.
pub open spec fn uint_digest(n: u64) -> Seq<u8> {
    sha256_of(seq![0x69u8] + decimal_digits(n as nat))
}

/// The canonical digest of an ordered sequence, from its elements' digests:
/// tagged concatenation in original order — order-sensitive.
pub open spec fn list_digest(digests: Seq<Seq<u8>>) -> Seq<u8> {
    sha256_of(seq![0x6cu8] + concat_all(digests))
}

/// The canonical digest of an unordered collection, from its elements'
/// digests: the digests are sorted lexicographically before the tagged
/// concatenation, so the order the elements arrived in cannot matter.
pub open spec fn set_digest(digests: Seq<Seq<u8>>) -> Seq<u8> {
    sha256_of(seq![0x73u8] + concat_all(digests.sort_by(lex_leq())))
}

/// The canonical digest of a composite record, from its members: each
/// member is the digest of a field name followed by the digest of the
/// field's value. The members are sorted, so field order cannot matter,
/// while adding, removing or renaming a field changes the digest.
pub open spec fn dict_digest(members: Seq<Seq<u8>>) -> Seq<u8> {
    sha256_of(seq![0x64u8] + concat_all(members.sort_by(lex_leq())))
}

/// Hash a byte sequence.
pub fn hash_bytes(b: &[u8]) -> (r: Vec<u8>)
    ensures
        r@ == bytes_digest(b@),
        r@.len() == 32,
{
    let mut buf: Vec<u8> = Vec::new();
    buf.push(0x6f);
    let mut data = vstd::slice::slice_to_vec(b);
    buf.append(&mut data);
    proof {
        assert(buf@ =~= seq![0x6fu8] + b@);
    }
    sha256(buf.as_slice())
}

/// Hash a character string.
pub fn hash_str(s: &str) -> (r: Vec<u8>)
    ensures
        r@ == string_digest(s@),
        r@.len() == 32,
{
    let mut buf: Vec<u8> = Vec::new();
    buf.push(0x75);
    let mut data = s.as_bytes_vec();
    buf.append(&mut data);
    proof {
        assert(buf@ =~= seq![0x75u8] + encode_utf8(s@));
    }
    sha256(buf.as_slice())
}

/// Hash an unsigned integer.
pub fn hash_uint(n: u64) -> (r: Vec<u8>)
    ensures
        r@ == uint_digest(n),
        r@.len() == 32,
{
    let mut rev: Vec<u8> = Vec::new();
    let mut m = n;
    while m >= 10
        invariant
            decimal_digits(n as nat) == decimal_digits(m as nat) + rev@.reverse(),
        decreases m,
    {
        let ghost rev0 = rev@;
        rev.push(0x30 + (m % 10) as u8);
        proof {
            assert(rev@.reverse() =~= seq![(0x30 + (m as nat) % 10) as u8] + rev0.reverse());
            assert(decimal_digits(m as nat) =~= decimal_digits((m / 10) as nat).push(
                (0x30 + (m as nat) % 10) as u8,
            ));
            assert(decimal_digits((m / 10) as nat) + rev@.reverse() =~= decimal_digits(m as nat)
                + rev0.reverse());
        }
        m = m / 10;
    }
    let mut buf: Vec<u8> = Vec::new();
    buf.push(0x69);
    buf.push(0x30 + m as u8);
    proof {
        assert(decimal_digits(m as nat) =~= seq![(0x30 + (m as nat)) as u8]);
    }
    let k = rev.len();
    let mut j: usize = k;
    while j > 0
        invariant
            k == rev@.len(),
            j <= k,
            buf@ == seq![0x69u8] + decimal_digits(m as nat) + rev@.subrange(
                j as int,
                k as int,
            ).reverse(),
        decreases j,
    {
        j -= 1;
        buf.push(rev[j]);
        proof {
            assert(rev@.subrange(j as int, k as int).reverse() =~= rev@.subrange(
                j as int + 1,
                k as int,
            ).reverse().push(rev@[j as int]));
        }
    }
    proof {
        assert(rev@.subrange(0, k as int) =~= rev@);
        assert(buf@ =~= seq![0x69u8] + decimal_digits(n as nat));
    }
    sha256(buf.as_slice())
}

/// Hash an ordered sequence from its elements' digests, in order.
pub fn hash_list(digests: &Vec<Vec<u8>>) -> (r: Vec<u8>)
    ensures
        r@ == list_digest(vec_views(digests@)),
        r@.len() == 32,
{
    let buf = concat_bytes(0x6c, digests);
    sha256(buf.as_slice())
}

/// Hash an unordered collection from its elements' digests; the digests
/// are sorted first, so the arrival order of equal collections cannot
/// change the result.
pub fn hash_unordered(digests: &Vec<Vec<u8>>) -> (r: Vec<u8>)
    ensures
        r@ == set_digest(vec_views(digests@)),
        r@.len() == 32,
{
    let sorted = sort_digests(digests);
    let buf = concat_bytes(0x73, &sorted);
    sha256(buf.as_slice())
}

/// Hash a composite record from the digests of its field names and values.
pub fn hash_record(members: &Vec<(Vec<u8>, Vec<u8>)>) -> (r: Vec<u8>)
    ensures
        r@ == dict_digest(members@.map_values(|m: (Vec<u8>, Vec<u8>)| m.0@ + m.1@)),
        r@.len() == 32,
{
    let mut combined: Vec<Vec<u8>> = Vec::new();
    let n = members.len();
    proof {
        assert(vec_views(combined@) =~= members@.take(0).map_values(
            |m: (Vec<u8>, Vec<u8>)| m.0@ + m.1@,
        ));
    }
    let mut i: usize = 0;
    while i < n
        invariant
            n == members@.len(),
            i <= n,
            vec_views(combined@) == members@.take(i as int).map_values(
                |m: (Vec<u8>, Vec<u8>)| m.0@ + m.1@,
            ),
        decreases n - i,
    {
        let member = &members[i];
        let mut pair = vstd::slice::slice_to_vec(member.0.as_slice());
        let mut value = vstd::slice::slice_to_vec(member.1.as_slice());
        pair.append(&mut value);
        proof {
            assert(pair@ == members@[i as int].0@ + members@[i as int].1@);
        }
        let ghost combined0 = vec_views(combined@);
        combined.push(pair);
        proof {
            let f = |m: (Vec<u8>, Vec<u8>)| m.0@ + m.1@;
            assert(members@.take(i as int + 1) =~= members@.take(i as int).push(
                members@[i as int],
            ));
            assert(vec_views(combined@) =~= combined0.push(f(members@[i as int])));
            assert(members@.take(i as int).push(members@[i as int]).map_values(f) =~= members@.take(
                i as int,
            ).map_values(f).push(f(members@[i as int])));
        }
        i += 1;
    }
    proof {
        assert(members@.take(n as int) =~= members@);
    }
    let sorted = sort_digests(&combined);
    let buf = concat_bytes(0x64, &sorted);
    sha256(buf.as_slice())
}

/// Canonical hashing of an unordered collection is order-insensitive:
/// permuting the elements — any two digest collections equal as multisets —
/// leaves the digest unchanged, because both sort to the same sequence.
pub proof fn lemma_set_digest_permutation(a: Seq<Seq<u8>>, b: Seq<Seq<u8>>)
    requires
        a.to_multiset() == b.to_multiset(),
    ensures
        set_digest(a) == set_digest(b),
{
    lemma_lex_le_total_ordering();
    a.lemma_sort_by_ensures(lex_leq());
    b.lemma_sort_by_ensures(lex_leq());
    lemma_sorted_unique(a.sort_by(lex_leq()), b.sort_by(lex_leq()), lex_leq());
}

/// Canonical hashing of a composite record does not depend on the order
/// its members are listed in: members equal as multisets sort to the same
/// sequence.
pub proof fn lemma_dict_digest_permutation(a: Seq<Seq<u8>>, b: Seq<Seq<u8>>)
    requires
        a.to_multiset() == b.to_multiset(),
    ensures
        dict_digest(a) == dict_digest(b),
{
    lemma_lex_le_total_ordering();
    a.lemma_sort_by_ensures(lex_leq());
    b.lemma_sort_by_ensures(lex_leq());
    lemma_sorted_unique(a.sort_by(lex_leq()), b.sort_by(lex_leq()), lex_leq());
}

} // verus!
