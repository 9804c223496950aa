//! The canonical byte encoding shared by all structures of the crate.
//!
//! Every field is encoded in declaration order in its own canonical form:
//! element blocks have the fixed per-kind length the engine declares,
//! sequences and sparse tables carry a little-endian eight-byte count
//! prefix (tables as key-value pairs in ascending key order), and an
//! optional scalar carries a one-byte presence flag. Decoding never
//! truncates silently: too little input, a count inconsistent with the
//! remaining data, an element failing its curve or subgroup check, and
//! trailing input are all reported as [`SerializationError`]s.
//!
//! The spec functions here define encoding and decoding mathematically;
//! the executable entry points are proved to compute them, and the public
//! lemmas state the round-trip and truncation-rejection laws.

use vstd::bytes::{lemma_auto_spec_u64_to_from_le_bytes, spec_u64_from_le_bytes,
    spec_u64_to_le_bytes, u64_from_le_bytes, u64_to_le_bytes};
use vstd::prelude::*;
use vstd::slice::slice_subrange;

use vstd::arithmetic::mul::lemma_mul_upper_bound;

use crate::data_structures::{ascending_keys, Commitment, Proof, Randomness, UniversalParams, VerifierKey};
use crate::engine::PairingEngine;
use crate::errors::SerializationError;
use crate::poly::{trim_s, Polynomial};

verus! {

/// The count prefix of an encoded sequence: eight little-endian bytes.
pub open spec fn enc_u64_s(x: u64) -> Seq<u8> {
    spec_u64_to_le_bytes(x)
}

/// Reads a count prefix: the first eight bytes, little endian.
pub open spec fn dec_u64_s(b: Seq<u8>) -> Result<(u64, int), SerializationError> {
    if b.len() < 8 {
        Err(SerializationError::UnexpectedEndOfInput)
    } else {
        Ok((spec_u64_from_le_bytes(b.take(8)), 8))
    }
}

/// Reads one scalar block.
pub open spec fn dec_fr_s<E: PairingEngine>(b: Seq<u8>) -> Result<
    (E::Fr, int),
    SerializationError,
> {
    let l = E::fr_len_s() as int;
    if b.len() < l {
        Err(SerializationError::UnexpectedEndOfInput)
    } else {
        match E::fr_dec_s(b.take(l)) {
            Ok(f) => Ok((f, l)),
            Err(e) => Err(e),
        }
    }
}

/// Reads one G1 block, including its validity checks.
pub open spec fn dec_g1_s<E: PairingEngine>(b: Seq<u8>) -> Result<
    (E::G1, int),
    SerializationError,
> {
    let l = E::g1_len_s() as int;
    if b.len() < l {
        Err(SerializationError::UnexpectedEndOfInput)
    } else {
        match E::g1_dec_s(b.take(l)) {
            Ok(g) => Ok((g, l)),
            Err(e) => Err(e),
        }
    }
}

/// Reads one G2 block, including its validity checks.
pub open spec fn dec_g2_s<E: PairingEngine>(b: Seq<u8>) -> Result<
    (E::G2, int),
    SerializationError,
> {
    let l = E::g2_len_s() as int;
    if b.len() < l {
        Err(SerializationError::UnexpectedEndOfInput)
    } else {
        match E::g2_dec_s(b.take(l)) {
            Ok(g) => Ok((g, l)),
            Err(e) => Err(e),
        }
    }
}

/// Reads one prepared-G2 block, including its validity checks.
pub open spec fn dec_gp_s<E: PairingEngine>(b: Seq<u8>) -> Result<
    (E::G2Prepared, int),
    SerializationError,
> {
    let l = E::gp_len_s() as int;
    if b.len() < l {
        Err(SerializationError::UnexpectedEndOfInput)
    } else {
        match E::gp_dec_s(b.take(l)) {
            Ok(p) => Ok((p, l)),
            Err(e) => Err(e),
        }
    }
}

// ----- executable primitive readers -----

/// Writes a count prefix.
fn write_u64(x: u64) -> (v: Vec<u8>)
    ensures
        v@ == enc_u64_s(x),
        v@.len() == 8,
{
    proof {
        lemma_auto_spec_u64_to_from_le_bytes();
    }
    u64_to_le_bytes(x)
}

/// Reads a count prefix.
fn read_u64(b: &[u8]) -> (r: Result<(u64, usize), SerializationError>)
    ensures
        r matches Ok(q) ==> dec_u64_s(b@) == Ok::<(u64, int), SerializationError>(
            (q.0, q.1 as int),
        ),
        r matches Err(e) ==> dec_u64_s(b@) == Err::<(u64, int), SerializationError>(e),
{
    if b.len() < 8 {
        return Err(SerializationError::UnexpectedEndOfInput);
    }
    let blk = slice_subrange(b, 0, 8);
    proof {
        assert(blk@ =~= b@.take(8));
    }
    Ok((u64_from_le_bytes(blk), 8))
}

/// Reads one scalar block.
fn read_fr<E: PairingEngine>(b: &[u8]) -> (r: Result<(E::Fr, usize), SerializationError>)
    ensures
        r matches Ok(q) ==> dec_fr_s::<E>(b@) == Ok::<(E::Fr, int), SerializationError>(
            (q.0, q.1 as int),
        ),
        r matches Err(e) ==> dec_fr_s::<E>(b@) == Err::<(E::Fr, int), SerializationError>(e),
{
    let l = E::fr_len();
    if b.len() < l {
        return Err(SerializationError::UnexpectedEndOfInput);
    }
    let blk = slice_subrange(b, 0, l);
    proof {
        assert(blk@ =~= b@.take(E::fr_len_s() as int));
    }
    match E::fr_read(blk) {
        Ok(f) => Ok((f, l)),
        Err(e) => Err(e),
    }
}

/// Reads one G1 block.
fn read_g1<E: PairingEngine>(b: &[u8]) -> (r: Result<(E::G1, usize), SerializationError>)
    ensures
        r matches Ok(q) ==> dec_g1_s::<E>(b@) == Ok::<(E::G1, int), SerializationError>(
            (q.0, q.1 as int),
        ),
        r matches Err(e) ==> dec_g1_s::<E>(b@) == Err::<(E::G1, int), SerializationError>(e),
{
    let l = E::g1_len();
    if b.len() < l {
        return Err(SerializationError::UnexpectedEndOfInput);
    }
    let blk = slice_subrange(b, 0, l);
    proof {
        assert(blk@ =~= b@.take(E::g1_len_s() as int));
    }
    match E::g1_read(blk) {
        Ok(g) => Ok((g, l)),
        Err(e) => Err(e),
    }
}

/// Reads one G2 block.
fn read_g2<E: PairingEngine>(b: &[u8]) -> (r: Result<(E::G2, usize), SerializationError>)
    ensures
        r matches Ok(q) ==> dec_g2_s::<E>(b@) == Ok::<(E::G2, int), SerializationError>(
            (q.0, q.1 as int),
        ),
        r matches Err(e) ==> dec_g2_s::<E>(b@) == Err::<(E::G2, int), SerializationError>(e),
{
    let l = E::g2_len();
    if b.len() < l {
        return Err(SerializationError::UnexpectedEndOfInput);
    }
    let blk = slice_subrange(b, 0, l);
    proof {
        assert(blk@ =~= b@.take(E::g2_len_s() as int));
    }
    match E::g2_read(blk) {
        Ok(g) => Ok((g, l)),
        Err(e) => Err(e),
    }
}

/// Reads one prepared-G2 block.
fn read_gp<E: PairingEngine>(b: &[u8]) -> (r: Result<(E::G2Prepared, usize), SerializationError>)
    ensures
        r matches Ok(q) ==> dec_gp_s::<E>(b@) == Ok::<(E::G2Prepared, int), SerializationError>(
            (q.0, q.1 as int),
        ),
        r matches Err(e) ==> dec_gp_s::<E>(b@) == Err::<(E::G2Prepared, int), SerializationError>(
            e,
        ),
{
    let l = E::gp_len();
    if b.len() < l {
        return Err(SerializationError::UnexpectedEndOfInput);
    }
    let blk = slice_subrange(b, 0, l);
    proof {
        assert(blk@ =~= b@.take(E::gp_len_s() as int));
    }
    match E::gp_read(blk) {
        Ok(p) => Ok((p, l)),
        Err(e) => Err(e),
    }
}


// ----- scalar sequences -----

/// The concatenated encodings of a scalar sequence.
pub open spec fn enc_fr_seq_s<E: PairingEngine>(s: Seq<E::Fr>) -> Seq<u8>
    decreases s.len(),
{
    if s.len() == 0 {
        Seq::empty()
    } else {
        E::fr_enc_s(s[0]) + enc_fr_seq_s::<E>(s.skip(1))
    }
}

/// Reads exactly `k` scalar blocks.
pub open spec fn dec_fr_seq_s<E: PairingEngine>(b: Seq<u8>, k: nat) -> Result<
    (Seq<E::Fr>, int),
    SerializationError,
>
    decreases k,
{
    if k == 0 {
        Ok((Seq::empty(), 0))
    } else {
        match dec_fr_s::<E>(b) {
            Ok((f, n)) => match dec_fr_seq_s::<E>(b.skip(n), (k - 1) as nat) {
                Ok((s, m)) => Ok((seq![f] + s, n + m)),
                Err(e) => Err(e),
            },
            Err(e) => Err(e),
        }
    }
}

/// A count prefix followed by that many scalar blocks.
pub open spec fn enc_fr_vec_s<E: PairingEngine>(s: Seq<E::Fr>) -> Seq<u8> {
    enc_u64_s(s.len() as u64) + enc_fr_seq_s::<E>(s)
}

/// Reads a count prefix and that many scalar blocks, rejecting a count
/// that cannot fit in the remaining input.
pub open spec fn dec_fr_vec_s<E: PairingEngine>(b: Seq<u8>) -> Result<
    (Seq<E::Fr>, int),
    SerializationError,
> {
    match dec_u64_s(b) {
        Ok((k, n)) => if b.len() - 8 < k * E::fr_len_s() {
            Err(SerializationError::InvalidLength)
        } else {
            match dec_fr_seq_s::<E>(b.skip(8), k as nat) {
                Ok((s, m)) => Ok((s, 8 + m)),
                Err(e) => Err(e),
            }
        },
        Err(e) => Err(e),
    }
}

/// An optional scalar: a one-byte presence flag, then the scalar if present.
pub open spec fn enc_opt_fr_s<E: PairingEngine>(o: Option<E::Fr>) -> Seq<u8> {
    match o {
        None => seq![0u8],
        Some(f) => seq![1u8] + E::fr_enc_s(f),
    }
}

/// Reads an optional scalar, rejecting a flag other than zero or one.
pub open spec fn dec_opt_fr_s<E: PairingEngine>(b: Seq<u8>) -> Result<
    (Option<E::Fr>, int),
    SerializationError,
> {
    if b.len() < 1 {
        Err(SerializationError::UnexpectedEndOfInput)
    } else if b[0] == 0 {
        Ok((None, 1))
    } else if b[0] == 1 {
        match dec_fr_s::<E>(b.skip(1)) {
            Ok((f, n)) => Ok((Some(f), 1 + n)),
            Err(e) => Err(e),
        }
    } else {
        Err(SerializationError::InvalidCount)
    }
}

/// A successful scalar-sequence read returns `k` scalars and consumes
/// exactly `k` blocks, never more than the input.
pub proof fn lemma_dec_fr_seq_len<E: PairingEngine>(b: Seq<u8>, k: nat)
    ensures
        dec_fr_seq_s::<E>(b, k) matches Ok(p) ==> p.0.len() == k && p.1 == k * E::fr_len_s()
            && 0 <= p.1 <= b.len(),
    decreases k,
{
    if k > 0 {
        match dec_fr_s::<E>(b) {
            Ok((f, n)) => {
                lemma_dec_fr_seq_len::<E>(b.skip(n), (k - 1) as nat);
                assert((k - 1) * E::fr_len_s() + E::fr_len_s() == k * E::fr_len_s())
                    by (nonlinear_arith);
            },
            Err(e) => {},
        }
    }
}

/// Appending any suffix, the encoding of a scalar sequence reads back as
/// exactly that sequence.
pub proof fn lemma_fr_seq_roundtrip<E: PairingEngine>(s: Seq<E::Fr>, rest: Seq<u8>)
    ensures
        enc_fr_seq_s::<E>(s).len() == s.len() * E::fr_len_s(),
        dec_fr_seq_s::<E>(enc_fr_seq_s::<E>(s) + rest, s.len()) == Ok::<
            (Seq<E::Fr>, int),
            SerializationError,
        >((s, (s.len() * E::fr_len_s()) as int)),
    decreases s.len(),
{
    E::lemma_lens_positive();
    let ll = E::fr_len_s();
    let l = ll as int;
    if s.len() == 0 {
        assert(enc_fr_seq_s::<E>(s) + rest =~= rest);
        assert(s =~= Seq::<E::Fr>::empty());
        assert(s.len() * ll == 0) by (nonlinear_arith)
            requires
                s.len() == 0,
        ;
    } else {
        E::lemma_fr_codec(s[0]);
        lemma_fr_seq_roundtrip::<E>(s.skip(1), rest);
        let b = enc_fr_seq_s::<E>(s) + rest;
        let tail = enc_fr_seq_s::<E>(s.skip(1));
        assert(enc_fr_seq_s::<E>(s) == E::fr_enc_s(s[0]) + tail);
        assert(s.skip(1).len() == s.len() - 1);
        assert((s.len() - 1) * l + l == s.len() * l) by (nonlinear_arith);
        assert(enc_fr_seq_s::<E>(s).len() == s.len() * ll);
        assert(b.take(l) =~= E::fr_enc_s(s[0]));
        assert(b.len() >= l);
        assert(dec_fr_s::<E>(b) == Ok::<(E::Fr, int), SerializationError>((s[0], l)));
        assert(b.skip(l) =~= tail + rest);
        assert(seq![s[0]] + s.skip(1) =~= s);
        assert(dec_fr_seq_s::<E>(b, s.len()) == Ok::<(Seq<E::Fr>, int), SerializationError>((s, (s.len() * ll) as int)));
    }
}

// ----- executable sequence readers and writers -----

/// Writes the blocks of a scalar sequence.
fn write_fr_seq<E: PairingEngine>(s: &[E::Fr]) -> (v: Vec<u8>)
    ensures
        v@ == enc_fr_seq_s::<E>(s@),
    decreases s.len(),
{
    if s.len() == 0 {
        Vec::new()
    } else {
        let mut v = E::fr_write(&s[0]);
        let tail = slice_subrange(s, 1, s.len());
        proof {
            assert(tail@ =~= s@.skip(1));
        }
        let mut rest = write_fr_seq::<E>(tail);
        v.append(&mut rest);
        v
    }
}

/// Reads exactly `k` scalar blocks.
fn read_fr_seq<E: PairingEngine>(b: &[u8], k: usize) -> (r: Result<(Vec<E::Fr>, usize), SerializationError>)
    ensures
        r matches Ok(q) ==> (dec_fr_seq_s::<E>(b@, k as nat) == Ok::<(Seq<E::Fr>, int), SerializationError>((q.0@, q.1 as int))),
        r matches Err(e) ==> (dec_fr_seq_s::<E>(b@, k as nat) == Err::<(Seq<E::Fr>, int), SerializationError>(e)),
    decreases k,
{
    if k == 0 {
        let v: Vec<E::Fr> = Vec::new();
        proof {
            assert(v@ =~= Seq::<E::Fr>::empty());
        }
        return Ok((v, 0));
    }
    match read_fr::<E>(b) {
        Err(e) => Err(e),
        Ok((f, n)) => {
            let rest = slice_subrange(b, n, b.len());
            proof {
                assert(rest@ =~= b@.skip(n as int));
                lemma_dec_fr_seq_len::<E>(b@.skip(n as int), (k - 1) as nat);
            }
            match read_fr_seq::<E>(rest, k - 1) {
                Err(e) => Err(e),
                Ok((v, m)) => {
                    let mut v = v;
                    let ghost prev = v@;
                    v.insert(0, f);
                    proof {
                        assert(v@ =~= seq![f] + prev);
                        assert(dec_fr_seq_s::<E>(b@, k as nat) == Ok::<(Seq<E::Fr>, int), SerializationError>((v@, (n + m) as int)));
                    }
                    Ok((v, n + m))
                },
            }
        },
    }
}

/// Reads an optional scalar.
fn read_opt_fr<E: PairingEngine>(b: &[u8]) -> (r: Result<(Option<E::Fr>, usize), SerializationError>)
    ensures
        r matches Ok(q) ==> (dec_opt_fr_s::<E>(b@) matches Ok(p) && p.0 == q.0 && p.1 == q.1 as int),
        r matches Err(e) ==> (dec_opt_fr_s::<E>(b@) matches Err(e2) && e2 == e),
{
    if b.len() < 1 {
        return Err(SerializationError::UnexpectedEndOfInput);
    }
    let flag = b[0];
    if flag == 0 {
        Ok((None, 1))
    } else if flag == 1 {
        let rest = slice_subrange(b, 1, b.len());
        proof {
            assert(rest@ =~= b@.skip(1));
        }
        match read_fr::<E>(rest) {
            Ok((f, n)) => Ok((Some(f), 1 + n)),
            Err(e) => Err(e),
        }
    } else {
        Err(SerializationError::InvalidCount)
    }
}


// ----- whole-value entry points: Commitment, Proof, Randomness, VerifierKey -----

/// The raw-byte contract: the decoded value when it consumed the input
/// exactly, the decode error when decoding failed, and a trailing-bytes
/// error when input was left over.
pub open spec fn exact_s<T>(d: Result<(T, int), SerializationError>, len: int) -> Result<
    T,
    SerializationError,
> {
    match d {
        Ok((x, n)) => if n == len {
            Ok(x)
        } else {
            Err(SerializationError::TrailingBytes)
        },
        Err(e) => Err(e),
    }
}

/// A commitment encodes as its single G1 block.
pub open spec fn enc_commitment_s<E: PairingEngine>(c: Commitment<E>) -> Seq<u8> {
    E::g1_enc_s(c.0)
}

/// Decodes a commitment: one checked G1 block.
pub open spec fn dec_commitment_s<E: PairingEngine>(b: Seq<u8>) -> Result<(Commitment<E>, int), SerializationError> {
    match dec_g1_s::<E>(b) {
        Ok((g, n)) => Ok((Commitment(g), n)),
        Err(e) => Err(e),
    }
}

impl<E: PairingEngine> Commitment<E> {
    /// Writes the canonical bytes of this commitment.
    pub fn to_bytes(&self) -> (v: Vec<u8>)
        ensures
            v@ == enc_commitment_s(*self),
    {
        E::g1_write(&self.0)
    }

    /// Reads a commitment from canonical bytes, rejecting bad points and
    /// trailing input.
    pub fn from_bytes(b: &[u8]) -> (r: Result<Self, SerializationError>)
        ensures
            r == exact_s(dec_commitment_s::<E>(b@), b@.len() as int),
            r matches Ok(c) ==> c.valid(),
    {
        match read_g1::<E>(b) {
            Err(e) => Err(e),
            Ok((g, n)) => {
                if n == b.len() {
                    proof {
                        E::lemma_g1_dec_valid(b@.take(E::g1_len_s() as int));
                    }
                    Ok(Commitment(g))
                } else {
                    Err(SerializationError::TrailingBytes)
                }
            },
        }
    }
}

/// The bytes of a valid commitment read back as exactly that commitment.
pub proof fn lemma_commitment_roundtrip<E: PairingEngine>(c: Commitment<E>)
    requires
        c.valid(),
    ensures
        enc_commitment_s(c).len() == E::g1_len_s(),
        exact_s(dec_commitment_s::<E>(enc_commitment_s(c)), enc_commitment_s(c).len() as int)
            == Ok::<Commitment<E>, SerializationError>(c),
{
    E::lemma_g1_codec(c.0);
    assert(enc_commitment_s(c).take(E::g1_len_s() as int) =~= E::g1_enc_s(c.0));
}

/// A proof encodes as its witness G1 block followed by the optional
/// blinding evaluation.
pub open spec fn enc_proof_s<E: PairingEngine>(p: Proof<E>) -> Seq<u8> {
    E::g1_enc_s(p.w) + enc_opt_fr_s::<E>(p.random_v)
}

/// Decodes a proof: a checked G1 block, then the optional scalar.
pub open spec fn dec_proof_s<E: PairingEngine>(b: Seq<u8>) -> Result<(Proof<E>, int), SerializationError> {
    match dec_g1_s::<E>(b) {
        Err(e) => Err(e),
        Ok((w, n1)) => match dec_opt_fr_s::<E>(b.skip(n1)) {
            Err(e) => Err(e),
            Ok((o, n2)) => Ok((Proof { w, random_v: o }, n1 + n2)),
        },
    }
}

/// Writes an optional scalar.
fn write_opt_fr<E: PairingEngine>(o: &Option<E::Fr>) -> (v: Vec<u8>)
    ensures
        v@ == enc_opt_fr_s::<E>(*o),
{
    match o {
        None => {
            let mut v: Vec<u8> = Vec::new();
            v.push(0u8);
            proof {
                assert(v@ =~= seq![0u8]);
            }
            v
        },
        Some(f) => {
            let mut v: Vec<u8> = Vec::new();
            v.push(1u8);
            let mut rest = E::fr_write(f);
            v.append(&mut rest);
            proof {
                assert(v@ =~= seq![1u8] + E::fr_enc_s(*f));
            }
            v
        },
    }
}

impl<E: PairingEngine> Proof<E> {
    /// Writes the canonical bytes of this proof.
    pub fn to_bytes(&self) -> (v: Vec<u8>)
        ensures
            v@ == enc_proof_s(*self),
    {
        let mut v = E::g1_write(&self.w);
        let mut rest = write_opt_fr::<E>(&self.random_v);
        v.append(&mut rest);
        v
    }

    /// Reads a proof from canonical bytes, rejecting bad points, a bad
    /// presence flag, and trailing input.
    pub fn from_bytes(b: &[u8]) -> (r: Result<Self, SerializationError>)
        ensures
            r == exact_s(dec_proof_s::<E>(b@), b@.len() as int),
            r matches Ok(p) ==> p.valid(),
    {
        match read_g1::<E>(b) {
            Err(e) => Err(e),
            Ok((w, n1)) => {
                let rest = slice_subrange(b, n1, b.len());
                proof {
                    assert(rest@ =~= b@.skip(n1 as int));
                    E::lemma_g1_dec_valid(b@.take(E::g1_len_s() as int));
                }
                match read_opt_fr::<E>(rest) {
                    Err(e) => Err(e),
                    Ok((o, n2)) => {
                        if n1 + n2 == b.len() {
                            Ok(Proof { w, random_v: o })
                        } else {
                            Err(SerializationError::TrailingBytes)
                        }
                    },
                }
            },
        }
    }
}

/// The bytes of a valid proof read back as exactly that proof.
pub proof fn lemma_proof_roundtrip<E: PairingEngine>(p: Proof<E>)
    requires
        p.valid(),
    ensures
        exact_s(dec_proof_s::<E>(enc_proof_s(p)), enc_proof_s(p).len() as int) == Ok::<Proof<E>, SerializationError>(p),
{
    let b = enc_proof_s(p);
    let l = E::g1_len_s() as int;
    E::lemma_g1_codec(p.w);
    E::lemma_lens_positive();
    assert(b.take(l) =~= E::g1_enc_s(p.w));
    assert(b.skip(l) =~= enc_opt_fr_s::<E>(p.random_v));
    match p.random_v {
        None => {
            assert(b.skip(l)[0] == 0);
        },
        Some(f) => {
            E::lemma_fr_codec(f);
            assert(b.skip(l)[0] == 1);
            assert(b.skip(l).skip(1) =~= E::fr_enc_s(f));
            let fl = E::fr_len_s() as int;
            assert(b.skip(l).skip(1).take(fl) =~= E::fr_enc_s(f));
        },
    }
}

/// Randomness encodes as the count-prefixed coefficient sequence of its
/// blinding polynomial.
pub open spec fn enc_randomness_s<E: PairingEngine>(r: Randomness<E>) -> Seq<u8> {
    enc_u64_s(r.blinding_polynomial@.len() as u64) + enc_fr_seq_s::<E>(r.blinding_polynomial@)
}

/// Decodes randomness: a count-prefixed scalar sequence, normalised into
/// canonical trimmed form.
pub open spec fn dec_randomness_s<E: PairingEngine>(b: Seq<u8>) -> Result<(Seq<E::Fr>, int), SerializationError> {
    match dec_fr_vec_s::<E>(b) {
        Ok((s, n)) => Ok((trim_s::<E>(s), n)),
        Err(e) => Err(e),
    }
}

impl<E: PairingEngine> Randomness<E> {
    /// Writes the canonical bytes of this randomness.
    pub fn to_bytes(&self) -> (v: Vec<u8>)
        ensures
            v@ == enc_randomness_s(*self),
    {
        let mut v = write_u64(self.blinding_polynomial.coeffs.len() as u64);
        let mut rest = write_fr_seq::<E>(self.blinding_polynomial.coeffs.as_slice());
        v.append(&mut rest);
        v
    }

    /// Reads randomness from canonical bytes, rejecting a coefficient
    /// count inconsistent with the input and trailing input.
    pub fn from_bytes(b: &[u8]) -> (r: Result<Self, SerializationError>)
        ensures
            r matches Ok(x) ==> (dec_randomness_s::<E>(b@) matches Ok(p) && x.blinding_polynomial@ == p.0 && p.1 == b@.len() && x.wf()),
            r matches Err(e) ==> (dec_randomness_s::<E>(b@) matches Err(e2) && e2 == e) || (dec_randomness_s::<E>(b@) matches Ok(p) && p.1 != b@.len() && e == SerializationError::TrailingBytes),
    {
        match read_u64(b) {
            Err(e) => Err(e),
            Ok((k, n1)) => {
                let l = E::fr_len();
                proof {
                    E::lemma_lens_positive();
                    lemma_mul_upper_bound(k as int, u64::MAX as int, l as int, usize::MAX as int);
                }
                let avail = b.len() - 8;
                if (k as u128) * (l as u128) > (avail as u128) {
                    return Err(SerializationError::InvalidLength);
                }
                proof {
                    assert(k * E::fr_len_s() >= k) by (nonlinear_arith)
                        requires
                            E::fr_len_s() >= 1,
                            k >= 0,
                    ;
                }
                let rest = slice_subrange(b, 8, b.len());
                proof {
                    assert(rest@ =~= b@.skip(8));
                    lemma_dec_fr_seq_len::<E>(b@.skip(8), k as nat);
                }
                match read_fr_seq::<E>(rest, k as usize) {
                    Err(e) => Err(e),
                    Ok((coeffs, n2)) => {
                        if 8 + n2 == b.len() {
                            let blinding_polynomial = Polynomial::from_coefficients(coeffs);
                            Ok(Randomness { blinding_polynomial })
                        } else {
                            Err(SerializationError::TrailingBytes)
                        }
                    },
                }
            },
        }
    }
}

/// The bytes of canonical randomness read back as exactly its
/// coefficient sequence.
pub proof fn lemma_randomness_roundtrip<E: PairingEngine>(x: Randomness<E>)
    requires
        x.wf(),
        x.blinding_polynomial@.len() <= u64::MAX,
    ensures
        dec_randomness_s::<E>(enc_randomness_s(x)) == Ok::<(Seq<E::Fr>, int), SerializationError>((x.blinding_polynomial@, enc_randomness_s(x).len() as int)),
{
    let c = x.blinding_polynomial@;
    let b = enc_randomness_s(x);
    lemma_auto_spec_u64_to_from_le_bytes();
    lemma_fr_seq_roundtrip::<E>(c, Seq::empty());
    assert(b.take(8) =~= enc_u64_s(c.len() as u64));
    assert(b.skip(8) =~= enc_fr_seq_s::<E>(c) + Seq::empty());
    assert(dec_u64_s(b) == Ok::<(u64, int), SerializationError>((c.len() as u64, 8)));
    assert(trim_s::<E>(c) == c);
}

/// A verifier key encodes as its six element blocks in declaration order.
pub open spec fn enc_vk_s<E: PairingEngine>(k: VerifierKey<E>) -> Seq<u8> {
    E::g1_enc_s(k.g) + E::g1_enc_s(k.gamma_g) + E::g2_enc_s(k.h) + E::g2_enc_s(k.beta_h)
        + E::gp_enc_s(k.prepared_h) + E::gp_enc_s(k.prepared_beta_h)
}

/// Decodes a verifier key: six checked element blocks.
pub open spec fn dec_vk_s<E: PairingEngine>(b: Seq<u8>) -> Result<(VerifierKey<E>, int), SerializationError> {
    match dec_g1_s::<E>(b) {
        Err(e) => Err(e),
        Ok((g, n1)) => match dec_g1_s::<E>(b.skip(n1)) {
            Err(e) => Err(e),
            Ok((gamma_g, n2)) => match dec_g2_s::<E>(b.skip(n1 + n2)) {
                Err(e) => Err(e),
                Ok((h, n3)) => match dec_g2_s::<E>(b.skip(n1 + n2 + n3)) {
                    Err(e) => Err(e),
                    Ok((beta_h, n4)) => match dec_gp_s::<E>(b.skip(n1 + n2 + n3 + n4)) {
                        Err(e) => Err(e),
                        Ok((ph, n5)) => match dec_gp_s::<E>(b.skip(n1 + n2 + n3 + n4 + n5)) {
                            Err(e) => Err(e),
                            Ok((pbh, n6)) => Ok(
                                (
                                    VerifierKey {
                                        g,
                                        gamma_g,
                                        h,
                                        beta_h,
                                        prepared_h: ph,
                                        prepared_beta_h: pbh,
                                    },
                                    n1 + n2 + n3 + n4 + n5 + n6,
                                ),
                            ),
                        },
                    },
                },
            },
        },
    }
}

impl<E: PairingEngine> VerifierKey<E> {
    /// Every element of the key passes its validity checks.
    pub open spec fn valid(&self) -> bool {
        &&& E::g1_on_curve_s(self.g) && E::g1_in_subgroup_s(self.g)
        &&& E::g1_on_curve_s(self.gamma_g) && E::g1_in_subgroup_s(self.gamma_g)
        &&& E::g2_valid_s(self.h)
        &&& E::g2_valid_s(self.beta_h)
        &&& E::gp_valid_s(self.prepared_h)
        &&& E::gp_valid_s(self.prepared_beta_h)
    }

    /// Writes the canonical bytes of this key.
    pub fn to_bytes(&self) -> (v: Vec<u8>)
        ensures
            v@ == enc_vk_s(*self),
    {
        let mut v = E::g1_write(&self.g);
        let mut p2 = E::g1_write(&self.gamma_g);
        v.append(&mut p2);
        let mut p3 = E::g2_write(&self.h);
        v.append(&mut p3);
        let mut p4 = E::g2_write(&self.beta_h);
        v.append(&mut p4);
        let mut p5 = E::gp_write(&self.prepared_h);
        v.append(&mut p5);
        let mut p6 = E::gp_write(&self.prepared_beta_h);
        v.append(&mut p6);
        v
    }

    /// Reads a verifier key from canonical bytes, rejecting bad elements
    /// and trailing input.
    pub fn from_bytes(b: &[u8]) -> (r: Result<Self, SerializationError>)
        ensures
            r == exact_s(dec_vk_s::<E>(b@), b@.len() as int),
            r matches Ok(k) ==> k.valid(),
    {
        let mut off: usize = 0;
        let r1 = slice_subrange(b, off, b.len());
        proof {
            assert(r1@ =~= b@.skip(0));
            assert(b@.skip(0) =~= b@);
        }
        match read_g1::<E>(r1) {
            Err(e) => Err(e),
            Ok((g, n1)) => {
                proof {
                    E::lemma_g1_dec_valid(b@.take(E::g1_len_s() as int));
                }
                off = n1;
                let r2 = slice_subrange(b, off, b.len());
                proof {
                    assert(r2@ =~= b@.skip(n1 as int));
                }
                match read_g1::<E>(r2) {
                    Err(e) => Err(e),
                    Ok((gamma_g, n2)) => {
                        proof {
                            E::lemma_g1_dec_valid(b@.skip(n1 as int).take(E::g1_len_s() as int));
                        }
                        off = off + n2;
                        let r3 = slice_subrange(b, off, b.len());
                        proof {
                            assert(r3@ =~= b@.skip(n1 + n2 as int));
                        }
                        match read_g2::<E>(r3) {
                            Err(e) => Err(e),
                            Ok((h, n3)) => {
                                proof {
                                    E::lemma_g2_dec_valid(b@.skip(n1 + n2 as int).take(E::g2_len_s() as int));
                                }
                                off = off + n3;
                                let r4 = slice_subrange(b, off, b.len());
                                proof {
                                    assert(r4@ =~= b@.skip(n1 + n2 + n3 as int));
                                }
                                match read_g2::<E>(r4) {
                                    Err(e) => Err(e),
                                    Ok((beta_h, n4)) => {
                                        proof {
                                            E::lemma_g2_dec_valid(b@.skip(n1 + n2 + n3 as int).take(E::g2_len_s() as int));
                                        }
                                        off = off + n4;
                                        let r5 = slice_subrange(b, off, b.len());
                                        proof {
                                            assert(r5@ =~= b@.skip(n1 + n2 + n3 + n4 as int));
                                        }
                                        match read_gp::<E>(r5) {
                                            Err(e) => Err(e),
                                            Ok((ph, n5)) => {
                                                proof {
                                                    E::lemma_gp_dec_valid(b@.skip(n1 + n2 + n3 + n4 as int).take(E::gp_len_s() as int));
                                                }
                                                off = off + n5;
                                                let r6 = slice_subrange(b, off, b.len());
                                                proof {
                                                    assert(r6@ =~= b@.skip(n1 + n2 + n3 + n4 + n5 as int));
                                                }
                                                match read_gp::<E>(r6) {
                                                    Err(e) => Err(e),
                                                    Ok((pbh, n6)) => {
                                                        proof {
                                                            E::lemma_gp_dec_valid(b@.skip(n1 + n2 + n3 + n4 + n5 as int).take(E::gp_len_s() as int));
                                                        }
                                                        if off + n6 == b.len() {
                                                            Ok(VerifierKey {
                                                                g,
                                                                gamma_g,
                                                                h,
                                                                beta_h,
                                                                prepared_h: ph,
                                                                prepared_beta_h: pbh,
                                                            })
                                                        } else {
                                                            Err(SerializationError::TrailingBytes)
                                                        }
                                                    },
                                                }
                                            },
                                        }
                                    },
                                }
                            },
                        }
                    },
                }
            },
        }
    }
}

/// The bytes of a valid verifier key read back as exactly that key.
pub proof fn lemma_vk_roundtrip<E: PairingEngine>(k: VerifierKey<E>)
    requires
        k.valid(),
    ensures
        exact_s(dec_vk_s::<E>(enc_vk_s(k)), enc_vk_s(k).len() as int) == Ok::<VerifierKey<E>, SerializationError>(k),
{
    let b = enc_vk_s(k);
    let l1 = E::g1_len_s() as int;
    let l2 = E::g2_len_s() as int;
    let lp = E::gp_len_s() as int;
    E::lemma_g1_codec(k.g);
    E::lemma_g1_codec(k.gamma_g);
    E::lemma_g2_codec(k.h);
    E::lemma_g2_codec(k.beta_h);
    E::lemma_gp_codec(k.prepared_h);
    E::lemma_gp_codec(k.prepared_beta_h);
    assert(b.take(l1) =~= E::g1_enc_s(k.g));
    let b2 = b.skip(l1);
    assert(b2.take(l1) =~= E::g1_enc_s(k.gamma_g));
    let b3 = b2.skip(l1);
    assert(b3 =~= b.skip(l1 + l1));
    assert(b3.take(l2) =~= E::g2_enc_s(k.h));
    let b4 = b3.skip(l2);
    assert(b4 =~= b.skip(l1 + l1 + l2));
    assert(b4.take(l2) =~= E::g2_enc_s(k.beta_h));
    let b5 = b4.skip(l2);
    assert(b5 =~= b.skip(l1 + l1 + l2 + l2));
    assert(b5.take(lp) =~= E::gp_enc_s(k.prepared_h));
    let b6 = b5.skip(lp);
    assert(b6 =~= b.skip(l1 + l1 + l2 + l2 + lp));
    assert(b6.take(lp) =~= E::gp_enc_s(k.prepared_beta_h));
}


// ----- G1 sequences, and sparse tables of G1 and prepared-G2 elements -----

/// The concatenated encodings of a G1 sequence.
pub open spec fn enc_g1_seq_s<E: PairingEngine>(s: Seq<E::G1>) -> Seq<u8>
    decreases s.len(),
{
    if s.len() == 0 {
        Seq::empty()
    } else {
        E::g1_enc_s(s[0]) + enc_g1_seq_s::<E>(s.skip(1))
    }
}

/// Reads exactly `k` G1 blocks.
pub open spec fn dec_g1_seq_s<E: PairingEngine>(b: Seq<u8>, k: nat) -> Result<(Seq<E::G1>, int), SerializationError>
    decreases k,
{
    if k == 0 {
        Ok((Seq::empty(), 0))
    } else {
        match dec_g1_s::<E>(b) {
            Ok((g, n)) => match dec_g1_seq_s::<E>(b.skip(n), (k - 1) as nat) {
                Ok((s, m)) => Ok((seq![g] + s, n + m)),
                Err(e) => Err(e),
            },
            Err(e) => Err(e),
        }
    }
}

/// A count prefix followed by that many G1 blocks.
pub open spec fn enc_g1_vec_s<E: PairingEngine>(s: Seq<E::G1>) -> Seq<u8> {
    enc_u64_s(s.len() as u64) + enc_g1_seq_s::<E>(s)
}

/// Reads a count prefix and that many G1 blocks, rejecting a count that
/// cannot fit in the remaining input.
pub open spec fn dec_g1_vec_s<E: PairingEngine>(b: Seq<u8>) -> Result<(Seq<E::G1>, int), SerializationError> {
    match dec_u64_s(b) {
        Ok((k, n)) => if b.len() - 8 < k * E::g1_len_s() {
            Err(SerializationError::InvalidLength)
        } else {
            match dec_g1_seq_s::<E>(b.skip(8), k as nat) {
                Ok((s, m)) => Ok((s, 8 + m)),
                Err(e) => Err(e),
            }
        },
        Err(e) => Err(e),
    }
}

/// The concatenated encodings of key-value pairs with G1 values.
pub open spec fn enc_g1_pairs_s<E: PairingEngine>(s: Seq<(u64, E::G1)>) -> Seq<u8>
    decreases s.len(),
{
    if s.len() == 0 {
        Seq::empty()
    } else {
        enc_u64_s(s[0].0) + E::g1_enc_s(s[0].1) + enc_g1_pairs_s::<E>(s.skip(1))
    }
}

/// Reads exactly `k` key-value pairs with G1 values.
pub open spec fn dec_g1_pairs_s<E: PairingEngine>(b: Seq<u8>, k: nat) -> Result<(Seq<(u64, E::G1)>, int), SerializationError>
    decreases k,
{
    if k == 0 {
        Ok((Seq::empty(), 0))
    } else {
        match dec_u64_s(b) {
            Err(e) => Err(e),
            Ok((key, n1)) => match dec_g1_s::<E>(b.skip(n1)) {
                Err(e) => Err(e),
                Ok((g, n2)) => match dec_g1_pairs_s::<E>(b.skip(n1 + n2), (k - 1) as nat) {
                    Err(e) => Err(e),
                    Ok((s, m)) => Ok((seq![(key, g)] + s, n1 + n2 + m)),
                },
            },
        }
    }
}

/// The concatenated encodings of key-value pairs with prepared-G2 values.
pub open spec fn enc_gp_pairs_s<E: PairingEngine>(s: Seq<(u64, E::G2Prepared)>) -> Seq<u8>
    decreases s.len(),
{
    if s.len() == 0 {
        Seq::empty()
    } else {
        enc_u64_s(s[0].0) + E::gp_enc_s(s[0].1) + enc_gp_pairs_s::<E>(s.skip(1))
    }
}

/// Reads exactly `k` key-value pairs with prepared-G2 values.
pub open spec fn dec_gp_pairs_s<E: PairingEngine>(b: Seq<u8>, k: nat) -> Result<(Seq<(u64, E::G2Prepared)>, int), SerializationError>
    decreases k,
{
    if k == 0 {
        Ok((Seq::empty(), 0))
    } else {
        match dec_u64_s(b) {
            Err(e) => Err(e),
            Ok((key, n1)) => match dec_gp_s::<E>(b.skip(n1)) {
                Err(e) => Err(e),
                Ok((p, n2)) => match dec_gp_pairs_s::<E>(b.skip(n1 + n2), (k - 1) as nat) {
                    Err(e) => Err(e),
                    Ok((s, m)) => Ok((seq![(key, p)] + s, n1 + n2 + m)),
                },
            },
        }
    }
}

/// Inserts a key-value pair into a table kept in strictly ascending key
/// order, replacing the value of an equal key, as an ordered map does.
pub open spec fn sinsert_s<T>(s: Seq<(u64, T)>, k: u64, v: T) -> Seq<(u64, T)>
    decreases s.len(),
{
    if s.len() == 0 {
        seq![(k, v)]
    } else if s.last().0 < k {
        s.push((k, v))
    } else if s.last().0 == k {
        s.drop_last().push((k, v))
    } else {
        sinsert_s(s.drop_last(), k, v).push(s.last())
    }
}

/// Inserts the pairs of `pairs` into the empty table, left to right: the
/// decoded form of a sparse table, later pairs overriding equal keys.
pub open spec fn insert_all_s<T>(pairs: Seq<(u64, T)>) -> Seq<(u64, T)>
    decreases pairs.len(),
{
    if pairs.len() == 0 {
        Seq::empty()
    } else {
        sinsert_s(insert_all_s(pairs.drop_last()), pairs.last().0, pairs.last().1)
    }
}

/// A count prefix followed by that many key-G1 pairs, decoded by ordered
/// insertion.
pub open spec fn enc_g1_map_s<E: PairingEngine>(s: Seq<(u64, E::G1)>) -> Seq<u8> {
    enc_u64_s(s.len() as u64) + enc_g1_pairs_s::<E>(s)
}

/// Reads a count prefix and that many key-G1 pairs, rejecting a count
/// that cannot fit in the remaining input, and assembles them in key
/// order.
pub open spec fn dec_g1_map_s<E: PairingEngine>(b: Seq<u8>) -> Result<(Seq<(u64, E::G1)>, int), SerializationError> {
    match dec_u64_s(b) {
        Ok((k, n)) => if b.len() - 8 < k * (8 + E::g1_len_s()) {
            Err(SerializationError::InvalidCount)
        } else {
            match dec_g1_pairs_s::<E>(b.skip(8), k as nat) {
                Ok((s, m)) => Ok((insert_all_s(s), 8 + m)),
                Err(e) => Err(e),
            }
        },
        Err(e) => Err(e),
    }
}

/// A count prefix followed by that many key-prepared-G2 pairs.
pub open spec fn enc_gp_map_s<E: PairingEngine>(s: Seq<(u64, E::G2Prepared)>) -> Seq<u8> {
    enc_u64_s(s.len() as u64) + enc_gp_pairs_s::<E>(s)
}

/// Reads a count prefix and that many key-prepared-G2 pairs, rejecting a
/// count that cannot fit in the remaining input, and assembles them in
/// key order.
pub open spec fn dec_gp_map_s<E: PairingEngine>(b: Seq<u8>) -> Result<(Seq<(u64, E::G2Prepared)>, int), SerializationError> {
    match dec_u64_s(b) {
        Ok((k, n)) => if b.len() - 8 < k * (8 + E::gp_len_s()) {
            Err(SerializationError::InvalidCount)
        } else {
            match dec_gp_pairs_s::<E>(b.skip(8), k as nat) {
                Ok((s, m)) => Ok((insert_all_s(s), 8 + m)),
                Err(e) => Err(e),
            }
        },
        Err(e) => Err(e),
    }
}

/// Ordered insertion keeps a table strictly ascending, and the largest
/// key afterwards is the inserted key or the old largest key, whichever
/// is greater.
pub proof fn lemma_sinsert_props<T>(s: Seq<(u64, T)>, k: u64, v: T)
    requires
        ascending_keys(s),
    ensures
        ascending_keys(sinsert_s(s, k, v)),
        sinsert_s(s, k, v).len() >= 1,
        sinsert_s(s, k, v).last().0 == (if s.len() > 0 && s.last().0 > k {
            s.last().0
        } else {
            k
        }),
    decreases s.len(),
{
    let t = sinsert_s(s, k, v);
    if s.len() == 0 {
    } else if s.last().0 < k {
        assert forall|i: int, j: int| 0 <= i < j < t.len() implies t[i].0 < t[j].0 by {
            if j == t.len() - 1 && i < s.len() - 1 {
                assert(s[i].0 < s.last().0);
            }
        }
    } else if s.last().0 == k {
        assert forall|i: int, j: int| 0 <= i < j < t.len() implies t[i].0 < t[j].0 by {
            if j == t.len() - 1 {
                assert(s[i].0 < s.last().0);
            }
        }
    } else {
        assert(ascending_keys(s.drop_last()));
        lemma_sinsert_props(s.drop_last(), k, v);
        let inner = sinsert_s(s.drop_last(), k, v);
        assert(inner.last().0 < s.last().0);
        assert forall|i: int, j: int| 0 <= i < j < t.len() implies t[i].0 < t[j].0 by {
            if j == t.len() - 1 {
                if i < inner.len() - 1 {
                    assert(inner[i].0 < inner.last().0);
                }
            }
        }
    }
}

/// Inserting the pairs of a strictly ascending table into the empty table
/// reproduces the table, and the result of any insertion run is strictly
/// ascending.
pub proof fn lemma_insert_all_props<T>(pairs: Seq<(u64, T)>)
    ensures
        ascending_keys(insert_all_s(pairs)),
        ascending_keys(pairs) ==> insert_all_s(pairs) == pairs,
    decreases pairs.len(),
{
    if pairs.len() == 0 {
        assert(insert_all_s(pairs) =~= Seq::<(u64, T)>::empty());
    } else {
        let front = pairs.drop_last();
        lemma_insert_all_props::<T>(front);
        let acc = insert_all_s(front);
        lemma_sinsert_props(acc, pairs.last().0, pairs.last().1);
        if ascending_keys(pairs) {
            assert(ascending_keys(front));
            assert(acc == front);
            if front.len() > 0 {
                assert(front.last().0 < pairs.last().0);
                assert(sinsert_s(front, pairs.last().0, pairs.last().1) == front.push(
                    pairs.last(),
                ));
            }
            assert(insert_all_s(pairs) =~= pairs);
        }
    }
}


/// A successful G1-sequence read returns `k` points and consumes exactly
/// `k` blocks, never more than the input.
pub proof fn lemma_dec_g1_seq_len<E: PairingEngine>(b: Seq<u8>, k: nat)
    ensures
        dec_g1_seq_s::<E>(b, k) matches Ok(p) ==> p.0.len() == k && p.1 == k * E::g1_len_s() && 0 <= p.1 <= b.len(),
    decreases k,
{
    if k > 0 {
        match dec_g1_s::<E>(b) {
            Ok((g, n)) => {
                lemma_dec_g1_seq_len::<E>(b.skip(n), (k - 1) as nat);
                assert((k - 1) * E::g1_len_s() + E::g1_len_s() == k * E::g1_len_s()) by (nonlinear_arith);
            },
            Err(e) => {},
        }
    }
}

/// Appending any suffix, the encoding of a sequence of valid points reads
/// back as exactly that sequence.
pub proof fn lemma_g1_seq_roundtrip<E: PairingEngine>(s: Seq<E::G1>, rest: Seq<u8>)
    requires
        forall|i: int| 0 <= i < s.len() ==> E::g1_on_curve_s(#[trigger] s[i]) && E::g1_in_subgroup_s(s[i]),
    ensures
        enc_g1_seq_s::<E>(s).len() == s.len() * E::g1_len_s(),
        dec_g1_seq_s::<E>(enc_g1_seq_s::<E>(s) + rest, s.len()) == Ok::<(Seq<E::G1>, int), SerializationError>((s, (s.len() * E::g1_len_s()) as int)),
    decreases s.len(),
{
    E::lemma_lens_positive();
    let ll = E::g1_len_s();
    let l = ll as int;
    if s.len() == 0 {
        assert(enc_g1_seq_s::<E>(s) + rest =~= rest);
        assert(s =~= Seq::<E::G1>::empty());
        assert(s.len() * ll == 0) by (nonlinear_arith)
            requires
                s.len() == 0,
        ;
    } else {
        E::lemma_g1_codec(s[0]);
        lemma_g1_seq_roundtrip::<E>(s.skip(1), rest);
        let b = enc_g1_seq_s::<E>(s) + rest;
        let tail = enc_g1_seq_s::<E>(s.skip(1));
        assert(enc_g1_seq_s::<E>(s) == E::g1_enc_s(s[0]) + tail);
        assert(s.skip(1).len() == s.len() - 1);
        assert((s.len() - 1) * l + l == s.len() * l) by (nonlinear_arith);
        assert(enc_g1_seq_s::<E>(s).len() == s.len() * ll);
        assert(b.take(l) =~= E::g1_enc_s(s[0]));
        assert(b.len() >= l);
        assert(dec_g1_s::<E>(b) == Ok::<(E::G1, int), SerializationError>((s[0], l)));
        assert(b.skip(l) =~= tail + rest);
        assert(seq![s[0]] + s.skip(1) =~= s);
        assert(dec_g1_seq_s::<E>(b, s.len()) == Ok::<(Seq<E::G1>, int), SerializationError>((s, (s.len() * ll) as int)));
    }
}

/// A successful G1-pair read returns `k` pairs and consumes exactly `k`
/// key-plus-block units, never more than the input.
pub proof fn lemma_dec_g1_pairs_len<E: PairingEngine>(b: Seq<u8>, k: nat)
    ensures
        dec_g1_pairs_s::<E>(b, k) matches Ok(p) ==> p.0.len() == k && p.1 == k * (8 + E::g1_len_s()) && 0 <= p.1 <= b.len(),
    decreases k,
{
    if k > 0 {
        match dec_u64_s(b) {
            Ok((key, n1)) => match dec_g1_s::<E>(b.skip(n1)) {
                Ok((g, n2)) => {
                    lemma_dec_g1_pairs_len::<E>(b.skip(n1 + n2), (k - 1) as nat);
                    assert((k - 1) * (8 + E::g1_len_s()) + (8 + E::g1_len_s()) == k * (8 + E::g1_len_s())) by (nonlinear_arith);
                },
                Err(e) => {},
            },
            Err(e) => {},
        }
    }
}

/// Appending any suffix, the encoding of pairs with valid G1 values reads
/// back as exactly those pairs.
pub proof fn lemma_g1_pairs_roundtrip<E: PairingEngine>(s: Seq<(u64, E::G1)>, rest: Seq<u8>)
    requires
        forall|i: int| 0 <= i < s.len() ==> E::g1_on_curve_s((#[trigger] s[i]).1) && E::g1_in_subgroup_s(s[i].1),
    ensures
        enc_g1_pairs_s::<E>(s).len() == s.len() * (8 + E::g1_len_s()),
        dec_g1_pairs_s::<E>(enc_g1_pairs_s::<E>(s) + rest, s.len()) == Ok::<(Seq<(u64, E::G1)>, int), SerializationError>((s, (s.len() * (8 + E::g1_len_s())) as int)),
    decreases s.len(),
{
    E::lemma_lens_positive();
    lemma_auto_spec_u64_to_from_le_bytes();
    let ll = 8 + E::g1_len_s();
    let l = E::g1_len_s() as int;
    if s.len() == 0 {
        assert(enc_g1_pairs_s::<E>(s) + rest =~= rest);
        assert(s =~= Seq::<(u64, E::G1)>::empty());
        assert(s.len() * ll == 0) by (nonlinear_arith)
            requires
                s.len() == 0,
        ;
    } else {
        E::lemma_g1_codec(s[0].1);
        lemma_g1_pairs_roundtrip::<E>(s.skip(1), rest);
        let b = enc_g1_pairs_s::<E>(s) + rest;
        let tail = enc_g1_pairs_s::<E>(s.skip(1));
        assert(enc_g1_pairs_s::<E>(s) == enc_u64_s(s[0].0) + E::g1_enc_s(s[0].1) + tail);
        assert(s.skip(1).len() == s.len() - 1);
        assert((s.len() - 1) * ll + ll == s.len() * ll) by (nonlinear_arith);
        assert(enc_g1_pairs_s::<E>(s).len() == s.len() * ll);
        assert(b.take(8) =~= enc_u64_s(s[0].0));
        assert(dec_u64_s(b) == Ok::<(u64, int), SerializationError>((s[0].0, 8)));
        assert(b.skip(8).take(l) =~= E::g1_enc_s(s[0].1));
        assert(dec_g1_s::<E>(b.skip(8)) == Ok::<(E::G1, int), SerializationError>((s[0].1, l)));
        assert(b.skip(8).skip(l) =~= tail + rest);
        assert(b.skip(8 + l) =~= tail + rest);
        assert(seq![s[0]] + s.skip(1) =~= s);
        assert(dec_g1_pairs_s::<E>(b, s.len()) == Ok::<(Seq<(u64, E::G1)>, int), SerializationError>((s, (s.len() * ll) as int)));
    }
}

/// A successful prepared-G2-pair read returns `k` pairs and consumes
/// exactly `k` key-plus-block units, never more than the input.
pub proof fn lemma_dec_gp_pairs_len<E: PairingEngine>(b: Seq<u8>, k: nat)
    ensures
        dec_gp_pairs_s::<E>(b, k) matches Ok(p) ==> p.0.len() == k && p.1 == k * (8 + E::gp_len_s()) && 0 <= p.1 <= b.len(),
    decreases k,
{
    if k > 0 {
        match dec_u64_s(b) {
            Ok((key, n1)) => match dec_gp_s::<E>(b.skip(n1)) {
                Ok((g, n2)) => {
                    lemma_dec_gp_pairs_len::<E>(b.skip(n1 + n2), (k - 1) as nat);
                    assert((k - 1) * (8 + E::gp_len_s()) + (8 + E::gp_len_s()) == k * (8 + E::gp_len_s())) by (nonlinear_arith);
                },
                Err(e) => {},
            },
            Err(e) => {},
        }
    }
}

/// Appending any suffix, the encoding of pairs with valid prepared-G2
/// values reads back as exactly those pairs.
pub proof fn lemma_gp_pairs_roundtrip<E: PairingEngine>(s: Seq<(u64, E::G2Prepared)>, rest: Seq<u8>)
    requires
        forall|i: int| 0 <= i < s.len() ==> E::gp_valid_s((#[trigger] s[i]).1),
    ensures
        enc_gp_pairs_s::<E>(s).len() == s.len() * (8 + E::gp_len_s()),
        dec_gp_pairs_s::<E>(enc_gp_pairs_s::<E>(s) + rest, s.len()) == Ok::<(Seq<(u64, E::G2Prepared)>, int), SerializationError>((s, (s.len() * (8 + E::gp_len_s())) as int)),
    decreases s.len(),
{
    E::lemma_lens_positive();
    lemma_auto_spec_u64_to_from_le_bytes();
    let ll = 8 + E::gp_len_s();
    let l = E::gp_len_s() as int;
    if s.len() == 0 {
        assert(enc_gp_pairs_s::<E>(s) + rest =~= rest);
        assert(s =~= Seq::<(u64, E::G2Prepared)>::empty());
        assert(s.len() * ll == 0) by (nonlinear_arith)
            requires
                s.len() == 0,
        ;
    } else {
        E::lemma_gp_codec(s[0].1);
        lemma_gp_pairs_roundtrip::<E>(s.skip(1), rest);
        let b = enc_gp_pairs_s::<E>(s) + rest;
        let tail = enc_gp_pairs_s::<E>(s.skip(1));
        assert(enc_gp_pairs_s::<E>(s) == enc_u64_s(s[0].0) + E::gp_enc_s(s[0].1) + tail);
        assert(s.skip(1).len() == s.len() - 1);
        assert((s.len() - 1) * ll + ll == s.len() * ll) by (nonlinear_arith);
        assert(enc_gp_pairs_s::<E>(s).len() == s.len() * ll);
        assert(b.take(8) =~= enc_u64_s(s[0].0));
        assert(dec_u64_s(b) == Ok::<(u64, int), SerializationError>((s[0].0, 8)));
        assert(b.skip(8).take(l) =~= E::gp_enc_s(s[0].1));
        assert(dec_gp_s::<E>(b.skip(8)) == Ok::<(E::G2Prepared, int), SerializationError>((s[0].1, l)));
        assert(b.skip(8).skip(l) =~= tail + rest);
        assert(b.skip(8 + l) =~= tail + rest);
        assert(seq![s[0]] + s.skip(1) =~= s);
        assert(dec_gp_pairs_s::<E>(b, s.len()) == Ok::<(Seq<(u64, E::G2Prepared)>, int), SerializationError>((s, (s.len() * ll) as int)));
    }
}


/// Writes the blocks of a G1 sequence.
fn write_g1_seq<E: PairingEngine>(s: &[E::G1]) -> (v: Vec<u8>)
    ensures
        v@ == enc_g1_seq_s::<E>(s@),
    decreases s.len(),
{
    if s.len() == 0 {
        Vec::new()
    } else {
        let mut v = E::g1_write(&s[0]);
        let tail = slice_subrange(s, 1, s.len());
        proof {
            assert(tail@ =~= s@.skip(1));
        }
        let mut rest = write_g1_seq::<E>(tail);
        v.append(&mut rest);
        v
    }
}

/// Reads exactly `k` G1 blocks.
fn read_g1_seq<E: PairingEngine>(b: &[u8], k: usize) -> (r: Result<(Vec<E::G1>, usize), SerializationError>)
    ensures
        r matches Ok(q) ==> (dec_g1_seq_s::<E>(b@, k as nat) == Ok::<(Seq<E::G1>, int), SerializationError>((q.0@, q.1 as int))),
        r matches Err(e) ==> (dec_g1_seq_s::<E>(b@, k as nat) == Err::<(Seq<E::G1>, int), SerializationError>(e)),
    decreases k,
{
    if k == 0 {
        let v: Vec<E::G1> = Vec::new();
        proof {
            assert(v@ =~= Seq::<E::G1>::empty());
        }
        return Ok((v, 0));
    }
    match read_g1::<E>(b) {
        Err(e) => Err(e),
        Ok((g, n)) => {
            let rest = slice_subrange(b, n, b.len());
            proof {
                assert(rest@ =~= b@.skip(n as int));
                lemma_dec_g1_seq_len::<E>(b@.skip(n as int), (k - 1) as nat);
            }
            match read_g1_seq::<E>(rest, k - 1) {
                Err(e) => Err(e),
                Ok((v, m)) => {
                    let mut v = v;
                    let ghost prev = v@;
                    v.insert(0, g);
                    proof {
                        assert(v@ =~= seq![g] + prev);
                        assert(dec_g1_seq_s::<E>(b@, k as nat) == Ok::<(Seq<E::G1>, int), SerializationError>((v@, (n + m) as int)));
                    }
                    Ok((v, n + m))
                },
            }
        },
    }
}

/// Writes the blocks of a sequence of key-G1 pairs.
fn write_g1_pairs<E: PairingEngine>(s: &[(u64, E::G1)]) -> (v: Vec<u8>)
    ensures
        v@ == enc_g1_pairs_s::<E>(s@),
    decreases s.len(),
{
    if s.len() == 0 {
        Vec::new()
    } else {
        let (key, g) = s[0];
        let mut v = write_u64(key);
        let mut blk = E::g1_write(&g);
        v.append(&mut blk);
        let tail = slice_subrange(s, 1, s.len());
        proof {
            assert(tail@ =~= s@.skip(1));
        }
        let mut rest = write_g1_pairs::<E>(tail);
        v.append(&mut rest);
        proof {
            assert(v@ =~= enc_u64_s(s@[0].0) + E::g1_enc_s(s@[0].1) + enc_g1_pairs_s::<E>(s@.skip(1)));
        }
        v
    }
}

/// Reads exactly `k` key-G1 pairs.
fn read_g1_pairs<E: PairingEngine>(b: &[u8], k: usize) -> (r: Result<(Vec<(u64, E::G1)>, usize), SerializationError>)
    ensures
        r matches Ok(q) ==> (dec_g1_pairs_s::<E>(b@, k as nat) == Ok::<(Seq<(u64, E::G1)>, int), SerializationError>((q.0@, q.1 as int))),
        r matches Err(e) ==> (dec_g1_pairs_s::<E>(b@, k as nat) == Err::<(Seq<(u64, E::G1)>, int), SerializationError>(e)),
    decreases k,
{
    if k == 0 {
        let v: Vec<(u64, E::G1)> = Vec::new();
        proof {
            assert(v@ =~= Seq::<(u64, E::G1)>::empty());
        }
        return Ok((v, 0));
    }
    match read_u64(b) {
        Err(e) => Err(e),
        Ok((key, n1)) => {
            let r2 = slice_subrange(b, n1, b.len());
            proof {
                assert(r2@ =~= b@.skip(n1 as int));
            }
            match read_g1::<E>(r2) {
                Err(e) => Err(e),
                Ok((g, n2)) => {
                    let rest = slice_subrange(b, n1 + n2, b.len());
                    proof {
                        assert(rest@ =~= b@.skip(n1 + n2 as int));
                        assert(b@.skip(n1 + n2 as int) =~= b@.skip(n1 as int).skip(n2 as int));
                        lemma_dec_g1_pairs_len::<E>(b@.skip(n1 + n2 as int), (k - 1) as nat);
                    }
                    match read_g1_pairs::<E>(rest, k - 1) {
                        Err(e) => Err(e),
                        Ok((v, m)) => {
                            let mut v = v;
                            let ghost prev = v@;
                            v.insert(0, (key, g));
                            proof {
                                assert(v@ =~= seq![(key, g)] + prev);
                                assert(dec_g1_pairs_s::<E>(b@, k as nat) == Ok::<(Seq<(u64, E::G1)>, int), SerializationError>((v@, (n1 + n2 + m) as int)));
                            }
                            Ok((v, n1 + n2 + m))
                        },
                    }
                },
            }
        },
    }
}

/// Writes the blocks of a sequence of key-prepared-G2 pairs.
fn write_gp_pairs<E: PairingEngine>(s: &[(u64, E::G2Prepared)]) -> (v: Vec<u8>)
    ensures
        v@ == enc_gp_pairs_s::<E>(s@),
    decreases s.len(),
{
    if s.len() == 0 {
        Vec::new()
    } else {
        let (key, g) = s[0];
        let mut v = write_u64(key);
        let mut blk = E::gp_write(&g);
        v.append(&mut blk);
        let tail = slice_subrange(s, 1, s.len());
        proof {
            assert(tail@ =~= s@.skip(1));
        }
        let mut rest = write_gp_pairs::<E>(tail);
        v.append(&mut rest);
        proof {
            assert(v@ =~= enc_u64_s(s@[0].0) + E::gp_enc_s(s@[0].1) + enc_gp_pairs_s::<E>(s@.skip(1)));
        }
        v
    }
}

/// Reads exactly `k` key-prepared-G2 pairs.
fn read_gp_pairs<E: PairingEngine>(b: &[u8], k: usize) -> (r: Result<(Vec<(u64, E::G2Prepared)>, usize), SerializationError>)
    ensures
        r matches Ok(q) ==> (dec_gp_pairs_s::<E>(b@, k as nat) == Ok::<(Seq<(u64, E::G2Prepared)>, int), SerializationError>((q.0@, q.1 as int))),
        r matches Err(e) ==> (dec_gp_pairs_s::<E>(b@, k as nat) == Err::<(Seq<(u64, E::G2Prepared)>, int), SerializationError>(e)),
    decreases k,
{
    if k == 0 {
        let v: Vec<(u64, E::G2Prepared)> = Vec::new();
        proof {
            assert(v@ =~= Seq::<(u64, E::G2Prepared)>::empty());
        }
        return Ok((v, 0));
    }
    match read_u64(b) {
        Err(e) => Err(e),
        Ok((key, n1)) => {
            let r2 = slice_subrange(b, n1, b.len());
            proof {
                assert(r2@ =~= b@.skip(n1 as int));
            }
            match read_gp::<E>(r2) {
                Err(e) => Err(e),
                Ok((g, n2)) => {
                    let rest = slice_subrange(b, n1 + n2, b.len());
                    proof {
                        assert(rest@ =~= b@.skip(n1 + n2 as int));
                        assert(b@.skip(n1 + n2 as int) =~= b@.skip(n1 as int).skip(n2 as int));
                        lemma_dec_gp_pairs_len::<E>(b@.skip(n1 + n2 as int), (k - 1) as nat);
                    }
                    match read_gp_pairs::<E>(rest, k - 1) {
                        Err(e) => Err(e),
                        Ok((v, m)) => {
                            let mut v = v;
                            let ghost prev = v@;
                            v.insert(0, (key, g));
                            proof {
                                assert(v@ =~= seq![(key, g)] + prev);
                                assert(dec_gp_pairs_s::<E>(b@, k as nat) == Ok::<(Seq<(u64, E::G2Prepared)>, int), SerializationError>((v@, (n1 + n2 + m) as int)));
                            }
                            Ok((v, n1 + n2 + m))
                        },
                    }
                },
            }
        },
    }
}

/// Inserts a key-value pair into a table kept in strictly ascending key
/// order, replacing the value at an equal key.
fn sorted_insert<T: Copy>(v: &mut Vec<(u64, T)>, k: u64, val: T)
    ensures
        final(v)@ == sinsert_s(old(v)@, k, val),
{
    let ghost v0 = v@;
    let mut i: usize = v.len();
    proof {
        assert(v0.take(v0.len() as int) =~= v0);
        assert(v0.skip(v0.len() as int) =~= Seq::<(u64, T)>::empty());
        assert(sinsert_s(v0, k, val) + Seq::<(u64, T)>::empty() =~= sinsert_s(v0, k, val));
    }
    while i > 0 && v[i - 1].0 > k
        invariant
            i <= v@.len(),
            v@ == v0,
            sinsert_s(v0, k, val) == sinsert_s(v0.take(i as int), k, val) + v0.skip(i as int),
        decreases i,
    {
        proof {
            let t = v0.take(i as int);
            assert(t.drop_last() =~= v0.take(i as int - 1));
            assert(t.last() == v0[i - 1]);
            assert(sinsert_s(t, k, val) == sinsert_s(v0.take(i as int - 1), k, val).push(v0[i - 1]));
            assert(sinsert_s(v0.take(i as int - 1), k, val).push(v0[i - 1]) + v0.skip(i as int) =~= sinsert_s(v0.take(i as int - 1), k, val) + v0.skip(i as int - 1));
        }
        i = i - 1;
    }
    if i > 0 && v[i - 1].0 == k {
        proof {
            let t = v0.take(i as int);
            assert(t.last() == v0[i - 1]);
            assert(t.drop_last() =~= v0.take(i as int - 1));
            assert(sinsert_s(t, k, val) == v0.take(i as int - 1).push((k, val)));
        }
        v.remove(i - 1);
        v.insert(i - 1, (k, val));
        proof {
            assert(v@ =~= v0.take(i as int - 1).push((k, val)) + v0.skip(i as int));
        }
    } else {
        proof {
            let t = v0.take(i as int);
            if i > 0 {
                assert(t.last() == v0[i - 1]);
                assert(sinsert_s(t, k, val) == t.push((k, val)));
            } else {
                assert(t =~= Seq::<(u64, T)>::empty());
                assert(sinsert_s(t, k, val) =~= seq![(k, val)]);
                assert(sinsert_s(t, k, val) == t.push((k, val)));
            }
        }
        v.insert(i, (k, val));
        proof {
            assert(v@ =~= v0.take(i as int).push((k, val)) + v0.skip(i as int));
        }
    }
}


// ----- the universal parameters -----

/// The mathematical content of decoded universal parameters.
#[verifier::ext_equal]
pub ghost struct ParamsModel<E: PairingEngine> {
    /// The decoded power table.
    pub powers_of_g: Seq<E::G1>,
    /// The decoded sparse hiding table, in ascending key order.
    pub powers_of_gamma_g: Seq<(u64, E::G1)>,
    /// The decoded G2 generator.
    pub h: E::G2,
    /// The decoded beta multiple of the G2 generator.
    pub beta_h: E::G2,
    /// The decoded sparse prepared negative-power table, ascending.
    pub prepared_neg_powers_of_h: Seq<(u64, E::G2Prepared)>,
    /// The decoded prepared form of `h`.
    pub prepared_h: E::G2Prepared,
    /// The decoded prepared form of `beta_h`.
    pub prepared_beta_h: E::G2Prepared,
}

/// Universal parameters encode as their seven fields in declaration
/// order: the count-prefixed power table, the count-prefixed hiding
/// table, the two G2 blocks, the count-prefixed prepared table, and the
/// two prepared blocks.
pub open spec fn enc_params_s<E: PairingEngine>(p: UniversalParams<E>) -> Seq<u8> {
    enc_g1_vec_s::<E>(p.powers_of_g@) + enc_g1_map_s::<E>(p.powers_of_gamma_g@) + E::g2_enc_s(p.h)
        + E::g2_enc_s(p.beta_h) + enc_gp_map_s::<E>(p.prepared_neg_powers_of_h@) + E::gp_enc_s(
        p.prepared_h,
    ) + E::gp_enc_s(p.prepared_beta_h)
}

/// Decodes universal parameters: the seven fields in declaration order.
pub open spec fn dec_params_s<E: PairingEngine>(b: Seq<u8>) -> Result<(ParamsModel<E>, int), SerializationError> {
    match dec_g1_vec_s::<E>(b) {
        Err(e) => Err(e),
        Ok((powers, n1)) => match dec_g1_map_s::<E>(b.skip(n1)) {
            Err(e) => Err(e),
            Ok((gamma, n2)) => match dec_g2_s::<E>(b.skip(n1 + n2)) {
                Err(e) => Err(e),
                Ok((h, n3)) => match dec_g2_s::<E>(b.skip(n1 + n2 + n3)) {
                    Err(e) => Err(e),
                    Ok((beta_h, n4)) => match dec_gp_map_s::<E>(b.skip(n1 + n2 + n3 + n4)) {
                        Err(e) => Err(e),
                        Ok((neg, n5)) => match dec_gp_s::<E>(b.skip(n1 + n2 + n3 + n4 + n5)) {
                            Err(e) => Err(e),
                            Ok((ph, n6)) => match dec_gp_s::<E>(
                                b.skip(n1 + n2 + n3 + n4 + n5 + n6),
                            ) {
                                Err(e) => Err(e),
                                Ok((pbh, n7)) => Ok(
                                    (
                                        ParamsModel {
                                            powers_of_g: powers,
                                            powers_of_gamma_g: gamma,
                                            h,
                                            beta_h,
                                            prepared_neg_powers_of_h: neg,
                                            prepared_h: ph,
                                            prepared_beta_h: pbh,
                                        },
                                        n1 + n2 + n3 + n4 + n5 + n6 + n7,
                                    ),
                                ),
                            },
                        },
                    },
                },
            },
        },
    }
}

/// Ordered insertion introduces no value but the inserted one.
pub proof fn lemma_sinsert_pred<T>(s: Seq<(u64, T)>, k: u64, v: T, pred: spec_fn(T) -> bool)
    requires
        forall|i: int| 0 <= i < s.len() ==> pred((#[trigger] s[i]).1),
        pred(v),
    ensures
        forall|i: int| 0 <= i < sinsert_s(s, k, v).len() ==> pred((#[trigger] sinsert_s(s, k, v)[i]).1),
    decreases s.len(),
{
    let t = sinsert_s(s, k, v);
    if s.len() == 0 {
        assert(t =~= seq![(k, v)]);
    } else if s.last().0 < k {
        assert forall|i: int| 0 <= i < t.len() implies pred(t[i].1) by {
            if i < s.len() {
                assert(t[i] == s[i]);
            }
        }
    } else if s.last().0 == k {
        assert forall|i: int| 0 <= i < t.len() implies pred(t[i].1) by {
            if i < s.len() - 1 {
                assert(t[i] == s[i]);
            }
        }
    } else {
        assert(forall|i: int| 0 <= i < s.drop_last().len() ==> pred((#[trigger] s.drop_last()[i]).1));
        lemma_sinsert_pred(s.drop_last(), k, v, pred);
        let inner = sinsert_s(s.drop_last(), k, v);
        assert forall|i: int| 0 <= i < t.len() implies pred(t[i].1) by {
            if i < inner.len() {
                assert(t[i] == inner[i]);
            } else {
                assert(t[i] == s.last());
            }
        }
    }
}

/// Inserting pairs whose values all satisfy a predicate yields a table
/// whose values all satisfy it.
pub proof fn lemma_insert_all_pred<T>(pairs: Seq<(u64, T)>, pred: spec_fn(T) -> bool)
    requires
        forall|i: int| 0 <= i < pairs.len() ==> pred((#[trigger] pairs[i]).1),
    ensures
        forall|i: int| 0 <= i < insert_all_s(pairs).len() ==> pred((#[trigger] insert_all_s(pairs)[i]).1),
    decreases pairs.len(),
{
    if pairs.len() > 0 {
        lemma_insert_all_pred(pairs.drop_last(), pred);
        lemma_sinsert_pred(insert_all_s(pairs.drop_last()), pairs.last().0, pairs.last().1, pred);
    }
}

/// Reads a count-prefixed G1 sequence.
fn read_g1_vec<E: PairingEngine>(b: &[u8]) -> (r: Result<(Vec<E::G1>, usize), SerializationError>)
    ensures
        r matches Ok(q) ==> (dec_g1_vec_s::<E>(b@) == Ok::<(Seq<E::G1>, int), SerializationError>((q.0@, q.1 as int)) && q.1 <= b@.len()),
        r matches Err(e) ==> (dec_g1_vec_s::<E>(b@) == Err::<(Seq<E::G1>, int), SerializationError>(e)),
{
    match read_u64(b) {
        Err(e) => Err(e),
        Ok((k, n1)) => {
            let l = E::g1_len();
            proof {
                E::lemma_lens_positive();
                lemma_mul_upper_bound(k as int, u64::MAX as int, l as int, usize::MAX as int);
            }
            let avail = b.len() - 8;
            if (k as u128) * (l as u128) > (avail as u128) {
                return Err(SerializationError::InvalidLength);
            }
            proof {
                assert(k * E::g1_len_s() >= k) by (nonlinear_arith)
                    requires
                        E::g1_len_s() >= 1,
                        k >= 0,
                ;
            }
            let rest = slice_subrange(b, 8, b.len());
            proof {
                assert(rest@ =~= b@.skip(8));
                lemma_dec_g1_seq_len::<E>(b@.skip(8), k as nat);
            }
            match read_g1_seq::<E>(rest, k as usize) {
                Err(e) => Err(e),
                Ok((v, m)) => Ok((v, 8 + m)),
            }
        },
    }
}

/// Reads a count-prefixed table of key-G1 pairs and assembles it in
/// ascending key order, later pairs overriding equal keys.
fn read_g1_map<E: PairingEngine>(b: &[u8]) -> (r: Result<(Vec<(u64, E::G1)>, usize), SerializationError>)
    ensures
        r matches Ok(q) ==> (dec_g1_map_s::<E>(b@) == Ok::<(Seq<(u64, E::G1)>, int), SerializationError>((q.0@, q.1 as int)) && q.1 <= b@.len() && ascending_keys(q.0@)),
        r matches Err(e) ==> (dec_g1_map_s::<E>(b@) == Err::<(Seq<(u64, E::G1)>, int), SerializationError>(e)),
{
    match read_u64(b) {
        Err(e) => Err(e),
        Ok((k, n1)) => {
            let l = E::g1_len();
            let avail = b.len() - 8;
            if (k as u128) > (avail as u128) {
                proof {
                    assert(k * (8 + E::g1_len_s()) >= k) by (nonlinear_arith)
                        requires
                            E::g1_len_s() >= 0,
                            k >= 0,
                    ;
                }
                return Err(SerializationError::InvalidCount);
            }
            if k > 0 && (8u128 + l as u128) > (avail as u128) {
                proof {
                    assert(k * (8 + E::g1_len_s()) >= 8 + E::g1_len_s()) by (nonlinear_arith)
                        requires
                            E::g1_len_s() >= 0,
                            k >= 1,
                    ;
                }
                return Err(SerializationError::InvalidCount);
            }
            proof {
                if k > 0 {
                    assert((k as int) * (8 + l as int) <= u128::MAX as int) by (nonlinear_arith)
                        requires
                            0 <= k as int <= u64::MAX as int,
                            0 <= 8 + l as int <= u64::MAX as int,
                    ;
                } else {
                    assert((k as int) * (8 + l as int) == 0) by (nonlinear_arith)
                        requires
                            k as int == 0,
                    ;
                }
                assert(k * (8 + E::g1_len_s()) >= k) by (nonlinear_arith)
                    requires
                        E::g1_len_s() >= 0,
                        k >= 0,
                ;
            }
            if (k as u128) * (8u128 + l as u128) > (avail as u128) {
                return Err(SerializationError::InvalidCount);
            }
            let rest = slice_subrange(b, 8, b.len());
            proof {
                assert(rest@ =~= b@.skip(8));
                lemma_dec_g1_pairs_len::<E>(b@.skip(8), k as nat);
            }
            match read_g1_pairs::<E>(rest, k as usize) {
                Err(e) => Err(e),
                Ok((pairs, m)) => {
                    let mut acc: Vec<(u64, E::G1)> = Vec::new();
                    let mut i: usize = 0;
                    proof {
                        assert(acc@ =~= Seq::<(u64, E::G1)>::empty());
                        assert(pairs@.take(0) =~= Seq::<(u64, E::G1)>::empty());
                    }
                    while i < pairs.len()
                        invariant
                            i <= pairs@.len(),
                            acc@ == insert_all_s(pairs@.take(i as int)),
                        decreases pairs@.len() - i,
                    {
                        let (key, g) = pairs[i];
                        sorted_insert(&mut acc, key, g);
                        proof {
                            assert(pairs@.take(i as int + 1).drop_last() =~= pairs@.take(i as int));
                        }
                        i += 1;
                    }
                    proof {
                        assert(pairs@.take(pairs@.len() as int) =~= pairs@);
                        lemma_insert_all_props(pairs@);
                    }
                    Ok((acc, 8 + m))
                },
            }
        },
    }
}

/// Reads a count-prefixed table of key-prepared-G2 pairs and assembles it
/// in ascending key order, later pairs overriding equal keys.
fn read_gp_map<E: PairingEngine>(b: &[u8]) -> (r: Result<(Vec<(u64, E::G2Prepared)>, usize), SerializationError>)
    ensures
        r matches Ok(q) ==> (dec_gp_map_s::<E>(b@) == Ok::<(Seq<(u64, E::G2Prepared)>, int), SerializationError>((q.0@, q.1 as int)) && q.1 <= b@.len() && ascending_keys(q.0@)),
        r matches Err(e) ==> (dec_gp_map_s::<E>(b@) == Err::<(Seq<(u64, E::G2Prepared)>, int), SerializationError>(e)),
{
    match read_u64(b) {
        Err(e) => Err(e),
        Ok((k, n1)) => {
            let l = E::gp_len();
            let avail = b.len() - 8;
            if (k as u128) > (avail as u128) {
                proof {
                    assert(k * (8 + E::gp_len_s()) >= k) by (nonlinear_arith)
                        requires
                            E::gp_len_s() >= 0,
                            k >= 0,
                    ;
                }
                return Err(SerializationError::InvalidCount);
            }
            if k > 0 && (8u128 + l as u128) > (avail as u128) {
                proof {
                    assert(k * (8 + E::gp_len_s()) >= 8 + E::gp_len_s()) by (nonlinear_arith)
                        requires
                            E::gp_len_s() >= 0,
                            k >= 1,
                    ;
                }
                return Err(SerializationError::InvalidCount);
            }
            proof {
                if k > 0 {
                    assert((k as int) * (8 + l as int) <= u128::MAX as int) by (nonlinear_arith)
                        requires
                            0 <= k as int <= u64::MAX as int,
                            0 <= 8 + l as int <= u64::MAX as int,
                    ;
                } else {
                    assert((k as int) * (8 + l as int) == 0) by (nonlinear_arith)
                        requires
                            k as int == 0,
                    ;
                }
                assert(k * (8 + E::gp_len_s()) >= k) by (nonlinear_arith)
                    requires
                        E::gp_len_s() >= 0,
                        k >= 0,
                ;
            }
            if (k as u128) * (8u128 + l as u128) > (avail as u128) {
                return Err(SerializationError::InvalidCount);
            }
            let rest = slice_subrange(b, 8, b.len());
            proof {
                assert(rest@ =~= b@.skip(8));
                lemma_dec_gp_pairs_len::<E>(b@.skip(8), k as nat);
            }
            match read_gp_pairs::<E>(rest, k as usize) {
                Err(e) => Err(e),
                Ok((pairs, m)) => {
                    let mut acc: Vec<(u64, E::G2Prepared)> = Vec::new();
                    let mut i: usize = 0;
                    proof {
                        assert(acc@ =~= Seq::<(u64, E::G2Prepared)>::empty());
                        assert(pairs@.take(0) =~= Seq::<(u64, E::G2Prepared)>::empty());
                    }
                    while i < pairs.len()
                        invariant
                            i <= pairs@.len(),
                            acc@ == insert_all_s(pairs@.take(i as int)),
                        decreases pairs@.len() - i,
                    {
                        let (key, g) = pairs[i];
                        sorted_insert(&mut acc, key, g);
                        proof {
                            assert(pairs@.take(i as int + 1).drop_last() =~= pairs@.take(i as int));
                        }
                        i += 1;
                    }
                    proof {
                        assert(pairs@.take(pairs@.len() as int) =~= pairs@);
                        lemma_insert_all_props(pairs@);
                    }
                    Ok((acc, 8 + m))
                },
            }
        },
    }
}


/// Every point of a successfully read G1 sequence passed its checks.
pub proof fn lemma_dec_g1_seq_valid<E: PairingEngine>(b: Seq<u8>, k: nat)
    ensures
        dec_g1_seq_s::<E>(b, k) matches Ok(p) ==> (forall|i: int| 0 <= i < p.0.len() ==> E::g1_on_curve_s(#[trigger] p.0[i]) && E::g1_in_subgroup_s(p.0[i])),
    decreases k,
{
    if k > 0 {
        match dec_g1_s::<E>(b) {
            Ok((g, n)) => {
                E::lemma_g1_dec_valid(b.take(E::g1_len_s() as int));
                lemma_dec_g1_seq_valid::<E>(b.skip(n), (k - 1) as nat);
            },
            Err(e) => {},
        }
    }
}

/// Every value of a successfully read G1 pair sequence passed its checks.
pub proof fn lemma_dec_g1_pairs_valid<E: PairingEngine>(b: Seq<u8>, k: nat)
    ensures
        dec_g1_pairs_s::<E>(b, k) matches Ok(p) ==> (forall|i: int| 0 <= i < p.0.len() ==> E::g1_on_curve_s((#[trigger] p.0[i]).1) && E::g1_in_subgroup_s(p.0[i].1)),
    decreases k,
{
    if k > 0 {
        match dec_u64_s(b) {
            Ok((key, n1)) => match dec_g1_s::<E>(b.skip(n1)) {
                Ok((g, n2)) => {
                    E::lemma_g1_dec_valid(b.skip(n1).take(E::g1_len_s() as int));
                    lemma_dec_g1_pairs_valid::<E>(b.skip(n1 + n2), (k - 1) as nat);
                },
                Err(e) => {},
            },
            Err(e) => {},
        }
    }
}

/// Every value of a successfully read prepared-G2 pair sequence passed
/// its checks.
pub proof fn lemma_dec_gp_pairs_valid<E: PairingEngine>(b: Seq<u8>, k: nat)
    ensures
        dec_gp_pairs_s::<E>(b, k) matches Ok(p) ==> (forall|i: int| 0 <= i < p.0.len() ==> E::gp_valid_s((#[trigger] p.0[i]).1)),
    decreases k,
{
    if k > 0 {
        match dec_u64_s(b) {
            Ok((key, n1)) => match dec_gp_s::<E>(b.skip(n1)) {
                Ok((g, n2)) => {
                    E::lemma_gp_dec_valid(b.skip(n1).take(E::gp_len_s() as int));
                    lemma_dec_gp_pairs_valid::<E>(b.skip(n1 + n2), (k - 1) as nat);
                },
                Err(e) => {},
            },
            Err(e) => {},
        }
    }
}

/// A successfully read G1 table is strictly ascending and holds only
/// checked points.
pub proof fn lemma_dec_g1_map_valid<E: PairingEngine>(b: Seq<u8>)
    ensures
        dec_g1_map_s::<E>(b) matches Ok(p) ==> ascending_keys(p.0) && (forall|i: int| 0 <= i < p.0.len() ==> E::g1_on_curve_s((#[trigger] p.0[i]).1) && E::g1_in_subgroup_s(p.0[i].1)),
{
    match dec_u64_s(b) {
        Ok((k, n)) => {
            if !(b.len() - 8 < k * (8 + E::g1_len_s())) {
                match dec_g1_pairs_s::<E>(b.skip(8), k as nat) {
                    Ok((pairs, m)) => {
                        lemma_dec_g1_pairs_valid::<E>(b.skip(8), k as nat);
                        lemma_insert_all_props(pairs);
                        lemma_insert_all_pred(
                            pairs,
                            |g: E::G1| E::g1_on_curve_s(g) && E::g1_in_subgroup_s(g),
                        );
                    },
                    Err(e) => {},
                }
            }
        },
        Err(e) => {},
    }
}

/// A successfully read prepared-G2 table is strictly ascending and holds
/// only checked values.
pub proof fn lemma_dec_gp_map_valid<E: PairingEngine>(b: Seq<u8>)
    ensures
        dec_gp_map_s::<E>(b) matches Ok(p) ==> ascending_keys(p.0) && (forall|i: int| 0 <= i < p.0.len() ==> E::gp_valid_s((#[trigger] p.0[i]).1)),
{
    match dec_u64_s(b) {
        Ok((k, n)) => {
            if !(b.len() - 8 < k * (8 + E::gp_len_s())) {
                match dec_gp_pairs_s::<E>(b.skip(8), k as nat) {
                    Ok((pairs, m)) => {
                        lemma_dec_gp_pairs_valid::<E>(b.skip(8), k as nat);
                        lemma_insert_all_props(pairs);
                        lemma_insert_all_pred(pairs, |g: E::G2Prepared| E::gp_valid_s(g));
                    },
                    Err(e) => {},
                }
            }
        },
        Err(e) => {},
    }
}

/// Appending any suffix, a count-prefixed sequence of valid points reads
/// back as exactly that sequence.
pub proof fn lemma_g1_vec_roundtrip<E: PairingEngine>(s: Seq<E::G1>, rest: Seq<u8>)
    requires
        forall|i: int| 0 <= i < s.len() ==> E::g1_on_curve_s(#[trigger] s[i]) && E::g1_in_subgroup_s(s[i]),
        s.len() <= u64::MAX,
    ensures
        enc_g1_vec_s::<E>(s).len() == 8 + s.len() * E::g1_len_s(),
        dec_g1_vec_s::<E>(enc_g1_vec_s::<E>(s) + rest) == Ok::<(Seq<E::G1>, int), SerializationError>((s, (8 + s.len() * E::g1_len_s()) as int)),
{
    lemma_auto_spec_u64_to_from_le_bytes();
    lemma_g1_seq_roundtrip::<E>(s, rest);
    let b = enc_g1_vec_s::<E>(s) + rest;
    assert(b.take(8) =~= enc_u64_s(s.len() as u64));
    assert(dec_u64_s(b) == Ok::<(u64, int), SerializationError>((s.len() as u64, 8)));
    assert(b.skip(8) =~= enc_g1_seq_s::<E>(s) + rest);
}

/// Appending any suffix, a count-prefixed ascending table of valid points
/// reads back as exactly that table.
pub proof fn lemma_g1_map_roundtrip<E: PairingEngine>(s: Seq<(u64, E::G1)>, rest: Seq<u8>)
    requires
        ascending_keys(s),
        forall|i: int| 0 <= i < s.len() ==> E::g1_on_curve_s((#[trigger] s[i]).1) && E::g1_in_subgroup_s(s[i].1),
        s.len() <= u64::MAX,
    ensures
        enc_g1_map_s::<E>(s).len() == 8 + s.len() * (8 + E::g1_len_s()),
        dec_g1_map_s::<E>(enc_g1_map_s::<E>(s) + rest) == Ok::<(Seq<(u64, E::G1)>, int), SerializationError>((s, (8 + s.len() * (8 + E::g1_len_s())) as int)),
{
    lemma_auto_spec_u64_to_from_le_bytes();
    lemma_g1_pairs_roundtrip::<E>(s, rest);
    lemma_insert_all_props(s);
    let b = enc_g1_map_s::<E>(s) + rest;
    assert(b.take(8) =~= enc_u64_s(s.len() as u64));
    assert(dec_u64_s(b) == Ok::<(u64, int), SerializationError>((s.len() as u64, 8)));
    assert(b.skip(8) =~= enc_g1_pairs_s::<E>(s) + rest);
}

/// Appending any suffix, a count-prefixed ascending table of valid
/// prepared values reads back as exactly that table.
pub proof fn lemma_gp_map_roundtrip<E: PairingEngine>(s: Seq<(u64, E::G2Prepared)>, rest: Seq<u8>)
    requires
        ascending_keys(s),
        forall|i: int| 0 <= i < s.len() ==> E::gp_valid_s((#[trigger] s[i]).1),
        s.len() <= u64::MAX,
    ensures
        enc_gp_map_s::<E>(s).len() == 8 + s.len() * (8 + E::gp_len_s()),
        dec_gp_map_s::<E>(enc_gp_map_s::<E>(s) + rest) == Ok::<(Seq<(u64, E::G2Prepared)>, int), SerializationError>((s, (8 + s.len() * (8 + E::gp_len_s())) as int)),
{
    lemma_auto_spec_u64_to_from_le_bytes();
    lemma_gp_pairs_roundtrip::<E>(s, rest);
    lemma_insert_all_props(s);
    let b = enc_gp_map_s::<E>(s) + rest;
    assert(b.take(8) =~= enc_u64_s(s.len() as u64));
    assert(dec_u64_s(b) == Ok::<(u64, int), SerializationError>((s.len() as u64, 8)));
    assert(b.skip(8) =~= enc_gp_pairs_s::<E>(s) + rest);
}

impl<E: PairingEngine> UniversalParams<E> {
    /// Writes the canonical bytes of these parameters.
    pub fn to_bytes(&self) -> (v: Vec<u8>)
        ensures
            v@ == enc_params_s(*self),
    {
        let mut v = write_u64(self.powers_of_g.len() as u64);
        let mut p1 = write_g1_seq::<E>(self.powers_of_g.as_slice());
        v.append(&mut p1);
        let mut p2 = write_u64(self.powers_of_gamma_g.len() as u64);
        v.append(&mut p2);
        let mut p3 = write_g1_pairs::<E>(self.powers_of_gamma_g.as_slice());
        v.append(&mut p3);
        let mut p4 = E::g2_write(&self.h);
        v.append(&mut p4);
        let mut p5 = E::g2_write(&self.beta_h);
        v.append(&mut p5);
        let mut p6 = write_u64(self.prepared_neg_powers_of_h.len() as u64);
        v.append(&mut p6);
        let mut p7 = write_gp_pairs::<E>(self.prepared_neg_powers_of_h.as_slice());
        v.append(&mut p7);
        let mut p8 = E::gp_write(&self.prepared_h);
        v.append(&mut p8);
        let mut p9 = E::gp_write(&self.prepared_beta_h);
        v.append(&mut p9);
        proof {
            assert(v@ =~= enc_params_s(*self));
        }
        v
    }

    /// Reads parameters from canonical bytes, rejecting bad elements,
    /// inconsistent counts and trailing input; the decoded tables come
    /// out in strictly ascending key order with every element checked.
    #[verifier::rlimit(100)]
    #[verifier::spinoff_prover]
    pub fn from_bytes(b: &[u8]) -> (r: Result<Self, SerializationError>)
        ensures
            r matches Ok(x) ==> (dec_params_s::<E>(b@) matches Ok(p) && p.1 == b@.len() && x.powers_of_g@ == p.0.powers_of_g && x.powers_of_gamma_g@ == p.0.powers_of_gamma_g && x.h == p.0.h && x.beta_h == p.0.beta_h && x.prepared_neg_powers_of_h@ == p.0.prepared_neg_powers_of_h && x.prepared_h == p.0.prepared_h && x.prepared_beta_h == p.0.prepared_beta_h && x.wf() && x.valid_elems()),
            r matches Err(e) ==> (dec_params_s::<E>(b@) matches Err(e2) && e2 == e) || (dec_params_s::<E>(b@) matches Ok(p) && p.1 != b@.len() && e == SerializationError::TrailingBytes),
    {
        let whole = slice_subrange(b, 0, b.len());
        proof {
            assert(whole@ =~= b@);
            lemma_dec_g1_vec_valid_whole::<E>(b@);
        }
        match read_g1_vec::<E>(whole) {
            Err(e) => Err(e),
            Ok((powers_of_g, n1)) => {
                let r2 = slice_subrange(b, n1, b.len());
                proof {
                    assert(r2@ =~= b@.skip(n1 as int));
                    lemma_dec_g1_map_valid::<E>(b@.skip(n1 as int));
                }
                match read_g1_map::<E>(r2) {
                    Err(e) => Err(e),
                    Ok((gamma, n2)) => {
                        let r3 = slice_subrange(b, n1 + n2, b.len());
                        proof {
                            assert(r3@ =~= b@.skip(n1 + n2 as int));
                        }
                        match read_g2::<E>(r3) {
                            Err(e) => Err(e),
                            Ok((h, n3)) => {
                                proof {
                                    E::lemma_g2_dec_valid(b@.skip(n1 + n2 as int).take(E::g2_len_s() as int));
                                }
                                let r4 = slice_subrange(b, n1 + n2 + n3, b.len());
                                proof {
                                    assert(r4@ =~= b@.skip(n1 + n2 + n3 as int));
                                }
                                match read_g2::<E>(r4) {
                                    Err(e) => Err(e),
                                    Ok((beta_h, n4)) => {
                                        proof {
                                            E::lemma_g2_dec_valid(b@.skip(n1 + n2 + n3 as int).take(E::g2_len_s() as int));
                                        }
                                        let r5 = slice_subrange(b, n1 + n2 + n3 + n4, b.len());
                                        proof {
                                            assert(r5@ =~= b@.skip(n1 + n2 + n3 + n4 as int));
                                            lemma_dec_gp_map_valid::<E>(b@.skip(n1 + n2 + n3 + n4 as int));
                                        }
                                        match read_gp_map::<E>(r5) {
                                            Err(e) => Err(e),
                                            Ok((neg, n5)) => {
                                                let r6 = slice_subrange(b, n1 + n2 + n3 + n4 + n5, b.len());
                                                proof {
                                                    assert(r6@ =~= b@.skip(n1 + n2 + n3 + n4 + n5 as int));
                                                }
                                                match read_gp::<E>(r6) {
                                                    Err(e) => Err(e),
                                                    Ok((ph, n6)) => {
                                                        proof {
                                                            E::lemma_gp_dec_valid(b@.skip(n1 + n2 + n3 + n4 + n5 as int).take(E::gp_len_s() as int));
                                                        }
                                                        let r7 = slice_subrange(b, n1 + n2 + n3 + n4 + n5 + n6, b.len());
                                                        proof {
                                                            assert(r7@ =~= b@.skip(n1 + n2 + n3 + n4 + n5 + n6 as int));
                                                        }
                                                        match read_gp::<E>(r7) {
                                                            Err(e) => Err(e),
                                                            Ok((pbh, n7)) => {
                                                                proof {
                                                                    E::lemma_gp_dec_valid(b@.skip(n1 + n2 + n3 + n4 + n5 + n6 as int).take(E::gp_len_s() as int));
                                                                }
                                                                if n1 + n2 + n3 + n4 + n5 + n6 + n7 == b.len() {
                                                                    Ok(UniversalParams {
                                                                        powers_of_g,
                                                                        powers_of_gamma_g: gamma,
                                                                        h,
                                                                        beta_h,
                                                                        prepared_neg_powers_of_h: neg,
                                                                        prepared_h: ph,
                                                                        prepared_beta_h: pbh,
                                                                    })
                                                                } else {
                                                                    Err(SerializationError::TrailingBytes)
                                                                }
                                                            },
                                                        }
                                                    },
                                                }
                                            },
                                        }
                                    },
                                }
                            },
                        }
                    },
                }
            },
        }
    }
}

/// Every point of a successfully read count-prefixed G1 sequence passed
/// its checks.
pub proof fn lemma_dec_g1_vec_valid_whole<E: PairingEngine>(b: Seq<u8>)
    ensures
        dec_g1_vec_s::<E>(b) matches Ok(p) ==> (forall|i: int| 0 <= i < p.0.len() ==> E::g1_on_curve_s(#[trigger] p.0[i]) && E::g1_in_subgroup_s(p.0[i])),
{
    match dec_u64_s(b) {
        Ok((k, n)) => {
            if !(b.len() - 8 < k * E::g1_len_s()) {
                lemma_dec_g1_seq_valid::<E>(b.skip(8), k as nat);
            }
        },
        Err(e) => {},
    }
}

/// The bytes of well-formed, valid parameters read back as exactly those
/// parameters.
#[verifier::rlimit(100)]
#[verifier::spinoff_prover]
pub proof fn lemma_params_roundtrip<E: PairingEngine>(x: UniversalParams<E>)
    requires
        x.wf(),
        x.valid_elems(),
        x.powers_of_g@.len() <= u64::MAX,
        x.powers_of_gamma_g@.len() <= u64::MAX,
        x.prepared_neg_powers_of_h@.len() <= u64::MAX,
    ensures
        dec_params_s::<E>(enc_params_s(x)) matches Ok(p) && p.1 == enc_params_s(x).len() && p.0.powers_of_g == x.powers_of_g@ && p.0.powers_of_gamma_g == x.powers_of_gamma_g@ && p.0.h == x.h && p.0.beta_h == x.beta_h && p.0.prepared_neg_powers_of_h == x.prepared_neg_powers_of_h@ && p.0.prepared_h == x.prepared_h && p.0.prepared_beta_h == x.prepared_beta_h,
{
    let b = enc_params_s(x);
    let pa = enc_g1_vec_s::<E>(x.powers_of_g@);
    let pb = enc_g1_map_s::<E>(x.powers_of_gamma_g@);
    let pc = E::g2_enc_s(x.h);
    let pd = E::g2_enc_s(x.beta_h);
    let pe = enc_gp_map_s::<E>(x.prepared_neg_powers_of_h@);
    let pf = E::gp_enc_s(x.prepared_h);
    let pg = E::gp_enc_s(x.prepared_beta_h);
    E::lemma_g2_codec(x.h);
    E::lemma_g2_codec(x.beta_h);
    E::lemma_gp_codec(x.prepared_h);
    E::lemma_gp_codec(x.prepared_beta_h);
    let l2 = E::g2_len_s() as int;
    let lp = E::gp_len_s() as int;
    lemma_g1_vec_roundtrip::<E>(x.powers_of_g@, pb + pc + pd + pe + pf + pg);
    assert(b =~= pa + (pb + pc + pd + pe + pf + pg));
    let n1 = 8 + x.powers_of_g@.len() * E::g1_len_s();
    assert(b.skip(n1 as int) =~= pb + (pc + pd + pe + pf + pg));
    lemma_g1_map_roundtrip::<E>(x.powers_of_gamma_g@, pc + pd + pe + pf + pg);
    let n2 = 8 + x.powers_of_gamma_g@.len() * (8 + E::g1_len_s());
    assert(b.skip(n1 + n2 as int) =~= pc + (pd + pe + pf + pg));
    assert(b.skip(n1 + n2 as int).take(l2) =~= pc);
    assert(b.skip(n1 + n2 + l2 as int) =~= pd + (pe + pf + pg));
    assert(b.skip(n1 + n2 as int).skip(l2) =~= b.skip(n1 + n2 + l2 as int));
    assert(b.skip(n1 + n2 + l2 as int).take(l2) =~= pd);
    lemma_gp_map_roundtrip::<E>(x.prepared_neg_powers_of_h@, pf + pg);
    assert(b.skip(n1 + n2 + l2 + l2 as int) =~= pe + (pf + pg));
    let n5 = 8 + x.prepared_neg_powers_of_h@.len() * (8 + E::gp_len_s());
    assert(b.skip(n1 + n2 + l2 + l2 + n5 as int) =~= pf + pg);
    assert(b.skip(n1 + n2 + l2 + l2 + n5 as int).take(lp) =~= pf);
    assert(b.skip(n1 + n2 + l2 + l2 + n5 + lp as int) =~= pg);
    assert(b.skip(n1 + n2 + l2 + l2 + n5 + lp as int).take(lp) =~= pg);
    assert(b.len() == n1 + n2 + l2 + l2 + n5 + lp + lp);
}


// ----- truncation rejection -----
//
// Each reader is stable under truncation: keeping at least the bytes it
// consumed leaves its result unchanged, and cutting into them leaves a
// decode failure, never a different value. Composed over every field,
// truncating a valid encoded stream by even one byte yields an error.

/// Truncation stability of the count reader.
pub proof fn lemma_dec_u64_stable(b: Seq<u8>, m: int)
    requires
        0 <= m <= b.len(),
    ensures
        (dec_u64_s(b) matches Ok(p) && m >= p.1) ==> dec_u64_s(b.take(m)) == dec_u64_s(b),
        (dec_u64_s(b) matches Ok(p) && m < p.1) ==> (dec_u64_s(b.take(m)) matches Err(x)),
        (dec_u64_s(b) matches Err(x)) ==> (dec_u64_s(b.take(m)) matches Err(y)),
{
    if b.len() >= 8 && m >= 8 {
        assert(b.take(m).take(8) =~= b.take(8));
    }
}

/// Truncation stability of the scalar block reader.
pub proof fn lemma_dec_fr_stable<E: PairingEngine>(b: Seq<u8>, m: int)
    requires
        0 <= m <= b.len(),
    ensures
        (dec_fr_s::<E>(b) matches Ok(p) && m >= p.1) ==> dec_fr_s::<E>(b.take(m)) == dec_fr_s::<E>(b),
        (dec_fr_s::<E>(b) matches Ok(p) && m < p.1) ==> (dec_fr_s::<E>(b.take(m)) matches Err(x)),
        (dec_fr_s::<E>(b) matches Err(x)) ==> (dec_fr_s::<E>(b.take(m)) matches Err(y)),
{
    let l = E::fr_len_s() as int;
    if b.len() >= l && m >= l {
        assert(b.take(m).take(l) =~= b.take(l));
    }
}

/// Truncation stability of the G1 block reader.
pub proof fn lemma_dec_g1_stable<E: PairingEngine>(b: Seq<u8>, m: int)
    requires
        0 <= m <= b.len(),
    ensures
        (dec_g1_s::<E>(b) matches Ok(p) && m >= p.1) ==> dec_g1_s::<E>(b.take(m)) == dec_g1_s::<E>(b),
        (dec_g1_s::<E>(b) matches Ok(p) && m < p.1) ==> (dec_g1_s::<E>(b.take(m)) matches Err(x)),
        (dec_g1_s::<E>(b) matches Err(x)) ==> (dec_g1_s::<E>(b.take(m)) matches Err(y)),
{
    let l = E::g1_len_s() as int;
    if b.len() >= l && m >= l {
        assert(b.take(m).take(l) =~= b.take(l));
    }
}

/// Truncation stability of the G2 block reader.
pub proof fn lemma_dec_g2_stable<E: PairingEngine>(b: Seq<u8>, m: int)
    requires
        0 <= m <= b.len(),
    ensures
        (dec_g2_s::<E>(b) matches Ok(p) && m >= p.1) ==> dec_g2_s::<E>(b.take(m)) == dec_g2_s::<E>(b),
        (dec_g2_s::<E>(b) matches Ok(p) && m < p.1) ==> (dec_g2_s::<E>(b.take(m)) matches Err(x)),
        (dec_g2_s::<E>(b) matches Err(x)) ==> (dec_g2_s::<E>(b.take(m)) matches Err(y)),
{
    let l = E::g2_len_s() as int;
    if b.len() >= l && m >= l {
        assert(b.take(m).take(l) =~= b.take(l));
    }
}

/// Truncation stability of the prepared-G2 block reader.
pub proof fn lemma_dec_gp_stable<E: PairingEngine>(b: Seq<u8>, m: int)
    requires
        0 <= m <= b.len(),
    ensures
        (dec_gp_s::<E>(b) matches Ok(p) && m >= p.1) ==> dec_gp_s::<E>(b.take(m)) == dec_gp_s::<E>(b),
        (dec_gp_s::<E>(b) matches Ok(p) && m < p.1) ==> (dec_gp_s::<E>(b.take(m)) matches Err(x)),
        (dec_gp_s::<E>(b) matches Err(x)) ==> (dec_gp_s::<E>(b.take(m)) matches Err(y)),
{
    let l = E::gp_len_s() as int;
    if b.len() >= l && m >= l {
        assert(b.take(m).take(l) =~= b.take(l));
    }
}

/// Truncation stability of the optional-scalar reader.
pub proof fn lemma_dec_opt_fr_stable<E: PairingEngine>(b: Seq<u8>, m: int)
    requires
        0 <= m <= b.len(),
    ensures
        (dec_opt_fr_s::<E>(b) matches Ok(p) && m >= p.1) ==> dec_opt_fr_s::<E>(b.take(m)) == dec_opt_fr_s::<E>(b),
        (dec_opt_fr_s::<E>(b) matches Ok(p) && m < p.1) ==> (dec_opt_fr_s::<E>(b.take(m)) matches Err(x)),
        (dec_opt_fr_s::<E>(b) matches Err(x)) ==> (dec_opt_fr_s::<E>(b.take(m)) matches Err(y)),
{
    if b.len() >= 1 && m >= 1 {
        assert(b.take(m)[0] == b[0]);
        assert(b.take(m).skip(1) =~= b.skip(1).take(m - 1));
        lemma_dec_fr_stable::<E>(b.skip(1), m - 1);
    }
}

/// Truncation stability of the scalar sequence reader.
pub proof fn lemma_dec_fr_seq_stable<E: PairingEngine>(b: Seq<u8>, k: nat, m: int)
    requires
        0 <= m <= b.len(),
    ensures
        (dec_fr_seq_s::<E>(b, k) matches Ok(p) && m >= p.1) ==> dec_fr_seq_s::<E>(b.take(m), k) == dec_fr_seq_s::<E>(b, k),
        (dec_fr_seq_s::<E>(b, k) matches Ok(p) && m < p.1) ==> (dec_fr_seq_s::<E>(b.take(m), k) matches Err(x)),
        (dec_fr_seq_s::<E>(b, k) matches Err(x)) ==> (dec_fr_seq_s::<E>(b.take(m), k) matches Err(y)),
    decreases k,
{
    if k > 0 {
        lemma_dec_fr_stable::<E>(b, m);
        match dec_fr_s::<E>(b) {
            Err(e) => {},
            Ok((f, n)) => {
                lemma_dec_fr_seq_len::<E>(b.skip(n), (k - 1) as nat);
                if m >= n {
                    assert(b.take(m).skip(n) =~= b.skip(n).take(m - n));
                    lemma_dec_fr_seq_stable::<E>(b.skip(n), (k - 1) as nat, m - n);
                }
            },
        }
    }
}

/// Truncation stability of the G1 sequence reader.
pub proof fn lemma_dec_g1_seq_stable<E: PairingEngine>(b: Seq<u8>, k: nat, m: int)
    requires
        0 <= m <= b.len(),
    ensures
        (dec_g1_seq_s::<E>(b, k) matches Ok(p) && m >= p.1) ==> dec_g1_seq_s::<E>(b.take(m), k) == dec_g1_seq_s::<E>(b, k),
        (dec_g1_seq_s::<E>(b, k) matches Ok(p) && m < p.1) ==> (dec_g1_seq_s::<E>(b.take(m), k) matches Err(x)),
        (dec_g1_seq_s::<E>(b, k) matches Err(x)) ==> (dec_g1_seq_s::<E>(b.take(m), k) matches Err(y)),
    decreases k,
{
    if k > 0 {
        lemma_dec_g1_stable::<E>(b, m);
        match dec_g1_s::<E>(b) {
            Err(e) => {},
            Ok((g, n)) => {
                lemma_dec_g1_seq_len::<E>(b.skip(n), (k - 1) as nat);
                if m >= n {
                    assert(b.take(m).skip(n) =~= b.skip(n).take(m - n));
                    lemma_dec_g1_seq_stable::<E>(b.skip(n), (k - 1) as nat, m - n);
                }
            },
        }
    }
}

/// Truncation stability of the G1 pair reader.
pub proof fn lemma_dec_g1_pairs_stable<E: PairingEngine>(b: Seq<u8>, k: nat, m: int)
    requires
        0 <= m <= b.len(),
    ensures
        (dec_g1_pairs_s::<E>(b, k) matches Ok(p) && m >= p.1) ==> dec_g1_pairs_s::<E>(b.take(m), k) == dec_g1_pairs_s::<E>(b, k),
        (dec_g1_pairs_s::<E>(b, k) matches Ok(p) && m < p.1) ==> (dec_g1_pairs_s::<E>(b.take(m), k) matches Err(x)),
        (dec_g1_pairs_s::<E>(b, k) matches Err(x)) ==> (dec_g1_pairs_s::<E>(b.take(m), k) matches Err(y)),
    decreases k,
{
    if k > 0 {
        lemma_dec_u64_stable(b, m);
        match dec_u64_s(b) {
            Err(e) => {},
            Ok((key, n1)) => {
                match dec_g1_s::<E>(b.skip(n1)) {
                    Err(e) => {},
                    Ok((g, n2)) => {
                        assert(b.skip(n1).skip(n2) =~= b.skip(n1 + n2));
                        lemma_dec_g1_pairs_len::<E>(b.skip(n1 + n2), (k - 1) as nat);
                    },
                }
                if m >= n1 {
                    assert(b.take(m).skip(n1) =~= b.skip(n1).take(m - n1));
                    lemma_dec_g1_stable::<E>(b.skip(n1), m - n1);
                    match dec_g1_s::<E>(b.skip(n1)) {
                        Err(e) => {},
                        Ok((g, n2)) => {
                            if m >= n1 + n2 {
                                assert(b.take(m).skip(n1 + n2) =~= b.skip(n1 + n2).take(m - n1 - n2));
                                assert(b.take(m).skip(n1).skip(n2) =~= b.take(m).skip(n1 + n2));
                                lemma_dec_g1_pairs_stable::<E>(b.skip(n1 + n2), (k - 1) as nat, m - n1 - n2);
                            }
                        },
                    }
                }
            },
        }
    }
}

/// Truncation stability of the prepared-G2 pair reader.
pub proof fn lemma_dec_gp_pairs_stable<E: PairingEngine>(b: Seq<u8>, k: nat, m: int)
    requires
        0 <= m <= b.len(),
    ensures
        (dec_gp_pairs_s::<E>(b, k) matches Ok(p) && m >= p.1) ==> dec_gp_pairs_s::<E>(b.take(m), k) == dec_gp_pairs_s::<E>(b, k),
        (dec_gp_pairs_s::<E>(b, k) matches Ok(p) && m < p.1) ==> (dec_gp_pairs_s::<E>(b.take(m), k) matches Err(x)),
        (dec_gp_pairs_s::<E>(b, k) matches Err(x)) ==> (dec_gp_pairs_s::<E>(b.take(m), k) matches Err(y)),
    decreases k,
{
    if k > 0 {
        lemma_dec_u64_stable(b, m);
        match dec_u64_s(b) {
            Err(e) => {},
            Ok((key, n1)) => {
                match dec_gp_s::<E>(b.skip(n1)) {
                    Err(e) => {},
                    Ok((g, n2)) => {
                        assert(b.skip(n1).skip(n2) =~= b.skip(n1 + n2));
                        lemma_dec_gp_pairs_len::<E>(b.skip(n1 + n2), (k - 1) as nat);
                    },
                }
                if m >= n1 {
                    assert(b.take(m).skip(n1) =~= b.skip(n1).take(m - n1));
                    lemma_dec_gp_stable::<E>(b.skip(n1), m - n1);
                    match dec_gp_s::<E>(b.skip(n1)) {
                        Err(e) => {},
                        Ok((g, n2)) => {
                            if m >= n1 + n2 {
                                assert(b.take(m).skip(n1 + n2) =~= b.skip(n1 + n2).take(m - n1 - n2));
                                assert(b.take(m).skip(n1).skip(n2) =~= b.take(m).skip(n1 + n2));
                                lemma_dec_gp_pairs_stable::<E>(b.skip(n1 + n2), (k - 1) as nat, m - n1 - n2);
                            }
                        },
                    }
                }
            },
        }
    }
}

/// Truncation stability of the count-prefixed scalar sequence reader.
pub proof fn lemma_dec_fr_vec_stable<E: PairingEngine>(b: Seq<u8>, m: int)
    requires
        0 <= m <= b.len(),
    ensures
        (dec_fr_vec_s::<E>(b) matches Ok(p) && m >= p.1) ==> dec_fr_vec_s::<E>(b.take(m)) == dec_fr_vec_s::<E>(b),
        (dec_fr_vec_s::<E>(b) matches Ok(p) && m < p.1) ==> (dec_fr_vec_s::<E>(b.take(m)) matches Err(x)),
        (dec_fr_vec_s::<E>(b) matches Err(x)) ==> (dec_fr_vec_s::<E>(b.take(m)) matches Err(y)),
{
    lemma_dec_u64_stable(b, m);
    match dec_u64_s(b) {
        Err(e) => {},
        Ok((k, n1)) => {
            lemma_dec_fr_seq_len::<E>(b.skip(8), k as nat);
            if m >= 8 {
                assert(b.take(m).skip(8) =~= b.skip(8).take(m - 8));
                lemma_dec_fr_seq_stable::<E>(b.skip(8), k as nat, m - 8);
            }
        },
    }
}

/// Truncation stability of the count-prefixed G1 sequence reader.
pub proof fn lemma_dec_g1_vec_stable<E: PairingEngine>(b: Seq<u8>, m: int)
    requires
        0 <= m <= b.len(),
    ensures
        (dec_g1_vec_s::<E>(b) matches Ok(p) && m >= p.1) ==> dec_g1_vec_s::<E>(b.take(m)) == dec_g1_vec_s::<E>(b),
        (dec_g1_vec_s::<E>(b) matches Ok(p) && m < p.1) ==> (dec_g1_vec_s::<E>(b.take(m)) matches Err(x)),
        (dec_g1_vec_s::<E>(b) matches Err(x)) ==> (dec_g1_vec_s::<E>(b.take(m)) matches Err(y)),
{
    lemma_dec_u64_stable(b, m);
    match dec_u64_s(b) {
        Err(e) => {},
        Ok((k, n1)) => {
            lemma_dec_g1_seq_len::<E>(b.skip(8), k as nat);
            if m >= 8 {
                assert(b.take(m).skip(8) =~= b.skip(8).take(m - 8));
                lemma_dec_g1_seq_stable::<E>(b.skip(8), k as nat, m - 8);
            }
        },
    }
}

/// Truncation stability of the G1 table reader.
pub proof fn lemma_dec_g1_map_stable<E: PairingEngine>(b: Seq<u8>, m: int)
    requires
        0 <= m <= b.len(),
    ensures
        (dec_g1_map_s::<E>(b) matches Ok(p) && m >= p.1) ==> dec_g1_map_s::<E>(b.take(m)) == dec_g1_map_s::<E>(b),
        (dec_g1_map_s::<E>(b) matches Ok(p) && m < p.1) ==> (dec_g1_map_s::<E>(b.take(m)) matches Err(x)),
        (dec_g1_map_s::<E>(b) matches Err(x)) ==> (dec_g1_map_s::<E>(b.take(m)) matches Err(y)),
{
    lemma_dec_u64_stable(b, m);
    match dec_u64_s(b) {
        Err(e) => {},
        Ok((k, n1)) => {
            lemma_dec_g1_pairs_len::<E>(b.skip(8), k as nat);
            if m >= 8 {
                assert(b.take(m).skip(8) =~= b.skip(8).take(m - 8));
                lemma_dec_g1_pairs_stable::<E>(b.skip(8), k as nat, m - 8);
            }
        },
    }
}

/// Truncation stability of the prepared-G2 table reader.
pub proof fn lemma_dec_gp_map_stable<E: PairingEngine>(b: Seq<u8>, m: int)
    requires
        0 <= m <= b.len(),
    ensures
        (dec_gp_map_s::<E>(b) matches Ok(p) && m >= p.1) ==> dec_gp_map_s::<E>(b.take(m)) == dec_gp_map_s::<E>(b),
        (dec_gp_map_s::<E>(b) matches Ok(p) && m < p.1) ==> (dec_gp_map_s::<E>(b.take(m)) matches Err(x)),
        (dec_gp_map_s::<E>(b) matches Err(x)) ==> (dec_gp_map_s::<E>(b.take(m)) matches Err(y)),
{
    lemma_dec_u64_stable(b, m);
    match dec_u64_s(b) {
        Err(e) => {},
        Ok((k, n1)) => {
            lemma_dec_gp_pairs_len::<E>(b.skip(8), k as nat);
            if m >= 8 {
                assert(b.take(m).skip(8) =~= b.skip(8).take(m - 8));
                lemma_dec_gp_pairs_stable::<E>(b.skip(8), k as nat, m - 8);
            }
        },
    }
}


/// A successful count-prefixed G1 read consumes no more than the input.
pub proof fn lemma_dec_g1_vec_len<E: PairingEngine>(b: Seq<u8>)
    ensures
        dec_g1_vec_s::<E>(b) matches Ok(p) ==> 0 <= p.1 <= b.len(),
{
    match dec_u64_s(b) {
        Ok((k, n)) => {
            if !(b.len() - 8 < k * E::g1_len_s()) {
                lemma_dec_g1_seq_len::<E>(b.skip(8), k as nat);
            }
        },
        Err(e) => {},
    }
}

/// A successful G1 table read consumes no more than the input.
pub proof fn lemma_dec_g1_map_len<E: PairingEngine>(b: Seq<u8>)
    ensures
        dec_g1_map_s::<E>(b) matches Ok(p) ==> 0 <= p.1 <= b.len(),
{
    match dec_u64_s(b) {
        Ok((k, n)) => {
            if !(b.len() - 8 < k * (8 + E::g1_len_s())) {
                lemma_dec_g1_pairs_len::<E>(b.skip(8), k as nat);
            }
        },
        Err(e) => {},
    }
}

/// A successful prepared-G2 table read consumes no more than the input.
pub proof fn lemma_dec_gp_map_len<E: PairingEngine>(b: Seq<u8>)
    ensures
        dec_gp_map_s::<E>(b) matches Ok(p) ==> 0 <= p.1 <= b.len(),
{
    match dec_u64_s(b) {
        Ok((k, n)) => {
            if !(b.len() - 8 < k * (8 + E::gp_len_s())) {
                lemma_dec_gp_pairs_len::<E>(b.skip(8), k as nat);
            }
        },
        Err(e) => {},
    }
}

/// Truncating any byte stream that decodes as a commitment leaves a
/// stream whose decode fails.
pub proof fn lemma_commitment_truncation<E: PairingEngine>(b: Seq<u8>, m: int)
    requires
        dec_commitment_s::<E>(b) matches Ok(p) && 0 <= m < p.1 <= b.len(),
    ensures
        dec_commitment_s::<E>(b.take(m)) matches Err(e),
{
    lemma_dec_g1_stable::<E>(b, m);
}

/// Truncating any byte stream that decodes as a proof leaves a stream
/// whose decode fails.
pub proof fn lemma_proof_truncation<E: PairingEngine>(b: Seq<u8>, m: int)
    requires
        dec_proof_s::<E>(b) matches Ok(p) && 0 <= m < p.1 <= b.len(),
    ensures
        dec_proof_s::<E>(b.take(m)) matches Err(e),
{
    lemma_dec_g1_stable::<E>(b, m);
    match dec_g1_s::<E>(b) {
        Err(e) => {},
        Ok((w, n1)) => {
            if m >= n1 {
                assert(b.take(m).skip(n1) =~= b.skip(n1).take(m - n1));
                lemma_dec_opt_fr_stable::<E>(b.skip(n1), m - n1);
            }
        },
    }
}

/// Truncating any byte stream that decodes as randomness leaves a stream
/// whose decode fails.
pub proof fn lemma_randomness_truncation<E: PairingEngine>(b: Seq<u8>, m: int)
    requires
        dec_randomness_s::<E>(b) matches Ok(p) && 0 <= m < p.1 <= b.len(),
    ensures
        dec_randomness_s::<E>(b.take(m)) matches Err(e),
{
    lemma_dec_fr_vec_stable::<E>(b, m);
}

/// Truncating any byte stream that decodes as a verifier key leaves a
/// stream whose decode fails.
pub proof fn lemma_vk_truncation<E: PairingEngine>(b: Seq<u8>, m: int)
    requires
        dec_vk_s::<E>(b) matches Ok(p) && 0 <= m < p.1 <= b.len(),
    ensures
        dec_vk_s::<E>(b.take(m)) matches Err(e),
{
    let t = b.take(m);
    lemma_dec_g1_stable::<E>(b, m);
    match dec_g1_s::<E>(b) {
        Err(e) => {},
        Ok((g, n1)) => {
            if m >= n1 {
                assert(t.skip(n1) =~= b.skip(n1).take(m - n1));
                lemma_dec_g1_stable::<E>(b.skip(n1), m - n1);
                match dec_g1_s::<E>(b.skip(n1)) {
                    Err(e) => {},
                    Ok((gg, n2)) => {
                        if m >= n1 + n2 {
                            assert(t.skip(n1 + n2) =~= b.skip(n1 + n2).take(m - n1 - n2));
                            assert(b.skip(n1 + n2) =~= b.skip(n1).skip(n2));
                            lemma_dec_g2_stable::<E>(b.skip(n1 + n2), m - n1 - n2);
                            match dec_g2_s::<E>(b.skip(n1 + n2)) {
                                Err(e) => {},
                                Ok((h, n3)) => {
                                    if m >= n1 + n2 + n3 {
                                        assert(t.skip(n1 + n2 + n3) =~= b.skip(n1 + n2 + n3).take(m - n1 - n2 - n3));
                                        assert(b.skip(n1 + n2 + n3) =~= b.skip(n1 + n2).skip(n3));
                                        lemma_dec_g2_stable::<E>(b.skip(n1 + n2 + n3), m - n1 - n2 - n3);
                                        match dec_g2_s::<E>(b.skip(n1 + n2 + n3)) {
                                            Err(e) => {},
                                            Ok((bh, n4)) => {
                                                if m >= n1 + n2 + n3 + n4 {
                                                    assert(t.skip(n1 + n2 + n3 + n4) =~= b.skip(n1 + n2 + n3 + n4).take(m - n1 - n2 - n3 - n4));
                                                    assert(b.skip(n1 + n2 + n3 + n4) =~= b.skip(n1 + n2 + n3).skip(n4));
                                                    lemma_dec_gp_stable::<E>(b.skip(n1 + n2 + n3 + n4), m - n1 - n2 - n3 - n4);
                                                    match dec_gp_s::<E>(b.skip(n1 + n2 + n3 + n4)) {
                                                        Err(e) => {},
                                                        Ok((ph, n5)) => {
                                                            if m >= n1 + n2 + n3 + n4 + n5 {
                                                                assert(t.skip(n1 + n2 + n3 + n4 + n5) =~= b.skip(n1 + n2 + n3 + n4 + n5).take(m - n1 - n2 - n3 - n4 - n5));
                                                                assert(b.skip(n1 + n2 + n3 + n4 + n5) =~= b.skip(n1 + n2 + n3 + n4).skip(n5));
                                                                lemma_dec_gp_stable::<E>(b.skip(n1 + n2 + n3 + n4 + n5), m - n1 - n2 - n3 - n4 - n5);
                                                            }
                                                        },
                                                    }
                                                }
                                            },
                                        }
                                    }
                                },
                            }
                        }
                    },
                }
            }
        },
    }
}

/// Truncating any byte stream that decodes as universal parameters leaves
/// a stream whose decode fails.
#[verifier::rlimit(100)]
#[verifier::spinoff_prover]
pub proof fn lemma_params_truncation<E: PairingEngine>(b: Seq<u8>, m: int)
    requires
        dec_params_s::<E>(b) matches Ok(p) && 0 <= m < p.1 <= b.len(),
    ensures
        dec_params_s::<E>(b.take(m)) matches Err(e),
{
    let t = b.take(m);
    lemma_dec_g1_vec_len::<E>(b);
    lemma_dec_g1_vec_stable::<E>(b, m);
    match dec_g1_vec_s::<E>(b) {
        Err(e) => {},
        Ok((powers, n1)) => {
            if m >= n1 {
                assert(t.skip(n1) =~= b.skip(n1).take(m - n1));
                lemma_dec_g1_map_len::<E>(b.skip(n1));
                lemma_dec_g1_map_stable::<E>(b.skip(n1), m - n1);
                match dec_g1_map_s::<E>(b.skip(n1)) {
                    Err(e) => {},
                    Ok((gamma, n2)) => {
                        if m >= n1 + n2 {
                            assert(t.skip(n1 + n2) =~= b.skip(n1 + n2).take(m - n1 - n2));
                            assert(b.skip(n1 + n2) =~= b.skip(n1).skip(n2));
                            lemma_dec_g2_stable::<E>(b.skip(n1 + n2), m - n1 - n2);
                            match dec_g2_s::<E>(b.skip(n1 + n2)) {
                                Err(e) => {},
                                Ok((h, n3)) => {
                                    if m >= n1 + n2 + n3 {
                                        assert(t.skip(n1 + n2 + n3) =~= b.skip(n1 + n2 + n3).take(m - n1 - n2 - n3));
                                        assert(b.skip(n1 + n2 + n3) =~= b.skip(n1 + n2).skip(n3));
                                        lemma_dec_g2_stable::<E>(b.skip(n1 + n2 + n3), m - n1 - n2 - n3);
                                        match dec_g2_s::<E>(b.skip(n1 + n2 + n3)) {
                                            Err(e) => {},
                                            Ok((bh, n4)) => {
                                                if m >= n1 + n2 + n3 + n4 {
                                                    assert(t.skip(n1 + n2 + n3 + n4) =~= b.skip(n1 + n2 + n3 + n4).take(m - n1 - n2 - n3 - n4));
                                                    assert(b.skip(n1 + n2 + n3 + n4) =~= b.skip(n1 + n2 + n3).skip(n4));
                                                    lemma_dec_gp_map_len::<E>(b.skip(n1 + n2 + n3 + n4));
                                                    lemma_dec_gp_map_stable::<E>(b.skip(n1 + n2 + n3 + n4), m - n1 - n2 - n3 - n4);
                                                    match dec_gp_map_s::<E>(b.skip(n1 + n2 + n3 + n4)) {
                                                        Err(e) => {},
                                                        Ok((neg, n5)) => {
                                                            if m >= n1 + n2 + n3 + n4 + n5 {
                                                                assert(t.skip(n1 + n2 + n3 + n4 + n5) =~= b.skip(n1 + n2 + n3 + n4 + n5).take(m - n1 - n2 - n3 - n4 - n5));
                                                                assert(b.skip(n1 + n2 + n3 + n4 + n5) =~= b.skip(n1 + n2 + n3 + n4).skip(n5));
                                                                lemma_dec_gp_stable::<E>(b.skip(n1 + n2 + n3 + n4 + n5), m - n1 - n2 - n3 - n4 - n5);
                                                                match dec_gp_s::<E>(b.skip(n1 + n2 + n3 + n4 + n5)) {
                                                                    Err(e) => {},
                                                                    Ok((ph, n6)) => {
                                                                        if m >= n1 + n2 + n3 + n4 + n5 + n6 {
                                                                            assert(t.skip(n1 + n2 + n3 + n4 + n5 + n6) =~= b.skip(n1 + n2 + n3 + n4 + n5 + n6).take(m - n1 - n2 - n3 - n4 - n5 - n6));
                                                                            assert(b.skip(n1 + n2 + n3 + n4 + n5 + n6) =~= b.skip(n1 + n2 + n3 + n4 + n5).skip(n6));
                                                                            lemma_dec_gp_stable::<E>(b.skip(n1 + n2 + n3 + n4 + n5 + n6), m - n1 - n2 - n3 - n4 - n5 - n6);
                                                                        }
                                                                    },
                                                                }
                                                            }
                                                        },
                                                    }
                                                }
                                            },
                                        }
                                    }
                                },
                            }
                        }
                    },
                }
            }
        },
    }
}

} // verus!
