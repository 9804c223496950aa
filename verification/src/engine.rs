//! The pairing-engine capability set.
//!
//! Every structure of this crate is generic over [`PairingEngine`], which
//! supplies the scalar field, the two curve groups, the pairing-prepared
//! form of a G2 point, and the canonical byte encoding of each element
//! kind. The trait states, as proof obligations, exactly the algebraic and
//! encoding laws the contracts of this crate rest on; an implementation
//! must prove them, so nothing about the arithmetic layer is taken on
//! trust.

use vstd::prelude::*;

use crate::errors::SerializationError;

verus! {

/// The abstract arithmetic layer: scalar field `Fr`, curve groups `G1` and
/// `G2`, and the pairing-prepared form `G2Prepared` of a G2 element,
/// together with the operations and canonical element codecs this data
/// model consumes.
///
/// Spec functions give the mathematical meaning of each operation; the
/// executable methods promise to compute them; the proof methods oblige an
/// implementation to establish the group laws and codec laws used by the
/// lemmas of this crate.
pub trait PairingEngine: Sized {
    /// A scalar field element.
    type Fr: Copy;

    /// An affine G1 point.
    type G1: Copy;

    /// An affine G2 point.
    type G2: Copy;

    /// A G2 point precomputed for use inside pairings.
    type G2Prepared: Copy;

    // ----- scalar field -----

    /// The additive identity of the scalar field.
    spec fn fr_zero_s() -> Self::Fr;

    /// The multiplicative identity of the scalar field.
    spec fn fr_one_s() -> Self::Fr;

    /// Field addition.
    spec fn fr_add_s(a: Self::Fr, b: Self::Fr) -> Self::Fr;

    /// Field multiplication.
    spec fn fr_mul_s(a: Self::Fr, b: Self::Fr) -> Self::Fr;

    // ----- the G1 group -----

    /// The identity element of G1.
    spec fn g1_zero_s() -> Self::G1;

    /// The group operation of G1.
    spec fn g1_add_s(a: Self::G1, b: Self::G1) -> Self::G1;

    /// Scalar multiplication of a G1 point.
    spec fn g1_smul_s(f: Self::Fr, g: Self::G1) -> Self::G1;

    /// Whether a G1 value satisfies the curve equation.
    spec fn g1_on_curve_s(g: Self::G1) -> bool;

    /// Whether a G1 value lies in the prime-order subgroup.
    spec fn g1_in_subgroup_s(g: Self::G1) -> bool;

    // ----- the G2 group -----

    /// Whether a G2 value is on the curve and in the required subgroup.
    spec fn g2_valid_s(g: Self::G2) -> bool;

    /// The deterministic pairing-preparation transform.
    spec fn g2_prepare_s(g: Self::G2) -> Self::G2Prepared;

    /// Whether a prepared value is one a valid G2 point can prepare to.
    spec fn gp_valid_s(p: Self::G2Prepared) -> bool;

    // ----- canonical element encodings -----

    /// The fixed byte length of an encoded scalar.
    spec fn fr_len_s() -> nat;

    /// The fixed byte length of an encoded G1 point.
    spec fn g1_len_s() -> nat;

    /// The fixed byte length of an encoded G2 point.
    spec fn g2_len_s() -> nat;

    /// The fixed byte length of an encoded prepared G2 point.
    spec fn gp_len_s() -> nat;

    /// The canonical encoding of a scalar.
    spec fn fr_enc_s(f: Self::Fr) -> Seq<u8>;

    /// The canonical encoding of a G1 point.
    spec fn g1_enc_s(g: Self::G1) -> Seq<u8>;

    /// The canonical encoding of a G2 point.
    spec fn g2_enc_s(g: Self::G2) -> Seq<u8>;

    /// The canonical encoding of a prepared G2 point.
    spec fn gp_enc_s(p: Self::G2Prepared) -> Seq<u8>;

    /// Decoding of a scalar from a block of exactly [`fr_len_s`] bytes.
    ///
    /// [`fr_len_s`]: PairingEngine::fr_len_s
    spec fn fr_dec_s(b: Seq<u8>) -> Result<Self::Fr, SerializationError>;

    /// Decoding of a G1 point from a block of exactly [`g1_len_s`] bytes,
    /// including its on-curve and subgroup checks.
    ///
    /// [`g1_len_s`]: PairingEngine::g1_len_s
    spec fn g1_dec_s(b: Seq<u8>) -> Result<Self::G1, SerializationError>;

    /// Decoding of a G2 point from a block of exactly [`g2_len_s`] bytes,
    /// including its validity checks.
    ///
    /// [`g2_len_s`]: PairingEngine::g2_len_s
    spec fn g2_dec_s(b: Seq<u8>) -> Result<Self::G2, SerializationError>;

    /// Decoding of a prepared G2 point from a block of exactly
    /// [`gp_len_s`] bytes, including its validity checks.
    ///
    /// [`gp_len_s`]: PairingEngine::gp_len_s
    spec fn gp_dec_s(b: Seq<u8>) -> Result<Self::G2Prepared, SerializationError>;

    // ----- executable operations -----

    /// Returns the zero scalar.
    fn fr_zero() -> (r: Self::Fr)
        ensures
            r == Self::fr_zero_s(),
    ;

    /// Returns the unit scalar.
    fn fr_one() -> (r: Self::Fr)
        ensures
            r == Self::fr_one_s(),
    ;

    /// Adds two scalars.
    fn fr_add(a: &Self::Fr, b: &Self::Fr) -> (r: Self::Fr)
        ensures
            r == Self::fr_add_s(*a, *b),
    ;

    /// Multiplies two scalars.
    fn fr_mul(a: &Self::Fr, b: &Self::Fr) -> (r: Self::Fr)
        ensures
            r == Self::fr_mul_s(*a, *b),
    ;

    /// Decides whether a scalar is zero.
    fn fr_is_zero(f: &Self::Fr) -> (r: bool)
        ensures
            r == (*f == Self::fr_zero_s()),
    ;

    /// Returns the G1 identity.
    fn g1_zero() -> (r: Self::G1)
        ensures
            r == Self::g1_zero_s(),
    ;

    /// Applies the G1 group operation.
    fn g1_add(a: &Self::G1, b: &Self::G1) -> (r: Self::G1)
        ensures
            r == Self::g1_add_s(*a, *b),
    ;

    /// Multiplies a G1 point by a scalar.
    fn g1_smul(f: &Self::Fr, g: &Self::G1) -> (r: Self::G1)
        ensures
            r == Self::g1_smul_s(*f, *g),
    ;

    /// Runs the subgroup membership check of a point assumed on the curve.
    fn g1_in_subgroup(g: &Self::G1) -> (r: bool)
        ensures
            r == Self::g1_in_subgroup_s(*g),
    ;

    /// Computes the pairing-prepared form of a G2 point.
    fn g2_prepare(g: &Self::G2) -> (r: Self::G2Prepared)
        ensures
            r == Self::g2_prepare_s(*g),
    ;

    /// The encoded length of a scalar, as a machine integer.
    fn fr_len() -> (n: usize)
        ensures
            n == Self::fr_len_s(),
    ;

    /// The encoded length of a G1 point, as a machine integer.
    fn g1_len() -> (n: usize)
        ensures
            n == Self::g1_len_s(),
    ;

    /// The encoded length of a G2 point, as a machine integer.
    fn g2_len() -> (n: usize)
        ensures
            n == Self::g2_len_s(),
    ;

    /// The encoded length of a prepared G2 point, as a machine integer.
    fn gp_len() -> (n: usize)
        ensures
            n == Self::gp_len_s(),
    ;

    /// Encodes a scalar.
    fn fr_write(f: &Self::Fr) -> (v: Vec<u8>)
        ensures
            v@ == Self::fr_enc_s(*f),
    ;

    /// Encodes a G1 point.
    fn g1_write(g: &Self::G1) -> (v: Vec<u8>)
        ensures
            v@ == Self::g1_enc_s(*g),
    ;

    /// Encodes a G2 point.
    fn g2_write(g: &Self::G2) -> (v: Vec<u8>)
        ensures
            v@ == Self::g2_enc_s(*g),
    ;

    /// Encodes a prepared G2 point.
    fn gp_write(p: &Self::G2Prepared) -> (v: Vec<u8>)
        ensures
            v@ == Self::gp_enc_s(*p),
    ;

    /// Decodes a scalar from a block of exactly `fr_len()` bytes.
    fn fr_read(b: &[u8]) -> (r: Result<Self::Fr, SerializationError>)
        requires
            b@.len() == Self::fr_len_s(),
        ensures
            r == Self::fr_dec_s(b@),
    ;

    /// Decodes and validates a G1 point from a block of exactly
    /// `g1_len()` bytes.
    fn g1_read(b: &[u8]) -> (r: Result<Self::G1, SerializationError>)
        requires
            b@.len() == Self::g1_len_s(),
        ensures
            r == Self::g1_dec_s(b@),
    ;

    /// Decodes and validates a G2 point from a block of exactly
    /// `g2_len()` bytes.
    fn g2_read(b: &[u8]) -> (r: Result<Self::G2, SerializationError>)
        requires
            b@.len() == Self::g2_len_s(),
        ensures
            r == Self::g2_dec_s(b@),
    ;

    /// Decodes and validates a prepared G2 point from a block of exactly
    /// `gp_len()` bytes.
    fn gp_read(b: &[u8]) -> (r: Result<Self::G2Prepared, SerializationError>)
        requires
            b@.len() == Self::gp_len_s(),
        ensures
            r == Self::gp_dec_s(b@),
    ;

    // ----- group laws -----

    /// The G1 group operation is commutative on curve points.
    proof fn lemma_g1_add_comm(a: Self::G1, b: Self::G1)
        requires
            Self::g1_on_curve_s(a),
            Self::g1_on_curve_s(b),
        ensures
            Self::g1_add_s(a, b) == Self::g1_add_s(b, a),
    ;

    /// The G1 group operation is associative on curve points.
    proof fn lemma_g1_add_assoc(a: Self::G1, b: Self::G1, c: Self::G1)
        requires
            Self::g1_on_curve_s(a),
            Self::g1_on_curve_s(b),
            Self::g1_on_curve_s(c),
        ensures
            Self::g1_add_s(Self::g1_add_s(a, b), c) == Self::g1_add_s(a, Self::g1_add_s(b, c)),
    ;

    /// The G1 identity is a valid subgroup point.
    proof fn lemma_g1_zero_valid()
        ensures
            Self::g1_on_curve_s(Self::g1_zero_s()),
            Self::g1_in_subgroup_s(Self::g1_zero_s()),
    ;

    /// The G1 identity is neutral on the prime-order subgroup.
    proof fn lemma_g1_add_zero(a: Self::G1)
        requires
            Self::g1_on_curve_s(a),
            Self::g1_in_subgroup_s(a),
        ensures
            Self::g1_add_s(a, Self::g1_zero_s()) == a,
    ;

    /// The group operation stays on the curve and in the subgroup.
    proof fn lemma_g1_add_closed(a: Self::G1, b: Self::G1)
        requires
            Self::g1_on_curve_s(a),
            Self::g1_on_curve_s(b),
        ensures
            Self::g1_on_curve_s(Self::g1_add_s(a, b)),
            Self::g1_in_subgroup_s(a) && Self::g1_in_subgroup_s(b) ==> Self::g1_in_subgroup_s(
                Self::g1_add_s(a, b),
            ),
    ;

    /// Scalar multiplication stays on the curve and in the subgroup.
    proof fn lemma_g1_smul_closed(f: Self::Fr, g: Self::G1)
        requires
            Self::g1_on_curve_s(g),
        ensures
            Self::g1_on_curve_s(Self::g1_smul_s(f, g)),
            Self::g1_in_subgroup_s(g) ==> Self::g1_in_subgroup_s(Self::g1_smul_s(f, g)),
    ;

    /// Multiplying a subgroup point by the unit scalar returns the point.
    proof fn lemma_g1_one_smul(g: Self::G1)
        requires
            Self::g1_on_curve_s(g),
            Self::g1_in_subgroup_s(g),
        ensures
            Self::g1_smul_s(Self::fr_one_s(), g) == g,
    ;

    /// Preparing a valid G2 point yields a valid prepared value.
    proof fn lemma_g2_prepare_valid(g: Self::G2)
        requires
            Self::g2_valid_s(g),
        ensures
            Self::gp_valid_s(Self::g2_prepare_s(g)),
    ;

    // ----- codec laws -----

    /// Every encoded element block is at least one byte long.
    proof fn lemma_lens_positive()
        ensures
            Self::fr_len_s() >= 1,
            Self::g1_len_s() >= 1,
            Self::g2_len_s() >= 1,
            Self::gp_len_s() >= 1,
    ;

    /// The scalar codec round-trips, and its blocks have the fixed length.
    proof fn lemma_fr_codec(f: Self::Fr)
        ensures
            Self::fr_enc_s(f).len() == Self::fr_len_s(),
            Self::fr_dec_s(Self::fr_enc_s(f)) == Ok::<Self::Fr, SerializationError>(f),
    ;

    /// The G1 codec round-trips on valid subgroup points, and its blocks
    /// have the fixed length for every curve point.
    proof fn lemma_g1_codec(g: Self::G1)
        requires
            Self::g1_on_curve_s(g),
        ensures
            Self::g1_enc_s(g).len() == Self::g1_len_s(),
            Self::g1_in_subgroup_s(g) ==> Self::g1_dec_s(Self::g1_enc_s(g)) == Ok::<
                Self::G1,
                SerializationError,
            >(g),
    ;

    /// The G2 codec round-trips on valid points, with fixed block length.
    proof fn lemma_g2_codec(g: Self::G2)
        requires
            Self::g2_valid_s(g),
        ensures
            Self::g2_enc_s(g).len() == Self::g2_len_s(),
            Self::g2_dec_s(Self::g2_enc_s(g)) == Ok::<Self::G2, SerializationError>(g),
    ;

    /// The prepared-G2 codec round-trips on valid values, with fixed
    /// block length.
    proof fn lemma_gp_codec(p: Self::G2Prepared)
        requires
            Self::gp_valid_s(p),
        ensures
            Self::gp_enc_s(p).len() == Self::gp_len_s(),
            Self::gp_dec_s(Self::gp_enc_s(p)) == Ok::<Self::G2Prepared, SerializationError>(p),
    ;

    /// A successful G1 decode yields a checked subgroup point.
    proof fn lemma_g1_dec_valid(b: Seq<u8>)
        ensures
            Self::g1_dec_s(b) matches Ok(g) ==> Self::g1_on_curve_s(g) && Self::g1_in_subgroup_s(
                g,
            ),
    ;

    /// A successful G2 decode yields a checked valid point.
    proof fn lemma_g2_dec_valid(b: Seq<u8>)
        ensures
            Self::g2_dec_s(b) matches Ok(g) ==> Self::g2_valid_s(g),
    ;

    /// A successful prepared-G2 decode yields a checked valid value.
    proof fn lemma_gp_dec_valid(b: Seq<u8>)
        ensures
            Self::gp_dec_s(b) matches Ok(p) ==> Self::gp_valid_s(p),
    ;
}

} // verus!
