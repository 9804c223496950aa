//! A small concrete engine over machine integers.
//!
//! [`ToyEngine`] realises the [`PairingEngine`] capability set with the
//! additive group of the integers modulo `2^62` standing in for the curve
//! groups and the integers modulo `2^64` for the scalar field. "Curve
//! points" are the values below `2^63`, of which the values below `2^62`
//! form the "prime-order subgroup"; a value in between is on the curve but
//! outside the subgroup, which lets tests exercise the subgroup checks.
//! Every element encodes as its eight little-endian bytes.
//!
//! It is not a cryptographic engine; it exists so that the laws of
//! [`PairingEngine`] have a fully proved model and so that tests can run
//! the library on concrete values.

use vstd::arithmetic::div_mod::{lemma_add_mod_noop_right, lemma_mod_bound, lemma_small_mod};
use vstd::arithmetic::mul::lemma_mul_upper_bound;
use vstd::bytes::{lemma_auto_spec_u64_to_from_le_bytes, spec_u64_from_le_bytes,
    spec_u64_to_le_bytes, u64_from_le_bytes, u64_to_le_bytes};
use vstd::prelude::*;

use crate::engine::PairingEngine;
use crate::errors::SerializationError;

verus! {

/// The order of the mock subgroup, `2^62`.
pub const GROUP_ORDER: u64 = 0x4000_0000_0000_0000;

/// The exclusive bound of the mock "curve": points are values below `2^63`.
pub const CURVE_BOUND: u64 = 0x8000_0000_0000_0000;

/// A fully proved model of the pairing-engine capability set over `u64`
/// values, for tests and examples.
#[derive(Clone, Copy)]
pub struct ToyEngine;

impl PairingEngine for ToyEngine {
    type Fr = u64;

    type G1 = u64;

    type G2 = u64;

    type G2Prepared = u64;

    open spec fn fr_zero_s() -> u64 {
        0
    }

    open spec fn fr_one_s() -> u64 {
        1
    }

    open spec fn fr_add_s(a: u64, b: u64) -> u64 {
        ((a + b) % 0x1_0000_0000_0000_0000) as u64
    }

    open spec fn fr_mul_s(a: u64, b: u64) -> u64 {
        ((a * b) % 0x1_0000_0000_0000_0000) as u64
    }

    open spec fn g1_zero_s() -> u64 {
        0
    }

    open spec fn g1_add_s(a: u64, b: u64) -> u64 {
        ((a + b) % (GROUP_ORDER as int)) as u64
    }

    open spec fn g1_smul_s(f: u64, g: u64) -> u64 {
        ((f * g) % (GROUP_ORDER as int)) as u64
    }

    open spec fn g1_on_curve_s(g: u64) -> bool {
        g < CURVE_BOUND
    }

    open spec fn g1_in_subgroup_s(g: u64) -> bool {
        g < GROUP_ORDER
    }

    open spec fn g2_valid_s(g: u64) -> bool {
        g < CURVE_BOUND
    }

    open spec fn g2_prepare_s(g: u64) -> u64 {
        g
    }

    open spec fn gp_valid_s(p: u64) -> bool {
        p < CURVE_BOUND
    }

    open spec fn fr_len_s() -> nat {
        8
    }

    open spec fn g1_len_s() -> nat {
        8
    }

    open spec fn g2_len_s() -> nat {
        8
    }

    open spec fn gp_len_s() -> nat {
        8
    }

    open spec fn fr_enc_s(f: u64) -> Seq<u8> {
        spec_u64_to_le_bytes(f)
    }

    open spec fn g1_enc_s(g: u64) -> Seq<u8> {
        spec_u64_to_le_bytes(g)
    }

    open spec fn g2_enc_s(g: u64) -> Seq<u8> {
        spec_u64_to_le_bytes(g)
    }

    open spec fn gp_enc_s(p: u64) -> Seq<u8> {
        spec_u64_to_le_bytes(p)
    }

    open spec fn fr_dec_s(b: Seq<u8>) -> Result<u64, SerializationError> {
        Ok(spec_u64_from_le_bytes(b))
    }

    open spec fn g1_dec_s(b: Seq<u8>) -> Result<u64, SerializationError> {
        let v = spec_u64_from_le_bytes(b);
        if v >= CURVE_BOUND {
            Err(SerializationError::PointNotOnCurve)
        } else if v >= GROUP_ORDER {
            Err(SerializationError::NotInCorrectSubgroup)
        } else {
            Ok(v)
        }
    }

    open spec fn g2_dec_s(b: Seq<u8>) -> Result<u64, SerializationError> {
        let v = spec_u64_from_le_bytes(b);
        if v >= CURVE_BOUND {
            Err(SerializationError::PointNotOnCurve)
        } else {
            Ok(v)
        }
    }

    open spec fn gp_dec_s(b: Seq<u8>) -> Result<u64, SerializationError> {
        let v = spec_u64_from_le_bytes(b);
        if v >= CURVE_BOUND {
            Err(SerializationError::PointNotOnCurve)
        } else {
            Ok(v)
        }
    }

    fn fr_zero() -> (r: u64) {
        0
    }

    fn fr_one() -> (r: u64) {
        1
    }

    fn fr_add(a: &u64, b: &u64) -> (r: u64) {
        let s: u128 = *a as u128 + *b as u128;
        (s % 0x1_0000_0000_0000_0000u128) as u64
    }

    fn fr_mul(a: &u64, b: &u64) -> (r: u64) {
        proof {
            lemma_mul_upper_bound(*a as int, u64::MAX as int, *b as int, u64::MAX as int);
        }
        let s: u128 = *a as u128 * *b as u128;
        (s % 0x1_0000_0000_0000_0000u128) as u64
    }

    fn fr_is_zero(f: &u64) -> (r: bool) {
        *f == 0
    }

    fn g1_zero() -> (r: u64) {
        0
    }

    fn g1_add(a: &u64, b: &u64) -> (r: u64) {
        let s: u128 = *a as u128 + *b as u128;
        (s % (GROUP_ORDER as u128)) as u64
    }

    fn g1_smul(f: &u64, g: &u64) -> (r: u64) {
        proof {
            lemma_mul_upper_bound(*f as int, u64::MAX as int, *g as int, u64::MAX as int);
        }
        let s: u128 = *f as u128 * *g as u128;
        (s % (GROUP_ORDER as u128)) as u64
    }

    fn g1_in_subgroup(g: &u64) -> (r: bool) {
        *g < GROUP_ORDER
    }

    fn g2_prepare(g: &u64) -> (r: u64) {
        *g
    }

    fn fr_len() -> (n: usize) {
        8
    }

    fn g1_len() -> (n: usize) {
        8
    }

    fn g2_len() -> (n: usize) {
        8
    }

    fn gp_len() -> (n: usize) {
        8
    }

    fn fr_write(f: &u64) -> (v: Vec<u8>) {
        u64_to_le_bytes(*f)
    }

    fn g1_write(g: &u64) -> (v: Vec<u8>) {
        u64_to_le_bytes(*g)
    }

    fn g2_write(g: &u64) -> (v: Vec<u8>) {
        u64_to_le_bytes(*g)
    }

    fn gp_write(p: &u64) -> (v: Vec<u8>) {
        u64_to_le_bytes(*p)
    }

    fn fr_read(b: &[u8]) -> (r: Result<u64, SerializationError>) {
        Ok(u64_from_le_bytes(b))
    }

    fn g1_read(b: &[u8]) -> (r: Result<u64, SerializationError>) {
        let v = u64_from_le_bytes(b);
        if v >= CURVE_BOUND {
            Err(SerializationError::PointNotOnCurve)
        } else if v >= GROUP_ORDER {
            Err(SerializationError::NotInCorrectSubgroup)
        } else {
            Ok(v)
        }
    }

    fn g2_read(b: &[u8]) -> (r: Result<u64, SerializationError>) {
        let v = u64_from_le_bytes(b);
        if v >= CURVE_BOUND {
            Err(SerializationError::PointNotOnCurve)
        } else {
            Ok(v)
        }
    }

    fn gp_read(b: &[u8]) -> (r: Result<u64, SerializationError>) {
        let v = u64_from_le_bytes(b);
        if v >= CURVE_BOUND {
            Err(SerializationError::PointNotOnCurve)
        } else {
            Ok(v)
        }
    }

    proof fn lemma_g1_add_comm(a: u64, b: u64) {
    }

    proof fn lemma_g1_add_assoc(a: u64, b: u64, c: u64) {
        let m = GROUP_ORDER as int;
        let ai = a as int;
        let bi = b as int;
        let ci = c as int;
        lemma_add_mod_noop_right(ci, ai + bi, m);
        lemma_add_mod_noop_right(ai, bi + ci, m);
        assert(((ai + bi) % m + ci) % m == (ci + (ai + bi) % m) % m);
    }

    proof fn lemma_g1_zero_valid() {
    }

    proof fn lemma_g1_add_zero(a: u64) {
        lemma_small_mod(a as nat, GROUP_ORDER as nat);
    }

    proof fn lemma_g1_add_closed(a: u64, b: u64) {
        lemma_mod_bound(a + b, GROUP_ORDER as int);
    }

    proof fn lemma_g1_smul_closed(f: u64, g: u64) {
        lemma_mod_bound(f * g, GROUP_ORDER as int);
    }

    proof fn lemma_g1_one_smul(g: u64) {
        lemma_small_mod(g as nat, GROUP_ORDER as nat);
    }

    proof fn lemma_g2_prepare_valid(g: u64) {
    }

    proof fn lemma_lens_positive() {
    }

    proof fn lemma_fr_codec(f: u64) {
        lemma_auto_spec_u64_to_from_le_bytes();
    }

    proof fn lemma_g1_codec(g: u64) {
        lemma_auto_spec_u64_to_from_le_bytes();
    }

    proof fn lemma_g2_codec(g: u64) {
        lemma_auto_spec_u64_to_from_le_bytes();
    }

    proof fn lemma_gp_codec(p: u64) {
        lemma_auto_spec_u64_to_from_le_bytes();
    }

    proof fn lemma_g1_dec_valid(b: Seq<u8>) {
    }

    proof fn lemma_g2_dec_valid(b: Seq<u8>) {
    }

    proof fn lemma_gp_dec_valid(b: Seq<u8>) {
    }
}

} // verus!
