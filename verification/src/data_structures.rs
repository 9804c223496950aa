//! The value types of the commitment scheme: the universal parameters and
//! the views derived from them, commitments, blinding randomness, and
//! evaluation proofs, together with their homomorphic combination
//! operators and the laws those operators satisfy.

use vstd::prelude::*;

use crate::engine::PairingEngine;
use crate::poly::{padd_s, trim_s, wadd_s, Polynomial};

verus! {

/// Whether the keys of a sparse index-to-element table are strictly
/// ascending (hence unique), the canonical order it is kept and encoded in.
pub open spec fn ascending_keys<T>(s: Seq<(u64, T)>) -> bool {
    forall|i: int, j: int| 0 <= i < j < s.len() ==> s[i].0 < s[j].0
}

/// The values of the entries of `s` whose key is at most `d`, in order.
pub open spec fn values_up_to_s<T>(s: Seq<(u64, T)>, d: u64) -> Seq<T>
    decreases s.len(),
{
    if s.len() == 0 {
        Seq::empty()
    } else {
        let rest = values_up_to_s(s.drop_last(), d);
        if s.last().0 <= d {
            rest.push(s.last().1)
        } else {
            rest
        }
    }
}

/// The universal parameters of the scheme, produced once by a trusted
/// setup and shared read-only afterwards.
///
/// `powers_of_g[i]` holds the power-`i` G1 element of the setup;
/// `powers_of_gamma_g` is a sparse, strictly-ascending index-to-element
/// table of the hiding powers; `prepared_neg_powers_of_h` is a sparse
/// table of pairing-prepared negative powers used for degree-bounded
/// openings; the remaining fields are the G2 generator, its beta multiple,
/// and the cached pairing-prepared forms of both.
#[derive(Clone)]
pub struct UniversalParams<E: PairingEngine> {
    /// Power-`i` G1 elements, indices `0..=max_degree`.
    pub powers_of_g: Vec<E::G1>,
    /// Sparse table of hiding G1 elements, keys strictly ascending.
    pub powers_of_gamma_g: Vec<(u64, E::G1)>,
    /// The generator of G2.
    pub h: E::G2,
    /// Beta times the generator of G2.
    pub beta_h: E::G2,
    /// Sparse table of pairing-prepared negative powers of `h`,
    /// keys strictly ascending.
    pub prepared_neg_powers_of_h: Vec<(u64, E::G2Prepared)>,
    /// The pairing-prepared form of `h`.
    pub prepared_h: E::G2Prepared,
    /// The pairing-prepared form of `beta_h`.
    pub prepared_beta_h: E::G2Prepared,
}

impl<E: PairingEngine> UniversalParams<E> {
    /// Structural well-formedness: both sparse tables are kept in strictly
    /// ascending key order.
    pub open spec fn wf(&self) -> bool {
        &&& ascending_keys(self.powers_of_gamma_g@)
        &&& ascending_keys(self.prepared_neg_powers_of_h@)
    }

    /// Every stored element passes its validity checks: the power and
    /// hiding tables hold checked subgroup points, the G2 fields are valid
    /// points, and the prepared fields are valid prepared values.
    pub open spec fn valid_elems(&self) -> bool {
        &&& forall|i: int|
            0 <= i < self.powers_of_g@.len() ==> E::g1_on_curve_s(#[trigger] self.powers_of_g@[i])
                && E::g1_in_subgroup_s(self.powers_of_g@[i])
        &&& forall|i: int|
            0 <= i < self.powers_of_gamma_g@.len() ==> E::g1_on_curve_s(
                (#[trigger] self.powers_of_gamma_g@[i]).1,
            ) && E::g1_in_subgroup_s(self.powers_of_gamma_g@[i].1)
        &&& E::g2_valid_s(self.h)
        &&& E::g2_valid_s(self.beta_h)
        &&& forall|i: int|
            0 <= i < self.prepared_neg_powers_of_h@.len() ==> E::gp_valid_s(
                (#[trigger] self.prepared_neg_powers_of_h@[i]).1,
            )
        &&& E::gp_valid_s(self.prepared_h)
        &&& E::gp_valid_s(self.prepared_beta_h)
    }

    /// The cached prepared fields are exactly the prepared forms of their
    /// affine counterparts.
    pub open spec fn prepared_consistent(&self) -> bool {
        &&& self.prepared_h == E::g2_prepare_s(self.h)
        &&& self.prepared_beta_h == E::g2_prepare_s(self.beta_h)
    }

    /// Assembles parameters from the affine elements of a setup, computing
    /// the cached pairing-prepared forms, which are deterministic in the
    /// affine values.
    pub fn new(
        powers_of_g: Vec<E::G1>,
        powers_of_gamma_g: Vec<(u64, E::G1)>,
        h: E::G2,
        beta_h: E::G2,
        neg_powers_of_h: Vec<(u64, E::G2)>,
    ) -> (r: Self)
        requires
            ascending_keys(powers_of_gamma_g@),
            ascending_keys(neg_powers_of_h@),
        ensures
            r.powers_of_g == powers_of_g,
            r.powers_of_gamma_g == powers_of_gamma_g,
            r.h == h,
            r.beta_h == beta_h,
            r.prepared_neg_powers_of_h@.len() == neg_powers_of_h@.len(),
            forall|i: int|
                0 <= i < neg_powers_of_h@.len() ==> r.prepared_neg_powers_of_h@[i] == (
                neg_powers_of_h@[i].0,
                E::g2_prepare_s(neg_powers_of_h@[i].1),
                ),
            r.wf(),
            r.prepared_consistent(),
    {
        let mut prepared_neg: Vec<(u64, E::G2Prepared)> = Vec::new();
        let mut i: usize = 0;
        while i < neg_powers_of_h.len()
            invariant
                i <= neg_powers_of_h@.len(),
                prepared_neg@.len() == i,
                forall|j: int|
                    0 <= j < i ==> prepared_neg@[j] == (
                    neg_powers_of_h@[j].0,
                    E::g2_prepare_s(neg_powers_of_h@[j].1),
                    ),
            decreases neg_powers_of_h@.len() - i,
        {
            let (k, g) = neg_powers_of_h[i];
            prepared_neg.push((k, E::g2_prepare(&g)));
            i += 1;
        }
        UniversalParams {
            powers_of_g,
            powers_of_gamma_g,
            h,
            beta_h,
            prepared_neg_powers_of_h: prepared_neg,
            prepared_h: E::g2_prepare(&h),
            prepared_beta_h: E::g2_prepare(&beta_h),
        }
    }

    /// The largest polynomial degree these parameters support: one less
    /// than the number of stored powers. Meaningless on an empty power
    /// table, which the caller must not supply.
    pub fn max_degree(&self) -> (d: usize)
        requires
            self.powers_of_g@.len() >= 1,
        ensures
            d == self.powers_of_g@.len() - 1,
    {
        self.powers_of_g.len() - 1
    }

    /// Derives the proving-time view for committing to polynomials of
    /// degree at most `degree`: the truncation of the power table to
    /// `0..=degree` and the hiding powers with keys up to `degree`. The
    /// caller must reject a degree beyond [`max_degree`].
    ///
    /// [`max_degree`]: UniversalParams::max_degree
    pub fn powers(&self, degree: usize) -> (r: Powers<E>)
        requires
            degree + 1 <= self.powers_of_g@.len(),
        ensures
            r.powers_of_g@ == self.powers_of_g@.take(degree + 1),
            r.powers_of_gamma_g@ == values_up_to_s(self.powers_of_gamma_g@, degree as u64),
    {
        let table_len = self.powers_of_g.len();
        proof {
            assert(degree + 1 <= table_len);
        }
        let end: usize = degree + 1;
        let mut g: Vec<E::G1> = Vec::new();
        let mut i: usize = 0;
        while i < end
            invariant
                i <= end,
                end == degree + 1,
                end <= self.powers_of_g@.len(),
                g@ == self.powers_of_g@.take(i as int),
            decreases end - i,
        {
            g.push(self.powers_of_g[i]);
            proof {
                assert(g@ =~= self.powers_of_g@.take(i as int + 1));
            }
            i += 1;
        }
        let mut gamma: Vec<E::G1> = Vec::new();
        let mut j: usize = 0;
        while j < self.powers_of_gamma_g.len()
            invariant
                j <= self.powers_of_gamma_g@.len(),
                gamma@ == values_up_to_s(self.powers_of_gamma_g@.take(j as int), degree as u64),
            decreases self.powers_of_gamma_g@.len() - j,
        {
            let (k, v) = self.powers_of_gamma_g[j];
            proof {
                assert(self.powers_of_gamma_g@.take(j as int + 1).drop_last()
                    =~= self.powers_of_gamma_g@.take(j as int));
            }
            if k <= degree as u64 {
                gamma.push(v);
            }
            j += 1;
        }
        proof {
            assert(self.powers_of_gamma_g@.take(self.powers_of_gamma_g@.len() as int)
                =~= self.powers_of_gamma_g@);
        }
        Powers { powers_of_g: g, powers_of_gamma_g: gamma }
    }

    /// Derives the verification-time key: the first element of each power
    /// table together with the G2 fields, a small extract sufficient to
    /// verify any proof. It always succeeds on non-empty power tables, and
    /// its `g` is always the first stored power.
    pub fn verifier_key(&self) -> (r: VerifierKey<E>)
        requires
            self.powers_of_g@.len() >= 1,
            self.powers_of_gamma_g@.len() >= 1,
        ensures
            r.g == self.powers_of_g@[0],
            r.gamma_g == self.powers_of_gamma_g@[0].1,
            r.h == self.h,
            r.beta_h == self.beta_h,
            r.prepared_h == self.prepared_h,
            r.prepared_beta_h == self.prepared_beta_h,
    {
        VerifierKey {
            g: self.powers_of_g[0],
            gamma_g: self.powers_of_gamma_g[0].1,
            h: self.h,
            beta_h: self.beta_h,
            prepared_h: self.prepared_h,
            prepared_beta_h: self.prepared_beta_h,
        }
    }
}

/// The proving-time view of the parameters for one commit operation: the
/// power tables truncated to the degree of the polynomial at hand, held as
/// an owned copy.
#[derive(Clone)]
pub struct Powers<E: PairingEngine> {
    /// Power-`i` G1 elements, for the degrees in use.
    pub powers_of_g: Vec<E::G1>,
    /// Hiding G1 elements, in ascending order of their degree index.
    pub powers_of_gamma_g: Vec<E::G1>,
}

impl<E: PairingEngine> Powers<E> {
    /// The number of powers available: the usable degree bound plus one.
    pub fn size(&self) -> (n: usize)
        ensures
            n == self.powers_of_g@.len(),
    {
        self.powers_of_g.len()
    }
}

/// The verification-time key: a fixed projection of [`UniversalParams`]
/// that suffices to check evaluation proofs without the full power tables.
#[derive(Clone, Copy)]
pub struct VerifierKey<E: PairingEngine> {
    /// The generator of G1 (the power-0 element).
    pub g: E::G1,
    /// The hiding generator of G1 (the key-0 hiding element).
    pub gamma_g: E::G1,
    /// The generator of G2.
    pub h: E::G2,
    /// Beta times the generator of G2.
    pub beta_h: E::G2,
    /// The pairing-prepared form of `h`.
    pub prepared_h: E::G2Prepared,
    /// The pairing-prepared form of `beta_h`.
    pub prepared_beta_h: E::G2Prepared,
}

/// A commitment to a polynomial: a single G1 point. The identity point
/// commits to the zero polynomial.
#[derive(Clone, Copy)]
pub struct Commitment<E: PairingEngine>(
    /// The committed group element.
    pub E::G1,
);

impl<E: PairingEngine> Commitment<E> {
    /// The point is on the curve and inside the prime-order subgroup.
    pub open spec fn valid(&self) -> bool {
        E::g1_on_curve_s(self.0) && E::g1_in_subgroup_s(self.0)
    }

    /// The commitment to the zero polynomial: the group identity.
    pub fn empty() -> (r: Self)
        ensures
            r.0 == E::g1_zero_s(),
            r.valid(),
    {
        proof {
            E::lemma_g1_zero_valid();
        }
        Commitment(E::g1_zero())
    }

    /// Commitments of this scheme never carry an embedded degree bound.
    pub fn has_degree_bound(&self) -> (r: bool)
        ensures
            r == false,
    {
        false
    }

    /// Runs the subgroup check of the underlying point, which must pass
    /// before an externally supplied commitment is trusted.
    pub fn is_in_correct_subgroup_assuming_on_curve(&self) -> (r: bool)
        ensures
            r == E::g1_in_subgroup_s(self.0),
    {
        E::g1_in_subgroup(&self.0)
    }

    /// Weighted accumulation, the basis of the commitment homomorphism:
    /// replaces `self` with `f * other + self` via the group operations.
    /// Total: it has no failure mode. Validity is preserved.
    pub fn add_assign(&mut self, f: &E::Fr, other: &Self)
        ensures
            final(self).0 == E::g1_add_s(E::g1_smul_s(*f, other.0), old(self).0),
            old(self).valid() && other.valid() ==> final(self).valid(),
    {
        proof {
            if E::g1_on_curve_s(self.0) && E::g1_in_subgroup_s(self.0) && other.valid() {
                E::lemma_g1_smul_closed(*f, other.0);
                E::lemma_g1_add_closed(E::g1_smul_s(*f, other.0), self.0);
            }
        }
        let m = E::g1_smul(f, &other.0);
        self.0 = E::g1_add(&m, &self.0);
    }
}

/// The blinding randomness paired with a hiding commitment: a random
/// polynomial added to hide the committed one.
#[derive(Clone)]
pub struct Randomness<E: PairingEngine> {
    /// The blinding polynomial, in canonical trimmed form.
    pub blinding_polynomial: Polynomial<E>,
}

impl<E: PairingEngine> Randomness<E> {
    /// The blinding polynomial is in canonical form.
    pub open spec fn wf(&self) -> bool {
        self.blinding_polynomial.wf()
    }

    /// Whether this randomness hides anything: true exactly when the
    /// blinding polynomial is non-zero.
    pub fn is_hiding(&self) -> (r: bool)
        requires
            self.wf(),
        ensures
            r == (self.blinding_polynomial@.len() > 0),
    {
        proof {
            if self.blinding_polynomial@.len() == 0 {
                assert(self.blinding_polynomial@ =~= Seq::<E::Fr>::empty());
            }
        }
        !self.blinding_polynomial.is_zero()
    }

    /// The degree a freshly drawn blinding polynomial must have to hide a
    /// polynomial opened with hiding bound `hiding_bound`: one above the
    /// bound, so the leading coefficient used by the proof is blinded too.
    pub fn calculate_hiding_polynomial_degree(hiding_bound: usize) -> (d: usize)
        requires
            hiding_bound < usize::MAX,
        ensures
            d == hiding_bound + 1,
    {
        hiding_bound + 1
    }

    /// Non-hiding randomness: the zero blinding polynomial.
    pub fn empty() -> (r: Self)
        ensures
            r.blinding_polynomial@ == Seq::<E::Fr>::empty(),
            r.wf(),
    {
        Randomness { blinding_polynomial: Polynomial::zero() }
    }

    /// Builds the randomness for hiding bound `hiding_bound` from freshly
    /// drawn scalars: one coefficient for each degree up to
    /// [`calculate_hiding_polynomial_degree`]. The flag for degree-bounded
    /// hiding is accepted but unused by this scheme variant.
    ///
    /// [`calculate_hiding_polynomial_degree`]: Randomness::calculate_hiding_polynomial_degree
    pub fn rand(hiding_bound: usize, _has_degree_bound: bool, coeffs: Vec<E::Fr>) -> (r: Self)
        requires
            hiding_bound < usize::MAX,
            coeffs@.len() == hiding_bound + 2,
        ensures
            r.blinding_polynomial@ == trim_s::<E>(coeffs@),
            r.wf(),
    {
        let mut randomness = Self::empty();
        randomness.blinding_polynomial = Polynomial::from_coefficients(coeffs);
        randomness
    }

    /// Plain combination: adds the other blinding polynomial to this one,
    /// exactly as ordinary polynomial addition does.
    pub fn add_assign(&mut self, other: &Self)
        ensures
            final(self).blinding_polynomial@ == trim_s::<E>(
                padd_s::<E>(old(self).blinding_polynomial@, other.blinding_polynomial@),
            ),
            final(self).wf(),
    {
        self.blinding_polynomial.add_assign(&other.blinding_polynomial);
    }

    /// Weighted combination, mirroring [`Commitment::add_assign`]: adds
    /// `f` times the other blinding polynomial, so that randomness
    /// combined with the same weights as its paired commitments keeps
    /// opening the combined commitment.
    pub fn add_assign_weighted(&mut self, f: &E::Fr, other: &Self)
        ensures
            final(self).blinding_polynomial@ == trim_s::<E>(
                wadd_s::<E>(old(self).blinding_polynomial@, *f, other.blinding_polynomial@),
            ),
            final(self).wf(),
    {
        self.blinding_polynomial.add_assign_weighted(f, &other.blinding_polynomial);
    }

    /// Consuming form of [`Randomness::add_assign`].
    pub fn add(self, other: &Self) -> (r: Self)
        ensures
            r.blinding_polynomial@ == trim_s::<E>(
                padd_s::<E>(self.blinding_polynomial@, other.blinding_polynomial@),
            ),
            r.wf(),
    {
        let mut s = self;
        s.add_assign(other);
        s
    }

    /// Consuming form of [`Randomness::add_assign_weighted`].
    pub fn add_weighted(self, f: &E::Fr, other: &Self) -> (r: Self)
        ensures
            r.blinding_polynomial@ == trim_s::<E>(
                wadd_s::<E>(self.blinding_polynomial@, *f, other.blinding_polynomial@),
            ),
            r.wf(),
    {
        let mut s = self;
        s.add_assign_weighted(f, other);
        s
    }
}

/// An evaluation proof: the commitment to the witness polynomial and, for
/// a hiding commitment, the blinding polynomial's evaluation at the
/// opening point.
///
/// This core defines only the shape and encoding of a proof; its
/// cryptographic validity is established by an external verify operation.
#[derive(Clone, Copy)]
pub struct Proof<E: PairingEngine> {
    /// The commitment to the witness polynomial.
    pub w: E::G1,
    /// The blinding polynomial's evaluation at the opening point; present
    /// exactly when the opened commitment was hiding.
    pub random_v: Option<E::Fr>,
}

impl<E: PairingEngine> Proof<E> {
    /// The witness point is on the curve and inside the prime-order
    /// subgroup.
    pub open spec fn valid(&self) -> bool {
        E::g1_on_curve_s(self.w) && E::g1_in_subgroup_s(self.w)
    }
}

impl<E: PairingEngine> Default for Commitment<E> {
    /// The default commitment is the identity commitment.
    fn default() -> (r: Self)
        ensures
            r.0 == E::g1_zero_s(),
            r.valid(),
    {
        Commitment::empty()
    }
}

impl<E: PairingEngine> Default for Randomness<E> {
    /// The default randomness is non-hiding: the zero blinding polynomial.
    fn default() -> (r: Self)
        ensures
            r.blinding_polynomial@ == Seq::<E::Fr>::empty(),
            r.wf(),
    {
        Randomness::empty()
    }
}

impl<E: PairingEngine> Default for Proof<E> {
    /// The default proof holds the identity witness point and no blinding
    /// evaluation.
    fn default() -> (r: Self)
        ensures
            r.w == E::g1_zero_s(),
            r.random_v is None,
            r.valid(),
    {
        proof {
            E::lemma_g1_zero_valid();
        }
        Proof { w: E::g1_zero(), random_v: None }
    }
}

/// Accumulating `(f1, c1)` and then `(f2, c2)` onto the identity
/// commitment reaches the same point as accumulating them in the other
/// order: the commitment homomorphism is order-independent, because the
/// group operation is commutative and associative.
pub proof fn lemma_accumulate_order_independent<E: PairingEngine>(
    f1: E::Fr,
    c1: Commitment<E>,
    f2: E::Fr,
    c2: Commitment<E>,
)
    requires
        c1.valid(),
        c2.valid(),
    ensures
        E::g1_add_s(
            E::g1_smul_s(f2, c2.0),
            E::g1_add_s(E::g1_smul_s(f1, c1.0), E::g1_zero_s()),
        ) == E::g1_add_s(
            E::g1_smul_s(f1, c1.0),
            E::g1_add_s(E::g1_smul_s(f2, c2.0), E::g1_zero_s()),
        ),
{
    let a = E::g1_smul_s(f1, c1.0);
    let b = E::g1_smul_s(f2, c2.0);
    E::lemma_g1_smul_closed(f1, c1.0);
    E::lemma_g1_smul_closed(f2, c2.0);
    E::lemma_g1_add_zero(a);
    E::lemma_g1_add_zero(b);
    E::lemma_g1_add_comm(a, b);
}

/// Accumulating `(1, other)` onto the identity commitment yields exactly
/// the other commitment's point.
pub proof fn lemma_accumulate_unit_weight<E: PairingEngine>(other: Commitment<E>)
    requires
        other.valid(),
    ensures
        E::g1_add_s(E::g1_smul_s(E::fr_one_s(), other.0), E::g1_zero_s()) == other.0,
{
    E::lemma_g1_one_smul(other.0);
    E::lemma_g1_add_zero(other.0);
}

} // verus!
