//! Dense polynomials over the scalar field, in canonical trimmed form.
//!
//! A polynomial is its coefficient sequence, lowest degree first, with no
//! trailing zero coefficient; the zero polynomial is the empty sequence.
//! Only what the randomness algebra needs is defined here: construction,
//! the zero test, plain addition and weighted addition.

use vstd::prelude::*;

use crate::engine::PairingEngine;

verus! {

/// The coefficient of `s` at position `i`, reading positions past the end
/// as the zero scalar.
pub open spec fn coeff_s<E: PairingEngine>(s: Seq<E::Fr>, i: int) -> E::Fr {
    if 0 <= i < s.len() {
        s[i]
    } else {
        E::fr_zero_s()
    }
}

/// The coefficient sequence `s` with every trailing zero removed.
pub open spec fn trim_s<E: PairingEngine>(s: Seq<E::Fr>) -> Seq<E::Fr>
    decreases s.len(),
{
    if s.len() > 0 && s.last() == E::fr_zero_s() {
        trim_s::<E>(s.drop_last())
    } else {
        s
    }
}

/// Coefficientwise sum of two coefficient sequences: where both have a
/// coefficient the field sum is taken, and a coefficient without a partner
/// is carried over unchanged, as in ordinary polynomial addition.
pub open spec fn padd_s<E: PairingEngine>(a: Seq<E::Fr>, b: Seq<E::Fr>) -> Seq<E::Fr> {
    Seq::new(
        if a.len() >= b.len() {
            a.len()
        } else {
            b.len()
        },
        |i: int|
            if i < a.len() && i < b.len() {
                E::fr_add_s(a[i], b[i])
            } else if i < a.len() {
                a[i]
            } else {
                b[i]
            },
    )
}

/// Coefficientwise weighted sum `a + f * b`: where both sequences have a
/// coefficient the result is `a[i] + f * b[i]`, a coefficient of `a` alone
/// is carried over, and one of `b` alone contributes `f * b[i]`.
pub open spec fn wadd_s<E: PairingEngine>(a: Seq<E::Fr>, f: E::Fr, b: Seq<E::Fr>) -> Seq<E::Fr> {
    Seq::new(
        if a.len() >= b.len() {
            a.len()
        } else {
            b.len()
        },
        |i: int|
            if i < a.len() && i < b.len() {
                E::fr_add_s(a[i], E::fr_mul_s(f, b[i]))
            } else if i < a.len() {
                a[i]
            } else {
                E::fr_mul_s(f, b[i])
            },
    )
}

/// A dense polynomial over the scalar field of `E`, lowest coefficient
/// first.
#[derive(Clone)]
pub struct Polynomial<E: PairingEngine> {
    /// The coefficients, index `i` holding the coefficient of degree `i`.
    pub coeffs: Vec<E::Fr>,
}

impl<E: PairingEngine> View for Polynomial<E> {
    type V = Seq<E::Fr>;

    open spec fn view(&self) -> Seq<E::Fr> {
        self.coeffs@
    }
}

impl<E: PairingEngine> Polynomial<E> {
    /// Canonical form: no trailing zero coefficient, so the zero polynomial
    /// is exactly the empty coefficient sequence.
    pub open spec fn wf(&self) -> bool {
        self@.len() > 0 ==> self@.last() != E::fr_zero_s()
    }

    /// The zero polynomial.
    pub fn zero() -> (r: Self)
        ensures
            r@ == Seq::<E::Fr>::empty(),
            r.wf(),
    {
        Polynomial { coeffs: Vec::new() }
    }

    /// Whether this is the zero polynomial.
    pub fn is_zero(&self) -> (r: bool)
        requires
            self.wf(),
        ensures
            r == (self@ == Seq::<E::Fr>::empty()),
    {
        proof {
            if self.coeffs.len() == 0 {
                assert(self@ =~= Seq::<E::Fr>::empty());
            }
        }
        self.coeffs.len() == 0
    }

    /// Builds the polynomial with the given coefficients, trimming any
    /// trailing zeros into canonical form.
    pub fn from_coefficients(coeffs: Vec<E::Fr>) -> (r: Self)
        ensures
            r@ == trim_s::<E>(coeffs@),
            r.wf(),
    {
        let mut v = coeffs;
        trim::<E>(&mut v);
        Polynomial { coeffs: v }
    }

    /// Adds `other` to `self` coefficientwise and re-trims, so the result
    /// is again canonical.
    pub fn add_assign(&mut self, other: &Self)
        ensures
            final(self)@ == trim_s::<E>(padd_s::<E>(old(self)@, other@)),
            final(self).wf(),
    {
        let a_len = self.coeffs.len();
        let b_len = other.coeffs.len();
        let n = if a_len >= b_len {
            a_len
        } else {
            b_len
        };
        let mut out: Vec<E::Fr> = Vec::new();
        let mut i: usize = 0;
        while i < n
            invariant
                i <= n,
                a_len == self.coeffs@.len(),
                b_len == other.coeffs@.len(),
                n == if a_len >= b_len {
                    a_len as int
                } else {
                    b_len as int
                },
                out@ == padd_s::<E>(self.coeffs@, other.coeffs@).take(i as int),
            decreases n - i,
        {
            let c = if i < a_len && i < b_len {
                E::fr_add(&self.coeffs[i], &other.coeffs[i])
            } else if i < a_len {
                self.coeffs[i]
            } else {
                other.coeffs[i]
            };
            out.push(c);
            proof {
                assert(out@ =~= padd_s::<E>(self.coeffs@, other.coeffs@).take(i as int + 1));
            }
            i += 1;
        }
        proof {
            assert(out@ =~= padd_s::<E>(self.coeffs@, other.coeffs@));
        }
        trim::<E>(&mut out);
        self.coeffs = out;
    }

    /// Adds `f` times `other` to `self` coefficientwise and re-trims, so
    /// the result is again canonical.
    pub fn add_assign_weighted(&mut self, f: &E::Fr, other: &Self)
        ensures
            final(self)@ == trim_s::<E>(wadd_s::<E>(old(self)@, *f, other@)),
            final(self).wf(),
    {
        let a_len = self.coeffs.len();
        let b_len = other.coeffs.len();
        let n = if a_len >= b_len {
            a_len
        } else {
            b_len
        };
        let mut out: Vec<E::Fr> = Vec::new();
        let mut i: usize = 0;
        while i < n
            invariant
                i <= n,
                a_len == self.coeffs@.len(),
                b_len == other.coeffs@.len(),
                n == if a_len >= b_len {
                    a_len as int
                } else {
                    b_len as int
                },
                out@ == wadd_s::<E>(self.coeffs@, *f, other.coeffs@).take(i as int),
            decreases n - i,
        {
            let c = if i < a_len && i < b_len {
                E::fr_add(&self.coeffs[i], &E::fr_mul(f, &other.coeffs[i]))
            } else if i < a_len {
                self.coeffs[i]
            } else {
                E::fr_mul(f, &other.coeffs[i])
            };
            out.push(c);
            proof {
                assert(out@ =~= wadd_s::<E>(self.coeffs@, *f, other.coeffs@).take(i as int + 1));
            }
            i += 1;
        }
        proof {
            assert(out@ =~= wadd_s::<E>(self.coeffs@, *f, other.coeffs@));
        }
        trim::<E>(&mut out);
        self.coeffs = out;
    }
}

/// Removes trailing zero coefficients, leaving the canonical form.
fn trim<E: PairingEngine>(v: &mut Vec<E::Fr>)
    ensures
        final(v)@ == trim_s::<E>(old(v)@),
        final(v)@.len() > 0 ==> final(v)@.last() != E::fr_zero_s(),
{
    while v.len() > 0 && E::fr_is_zero(&v[v.len() - 1])
        invariant
            trim_s::<E>(v@) == trim_s::<E>(old(v)@),
        decreases v@.len(),
    {
        proof {
            assert(v@.drop_last() =~= v@.take(v@.len() - 1));
        }
        v.pop();
    }
}

} // verus!
