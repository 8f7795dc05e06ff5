use crate::residues::{lemma_non_residue_power, lemma_root_iff_unit_power};
use vstd::arithmetic::div_mod::*;
use vstd::arithmetic::mul::*;
use vstd::arithmetic::power::*;
use vstd::prelude::*;

verus! {

/// Failures of prime-field arithmetic.
#[derive(Clone, Copy, Debug, PartialEq, Eq, Structural)]
pub enum FieldError {
    DivisionByZero,
    InvalidModulus,
    ValueExceedsModulus,
}

impl FieldError {
    /// The error in words.
    pub open spec fn text(self) -> Seq<char> {
        match self {
            FieldError::DivisionByZero => "Division by zero"@,
            FieldError::InvalidModulus => "Invalid modulus"@,
            FieldError::ValueExceedsModulus => "Value exceeds modulus"@,
        }
    }

    /// The error in words.
    pub fn message(&self) -> (r: String)
        ensures
            r@ == self.text(),
    {
        match self {
            FieldError::DivisionByZero => "Division by zero".to_owned(),
            FieldError::InvalidModulus => "Invalid modulus".to_owned(),
            FieldError::ValueExceedsModulus => "Value exceeds modulus".to_owned(),
        }
    }
}

/// A residue together with the modulus it is reduced by.
#[derive(Clone, Copy, Debug, PartialEq, Eq, Structural, Hash)]
pub struct FieldElement {
    value: u128,
    modulus: u128,
}

/// Sum of two residues.
pub open spec fn add_mod(a: nat, b: nat, m: nat) -> nat {
    (a + b) % m
}

/// Difference of two residues, as the non-negative remainder.
pub open spec fn sub_mod(a: nat, b: nat, m: nat) -> nat {
    ((a - b) % (m as int)) as nat
}

/// Product of two residues.
pub open spec fn mul_mod(a: nat, b: nat, m: nat) -> nat {
    (a * b) % m
}

/// Power of a residue.
pub open spec fn pow_mod(a: nat, e: nat, m: nat) -> nat {
    (pow(a as int, e) % (m as int)) as nat
}

/// Greatest common divisor, by Euclid's recurrence.
pub open spec fn gcd(a: nat, b: nat) -> nat
    decreases b,
{
    if b == 0 {
        a
    } else {
        gcd(b, a % b)
    }
}

/// The coefficient of the first argument that Euclid's algorithm ends
/// with, kept reduced modulo `m`, from the remainders `old_r`, `r` and
/// their coefficients `old_s`, `s`.
pub open spec fn euclid_coefficient(old_r: nat, r: nat, old_s: nat, s: nat, m: nat) -> nat
    decreases r,
{
    if r == 0 {
        old_s
    } else {
        euclid_coefficient(
            r,
            old_r % r,
            s,
            sub_mod(old_s, mul_mod((old_r / r) % m, s, m), m),
            m,
        )
    }
}

/// What `inverse` returns for the residue `v` modulo `m`.
pub open spec fn inverse_value(v: nat, m: nat) -> nat {
    euclid_coefficient(v, m, 1, 0, m)
}

/// Some residue squares to `a` modulo `m`.
pub open spec fn has_root(a: nat, m: nat) -> bool {
    exists|x: nat| x < m && #[trigger] mul_mod(x, x, m) == a
}

/// `x` is the multiplicative inverse of `v` modulo `m`.
pub open spec fn is_inverse_of(x: nat, v: nat, m: nat) -> bool {
    x < m && (v * x) % m == 1
}

proof fn lemma_cong_add(a1: int, a2: int, b1: int, b2: int, m: int)
    requires
        m > 0,
        a1 % m == a2 % m,
        b1 % m == b2 % m,
    ensures
        (a1 + b1) % m == (a2 + b2) % m,
{
    lemma_add_mod_noop(a1, b1, m);
    lemma_add_mod_noop(a2, b2, m);
}

proof fn lemma_cong_sub(a1: int, a2: int, b1: int, b2: int, m: int)
    requires
        m > 0,
        a1 % m == a2 % m,
        b1 % m == b2 % m,
    ensures
        (a1 - b1) % m == (a2 - b2) % m,
{
    lemma_sub_mod_noop(a1, b1, m);
    lemma_sub_mod_noop(a2, b2, m);
}

proof fn lemma_cong_mul(a1: int, a2: int, b1: int, b2: int, m: int)
    requires
        m > 0,
        a1 % m == a2 % m,
        b1 % m == b2 % m,
    ensures
        (a1 * b1) % m == (a2 * b2) % m,
{
    lemma_mul_mod_noop(a1, b1, m);
    lemma_mul_mod_noop(a2, b2, m);
}

proof fn lemma_euclid_step(old_r: nat, r: nat, old_s: nat, s: nat, v: nat, m: nat)
    requires
        1 < m,
        r != 0,
        old_s < m,
        s < m,
        (old_s * v) % m == old_r % m,
        (s * v) % m == r % m,
    ensures
        sub_mod(old_s, mul_mod((old_r / r) % m, s, m), m) < m,
        (sub_mod(old_s, mul_mod((old_r / r) % m, s, m), m) * v) % m == (old_r % r) % m,
{
    let mi = m as int;
    let qi = (old_r / r) as int;
    let si = s as int;
    let vi = v as int;
    let rem = (old_r % r) as int;
    let qm = ((old_r / r) % m) as int;
    let qs = mul_mod((old_r / r) % m, s, m) as int;
    let new_s = sub_mod(old_s, mul_mod((old_r / r) % m, s, m), m) as int;
    lemma_fundamental_div_mod(old_r as int, r as int);
    assert(rem == old_r - qi * r) by (nonlinear_arith)
        requires
            old_r as int == r * qi + rem,
    ;
    lemma_mul_mod_noop_left(qi, si, mi);
    lemma_mod_twice(qm * si, mi);
    lemma_cong_sub(old_s as int, old_s as int, qs, qi * si, mi);
    lemma_mod_twice(old_s - qs, mi);
    lemma_cong_mul(new_s, old_s - qi * si, vi, vi, mi);
    assert((old_s - qi * si) * vi == old_s * vi - qi * (si * vi)) by (nonlinear_arith);
    lemma_cong_mul(qi, qi, si * vi, r as int, mi);
    lemma_cong_sub(old_s * vi, old_r as int, qi * (si * vi), qi * r, mi);
    lemma_mod_bound(old_s - qs, mi);
}

/// The coefficient that Euclid's algorithm ends with, times `v`, is
/// congruent to the greatest common divisor of the two remainders it
/// started from.
pub proof fn lemma_euclid_coefficient(old_r: nat, r: nat, old_s: nat, s: nat, v: nat, m: nat)
    requires
        1 < m,
        old_s < m,
        s < m,
        (old_s * v) % m == old_r % m,
        (s * v) % m == r % m,
    ensures
        euclid_coefficient(old_r, r, old_s, s, m) < m,
        (euclid_coefficient(old_r, r, old_s, s, m) * v) % m == gcd(old_r, r) % m,
    decreases r,
{
    if r != 0 {
        lemma_euclid_step(old_r, r, old_s, s, v, m);
        lemma_euclid_coefficient(
            r,
            old_r % r,
            s,
            sub_mod(old_s, mul_mod((old_r / r) % m, s, m), m),
            v,
            m,
        );
    }
}

/// For a residue coprime to the modulus, what `inverse` returns is its
/// multiplicative inverse.
pub proof fn lemma_inverse_value(v: nat, m: nat)
    requires
        1 < m,
        v < m,
        gcd(v, m) == 1,
    ensures
        is_inverse_of(inverse_value(v, m), v, m),
{
    lemma_small_mod(v, m);
    lemma_mod_self_0(m as int);
    lemma_small_mod(0, m);
    lemma_small_mod(1, m);
    assert(1 * v == v);
    assert(0 * v == 0);
    lemma_euclid_coefficient(v, m, 1, 0, v, m);
    lemma_mul_is_commutative(inverse_value(v, m) as int, v as int);
}

fn add_residues(a: u128, b: u128, m: u128) -> (r: u128)
    requires
        a < m,
        b < m,
    ensures
        r == add_mod(a as nat, b as nat, m as nat),
        r < m,
{
    if a >= m - b {
        proof {
            lemma_fundamental_div_mod_converse(a + b, m as int, 1, a + b - m);
        }
        a - (m - b)
    } else {
        proof {
            lemma_small_mod((a + b) as nat, m as nat);
        }
        a + b
    }
}

fn sub_residues(a: u128, b: u128, m: u128) -> (r: u128)
    requires
        a < m,
        b < m,
    ensures
        r == sub_mod(a as nat, b as nat, m as nat),
        r < m,
{
    if a >= b {
        proof {
            lemma_small_mod((a - b) as nat, m as nat);
        }
        a - b
    } else {
        proof {
            lemma_fundamental_div_mod_converse(a - b, m as int, -1, a - b + m);
        }
        m - (b - a)
    }
}

fn mul_residues(a: u128, b: u128, m: u128) -> (r: u128)
    requires
        a < m,
        b < m,
    ensures
        r == mul_mod(a as nat, b as nat, m as nat),
        r < m,
{
    if a <= 0xffff_ffff_ffff_ffff && b <= 0xffff_ffff_ffff_ffff {
        assert(a * b <= 0xffff_ffff_ffff_ffff * 0xffff_ffff_ffff_ffff) by (nonlinear_arith)
            requires
                a <= 0xffff_ffff_ffff_ffff,
                b <= 0xffff_ffff_ffff_ffff,
        ;
        return (a * b) % m;
    }
    let mut acc: u128 = 0;
    let mut x: u128 = a;
    let mut e: u128 = b;
    while e > 0
        invariant
            acc < m,
            x < m,
            (acc + x * e) % (m as int) == (a * b) % (m as int),
        decreases e,
    {
        let ghost acc0 = acc as int;
        let ghost x0 = x as int;
        let ghost e0 = e as int;
        let ghost mi = m as int;
        let bit: u128 = e % 2;
        if bit == 1 {
            acc = add_residues(acc, x, m);
        }
        x = add_residues(x, x, m);
        e = e / 2;
        proof {
            let q = e as int;
            let step = acc0 + bit * x0;
            assert(e0 == 2 * q + bit);
            assert(acc as int == step % mi) by {
                if bit == 0 {
                    lemma_small_mod(acc0 as nat, m as nat);
                }
            }
            lemma_mod_twice(step, mi);
            lemma_mod_twice(x0 + x0, mi);
            lemma_cong_mul(x as int, x0 + x0, q, q, mi);
            lemma_cong_add(acc as int, step, x * q, (x0 + x0) * q, mi);
            assert(step + (x0 + x0) * q == acc0 + x0 * e0) by (nonlinear_arith)
                requires
                    step == acc0 + bit * x0,
                    e0 == 2 * q + bit,
            ;
        }
    }
    proof {
        lemma_small_mod(acc as nat, m as nat);
    }
    acc
}

impl FieldElement {
    /// The residue, as a natural number.
    pub closed spec fn val(self) -> nat {
        self.value as nat
    }

    /// The modulus, as a natural number.
    pub closed spec fn modu(self) -> nat {
        self.modulus as nat
    }

    /// The modulus exceeds one and the residue lies below it.
    pub open spec fn wf(self) -> bool {
        1 < self.modu() && self.val() < self.modu()
    }

    /// Two elements with the same residue and modulus are the same element.
    pub proof fn lemma_same(a: FieldElement, b: FieldElement)
        requires
            a.val() == b.val(),
            a.modu() == b.modu(),
        ensures
            a == b,
    {
    }

    /// The element `value` modulo `modulus`.
    pub fn new(value: u128, modulus: u128) -> (r: Result<Self, FieldError>)
        ensures
            match r {
                Ok(e) => 1 < modulus && value < modulus && e.wf() && e.val() == value
                    && e.modu() == modulus,
                Err(FieldError::InvalidModulus) => modulus <= 1,
                Err(FieldError::ValueExceedsModulus) => 1 < modulus && value >= modulus,
                Err(FieldError::DivisionByZero) => false,
            },
    {
        if modulus <= 1 {
            return Err(FieldError::InvalidModulus);
        }
        if value >= modulus {
            return Err(FieldError::ValueExceedsModulus);
        }
        Ok(Self { value, modulus })
    }

    /// The additive identity modulo `modulus`.
    pub fn zero(modulus: u128) -> (r: Result<Self, FieldError>)
        ensures
            match r {
                Ok(e) => 1 < modulus && e.wf() && e.val() == 0 && e.modu() == modulus,
                Err(FieldError::InvalidModulus) => modulus <= 1,
                Err(_) => false,
            },
    {
        Self::new(0, modulus)
    }

    /// The multiplicative identity modulo `modulus`.
    pub fn one(modulus: u128) -> (r: Result<Self, FieldError>)
        ensures
            match r {
                Ok(e) => 1 < modulus && e.wf() && e.val() == 1 && e.modu() == modulus,
                Err(FieldError::InvalidModulus) => modulus <= 1,
                Err(_) => false,
            },
    {
        Self::new(1, modulus)
    }

    /// The residue.
    pub fn value(&self) -> (r: u128)
        ensures
            r == self.val(),
    {
        self.value
    }

    /// The modulus.
    pub fn modulus(&self) -> (r: u128)
        ensures
            r == self.modu(),
    {
        self.modulus
    }

    /// The sum, reduced.
    pub fn add(self, other: Self) -> (r: Self)
        requires
            self.wf(),
            other.wf(),
            self.modu() == other.modu(),
        ensures
            r.wf(),
            r.modu() == self.modu(),
            r.val() == add_mod(self.val(), other.val(), self.modu()),
    {
        Self { value: add_residues(self.value, other.value, self.modulus), modulus: self.modulus }
    }

    /// The difference, reduced.
    pub fn sub(self, other: Self) -> (r: Self)
        requires
            self.wf(),
            other.wf(),
            self.modu() == other.modu(),
        ensures
            r.wf(),
            r.modu() == self.modu(),
            r.val() == sub_mod(self.val(), other.val(), self.modu()),
    {
        Self { value: sub_residues(self.value, other.value, self.modulus), modulus: self.modulus }
    }

    /// The product, reduced. Wide operands are multiplied by doubling, so
    /// that no intermediate value leaves the machine word.
    pub fn mul(self, other: Self) -> (r: Self)
        requires
            self.wf(),
            other.wf(),
            self.modu() == other.modu(),
        ensures
            r.wf(),
            r.modu() == self.modu(),
            r.val() == mul_mod(self.val(), other.val(), self.modu()),
    {
        Self { value: mul_residues(self.value, other.value, self.modulus), modulus: self.modulus }
    }

    /// Extended Euclid on the residue and the modulus, with the Bezout
    /// coefficient of the residue kept reduced.
    pub fn inverse(&self) -> (r: Result<Self, FieldError>)
        requires
            self.wf(),
        ensures
            match r {
                Ok(e) => self.val() != 0 && e.wf() && e.modu() == self.modu() && e.val()
                    == inverse_value(self.val(), self.modu()) && mul_mod(
                    self.val(),
                    e.val(),
                    self.modu(),
                ) == gcd(self.val(), self.modu()) % self.modu() && (gcd(self.val(), self.modu())
                    == 1 ==> is_inverse_of(e.val(), self.val(), self.modu())),
                Err(FieldError::DivisionByZero) => self.val() == 0,
                Err(_) => false,
            },
    {
        if self.value == 0 {
            return Err(FieldError::DivisionByZero);
        }
        let m: u128 = self.modulus;
        let v: u128 = self.value;
        let mut old_r: u128 = v;
        let mut r: u128 = m;
        let mut old_s: u128 = 1;
        let mut s: u128 = 0;
        proof {
            lemma_small_mod(v as nat, m as nat);
            lemma_mod_self_0(m as int);
            lemma_small_mod(0, m as nat);
        }
        while r != 0
            invariant
                1 < m,
                old_r <= m,
                r <= m,
                old_s < m,
                s < m,
                (old_s * v) % (m as int) == (old_r as int) % (m as int),
                (s * v) % (m as int) == (r as int) % (m as int),
                gcd(old_r as nat, r as nat) == gcd(v as nat, m as nat),
                euclid_coefficient(old_r as nat, r as nat, old_s as nat, s as nat, m as nat)
                    == inverse_value(v as nat, m as nat),
            decreases r,
        {
            let q: u128 = old_r / r;
            let rem: u128 = old_r % r;
            let qm: u128 = q % m;
            let qs: u128 = mul_residues(qm, s, m);
            let new_s: u128 = sub_residues(old_s, qs, m);
            proof {
                lemma_euclid_step(
                    old_r as nat,
                    r as nat,
                    old_s as nat,
                    s as nat,
                    v as nat,
                    m as nat,
                );
            }
            old_r = r;
            r = rem;
            old_s = s;
            s = new_s;
        }
        proof {
            lemma_mul_is_commutative(old_s as int, v as int);
            if gcd(v as nat, m as nat) == 1 {
                lemma_small_mod(1, m as nat);
            }
        }
        Ok(Self { value: old_s, modulus: m })
    }

    /// The product with the inverse of `other`.
    pub fn div(self, other: Self) -> (r: Result<Self, FieldError>)
        requires
            self.wf(),
            other.wf(),
            self.modu() == other.modu(),
        ensures
            match r {
                Ok(e) => other.val() != 0 && e.wf() && e.modu() == self.modu() && e.val()
                    == mul_mod(self.val(), inverse_value(other.val(), self.modu()), self.modu()),
                Err(FieldError::DivisionByZero) => other.val() == 0,
                Err(_) => false,
            },
            (r is Ok && gcd(other.val(), self.modu()) == 1) ==> mul_mod(
                r->Ok_0.val(),
                other.val(),
                self.modu(),
            ) == self.val(),
    {
        match other.inverse() {
            Ok(inv) => {
                let q = self.mul(inv);
                proof {
                    if gcd(other.val(), self.modu()) == 1 {
                        lemma_div_undoes(self.val(), other.val(), inv.val(), self.modu());
                    }
                }
                Ok(q)
            },
            Err(_) => Err(FieldError::DivisionByZero),
        }
    }

    /// Square-and-multiply.
    pub fn pow(&self, exponent: u128) -> (r: Self)
        requires
            self.wf(),
        ensures
            r.wf(),
            r.modu() == self.modu(),
            r.val() == pow_mod(self.val(), exponent as nat, self.modu()),
    {
        let m: u128 = self.modulus;
        let mut result: u128 = 1;
        let mut base: u128 = self.value;
        let mut e: u128 = exponent;
        while e > 0
            invariant
                1 < m,
                result < m,
                base < m,
                (result * pow(base as int, e as nat)) % (m as int) == pow(
                    self.value as int,
                    exponent as nat,
                ) % (m as int),
            decreases e,
        {
            let ghost r0 = result as int;
            let ghost b0 = base as int;
            let ghost e0 = e as nat;
            let ghost mi = m as int;
            let bit: u128 = e % 2;
            if bit == 1 {
                result = mul_residues(result, base, m);
            }
            base = mul_residues(base, base, m);
            e = e / 2;
            proof {
                let q = e as nat;
                let sq = pow(b0 * b0, q);
                assert(e0 == 2 * q + bit);
                lemma_square_is_pow2(b0);
                lemma_pow_multiplies(b0, 2, q);
                assert(pow(b0, 2 * q) == sq);
                lemma_pow_mod_noop(b0 * b0, q, mi);
                lemma_mod_twice(b0 * b0, mi);
                assert(pow(base as int, q) % mi == sq % mi) by {
                    assert(base as int == (b0 * b0) % mi);
                }
                if bit == 1 {
                    lemma_pow_adds(b0, 1, 2 * q);
                    lemma_pow1(b0);
                    assert(pow(b0, e0) == b0 * sq);
                    lemma_mod_twice(r0 * b0, mi);
                    lemma_cong_mul(result as int, r0 * b0, pow(base as int, q), sq, mi);
                    lemma_mul_is_associative(r0, b0, sq);
                } else {
                    assert(pow(b0, e0) == sq);
                    lemma_cong_mul(r0, r0, pow(base as int, q), sq, mi);
                }
            }
        }
        proof {
            lemma_pow0(base as int);
            lemma_small_mod(result as nat, m as nat);
        }
        Self { value: result, modulus: m }
    }

    /// Zero for the zero element; for any other, Euler's criterion as a
    /// sign. Under a prime modulus that is one for an element with a
    /// square root and minus one for an element without.
    pub fn legendre_symbol(&self) -> (r: i8)
        requires
            self.wf(),
        ensures
            self.val() == 0 ==> r == 0,
            self.val() != 0 ==> r == euler_sign(
                pow_mod(self.val(), ((self.modu() - 1) / 2) as nat, self.modu()),
            ),
            is_prime(self.modu()) ==> r == if self.val() == 0 {
                0i8
            } else if has_root(self.val(), self.modu()) {
                1i8
            } else {
                -1i8
            },
    {
        if self.value == 0 {
            return 0;
        }
        proof {
            let p = self.modu();
            if is_prime(p) {
                lemma_root_iff_unit_power(self.val(), p);
                if !has_root(self.val(), p) {
                    if p == 2 {
                        assert(1 * 1 == 1);
                        lemma_small_mod(1, 2);
                        assert(mul_mod(1, 1, 2) == self.val());
                    } else {
                        lemma_non_residue_power(self.val(), p);
                    }
                }
            }
        }
        let result = self.pow((self.modulus - 1) / 2).value;
        if result == 0 {
            0
        } else if result == 1 {
            1
        } else {
            -1
        }
    }

    fn euler_power(z: u128, p: u128) -> (r: u128)
        requires
            z < p,
            1 < p,
        ensures
            r == pow_mod(z as nat, ((p - 1) / 2) as nat, p as nat),
    {
        let e = Self { value: z, modulus: p };
        e.pow((p - 1) / 2).value
    }

    fn checked_root(&self, candidate: Self) -> (r: Option<Self>)
        requires
            self.wf(),
            candidate.wf(),
            candidate.modu() == self.modu(),
        ensures
            match r {
                Some(s) => s == candidate,
                None => true,
            },
            r is Some <==> mul_mod(candidate.val(), candidate.val(), self.modu()) == self.val(),
    {
        if candidate.mul(candidate) == *self {
            Some(candidate)
        } else {
            None
        }
    }

    /// The least residue whose square is the element, if there is one.
    fn search_root(&self) -> (r: Option<Self>)
        requires
            self.wf(),
        ensures
            match r {
                Some(s) => s.wf() && s.modu() == self.modu() && mul_mod(
                    s.val(),
                    s.val(),
                    self.modu(),
                ) == self.val(),
                None => !has_root(self.val(), self.modu()),
            },
    {
        let p: u128 = self.modulus;
        let mut x: u128 = 0;
        while x < p
            invariant
                1 < p,
                p == self.modulus,
                x <= p,
                forall|y: nat| y < x ==> #[trigger] mul_mod(y, y, p as nat) != self.value,
            decreases p - x,
        {
            if mul_residues(x, x, p) == self.value {
                return Some(Self { value: x, modulus: p });
            }
            x = x + 1;
        }
        None
    }

    /// A square root, if there is one among the residues and Euler's
    /// criterion admits one; which of the two is not fixed. Under a prime
    /// modulus that is exactly when there is one. Tonelli-Shanks finds it;
    /// every candidate is squared and compared before it is handed out,
    /// and should the algorithm end without a root the residues are
    /// searched in turn.
    pub fn sqrt(&self) -> (r: Option<Self>)
        requires
            self.wf(),
        ensures
            match r {
                Some(s) => s.wf() && s.modu() == self.modu() && mul_mod(
                    s.val(),
                    s.val(),
                    self.modu(),
                ) == self.val(),
                None => self.val() != 0,
            },
            self.val() == 0 ==> r == Some(*self),
            (self.val() != 0 && pow_mod(
                self.val(),
                ((self.modu() - 1) / 2) as nat,
                self.modu(),
            ) != 1) ==> r is None,
            (self.val() != 0 && pow_mod(
                self.val(),
                ((self.modu() - 1) / 2) as nat,
                self.modu(),
            ) == 1) ==> (r is Some <==> has_root(self.val(), self.modu())),
            (self.val() != 0 && self.modu() % 4 == 3 && pow_mod(
                self.val(),
                ((self.modu() - 1) / 2) as nat,
                self.modu(),
            ) == 1) ==> r is Some,
            (is_prime(self.modu()) && self.val() != 0 && pow_mod(
                self.val(),
                ((self.modu() - 1) / 2) as nat,
                self.modu(),
            ) == 1) ==> r is Some,
            is_prime(self.modu()) ==> (r is None <==> !has_root(self.val(), self.modu())),
    {
        let p: u128 = self.modulus;
        proof {
            if is_prime(p as nat) && self.value != 0 {
                lemma_root_iff_unit_power(self.val(), p as nat);
            }
        }
        if self.value == 0 {
            proof {
                assert(0 * 0 == 0);
                lemma_small_mod(0, p as nat);
                assert(mul_mod(0, 0, p as nat) == self.val());
            }
            return Some(*self);
        }
        if self.pow((p - 1) / 2).value != 1 {
            return None;
        }
        match self.tonelli_shanks() {
            Some(s) => {
                assert(mul_mod(s.val(), s.val(), p as nat) == self.val());
                Some(s)
            },
            None => self.search_root(),
        }
    }

    /// The Tonelli-Shanks iteration for a non-zero element that passes
    /// Euler's criterion.
    fn tonelli_shanks(&self) -> (r: Option<Self>)
        requires
            self.wf(),
            self.val() != 0,
            pow_mod(self.val(), ((self.modu() - 1) / 2) as nat, self.modu()) == 1,
        ensures
            match r {
                Some(s) => s.wf() && s.modu() == self.modu() && mul_mod(
                    s.val(),
                    s.val(),
                    self.modu(),
                ) == self.val(),
                None => true,
            },
            self.modu() % 4 == 3 ==> r is Some,
    {
        let p: u128 = self.modulus;
        let mut q: u128 = p - 1;
        let mut s: u128 = 0;
        while q % 2 == 0
            invariant
                0 < q,
                s + q <= p - 1,
                p % 4 == 3 ==> (s == 0 && q == p - 1) || (s == 1 && q == (p - 1) / 2),
            decreases q,
        {
            q = q / 2;
            s = s + 1;
        }
        let first_t = self.pow(q);
        let first_r = self.pow(q / 2 + q % 2);
        if first_t.value == 1 {
            proof {
                lemma_root_from_unit_power(self.val(), q as nat, p as nat);
            }
            return self.checked_root(first_r);
        }
        let mut z: u128 = 2;
        while z < p && Self::euler_power(z, p) == 1
            invariant
                1 < p,
                2 <= z,
            decreases p - z,
        {
            z = z + 1;
        }
        if z >= p {
            return None;
        }
        let zf = Self { value: z, modulus: p };
        let mut m: u128 = s;
        let mut c = zf.pow(q);
        let mut t = first_t;
        let mut r = first_r;
        while t.value != 1
            invariant
                self.wf(),
                self.value != 0,
                pow_mod(self.val(), ((self.modu() - 1) / 2) as nat, self.modu()) == 1,
                p == self.modulus,
                p % 4 != 3,
                c.wf(),
                t.wf(),
                r.wf(),
                c.modulus == p,
                t.modulus == p,
                r.modulus == p,
            decreases m,
        {
            let mut i: u128 = 0;
            let mut temp = t;
            while temp.value != 1 && i < m
                invariant
                    temp.wf(),
                    temp.modulus == p,
                    i <= m,
                decreases m - i,
            {
                temp = temp.mul(temp);
                i = i + 1;
            }
            if i == 0 || i >= m {
                return self.checked_root(r);
            }
            let mut b = c;
            let mut k: u128 = i + 1;
            while k < m
                invariant
                    b.wf(),
                    b.modulus == p,
                decreases m - k,
            {
                b = b.mul(b);
                k = k + 1;
            }
            m = i;
            c = b.mul(b);
            t = t.mul(c);
            r = r.mul(b);
        }
        self.checked_root(r)
    }
}

/// Where an odd power of a residue is one, the power of half the next
/// exponent is a square root of the residue.
pub proof fn lemma_root_from_unit_power(a: nat, q: nat, m: nat)
    requires
        1 < m,
        a < m,
        q % 2 == 1,
        pow_mod(a, q, m) == 1,
    ensures
        mul_mod(pow_mod(a, q / 2 + q % 2, m), pow_mod(a, q / 2 + q % 2, m), m) == a,
{
    let h = q / 2 + q % 2;
    let ai = a as int;
    let mi = m as int;
    let ph = pow(ai, h);
    lemma_mul_mod_noop(ph, ph, mi);
    lemma_pow_adds(ai, h, h);
    lemma_pow_adds(ai, 1, q);
    lemma_pow1(ai);
    assert(h + h == 1 + q);
    assert(ph * ph == ai * pow(ai, q));
    lemma_mul_mod_noop_right(ai, pow(ai, q), mi);
    assert(ai * 1 == ai);
    lemma_small_mod(a, m);
}

/// The sign that Euler's criterion gives a residue's half-order power.
pub open spec fn euler_sign(x: nat) -> i8 {
    if x == 0 {
        0i8
    } else if x == 1 {
        1i8
    } else {
        -1i8
    }
}

/// Multiplying a quotient back by the divisor gives the dividend, when the
/// divisor has an inverse.
pub proof fn lemma_div_undoes(a: nat, b: nat, binv: nat, m: nat)
    requires
        1 < m,
        a < m,
        is_inverse_of(binv, b, m),
    ensures
        mul_mod(mul_mod(a, binv, m), b, m) == a,
        mul_mod(mul_mod(a, b, m), binv, m) == a,
{
    let mi = m as int;
    let ai = a as int;
    let bi = b as int;
    let ci = binv as int;
    lemma_small_mod(a, m);
    lemma_small_mod(1, m);
    lemma_mul_mod_noop_left(ai * ci, bi, mi);
    lemma_mul_mod_noop_left(ai * bi, ci, mi);
    lemma_mul_is_associative(ai, ci, bi);
    lemma_mul_is_associative(ai, bi, ci);
    lemma_mul_is_commutative(ci, bi);
    lemma_mul_mod_noop_right(ai, bi * ci, mi);
    assert(ai * 1 == ai);
}

/// Subtracting what was added gives the first operand back.
pub proof fn lemma_add_then_sub(a: FieldElement, b: FieldElement)
    requires
        a.wf(),
        b.wf(),
        a.modu() == b.modu(),
    ensures
        sub_mod(add_mod(a.val(), b.val(), a.modu()), b.val(), a.modu()) == a.val(),
{
    let m = a.modu() as int;
    let s = add_mod(a.val(), b.val(), a.modu()) as int;
    lemma_mod_twice((a.val() + b.val()) as int, m);
    lemma_small_mod(b.val(), a.modu());
    lemma_cong_sub(s, (a.val() + b.val()) as int, b.val() as int, b.val() as int, m);
    lemma_small_mod(a.val(), a.modu());
}

/// A difference is zero exactly when the operands are equal.
pub proof fn lemma_sub_zero(a: nat, b: nat, m: nat)
    requires
        a < m,
        b < m,
    ensures
        sub_mod(a, b, m) == 0 <==> a == b,
{
    if a >= b {
        lemma_small_mod((a - b) as nat, m);
    } else {
        lemma_fundamental_div_mod_converse(a - b, m as int, -1, a - b + m);
    }
}

/// Dividing a product by one of its factors gives the other factor back,
/// when that factor is coprime to the modulus.
pub proof fn lemma_mul_then_div(a: FieldElement, b: FieldElement)
    requires
        a.wf(),
        b.wf(),
        a.modu() == b.modu(),
        gcd(b.val(), b.modu()) == 1,
    ensures
        mul_mod(mul_mod(a.val(), b.val(), a.modu()), inverse_value(b.val(), a.modu()), a.modu())
            == a.val(),
{
    lemma_inverse_value(b.val(), b.modu());
    lemma_div_undoes(a.val(), b.val(), inverse_value(b.val(), a.modu()), a.modu());
}

/// An element coprime to the modulus, times its inverse, is one, and the
/// inverse of its inverse is the element itself.
pub proof fn lemma_inverse_laws(a: FieldElement)
    requires
        a.wf(),
        gcd(a.val(), a.modu()) == 1,
    ensures
        mul_mod(a.val(), inverse_value(a.val(), a.modu()), a.modu()) == 1,
        inverse_value(a.val(), a.modu()) != 0,
        inverse_value(inverse_value(a.val(), a.modu()), a.modu()) == a.val(),
{
    let m = a.modu();
    let b = inverse_value(a.val(), m);
    lemma_inverse_value(a.val(), m);
    lemma_inverse_coprime(b, a.val(), m);
    lemma_inverse_value(b, m);
    lemma_inverse_twice(a.val(), b, inverse_value(b, m), m);
    if b == 0 {
        assert(a.val() * 0 == 0);
        lemma_small_mod(0, m);
    }
}

/// The greatest common divisor divides both arguments.
pub proof fn lemma_gcd_divides(a: nat, b: nat)
    requires
        a > 0 || b > 0,
    ensures
        gcd(a, b) > 0,
        a % gcd(a, b) == 0,
        b % gcd(a, b) == 0,
    decreases b,
{
    if b == 0 {
        lemma_mod_self_0(a as int);
    } else {
        lemma_gcd_divides(b, a % b);
        let g = gcd(b, a % b) as int;
        let q = (a / b) as int;
        lemma_fundamental_div_mod(a as int, b as int);
        lemma_mul_mod_noop_left(b as int, q, g);
        assert((b * q) % g == 0) by {
            assert(0 * q == 0);
            lemma_small_mod(0, g as nat);
        }
        lemma_cong_add(b * q, 0, (a % b) as int, 0, g);
    }
}

/// A residue that has an inverse shares no factor with the modulus.
pub proof fn lemma_inverse_coprime(x: nat, v: nat, m: nat)
    requires
        1 < m,
        is_inverse_of(x, v, m),
    ensures
        gcd(v, m) == 1,
        gcd(x, m) == 1,
{
    lemma_mul_is_commutative(v as int, x as int);
    lemma_unit_coprime(v, x, m);
    lemma_unit_coprime(x, v, m);
}

proof fn lemma_unit_coprime(v: nat, x: nat, m: nat)
    requires
        1 < m,
        (v * x) % m == 1,
    ensures
        gcd(v, m) == 1,
{
    lemma_gcd_divides(v, m);
    let g = gcd(v, m) as int;
    let q = ((v * x) / m) as int;
    lemma_fundamental_div_mod((v * x) as int, m as int);
    lemma_mul_mod_noop_left(v as int, x as int, g);
    lemma_mul_mod_noop_left(m as int, q, g);
    assert(0 * (x as int) == 0);
    assert(0 * q == 0);
    lemma_small_mod(0, g as nat);
    lemma_cong_sub((v * x) as int, 0, m * q, 0, g);
    assert((v * x) as int - m * q == 1);
    if g > 1 {
        lemma_small_mod(1, g as nat);
    }
}

/// No proper divisor other than one.
pub open spec fn is_prime(p: nat) -> bool {
    1 < p && forall|d: nat| 1 < d < p ==> #[trigger] (p % d) != 0
}

/// Below a prime modulus every non-zero residue is coprime to it, so
/// `inverse` returns its multiplicative inverse.
pub proof fn lemma_prime_coprime(a: nat, p: nat)
    requires
        is_prime(p),
        0 < a < p,
    ensures
        gcd(a, p) == 1,
{
    lemma_gcd_divides(a, p);
    let g = gcd(a, p);
    if g > a {
        lemma_small_mod(a, g);
    }
    if g > 1 {
        assert(p % g != 0);
    }
}

/// An inverse is determined by the residue it inverts.
pub proof fn lemma_inverse_unique(x: nat, y: nat, v: nat, m: nat)
    requires
        1 < m,
        is_inverse_of(x, v, m),
        is_inverse_of(y, v, m),
    ensures
        x == y,
{
    lemma_mul_is_commutative(v as int, x as int);
    lemma_inverse_twice(x, v, y, m);
}

/// The inverse of the inverse is the element itself: when `b` inverts
/// `a` and `c` inverts `b`, then `c` is `a`.
pub proof fn lemma_inverse_twice(a: nat, b: nat, c: nat, m: nat)
    requires
        1 < m,
        a < m,
        (a * b) % m == 1,
        is_inverse_of(c, b, m),
    ensures
        c == a,
{
    let mi = m as int;
    let ai = a as int;
    let bi = b as int;
    let ci = c as int;
    lemma_small_mod(a, m);
    lemma_small_mod(c, m);
    lemma_mul_mod_noop_right(ai, bi * ci, mi);
    lemma_mul_is_associative(ai, bi, ci);
    lemma_mul_mod_noop_left(ai * bi, ci, mi);
    assert(ai * 1 == ai);
    assert(1 * ci == ci);
}

/// The zeroth power of every element, zero included, is one.
pub proof fn lemma_pow_zero(a: FieldElement)
    requires
        a.wf(),
    ensures
        pow_mod(a.val(), 0, a.modu()) == 1,
{
    lemma_pow0(a.val() as int);
    lemma_small_mod(1, a.modu());
}

} // verus!
