use crate::field::{
    has_root, inverse_value, is_prime, lemma_div_undoes, lemma_inverse_value,
    lemma_prime_coprime, mul_mod, pow_mod,
};
use vstd::arithmetic::div_mod::*;
use vstd::arithmetic::power::*;
use vstd::prelude::*;

verus! {

/// Product of the members of `s` among `1..=n`.
pub open spec fn product_upto(s: Set<nat>, n: nat) -> nat
    decreases n,
{
    if n == 0 {
        1
    } else if s.contains(n) {
        n * product_upto(s, (n - 1) as nat)
    } else {
        product_upto(s, (n - 1) as nat)
    }
}

/// Number of members of `s` among `1..=n`.
pub open spec fn count_upto(s: Set<nat>, n: nat) -> nat
    decreases n,
{
    if n == 0 {
        0
    } else if s.contains(n) {
        count_upto(s, (n - 1) as nat) + 1
    } else {
        count_upto(s, (n - 1) as nat)
    }
}

/// The non-zero residues modulo `p`.
pub open spec fn units(p: nat) -> Set<nat> {
    Set::new(|k: nat| 0 < k < p)
}

/// The residue that multiplies `w` to `c` modulo `p`.
pub open spec fn partner(c: nat, w: nat, p: nat) -> nat {
    mul_mod(c, inverse_value(w, p), p)
}

/// `w` is a non-zero residue whose partner is another member of `s`.
pub open spec fn pair_at(s: Set<nat>, c: nat, p: nat, w: nat) -> bool {
    0 < w < p && s.contains(partner(c, w, p)) && partner(c, w, p) != w
}

/// `s` falls into pairs of two different residues with product `c`.
pub open spec fn paired(s: Set<nat>, c: nat, p: nat) -> bool {
    forall|w: nat| s.contains(w) ==> #[trigger] pair_at(s, c, p, w)
}

proof fn lemma_agree(s: Set<nat>, t: Set<nat>, n: nat)
    requires
        forall|k: nat| 1 <= k <= n ==> s.contains(k) == t.contains(k),
    ensures
        product_upto(s, n) == product_upto(t, n),
        count_upto(s, n) == count_upto(t, n),
    decreases n,
{
    if n > 0 {
        lemma_agree(s, t, (n - 1) as nat);
    }
}

proof fn lemma_remove(s: Set<nat>, x: nat, n: nat)
    requires
        s.contains(x),
        1 <= x <= n,
    ensures
        product_upto(s, n) == x * product_upto(s.remove(x), n),
        count_upto(s, n) == count_upto(s.remove(x), n) + 1,
    decreases n,
{
    let t = s.remove(x);
    let m = (n - 1) as nat;
    if n == x {
        lemma_agree(s, t, m);
    } else {
        lemma_remove(s, x, m);
        if s.contains(n) {
            let q = product_upto(t, m);
            assert(n * (x * q) == x * (n * q)) by (nonlinear_arith);
        }
    }
}

proof fn lemma_member(s: Set<nat>, n: nat) -> (k: nat)
    requires
        count_upto(s, n) > 0,
    ensures
        1 <= k <= n,
        s.contains(k),
    decreases n,
{
    if s.contains(n) {
        n
    } else {
        lemma_member(s, (n - 1) as nat)
    }
}

proof fn lemma_empty_product(s: Set<nat>, n: nat)
    requires
        count_upto(s, n) == 0,
    ensures
        product_upto(s, n) == 1,
    decreases n,
{
    if n > 0 {
        lemma_empty_product(s, (n - 1) as nat);
    }
}

proof fn lemma_units_count(p: nat, n: nat)
    requires
        n < p,
    ensures
        count_upto(units(p), n) == n,
    decreases n,
{
    if n > 0 {
        lemma_units_count(p, (n - 1) as nat);
    }
}

/// A non-zero factor cancels modulo a prime.
pub proof fn lemma_cancel(x: nat, u: nat, v: nat, p: nat)
    requires
        is_prime(p),
        0 < x < p,
        u < p,
        v < p,
        mul_mod(u, x, p) == mul_mod(v, x, p),
    ensures
        u == v,
{
    lemma_prime_coprime(x, p);
    lemma_inverse_value(x, p);
    lemma_div_undoes(u, x, inverse_value(x, p), p);
    lemma_div_undoes(v, x, inverse_value(x, p), p);
}

proof fn lemma_partner(c: nat, w: nat, p: nat)
    requires
        is_prime(p),
        0 < w < p,
        0 < c < p,
    ensures
        0 < partner(c, w, p) < p,
        mul_mod(partner(c, w, p), w, p) == c,
{
    lemma_prime_coprime(w, p);
    lemma_inverse_value(w, p);
    let wi = inverse_value(w, p);
    let z = partner(c, w, p);
    let pi = p as int;
    lemma_mod_bound((c * wi) as int, pi);
    lemma_mul_mod_noop_left((c * wi) as int, w as int, pi);
    assert((c * wi) * w == c * (w * wi)) by (nonlinear_arith);
    lemma_mul_mod_noop_right(c as int, (w * wi) as int, pi);
    assert(c * 1 == c);
    lemma_small_mod(c, p);
    assert(mul_mod(z, w, p) == c);
    if z == 0 {
        assert(0 * w == 0);
        lemma_small_mod(0, p);
    }
}

/// The members of a set that falls into pairs with product `c` multiply
/// to a power of `c`: one factor `c` for each pair.
proof fn lemma_paired_product(s: Set<nat>, c: nat, p: nat)
    requires
        is_prime(p),
        0 < c < p,
        paired(s, c, p),
    ensures
        count_upto(s, (p - 1) as nat) % 2 == 0,
        (product_upto(s, (p - 1) as nat) as int) % (p as int) == pow(
            c as int,
            count_upto(s, (p - 1) as nat) / 2,
        ) % (p as int),
    decreases count_upto(s, (p - 1) as nat),
{
    let n = (p - 1) as nat;
    let pi = p as int;
    let ci = c as int;
    if count_upto(s, n) == 0 {
        lemma_empty_product(s, n);
        lemma_pow0(ci);
    } else {
        let y = lemma_member(s, n);
        assert(pair_at(s, c, p, y));
        let z = partner(c, y, p);
        lemma_partner(c, y, p);
        let s1 = s.remove(y);
        let s2 = s1.remove(z);
        lemma_remove(s, y, n);
        lemma_remove(s1, z, n);
        assert forall|w: nat| s2.contains(w) implies #[trigger] pair_at(s2, c, p, w) by {
            assert(pair_at(s, c, p, w));
            let u = partner(c, w, p);
            lemma_partner(c, w, p);
            if u == y {
                assert(w * y == y * w) by (nonlinear_arith);
                lemma_cancel(y, w, z, p);
            }
            if u == z {
                assert(w * z == z * w) by (nonlinear_arith);
                assert(y * z == z * y) by (nonlinear_arith);
                lemma_cancel(z, w, y, p);
            }
        }
        lemma_paired_product(s2, c, p);
        let q2 = product_upto(s2, n) as int;
        let k2 = count_upto(s2, n) / 2;
        assert(count_upto(s, n) == count_upto(s2, n) + 2);
        assert(count_upto(s, n) / 2 == k2 + 1);
        assert(product_upto(s, n) == y * (z * product_upto(s2, n)));
        assert(y * (z * q2) == (z * y) * q2) by (nonlinear_arith);
        lemma_mul_mod_noop((z * y) as int, q2, pi);
        lemma_mul_mod_noop_right(ci, pow(ci, k2), pi);
        lemma_pow_adds(ci, 1, k2);
        lemma_pow1(ci);
        assert(pow(ci, k2 + 1) == ci * pow(ci, k2));
        assert(((z * y) as int) % pi == ci);
        assert((product_upto(s, n) as int) % pi == (ci * (q2 % pi)) % pi);
    }
}

proof fn lemma_minus_one_square(p: nat)
    requires
        2 <= p,
    ensures
        mul_mod((p - 1) as nat, (p - 1) as nat, p) == 1,
{
    assert((p - 1) * (p - 1) == (p - 2) * p + 1) by (nonlinear_arith)
        requires
            2 <= p,
    ;
    lemma_fundamental_div_mod_converse(((p - 1) * (p - 1)) as int, p as int, p - 2, 1);
}

/// Modulo a prime only one and minus one square to one.
pub proof fn lemma_square_one(w: nat, p: nat)
    requires
        is_prime(p),
        0 < w < p,
        mul_mod(w, w, p) == 1,
    ensures
        w == 1 || w == p - 1,
{
    if w != 1 {
        let x = (w - 1) as nat;
        let v = (w + 1) % p;
        let pi = p as int;
        lemma_mul_mod_noop_left((w + 1) as int, x as int, pi);
        assert((w + 1) * x == w * w - 1) by (nonlinear_arith)
            requires
                x == w - 1,
        ;
        lemma_fundamental_div_mod((w * w) as int, pi);
        let k = ((w * w) as int) / pi;
        assert(w * w - 1 == pi * k);
        assert(pi * k == k * pi) by (nonlinear_arith);
        lemma_mod_multiples_basic(k, pi);
        assert(mul_mod(v, x, p) == 0);
        assert(0 * x == 0);
        lemma_small_mod(0, p);
        lemma_mod_bound((w + 1) as int, pi);
        lemma_cancel(x, v, 0, p);
        if w + 1 < p {
            lemma_small_mod(w + 1, p);
        }
    }
}

/// Wilson's theorem: the non-zero residues modulo an odd prime multiply
/// to minus one.
pub proof fn lemma_wilson(p: nat)
    requires
        is_prime(p),
        3 <= p,
    ensures
        (product_upto(units(p), (p - 1) as nat) as int) % (p as int) == p - 1,
{
    let n = (p - 1) as nat;
    let pi = p as int;
    let full = units(p);
    let most = full.remove(1);
    let mid = most.remove(n);
    assert forall|w: nat| mid.contains(w) implies #[trigger] pair_at(mid, 1, p, w) by {
        let u = partner(1, w, p);
        lemma_partner(1, w, p);
        if u == w {
            lemma_square_one(w, p);
        }
        if u == 1 {
            assert(1 * w == w);
            lemma_small_mod(w, p);
        }
        if u == n {
            lemma_minus_one_square(p);
            assert(w * n == n * w) by (nonlinear_arith);
            lemma_cancel(n, w, n, p);
        }
    }
    lemma_paired_product(mid, 1, p);
    lemma1_pow(count_upto(mid, n) / 2);
    lemma_remove(full, 1, n);
    lemma_remove(most, n, n);
    let q = product_upto(mid, n) as int;
    assert(product_upto(full, n) == 1 * (n * product_upto(mid, n)));
    lemma_mul_mod_noop_right(n as int, q, pi);
    lemma_small_mod(1, p);
    lemma_small_mod(n, p);
    assert(n * 1 == n);
    assert(q % pi == 1);
    assert((n * q) % pi == ((n * 1) as int) % pi);
}

/// The half-order power of a residue without a square root, modulo an odd
/// prime, is minus one.
pub proof fn lemma_non_residue_power(a: nat, p: nat)
    requires
        is_prime(p),
        3 <= p,
        0 < a < p,
        !has_root(a, p),
    ensures
        pow_mod(a, ((p - 1) / 2) as nat, p) == p - 1,
{
    let n = (p - 1) as nat;
    let full = units(p);
    assert forall|w: nat| full.contains(w) implies #[trigger] pair_at(full, a, p, w) by {
        let u = partner(a, w, p);
        lemma_partner(a, w, p);
        if u == w {
            assert(mul_mod(w, w, p) == a);
        }
    }
    lemma_paired_product(full, a, p);
    lemma_units_count(p, n);
    lemma_wilson(p);
    lemma_mod_bound(pow(a as int, n / 2), p as int);
}

/// Modulo a prime, two non-zero residues with the same square are equal
/// or opposite.
pub proof fn lemma_same_square(w: nat, x: nat, p: nat)
    requires
        is_prime(p),
        0 < w < p,
        0 < x < p,
        mul_mod(w, w, p) == mul_mod(x, x, p),
    ensures
        w == x || w + x == p,
{
    if w != x {
        let pi = p as int;
        let d: nat = if w > x {
            (w - x) as nat
        } else {
            (x - w) as nat
        };
        let v = (w + x) % p;
        let diff: int = if w > x {
            w * w - x * x
        } else {
            x * x - w * w
        };
        lemma_mul_mod_noop_left((w + x) as int, d as int, pi);
        assert((w + x) * d == diff) by (nonlinear_arith)
            requires
                d == if w > x {
                    w - x
                } else {
                    x - w
                },
                diff == if w > x {
                    w * w - x * x
                } else {
                    x * x - w * w
                },
        ;
        lemma_sub_mod_noop((w * w) as int, (x * x) as int, pi);
        lemma_sub_mod_noop((x * x) as int, (w * w) as int, pi);
        lemma_small_mod(0, p);
        assert(diff % pi == 0);
        assert(mul_mod(v, d, p) == 0);
        assert(0 * d == 0);
        lemma_mod_bound((w + x) as int, pi);
        lemma_cancel(d, v, 0, p);
        if w + x < p {
            lemma_small_mod(w + x, p);
        } else if w + x > p {
            lemma_fundamental_div_mod_converse((w + x) as int, pi, 1, w + x - p);
        }
    }
}

/// The half-order power of a non-zero square, modulo an odd prime, is
/// one.
pub proof fn lemma_residue_power(a: nat, x: nat, p: nat)
    requires
        is_prime(p),
        3 <= p,
        0 < a < p,
        x < p,
        mul_mod(x, x, p) == a,
    ensures
        pow_mod(a, ((p - 1) / 2) as nat, p) == 1,
{
    let n = (p - 1) as nat;
    let pi = p as int;
    let ai = a as int;
    if x == 0 {
        assert(0 * 0 == 0);
        lemma_small_mod(0, p);
    }
    let y = (p - x) as nat;
    assert(p % 2 != 0);
    assert(y != x);
    // The opposite residue has the same square.
    assert(y * y == p * (p - 2 * x) + x * x) by (nonlinear_arith)
        requires
            y == p - x,
    ;
    lemma_mod_multiples_vanish(p - 2 * x, (x * x) as int, pi);
    assert(mul_mod(y, y, p) == a);
    let full = units(p);
    let most = full.remove(x);
    let rest = most.remove(y);
    assert forall|w: nat| rest.contains(w) implies #[trigger] pair_at(rest, a, p, w) by {
        let u = partner(a, w, p);
        lemma_partner(a, w, p);
        if u == w {
            lemma_same_square(w, x, p);
        }
        if u == x {
            assert(w * x == x * w) by (nonlinear_arith);
            lemma_cancel(x, w, x, p);
        }
        if u == y {
            assert(w * y == y * w) by (nonlinear_arith);
            lemma_cancel(y, w, y, p);
        }
    }
    lemma_paired_product(rest, a, p);
    lemma_units_count(p, n);
    lemma_remove(full, x, n);
    lemma_remove(most, y, n);
    lemma_wilson(p);
    let k = count_upto(rest, n) / 2;
    let h = (n / 2) as nat;
    assert(h == k + 1);
    let q = product_upto(rest, n) as int;
    let big = pow(ai, k);
    let e = pow(ai, h);
    lemma_pow_adds(ai, 1, k);
    lemma_pow1(ai);
    assert(e == ai * big);
    // The two roots multiply to minus the square.
    lemma_fundamental_div_mod((x * x) as int, pi);
    let c = ((x * x) as int) / pi;
    assert(x * y == pi * (x - c - 1) + (p - a)) by (nonlinear_arith)
        requires
            y == p - x,
            x * x == pi * c + a,
            pi == p,
    ;
    lemma_fundamental_div_mod_converse((x * y) as int, pi, x - c - 1, p - a);
    assert(product_upto(full, n) == x * (y * product_upto(rest, n)));
    assert(x * (y * q) == (x * y) * q) by (nonlinear_arith);
    lemma_mul_mod_noop((x * y) as int, q, pi);
    lemma_mul_mod_noop_right(p - a, big, pi);
    assert(((p - a) * big) % pi == p - 1);
    assert((p - a) * big == pi * big - e) by (nonlinear_arith)
        requires
            e == ai * big,
            pi == p,
            ai == a,
    ;
    lemma_fundamental_div_mod(pi * big - e, pi);
    let m = (pi * big - e) / pi;
    assert(e == pi * (big - m - 1) + 1) by (nonlinear_arith)
        requires
            pi * big - e == pi * m + (p - 1),
            pi == p,
    ;
    lemma_fundamental_div_mod_converse(e, pi, big - m - 1, 1);
}

/// Modulo a prime, a non-zero residue has a square root exactly when its
/// half-order power is one.
pub proof fn lemma_root_iff_unit_power(a: nat, p: nat)
    requires
        is_prime(p),
        0 < a < p,
    ensures
        has_root(a, p) <==> pow_mod(a, ((p - 1) / 2) as nat, p) == 1,
{
    if pow_mod(a, ((p - 1) / 2) as nat, p) == 1 {
        lemma_euler_criterion(a, p);
    }
    if has_root(a, p) {
        if p == 2 {
            lemma_pow0(a as int);
            lemma_small_mod(1, 2);
        } else {
            let x = choose|x: nat| x < p && #[trigger] mul_mod(x, x, p) == a;
            lemma_residue_power(a, x, p);
        }
    }
}

/// Euler's criterion: modulo a prime, a non-zero residue whose half-order
/// power is one has a square root.
pub proof fn lemma_euler_criterion(a: nat, p: nat)
    requires
        is_prime(p),
        0 < a < p,
        pow_mod(a, ((p - 1) / 2) as nat, p) == 1,
    ensures
        has_root(a, p),
{
    if p == 2 {
        assert(1 * 1 == 1);
        lemma_small_mod(1, 2);
        assert(mul_mod(1, 1, 2) == a);
    } else if !has_root(a, p) {
        lemma_non_residue_power(a, p);
    }
}

} // verus!
