//! Greatest common divisor, used to reduce an axis direction to its shortest
//! integer representative.

use vstd::prelude::*;

verus! {

/// Euclid's greatest common divisor.
pub open spec fn gcd(a: nat, b: nat) -> nat
    decreases b,
{
    if b == 0 {
        a
    } else {
        gcd(b, a % b)
    }
}

/// The gcd of two numbers that are not both zero is positive.
pub proof fn lemma_gcd_pos(a: nat, b: nat)
    requires
        a > 0 || b > 0,
    ensures
        gcd(a, b) > 0,
    decreases b,
{
    if b != 0 {
        lemma_gcd_pos(b, a % b);
    }
}

/// `x` is an integer multiple of `d`.
pub open spec fn divides(d: int, x: int) -> bool {
    exists|k: int| x == #[trigger] (d * k)
}

/// The gcd divides both of its arguments.
pub proof fn lemma_gcd_divides(a: nat, b: nat)
    ensures
        divides(gcd(a, b) as int, a as int),
        divides(gcd(a, b) as int, b as int),
    decreases b,
{
    let g = gcd(a, b) as int;
    if b == 0 {
        assert(a as int == g * 1);
        assert(b as int == g * 0);
    } else {
        lemma_gcd_divides(b, a % b);
        let k1 = choose|k: int| b as int == #[trigger] (g * k);
        let k2 = choose|k: int| (a % b) as int == #[trigger] (g * k);
        let q = a as int / b as int;
        vstd::arithmetic::div_mod::lemma_fundamental_div_mod(a as int, b as int);
        assert(a as int == b as int * q + (a % b) as int);
        assert(b as int * q == g * (k1 * q)) by (nonlinear_arith)
            requires
                b as int == g * k1;
        assert(g * (k1 * q) + g * k2 == g * (k1 * q + k2)) by (nonlinear_arith);
        assert(a as int == g * (k1 * q + k2));
    }
}

/// Any common divisor of two numbers divides their gcd.
pub proof fn lemma_common_divisor_divides_gcd(a: nat, b: nat, d: int)
    requires
        divides(d, a as int),
        divides(d, b as int),
    ensures
        divides(d, gcd(a, b) as int),
    decreases b,
{
    if b != 0 {
        let ka = choose|k: int| a as int == #[trigger] (d * k);
        let kb = choose|k: int| b as int == #[trigger] (d * k);
        let q = a as int / b as int;
        vstd::arithmetic::div_mod::lemma_fundamental_div_mod(a as int, b as int);
        assert((a % b) as int == a as int - b as int * q);
        assert(a as int - b as int * q == d * (ka - kb * q)) by (nonlinear_arith)
            requires
                a as int == d * ka,
                b as int == d * kb;
        assert(divides(d, (a % b) as int));
        lemma_common_divisor_divides_gcd(b, a % b, d);
    }
}

/// Dividing two numbers, not both zero, by their gcd leaves quotients whose
/// own gcd is one.
pub proof fn lemma_quotients_coprime(a: nat, b: nat)
    requires
        a > 0 || b > 0,
    ensures
        gcd(a / gcd(a, b), b / gcd(a, b)) == 1,
{
    let g = gcd(a, b);
    lemma_gcd_pos(a, b);
    lemma_gcd_divides(a, b);
    let ka = choose|k: int| a as int == #[trigger] (g as int * k);
    let kb = choose|k: int| b as int == #[trigger] (g as int * k);
    assert(ka >= 0 && kb >= 0) by (nonlinear_arith)
        requires
            g as int > 0,
            a as int >= 0,
            b as int >= 0,
            a as int == g as int * ka,
            b as int == g as int * kb;
    vstd::arithmetic::div_mod::lemma_div_multiples_vanish(ka, g as int);
    vstd::arithmetic::div_mod::lemma_div_multiples_vanish(kb, g as int);
    let qa = a / g;
    let qb = b / g;
    assert(qa as int == ka && qb as int == kb);
    let h = gcd(qa, qb);
    assert(qa > 0 || qb > 0) by (nonlinear_arith)
        requires
            a > 0 || b > 0,
            g as int > 0,
            a as int == g as int * (qa as int),
            b as int == g as int * (qb as int);
    lemma_gcd_pos(qa, qb);
    lemma_gcd_divides(qa, qb);
    let ma = choose|k: int| qa as int == #[trigger] (h as int * k);
    let mb = choose|k: int| qb as int == #[trigger] (h as int * k);
    assert(a as int == (g as int * h as int) * ma) by (nonlinear_arith)
        requires
            a as int == g as int * (qa as int),
            qa as int == h as int * ma;
    assert(b as int == (g as int * h as int) * mb) by (nonlinear_arith)
        requires
            b as int == g as int * (qb as int),
            qb as int == h as int * mb;
    assert(divides(g as int * h as int, a as int));
    assert(divides(g as int * h as int, b as int));
    lemma_common_divisor_divides_gcd(a, b, g as int * h as int);
    let m = choose|k: int| g as int == #[trigger] ((g as int * h as int) * k);
    assert(h == 1) by (nonlinear_arith)
        requires
            g as int == (g as int * h as int) * m,
            g as int > 0,
            h as int >= 1;
}

/// The gcd does not depend on the order of its arguments.
pub proof fn lemma_gcd_comm(a: nat, b: nat)
    ensures
        gcd(a, b) == gcd(b, a),
{
    if a == 0 && b == 0 {
    } else {
        lemma_gcd_pos(a, b);
        lemma_gcd_pos(b, a);
        lemma_gcd_divides(a, b);
        lemma_gcd_divides(b, a);
        lemma_common_divisor_divides_gcd(b, a, gcd(a, b) as int);
        lemma_common_divisor_divides_gcd(a, b, gcd(b, a) as int);
        let k = choose|k: int| gcd(b, a) as int == #[trigger] (gcd(a, b) as int * k);
        let m = choose|k: int| gcd(a, b) as int == #[trigger] (gcd(b, a) as int * k);
        assert(gcd(a, b) == gcd(b, a)) by (nonlinear_arith)
            requires
                gcd(a, b) as int > 0,
                gcd(b, a) as int > 0,
                gcd(b, a) as int == gcd(a, b) as int * k,
                gcd(a, b) as int == gcd(b, a) as int * m;
    }
}

/// Scaling both operands of a remainder by a positive factor scales the
/// remainder by the same factor.
pub proof fn lemma_mod_scaling(k: nat, a: nat, b: nat)
    requires
        k > 0,
        b > 0,
    ensures
        (k * a) % (k * b) == k * (a % b),
{
    let q = a as int / b as int;
    let r = a as int % b as int;
    vstd::arithmetic::div_mod::lemma_fundamental_div_mod(a as int, b as int);
    assert(k as int * a as int == q * (k as int * b as int) + k as int * r) by (nonlinear_arith)
        requires
            a as int == b as int * q + r;
    assert(0 <= k as int * r < k as int * b as int) by (nonlinear_arith)
        requires
            k as int > 0,
            0 <= r < b as int;
    vstd::arithmetic::div_mod::lemma_fundamental_div_mod_converse(
        k as int * a as int,
        k as int * b as int,
        q,
        k as int * r,
    );
}

/// A positive common factor moves out of the gcd.
pub proof fn lemma_gcd_scaling(k: nat, a: nat, b: nat)
    requires
        k > 0,
    ensures
        gcd(k * a, k * b) == k * gcd(a, b),
    decreases b,
{
    if b == 0 {
    } else {
        assert(k * b > 0) by (nonlinear_arith)
            requires
                k > 0,
                b > 0;
        lemma_mod_scaling(k, a, b);
        lemma_gcd_scaling(k, b, a % b);
    }
}

/// Euclid's lemma: a number that divides a product and is coprime to one
/// factor divides the other factor.
pub proof fn lemma_coprime_divides_factor(a: nat, b: nat, c: nat)
    requires
        gcd(a, b) == 1,
        divides(a as int, (b * c) as int),
    ensures
        divides(a as int, c as int),
{
    if c == 0 {
        assert(c as int == a as int * 0);
    } else {
        lemma_gcd_scaling(c, a, b);
        assert(gcd(c * a, c * b) == c * gcd(a, b));
        assert(c * gcd(a, b) == c) by (nonlinear_arith)
            requires
                gcd(a, b) == 1;
        assert((c * a) as int == a as int * c as int) by (nonlinear_arith);
        assert(divides(a as int, (c * a) as int));
        assert((c * b) as int == (b * c) as int) by (nonlinear_arith);
        lemma_common_divisor_divides_gcd(c * a, c * b, a as int);
    }
}

/// Two positive numbers that divide each other are equal.
pub proof fn lemma_divides_antisymmetric(a: int, b: int)
    requires
        a > 0,
        b > 0,
        divides(a, b),
        divides(b, a),
    ensures
        a == b,
{
    let k = choose|k: int| b == #[trigger] (a * k);
    let m = choose|k: int| a == #[trigger] (b * k);
    assert(a == b) by (nonlinear_arith)
        requires
            a > 0,
            b > 0,
            b == a * k,
            a == b * m;
}

/// Computes the greatest common divisor of two machine integers.
pub fn gcd_u64(a: u64, b: u64) -> (r: u64)
    ensures
        r == gcd(a as nat, b as nat),
    decreases b,
{
    if b == 0 {
        a
    } else {
        gcd_u64(b, a % b)
    }
}

} // verus!
