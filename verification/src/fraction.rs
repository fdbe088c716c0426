//! Numbers of tokens: fractions, with nothing lost to rounding.
//!
//! Every rate adds its own share of a token per nanosecond, so the shares of different rates have
//! different denominators. A fraction keeps the least common one. It grows only while rates with
//! new intervals come in, and a bucket that is full again starts over with a whole number.

use vstd::prelude::*;

use crate::natural::Natural;

verus! {

/// A ratio of two numbers.
pub open spec fn ratio(parts: nat, unit: nat) -> real {
    parts as real / unit as real
}

proof fn lemma_product(a: nat, b: nat)
    ensures
        (a * b) as real == a as real * b as real,
{
    assert((a * b) as real == a as real * b as real) by (nonlinear_arith);
}

/// Adding over a common denominator, which is `unit / g` times `by` and `by / g` times `unit`.
proof fn lemma_sum(parts: nat, unit: nat, n: nat, by: nat, g: nat, k: nat, q: nat)
    requires
        g > 0,
        k > 0,
        unit > 0,
        by == k * g,
        unit == q * g,
    ensures
        unit * k > 0,
        ratio(parts * k + n * q, unit * k) == ratio(parts, unit) + ratio(n, by),
{
    lemma_product(parts, k);
    lemma_product(n, q);
    lemma_product(unit, k);
    lemma_product(k, g);
    lemma_product(q, g);
    let (p, u, m, d) = (parts as real, unit as real, n as real, by as real);
    let (h, l, r) = (g as real, k as real, q as real);
    assert((p * l + m * r) / (u * l) == p / u + m / d) by (nonlinear_arith)
        requires
            u > 0 as real,
            l > 0 as real,
            h > 0 as real,
            d == l * h,
            u == r * h,
    ;
    assert(unit * k > 0) by (nonlinear_arith)
        requires
            unit > 0,
            k > 0,
    ;
}

/// A ratio is below a whole number exactly if its parts are below that many units.
proof fn lemma_below(parts: nat, unit: nat, n: nat)
    requires
        unit > 0,
    ensures
        (ratio(parts, unit) < n as real) == (parts < unit * n),
{
    lemma_product(unit, n);
    let (p, u, m) = (parts as real, unit as real, n as real);
    assert((p / u < m) == (p < u * m)) by (nonlinear_arith)
        requires
            u > 0 as real,
    ;
}

proof fn lemma_less_one(parts: nat, unit: nat)
    requires
        unit > 0,
        unit <= parts,
    ensures
        ratio((parts - unit) as nat, unit) == ratio(parts, unit) - 1 as real,
{
    let (p, u) = (parts as real, unit as real);
    assert((p - u) / u == p / u - 1 as real) by (nonlinear_arith)
        requires
            u > 0 as real,
    ;
}

/// A common divisor of two numbers.
pub open spec fn divides_both(g: nat, a: nat, b: nat) -> bool {
    g > 0 && a % g == 0 && b % g == 0
}

/// The common divisors of two numbers are those of the second and of the remainder by it.
proof fn lemma_step(g: nat, a: nat, b: nat)
    requires
        b > 0,
    ensures
        divides_both(g, b, a % b) == divides_both(g, a, b),
{
    if g > 0 && b % g == 0 {
        let (x, y, d) = (a as int, b as int, g as int);
        let (q, m) = (x / y, y / d);
        vstd::arithmetic::div_mod::lemma_fundamental_div_mod(x, y);
        vstd::arithmetic::div_mod::lemma_fundamental_div_mod(y, d);
        assert(x == d * (m * q) + x % y) by (nonlinear_arith)
            requires
                x == y * q + x % y,
                y == d * m,
        ;
        vstd::arithmetic::div_mod::lemma_mod_multiples_vanish(m * q, x % y, d);
    }
}

/// The greatest common divisor of two numbers, by Euclid's algorithm.
fn common_divisor(a: u64, b: u64) -> (g: u64)
    requires
        b > 0,
    ensures
        divides_both(g as nat, a as nat, b as nat),
        forall|other: nat| #[trigger] divides_both(other, a as nat, b as nat) ==> other <= g,
{
    let mut x = a;
    let mut y = b;
    while x % y != 0
        invariant
            y > 0,
            forall|g: nat| #[trigger]
                divides_both(g, a as nat, b as nat) == divides_both(g, x as nat, y as nat),
        decreases y,
    {
        let rest: u64 = x % y;
        proof {
            assert forall|g: nat| #[trigger]
                divides_both(g, a as nat, b as nat) == divides_both(g, y as nat, rest as nat) by {
                lemma_step(g, x as nat, y as nat);
            }
        }
        x = y;
        y = rest;
    }
    proof {
        vstd::arithmetic::div_mod::lemma_mod_self_0(y as int);
        assert(divides_both(y as nat, x as nat, y as nat));
        assert(divides_both(y as nat, a as nat, b as nat));
        assert forall|other: nat| #[trigger] divides_both(other, a as nat, b as nat) implies other
            <= y by {
            if other > y {
                vstd::arithmetic::div_mod::lemma_small_mod(y as nat, other);
            }
        }
    }
    y
}

/// A fraction that is not negative.
#[derive(Debug)]
pub struct Fraction {
    parts: Natural,
    /// How many parts make one.
    unit: Natural,
}

impl View for Fraction {
    type V = real;

    closed spec fn view(&self) -> real {
        ratio(self.parts@, self.unit@)
    }
}

impl Fraction {
    #[verifier::type_invariant]
    spec fn inv(self) -> bool {
        self.unit@ > 0
    }

    /// A whole number.
    pub fn whole(n: u32) -> (f: Fraction)
        ensures
            f@ == n as real,
    {
        proof {
            let x = n as real;
            assert(x / 1 as real == x) by (nonlinear_arith);
        }
        Fraction { parts: Natural::from_u32(n), unit: Natural::from_u32(1) }
    }

    pub fn copy(&self) -> (f: Fraction)
        ensures
            f@ == self@,
    {
        proof {
            use_type_invariant(self);
        }
        Fraction { parts: self.parts.copy(), unit: self.unit.copy() }
    }

    /// Whether the fraction is below a whole number.
    pub fn below(&self, n: u32) -> (r: bool)
        ensures
            r == (self@ < n as real),
    {
        proof {
            use_type_invariant(self);
            lemma_below(self.parts@, self.unit@, n as nat);
        }
        self.parts.less(&self.unit.times(n as u64))
    }

    /// The fraction with some shares added, each a product over a denominator.
    pub fn plus(&self, a: u64, b: u32, by: u64) -> (f: Fraction)
        requires
            by > 0,
        ensures
            f@ == self@ + ratio(a as nat * b as nat, by as nat),
    {
        proof {
            use_type_invariant(self);
        }
        let (whole, rest) = self.unit.divided(by);
        let g = common_divisor(rest, by);
        let k: u64 = by / g;
        let (q, left) = self.unit.divided(g);
        proof {
            let (u, d, h) = (self.unit@ as int, by as int, g as int);
            vstd::arithmetic::div_mod::lemma_fundamental_div_mod_converse(
                u,
                d,
                whole@ as int,
                rest as int,
            );
            lemma_step(h as nat, u as nat, d as nat);
            vstd::arithmetic::div_mod::lemma_fundamental_div_mod_converse(
                u,
                h,
                q@ as int,
                left as int,
            );
            vstd::arithmetic::div_mod::lemma_fundamental_div_mod(d, h);
            assert(h * (d / h) == (d / h) * h) by (nonlinear_arith);
            assert(d / h > 0) by (nonlinear_arith)
                requires
                    h * (d / h) == d,
                    d > 0,
                    h > 0,
            ;
            assert(q@ * a * b == (a as nat * b as nat) * q@) by (nonlinear_arith);
            lemma_sum(
                self.parts@,
                self.unit@,
                a as nat * b as nat,
                by as nat,
                g as nat,
                k as nat,
                q@,
            );
        }
        let added = q.times(a).times(b as u64);
        let parts = self.parts.times(k).plus(&added);
        Fraction { parts, unit: self.unit.times(k) }
    }

    /// The fraction less one.
    pub fn minus_one(&self) -> (f: Fraction)
        requires
            self@ >= 1 as real,
        ensures
            f@ == self@ - 1 as real,
    {
        proof {
            use_type_invariant(self);
            lemma_below(self.parts@, self.unit@, 1);
            lemma_less_one(self.parts@, self.unit@);
        }
        Fraction { parts: self.parts.minus(&self.unit), unit: self.unit.copy() }
    }
}

} // verus!
