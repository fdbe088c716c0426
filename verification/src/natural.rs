//! Natural numbers of any size, as far as exact fractions need them.

use vstd::prelude::*;

verus! {

/// The base that numbers are written in: a digit has 32 bits.
pub const BASE: u64 = 0x1_0000_0000;

/// A power of the base.
pub open spec fn power(n: nat) -> nat
    decreases n,
{
    if n == 0 {
        1
    } else {
        power((n - 1) as nat) * BASE as nat
    }
}

/// A digit of a number, which has only zeros in front.
pub open spec fn digit(digits: Seq<u32>, i: int) -> nat {
    if 0 <= i < digits.len() {
        digits[i] as nat
    } else {
        0
    }
}

/// What the lowest `n` digits of a number stand for.
pub open spec fn low(digits: Seq<u32>, n: nat) -> nat
    decreases n,
{
    if n == 0 {
        0
    } else {
        low(digits, (n - 1) as nat) + digit(digits, n - 1) * power((n - 1) as nat)
    }
}

/// What the digits from `i` on stand for, with the one at `i` as the lowest.
pub open spec fn high(digits: Seq<u32>, i: nat) -> nat
    decreases digits.len() - i,
{
    if i >= digits.len() {
        0
    } else {
        digits[i as int] as nat + BASE as nat * high(digits, i + 1)
    }
}

/// What the digits stand for, the lowest first.
pub open spec fn value(digits: Seq<u32>) -> nat {
    low(digits, digits.len())
}

proof fn lemma_power(n: nat)
    ensures
        power(n) > 0,
    decreases n,
{
    if n > 0 {
        lemma_power((n - 1) as nat);
        let p = power((n - 1) as nat) as int;
        assert(p * BASE > 0) by (nonlinear_arith)
            requires
                p > 0,
        ;
    }
}

/// The lowest digits alone decide what they stand for.
proof fn lemma_low_same(a: Seq<u32>, b: Seq<u32>, n: nat)
    requires
        forall|i: int| 0 <= i < n ==> #[trigger] digit(a, i) == digit(b, i),
    ensures
        low(a, n) == low(b, n),
    decreases n,
{
    if n > 0 {
        lemma_low_same(a, b, (n - 1) as nat);
        assert(digit(a, n - 1) == digit(b, n - 1));
    }
}

/// Zeros in front change nothing.
proof fn lemma_low_past(digits: Seq<u32>, n: nat)
    requires
        n >= digits.len(),
    ensures
        low(digits, n) == value(digits),
    decreases n,
{
    if n > digits.len() {
        lemma_low_past(digits, (n - 1) as nat);
        assert(0 * power((n - 1) as nat) == 0) by (nonlinear_arith);
    }
}

/// The lowest digits stand for less than the power of the base behind them.
proof fn lemma_low_bound(digits: Seq<u32>, n: nat)
    ensures
        low(digits, n) < power(n),
    decreases n,
{
    if n > 0 {
        lemma_low_bound(digits, (n - 1) as nat);
        let p = power((n - 1) as nat) as int;
        let d = digit(digits, n - 1) as int;
        assert(d * p <= (BASE - 1) * p) by (nonlinear_arith)
            requires
                0 <= d <= BASE - 1,
                p >= 0,
        ;
        assert((BASE - 1) * p + p == p * BASE) by (nonlinear_arith);
    }
}

/// A number is its lowest digits and the rest behind them.
proof fn lemma_split(digits: Seq<u32>, i: nat)
    requires
        i <= digits.len(),
    ensures
        value(digits) == low(digits, i) + power(i) * high(digits, i),
    decreases digits.len() - i,
{
    let p = power(i) as int;
    if i < digits.len() {
        lemma_split(digits, i + 1);
        let d = digits[i as int] as int;
        let h = high(digits, i + 1) as int;
        assert(d * p + (p * BASE) * h == p * (d + BASE * h)) by (nonlinear_arith);
    } else {
        assert(p * 0 == 0) by (nonlinear_arith);
    }
}

proof fn lemma_push(digits: Seq<u32>, d: u32)
    ensures
        value(digits.push(d)) == value(digits) + d * power(digits.len()),
{
    assert forall|i: int| 0 <= i < digits.len() implies #[trigger] digit(digits, i) == digit(
        digits.push(d),
        i,
    ) by {}
    lemma_low_same(digits, digits.push(d), digits.len());
}

proof fn lemma_high_same(a: Seq<u32>, b: Seq<u32>, i: nat)
    requires
        a.len() == b.len(),
        forall|j: int| i <= j < a.len() ==> a[j] == b[j],
    ensures
        high(a, i) == high(b, i),
    decreases a.len() - i,
{
    if i < a.len() {
        lemma_high_same(a, b, i + 1);
    }
}

/// A natural number, lowest digit first.
#[derive(Debug)]
pub struct Natural {
    digits: Vec<u32>,
}

impl View for Natural {
    type V = nat;

    closed spec fn view(&self) -> nat {
        value(self.digits@)
    }
}

impl Natural {
    pub fn from_u32(n: u32) -> (r: Natural)
        ensures
            r@ == n,
    {
        let mut digits: Vec<u32> = Vec::new();
        digits.push(n);
        proof {
            reveal_with_fuel(low, 2);
            reveal_with_fuel(power, 2);
            let m = n as int;
            assert(m * 1 == m) by (nonlinear_arith);
        }
        Natural { digits }
    }

    pub fn copy(&self) -> (r: Natural)
        ensures
            r@ == self@,
    {
        let mut digits: Vec<u32> = Vec::new();
        let mut i: usize = 0;
        while i < self.digits.len()
            invariant
                i <= self.digits@.len(),
                digits@ =~= self.digits@.take(i as int),
            decreases self.digits@.len() - i,
        {
            digits.push(self.digits[i]);
            i += 1;
        }
        assert(digits@ =~= self.digits@);
        Natural { digits }
    }

    fn digit(&self, i: usize) -> (d: u64)
        ensures
            d == digit(self.digits@, i as int),
            d < BASE,
    {
        if i < self.digits.len() {
            self.digits[i] as u64
        } else {
            0
        }
    }

    /// Drops the zeros in front.
    fn trimmed(mut digits: Vec<u32>) -> (r: Natural)
        ensures
            r@ == value(digits@),
    {
        let ghost given = digits@;
        while digits.len() > 0 && digits[digits.len() - 1] == 0
            invariant
                value(digits@) == value(given),
            decreases digits@.len(),
        {
            let ghost before = digits@;
            let _ = digits.pop();
            proof {
                assert(before =~= digits@.push(0));
                lemma_push(digits@, 0);
                assert(0 * power(digits@.len()) == 0) by (nonlinear_arith);
            }
        }
        Natural { digits }
    }

    /// Whether the number is less than another.
    pub fn less(&self, other: &Natural) -> (r: bool)
        ensures
            r == (self@ < other@),
    {
        let n: usize = if self.digits.len() < other.digits.len() {
            other.digits.len()
        } else {
            self.digits.len()
        };
        let mut i: usize = 0;
        let mut r = false;
        while i < n
            invariant
                i <= n,
                r == (low(self.digits@, i as nat) < low(other.digits@, i as nat)),
            decreases n - i,
        {
            let a = self.digit(i);
            let b = other.digit(i);
            proof {
                lemma_low_bound(self.digits@, i as nat);
                lemma_low_bound(other.digits@, i as nat);
                let p = power(i as nat) as int;
                let (x, y) = (a as int, b as int);
                assert(x < y ==> x * p + p <= y * p) by (nonlinear_arith)
                    requires
                        p > 0,
                ;
                assert(y < x ==> y * p + p <= x * p) by (nonlinear_arith)
                    requires
                        p > 0,
                ;
            }
            if a != b {
                r = a < b;
            }
            i += 1;
        }
        proof {
            lemma_low_past(self.digits@, n as nat);
            lemma_low_past(other.digits@, n as nat);
        }
        r
    }

    /// The sum of two numbers.
    pub fn plus(&self, other: &Natural) -> (r: Natural)
        ensures
            r@ == self@ + other@,
    {
        let n: usize = if self.digits.len() < other.digits.len() {
            other.digits.len()
        } else {
            self.digits.len()
        };
        let mut digits: Vec<u32> = Vec::new();
        let mut carry: u64 = 0;
        let mut i: usize = 0;
        proof {
            assert(0 * power(0) == 0) by (nonlinear_arith);
        }
        while i < n
            invariant
                i <= n,
                digits@.len() == i,
                carry <= 1,
                value(digits@) + carry * power(i as nat) == low(self.digits@, i as nat) + low(
                    other.digits@,
                    i as nat,
                ),
            decreases n - i,
        {
            let a = self.digit(i);
            let b = other.digit(i);
            let sum: u64 = a + b + carry;
            let d: u64 = sum % BASE;
            let next: u64 = sum / BASE;
            proof {
                let p = power(i as nat) as int;
                lemma_push(digits@, d as u32);
                let (x, y, c, e, f) = (a as int, b as int, carry as int, d as int, next as int);
                assert(e * p + f * (p * BASE) == x * p + y * p + c * p) by (nonlinear_arith)
                    requires
                        e + f * BASE == x + y + c,
                ;
            }
            digits.push(d as u32);
            carry = next;
            i += 1;
        }
        proof {
            lemma_low_past(self.digits@, n as nat);
            lemma_low_past(other.digits@, n as nat);
            lemma_push(digits@, carry as u32);
            assert(0 * power(n as nat) == 0) by (nonlinear_arith);
        }
        if carry > 0 {
            digits.push(carry as u32);
        }
        Natural { digits }
    }

    /// The difference of two numbers.
    pub fn minus(&self, other: &Natural) -> (r: Natural)
        requires
            other@ <= self@,
        ensures
            r@ == self@ - other@,
    {
        let n: usize = if self.digits.len() < other.digits.len() {
            other.digits.len()
        } else {
            self.digits.len()
        };
        let mut digits: Vec<u32> = Vec::new();
        let mut borrow: u64 = 0;
        let mut i: usize = 0;
        proof {
            assert(0 * power(0) == 0) by (nonlinear_arith);
        }
        while i < n
            invariant
                i <= n,
                digits@.len() == i,
                borrow <= 1,
                value(digits@) + low(other.digits@, i as nat) == low(self.digits@, i as nat)
                    + borrow * power(i as nat),
            decreases n - i,
        {
            let a = self.digit(i);
            let b = other.digit(i);
            let next: u64 = if a < b + borrow {
                1
            } else {
                0
            };
            let d: u64 = a + next * BASE - b - borrow;
            proof {
                let p = power(i as nat) as int;
                lemma_push(digits@, d as u32);
                let (x, y, c, e, f) = (a as int, b as int, borrow as int, d as int, next as int);
                assert(e * p + y * p + c * p == x * p + f * (p * BASE)) by (nonlinear_arith)
                    requires
                        e == x + f * BASE - y - c,
                ;
            }
            digits.push(d as u32);
            borrow = next;
            i += 1;
        }
        proof {
            lemma_low_past(self.digits@, n as nat);
            lemma_low_past(other.digits@, n as nat);
            lemma_low_bound(digits@, n as nat);
            let (c, p) = (borrow as int, power(n as nat) as int);
            assert(c == 0 || c * p >= p) by (nonlinear_arith)
                requires
                    0 <= c,
                    p >= 0,
            ;
            assert(0 * p == 0) by (nonlinear_arith);
        }
        Natural::trimmed(digits)
    }

    /// The number some times over.
    pub fn times(&self, k: u64) -> (r: Natural)
        ensures
            r@ == self@ * k,
    {
        let mut digits: Vec<u32> = Vec::new();
        let mut carry: u128 = 0;
        let mut i: usize = 0;
        proof {
            assert(0 * power(0) == 0 && 0 * (k as int) == 0) by (nonlinear_arith);
        }
        while i < self.digits.len()
            invariant
                i <= self.digits@.len(),
                digits@.len() == i,
                carry <= k,
                value(digits@) + carry * power(i as nat) == low(self.digits@, i as nat) * k,
            decreases self.digits@.len() - i,
        {
            let a: u128 = self.digits[i] as u128;
            proof {
                let (x, y) = (a as int, k as int);
                assert(0 <= x * y <= (BASE - 1) * y) by (nonlinear_arith)
                    requires
                        0 <= x <= BASE - 1,
                        0 <= y,
                ;
                assert((BASE - 1) * y + y == BASE * y) by (nonlinear_arith);
            }
            let sum: u128 = a * k as u128 + carry;
            let d: u128 = sum % BASE as u128;
            let next: u128 = sum / BASE as u128;
            proof {
                let p = power(i as nat) as int;
                lemma_push(digits@, d as u32);
                let l = low(self.digits@, i as nat) as int;
                let (x, y, c, e, f) = (a as int, k as int, carry as int, d as int, next as int);
                assert(e * p + f * (p * BASE) == x * p * y + c * p) by (nonlinear_arith)
                    requires
                        e + f * BASE == x * y + c,
                ;
                assert((l + x * p) * y == l * y + x * p * y) by (nonlinear_arith);
                assert(f <= y) by (nonlinear_arith)
                    requires
                        f * BASE <= BASE * y,
                ;
            }
            digits.push(d as u32);
            carry = next;
            i += 1;
        }
        let ghost n = i as nat;
        let ghost before = digits@;
        let first: u128 = carry % BASE as u128;
        let second: u128 = carry / BASE as u128;
        digits.push(first as u32);
        digits.push(second as u32);
        proof {
            let p = power(n) as int;
            lemma_push(before, first as u32);
            lemma_push(before.push(first as u32), second as u32);
            let (c, e, f) = (carry as int, first as int, second as int);
            vstd::arithmetic::div_mod::lemma_fundamental_div_mod(c, BASE as int);
            assert(e * p + f * (p * BASE) == c * p) by (nonlinear_arith)
                requires
                    e + f * BASE == c,
            ;
        }
        Natural::trimmed(digits)
    }

    /// How often a number goes into this one, and what is left.
    pub fn divided(&self, by: u64) -> (r: (Natural, u64))
        requires
            by > 0,
        ensures
            self@ == r.0@ * by + r.1,
            r.1 < by,
    {
        let n = self.digits.len();
        let mut quotient: Vec<u32> = Vec::new();
        while quotient.len() < n
            invariant
                quotient@.len() <= n,
            decreases n - quotient@.len(),
        {
            quotient.push(0);
        }
        let mut rest: u128 = 0;
        let mut i: usize = n;
        proof {
            assert(0 * (by as int) == 0) by (nonlinear_arith);
        }
        while i > 0
            invariant
                i <= n,
                n == self.digits@.len(),
                quotient@.len() == n,
                by > 0,
                rest < by,
                high(self.digits@, i as nat) == high(quotient@, i as nat) * by + rest,
            decreases i,
        {
            let ghost before = quotient@;
            i -= 1;
            assert(rest * BASE <= 0xffff_ffff_ffff_ffff * BASE) by (nonlinear_arith)
                requires
                    0 <= rest <= 0xffff_ffff_ffff_ffff,
            ;
            let all: u128 = rest * BASE as u128 + self.digits[i] as u128;
            let d: u128 = all / by as u128;
            let next: u128 = all % by as u128;
            proof {
                let (x, y, q, l, a) = (
                    all as int,
                    by as int,
                    d as int,
                    next as int,
                    self.digits@[i as int] as int,
                );
                let r = rest as int;
                vstd::arithmetic::div_mod::lemma_fundamental_div_mod(x, y);
                assert(y * q == q * y) by (nonlinear_arith);
                assert(q >= BASE ==> q * y >= BASE * y) by (nonlinear_arith)
                    requires
                        y > 0,
                ;
                assert(BASE * y >= r * BASE + BASE) by (nonlinear_arith)
                    requires
                        r + 1 <= y,
                ;
                let h = high(before, (i + 1) as nat) as int;
                assert(a + BASE * (h * y + r) == (q + BASE * h) * y + l) by (nonlinear_arith)
                    requires
                        r * BASE + a == q * y + l,
                ;
            }
            quotient.set(i, d as u32);
            rest = next;
            proof {
                lemma_high_same(before, quotient@, (i + 1) as nat);
            }
        }
        proof {
            lemma_split(self.digits@, 0);
            lemma_split(quotient@, 0);
            let (h, g) = (high(self.digits@, 0) as int, high(quotient@, 0) as int);
            assert(1 * h == h && 1 * g == g) by (nonlinear_arith);
        }
        (Natural::trimmed(quotient), rest as u64)
    }
}

} // verus!
