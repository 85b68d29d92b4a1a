//! Exact rational numbers.
//!
//! A `Number` is the value `numer / denom`, negated when `negative` is set.
//! Every operation keeps the fraction in lowest terms and within 64-bit
//! fields; an operation whose exact result cannot be represented that way
//! reports `None` instead of rounding.
use vstd::arithmetic::div_mod::{lemma_div_multiples_vanish, lemma_fundamental_div_mod};
use vstd::prelude::*;

verus! {

/// One exact rational number.
#[derive(Clone, Copy, Debug, PartialEq, Eq, Structural)]
pub struct Number {
    pub negative: bool,
    pub numer: u64,
    pub denom: u64,
}

impl Number {
    /// Well-formed: a positive denominator, and zero written one way only.
    pub open spec fn wf(self) -> bool {
        self.denom >= 1 && (self.numer == 0 ==> !self.negative && self.denom == 1)
    }

    /// The numerator with its sign.
    pub open spec fn signed_numer(self) -> int {
        if self.negative {
            -(self.numer as int)
        } else {
            self.numer as int
        }
    }

    /// The canonical zero.
    pub open spec fn zero_spec() -> Number {
        Number { negative: false, numer: 0, denom: 1 }
    }

    pub fn zero() -> (r: Number)
        ensures
            r == Number::zero_spec(),
    {
        Number { negative: false, numer: 0, denom: 1 }
    }

    /// The rational with the given whole value.
    pub fn from_integer(n: u64) -> (r: Number)
        ensures
            r.wf(),
            r.signed_numer() == n as int,
            r.denom == 1,
    {
        Number { negative: false, numer: n, denom: 1 }
    }

    /// The rational `numer / denom`, negated when asked, in lowest terms.
    pub fn make(negative: bool, numer: u64, denom: u64) -> (r: Number)
        requires
            denom >= 1,
        ensures
            rat_make(negative, numer as int, denom as int) == Some(r),
            r.wf(),
    {
        let r = normalize(negative, numer as u128, denom as u128);
        proof {
            lemma_rat_make_wf(negative, numer as int, denom as int);
        }
        match r {
            Option::Some(q) => q,
            Option::None => {
                proof {
                    lemma_reduced_le(numer as nat, denom as nat);
                }
                // unreachable: both parts already fit in 64 bits
                Number { negative: false, numer: 0, denom: 1 }
            },
        }
    }

    pub fn is_zero(&self) -> (r: bool)
        ensures
            r == (self.numer == 0),
    {
        self.numer == 0
    }
}

/// `d` divides `n` exactly.
pub open spec fn divides(d: nat, n: nat) -> bool {
    exists|k: nat| n == #[trigger] (d * k)
}

/// The greatest common divisor, by Euclid's rule.
pub open spec fn gcd(a: nat, b: nat) -> nat
    decreases b,
{
    if b == 0 {
        a
    } else {
        gcd(b, a % b)
    }
}

/// The gcd divides both arguments and is positive unless both are zero.
pub proof fn lemma_gcd_divides(a: nat, b: nat)
    ensures
        divides(gcd(a, b), a),
        divides(gcd(a, b), b),
        a > 0 || b > 0 ==> gcd(a, b) >= 1,
    decreases b,
{
    if b == 0 {
        assert(a == a * 1);
        assert(b == a * 0);
    } else {
        lemma_gcd_divides(b, a % b);
        let g = gcd(b, (a % b) as nat);
        let k1 = choose|k: nat| b == #[trigger] (g * k);
        let k2 = choose|k: nat| (a % b) as nat == #[trigger] (g * k);
        lemma_fundamental_div_mod(a as int, b as int);
        let q = a as int / b as int;
        assert(a as int == b * q + (a % b));
        assert(a as int == g * (k1 * q + k2)) by (nonlinear_arith)
            requires
                a as int == b * q + (a % b),
                b == g * k1,
                (a % b) as nat == g * k2,
        ;
        assert(q >= 0) by (nonlinear_arith)
            requires
                a >= 0,
                b > 0,
                q == a as int / b as int,
        ;
        assert(k1 * q + k2 >= 0) by (nonlinear_arith)
            requires
                k1 >= 0,
                q >= 0,
                k2 >= 0,
        ;
        assert(a == g * ((k1 * q + k2) as nat));
        if g == 0 {
            assert(b == 0) by (nonlinear_arith)
                requires
                    b == g * k1,
                    g == 0,
            ;
        }
    }
}

/// Exact division: when `d` divides `n`, the quotient rebuilds `n`.
pub proof fn lemma_div_exact(d: nat, n: nat)
    requires
        divides(d, n),
        d >= 1,
    ensures
        d * (n as int / d as int) == n,
        n as int / d as int >= 0,
        n > 0 ==> n as int / d as int >= 1,
        n as int / d as int <= n,
{
    let k = choose|k: nat| n == #[trigger] (d * k);
    lemma_div_multiples_vanish(k as int, d as int);
    assert((d * k) as int / d as int == k as int);
    assert(n as int / d as int == k as int);
    if n > 0 {
        assert(k >= 1) by (nonlinear_arith)
            requires
                n == d * k,
                n > 0,
        ;
    }
    assert(k <= n) by (nonlinear_arith)
        requires
            n == d * k,
            d >= 1,
            k >= 0,
    ;
}

/// After dividing out the gcd, both parts are no larger than before.
proof fn lemma_reduced_le(n: nat, d: nat)
    requires
        d >= 1,
    ensures
        n > 0 ==> n as int / gcd(n, d) as int <= n,
        n > 0 ==> d as int / gcd(n, d) as int <= d,
{
    if n > 0 {
        lemma_gcd_divides(n, d);
        let g = gcd(n, d);
        lemma_div_exact(g, n);
        lemma_div_exact(g, d);
    }
}

/// Build `n / d` (sign apart) in lowest terms, or report that it does not
/// fit in 64-bit parts.
pub open spec fn rat_make(neg: bool, n: int, d: int) -> Option<Number> {
    if n == 0 {
        Some(Number::zero_spec())
    } else if n > u128::MAX as int {
        None
    } else {
        let g = gcd(n as nat, d as nat) as int;
        if n / g > u64::MAX as int || d / g > u64::MAX as int {
            None
        } else {
            Some(Number { negative: neg, numer: (n / g) as u64, denom: (d / g) as u64 })
        }
    }
}

/// What `rat_make` returns is well formed and keeps the exact value.
pub proof fn lemma_rat_make_wf(neg: bool, n: int, d: int)
    requires
        n >= 0,
        d >= 1,
    ensures
        rat_make(neg, n, d) is Some ==> {
            let c = rat_make(neg, n, d).unwrap();
            &&& c.wf()
            &&& c.signed_numer() * d == (if neg { -n } else { n }) * (c.denom as int)
        },
{
    if rat_make(neg, n, d) is Some && n != 0 {
        lemma_gcd_divides(n as nat, d as nat);
        let g = gcd(n as nat, d as nat);
        lemma_div_exact(g, n as nat);
        lemma_div_exact(g, d as nat);
        let nn = n / g as int;
        let dd = d / g as int;
        assert(g * nn == n);
        assert(g * dd == d);
        let c = rat_make(neg, n, d).unwrap();
        assert(c.numer as int == nn);
        assert(c.denom as int == dd);
        assert(nn * d == n * dd) by (nonlinear_arith)
            requires
                g * nn == n,
                g * dd == d,
        ;
        if neg {
            assert(c.signed_numer() == -nn);
            assert(-nn * d == (-n) * dd) by (nonlinear_arith)
                requires
                    nn * d == n * dd,
            ;
            assert(c.signed_numer() * d == (-n) * dd) by (nonlinear_arith)
                requires
                    c.signed_numer() == -nn,
                    -nn * d == (-n) * dd,
            ;
        } else {
            assert(c.signed_numer() == nn);
        }
    }
}

/// Compute the gcd of two machine integers.
pub fn gcd_u128(a0: u128, b0: u128) -> (g: u128)
    ensures
        g as nat == gcd(a0 as nat, b0 as nat),
{
    let mut a = a0;
    let mut b = b0;
    while b != 0
        invariant
            gcd(a as nat, b as nat) == gcd(a0 as nat, b0 as nat),
        decreases b,
    {
        let t = a % b;
        a = b;
        b = t;
    }
    a
}

/// Reduce `n / d` to lowest terms if its parts fit in 64 bits.
pub fn normalize(neg: bool, n: u128, d: u128) -> (r: Option<Number>)
    requires
        d >= 1,
    ensures
        r == rat_make(neg, n as int, d as int),
{
    if n == 0 {
        Some(Number { negative: false, numer: 0, denom: 1 })
    } else {
        let g = gcd_u128(n, d);
        proof {
            lemma_gcd_divides(n as nat, d as nat);
        }
        let nn = n / g;
        let dd = d / g;
        if nn > u64::MAX as u128 || dd > u64::MAX as u128 {
            None
        } else {
            Some(Number { negative: neg, numer: nn as u64, denom: dd as u64 })
        }
    }
}

/// The exact sum, in lowest terms, when it fits.
pub open spec fn rat_add(a: Number, b: Number) -> Option<Number> {
    let n = a.signed_numer() * (b.denom as int) + b.signed_numer() * (a.denom as int);
    let d = (a.denom as int) * (b.denom as int);
    rat_make(n < 0, if n < 0 { -n } else { n }, d)
}

/// The negated value; zero stays zero.
pub open spec fn rat_neg(a: Number) -> Number {
    if a.numer == 0 {
        a
    } else {
        Number { negative: !a.negative, numer: a.numer, denom: a.denom }
    }
}

/// The exact difference, in lowest terms, when it fits.
pub open spec fn rat_sub(a: Number, b: Number) -> Option<Number> {
    rat_add(a, rat_neg(b))
}

/// The exact product, in lowest terms, when it fits.
pub open spec fn rat_mul(a: Number, b: Number) -> Option<Number> {
    let n = (a.numer as int) * (b.numer as int);
    let d = (a.denom as int) * (b.denom as int);
    rat_make(a.negative != b.negative, n, d)
}

/// The exact quotient, in lowest terms, when it fits. Meaningful only for
/// a non-zero divisor.
pub open spec fn rat_div(a: Number, b: Number) -> Option<Number> {
    let n = (a.numer as int) * (b.denom as int);
    let d = (a.denom as int) * (b.numer as int);
    rat_make(a.negative != b.negative, n, d)
}

/// The remainder `a - b * trunc(a / b)`: it has the sign of `a` and the
/// magnitude `(|a| d) mod (|b| c)` over the common denominator `c d`,
/// for `a = ±n/c` and `b = ±m/d`. Meaningful only for a non-zero divisor.
pub open spec fn rat_rem(a: Number, b: Number) -> Option<Number> {
    let n = ((a.numer as int) * (b.denom as int)) % ((b.numer as int) * (a.denom as int));
    let d = (a.denom as int) * (b.denom as int);
    rat_make(a.negative, n, d)
}

/// `a < b` on exact values.
pub open spec fn rat_lt(a: Number, b: Number) -> bool {
    a.signed_numer() * (b.denom as int) < b.signed_numer() * (a.denom as int)
}

/// `a <= b` on exact values.
pub open spec fn rat_le(a: Number, b: Number) -> bool {
    a.signed_numer() * (b.denom as int) <= b.signed_numer() * (a.denom as int)
}

/// `a == b` on exact values.
pub open spec fn rat_eq(a: Number, b: Number) -> bool {
    a.signed_numer() * (b.denom as int) == b.signed_numer() * (a.denom as int)
}


/// The 128-bit product of two 64-bit integers, which always fits.
pub fn mul_wide(a: u64, b: u64) -> (r: u128)
    ensures
        r == (a as int) * (b as int),
        (a >= 1 && b >= 1) ==> r >= 1,
{
    proof {
        assert((a as int) * (b as int) <= u128::MAX as int && ((a >= 1 && b >= 1) ==> (a as int)
            * (b as int) >= 1)) by (nonlinear_arith)
            requires
                a <= u64::MAX,
                b <= u64::MAX,
        ;
    }
    (a as u128) * (b as u128)
}

/// Rewrites each signed cross product over the magnitude products, so that
/// linear reasoning can take over.
proof fn lemma_signed_products(a: Number, b: Number)
    ensures
        a.signed_numer() * (b.denom as int) == if a.negative {
            -((a.numer as int) * (b.denom as int))
        } else {
            (a.numer as int) * (b.denom as int)
        },
        b.signed_numer() * (a.denom as int) == if b.negative {
            -((b.numer as int) * (a.denom as int))
        } else {
            (b.numer as int) * (a.denom as int)
        },
{
    assert(-(a.numer as int) * (b.denom as int) == -((a.numer as int) * (b.denom as int)))
        by (nonlinear_arith);
    assert(-(b.numer as int) * (a.denom as int) == -((b.numer as int) * (a.denom as int)))
        by (nonlinear_arith);
}

impl Number {
    /// The exact sum, or `None` when it cannot be represented.
    pub fn checked_add(self, other: Number) -> (r: Option<Number>)
        requires
            self.wf(),
            other.wf(),
        ensures
            r == rat_add(self, other),
    {
        let c1 = mul_wide(self.numer, other.denom);
        let c2 = mul_wide(other.numer, self.denom);
        let d = mul_wide(self.denom, other.denom);
        proof {
            lemma_signed_products(self, other);
        }
        let ghost n = self.signed_numer() * (other.denom as int) + other.signed_numer() * (
        self.denom as int);
        if self.negative == other.negative {
            if c1 <= u128::MAX - c2 {
                normalize(self.negative, c1 + c2, d)
            } else {
                proof {
                    assert(rat_make(n < 0, if n < 0 {
                        -n
                    } else {
                        n
                    }, d as int) is None);
                }
                None
            }
        } else {
            if c1 >= c2 {
                normalize(self.negative, c1 - c2, d)
            } else {
                normalize(other.negative, c2 - c1, d)
            }
        }
    }

    /// The negated value.
    pub fn neg(self) -> (r: Number)
        requires
            self.wf(),
        ensures
            r == rat_neg(self),
            r.wf(),
    {
        if self.numer == 0 {
            self
        } else {
            Number { negative: !self.negative, numer: self.numer, denom: self.denom }
        }
    }

    /// The exact difference, or `None` when it cannot be represented.
    pub fn checked_sub(self, other: Number) -> (r: Option<Number>)
        requires
            self.wf(),
            other.wf(),
        ensures
            r == rat_sub(self, other),
    {
        self.checked_add(other.neg())
    }

    /// The exact product, or `None` when it cannot be represented.
    pub fn checked_mul(self, other: Number) -> (r: Option<Number>)
        requires
            self.wf(),
            other.wf(),
        ensures
            r == rat_mul(self, other),
    {
        let n = mul_wide(self.numer, other.numer);
        let d = mul_wide(self.denom, other.denom);
        normalize(self.negative != other.negative, n, d)
    }

    /// The exact quotient, or `None` when it cannot be represented.
    pub fn checked_div(self, other: Number) -> (r: Option<Number>)
        requires
            self.wf(),
            other.wf(),
            other.numer != 0,
        ensures
            r == rat_div(self, other),
    {
        let n = mul_wide(self.numer, other.denom);
        let d = mul_wide(self.denom, other.numer);
        normalize(self.negative != other.negative, n, d)
    }

    /// The exact remainder, or `None` when it cannot be represented.
    pub fn checked_rem(self, other: Number) -> (r: Option<Number>)
        requires
            self.wf(),
            other.wf(),
            other.numer != 0,
        ensures
            r == rat_rem(self, other),
    {
        let c1 = mul_wide(self.numer, other.denom);
        let c2 = mul_wide(other.numer, self.denom);
        let d = mul_wide(self.denom, other.denom);
        normalize(self.negative, c1 % c2, d)
    }

    /// `self < other` on exact values.
    pub fn lt(self, other: Number) -> (r: bool)
        requires
            self.wf(),
            other.wf(),
        ensures
            r == rat_lt(self, other),
    {
        let c1 = mul_wide(self.numer, other.denom);
        let c2 = mul_wide(other.numer, self.denom);
        proof {
            lemma_signed_products(self, other);
        }
        if self.negative != other.negative {
            proof {
                lemma_cross_signs(self, other);
            }
            self.negative
        } else if self.negative {
            c2 < c1
        } else {
            c1 < c2
        }
    }

    /// `self <= other` on exact values.
    pub fn le(self, other: Number) -> (r: bool)
        requires
            self.wf(),
            other.wf(),
        ensures
            r == rat_le(self, other),
    {
        !other.lt(self)
    }

    /// `self == other` on exact values.
    pub fn value_eq(self, other: Number) -> (r: bool)
        requires
            self.wf(),
            other.wf(),
        ensures
            r == rat_eq(self, other),
    {
        let c1 = mul_wide(self.numer, other.denom);
        let c2 = mul_wide(other.numer, self.denom);
        proof {
            lemma_signed_products(self, other);
        }
        if self.negative != other.negative {
            proof {
                lemma_cross_signs(self, other);
            }
            false
        } else {
            c1 == c2
        }
    }
}

/// With opposite signs and well-formed parts, the signed cross products
/// are strictly ordered by the signs.
proof fn lemma_cross_signs(a: Number, b: Number)
    requires
        a.wf(),
        b.wf(),
        a.negative != b.negative,
    ensures
        a.negative ==> a.signed_numer() * (b.denom as int) < b.signed_numer() * (a.denom as int),
        b.negative ==> b.signed_numer() * (a.denom as int) < a.signed_numer() * (b.denom as int),
{
    assert(a.negative ==> -(a.numer as int) * (b.denom as int) < (b.numer as int) * (a.denom
        as int)) by (nonlinear_arith)
        requires
            a.negative ==> a.numer >= 1,
            a.denom >= 1,
            b.denom >= 1,
            b.numer >= 0,
    ;
    assert(b.negative ==> -(b.numer as int) * (a.denom as int) < (a.numer as int) * (b.denom
        as int)) by (nonlinear_arith)
        requires
            b.negative ==> b.numer >= 1,
            a.denom >= 1,
            b.denom >= 1,
            a.numer >= 0,
    ;
}


/// The results of the checked operations are well formed.
pub proof fn lemma_rat_ops_wf(a: Number, b: Number)
    requires
        a.wf(),
        b.wf(),
    ensures
        rat_add(a, b) is Some ==> rat_add(a, b).unwrap().wf(),
        rat_sub(a, b) is Some ==> rat_sub(a, b).unwrap().wf(),
        rat_mul(a, b) is Some ==> rat_mul(a, b).unwrap().wf(),
        b.numer != 0 ==> (rat_div(a, b) is Some ==> rat_div(a, b).unwrap().wf()),
        b.numer != 0 ==> (rat_rem(a, b) is Some ==> rat_rem(a, b).unwrap().wf()),
        rat_neg(a).wf(),
{
    assert((a.denom as int) * (b.denom as int) >= 1) by (nonlinear_arith)
        requires
            a.denom >= 1,
            b.denom >= 1,
    ;
    assert((a.denom as int) * (rat_neg(b).denom as int) >= 1) by (nonlinear_arith)
        requires
            a.denom >= 1,
            rat_neg(b).denom >= 1,
    ;
    assert((a.numer as int) * (b.numer as int) >= 0) by (nonlinear_arith)
        requires
            a.numer >= 0,
            b.numer >= 0,
    ;
    assert((a.numer as int) * (b.denom as int) >= 0) by (nonlinear_arith)
        requires
            a.numer >= 0,
            b.denom >= 1,
    ;
    let n1 = a.signed_numer() * (b.denom as int) + b.signed_numer() * (a.denom as int);
    lemma_rat_make_wf(
        n1 < 0,
        if n1 < 0 {
            -n1
        } else {
            n1
        },
        (a.denom as int) * (b.denom as int),
    );
    let an = rat_neg(b);
    let n2 = a.signed_numer() * (an.denom as int) + an.signed_numer() * (a.denom as int);
    lemma_rat_make_wf(
        n2 < 0,
        if n2 < 0 {
            -n2
        } else {
            n2
        },
        (a.denom as int) * (an.denom as int),
    );
    lemma_rat_make_wf(
        a.negative != b.negative,
        (a.numer as int) * (b.numer as int),
        (a.denom as int) * (b.denom as int),
    );
    if b.numer != 0 {
        assert((a.denom as int) * (b.numer as int) >= 1) by (nonlinear_arith)
            requires
                a.denom >= 1,
                b.numer >= 1,
        ;
        lemma_rat_make_wf(
            a.negative != b.negative,
            (a.numer as int) * (b.denom as int),
            (a.denom as int) * (b.numer as int),
        );
        assert((b.numer as int) * (a.denom as int) >= 1) by (nonlinear_arith)
            requires
                a.denom >= 1,
                b.numer >= 1,
        ;
        assert(((a.numer as int) * (b.denom as int)) % ((b.numer as int) * (a.denom as int))
            >= 0) by (nonlinear_arith)
            requires
                (b.numer as int) * (a.denom as int) >= 1,
        ;
        lemma_rat_make_wf(
            a.negative,
            ((a.numer as int) * (b.denom as int)) % ((b.numer as int) * (a.denom as int)),
            (a.denom as int) * (b.denom as int),
        );
    }
}

} // verus!
