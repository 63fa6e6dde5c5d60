//! Exact rational scalars.
//!
//! Every quantity the spline engine works with is a rational number held as
//! an `i64` numerator and positive `i64` denominator. Arithmetic is exact:
//! each operation either returns the mathematical result (reduced so that it
//! fits the representable range) or reports that the range was exhausted.

use vstd::prelude::*;
use vstd::arithmetic::div_mod::lemma_fundamental_div_mod;

verus! {

/// The mathematical value of a rational: numerator over denominator.
pub ghost struct Q {
    pub n: int,
    pub d: int,
}

/// A mathematical rational is well formed when its denominator is positive.
pub open spec fn q_wf(q: Q) -> bool {
    q.d > 0
}

/// The rational equal to the integer `i`.
pub open spec fn q_int(i: int) -> Q {
    Q { n: i, d: 1 }
}

/// Equality of rationals by cross multiplication.
pub open spec fn q_eq(a: Q, b: Q) -> bool {
    a.n * b.d == b.n * a.d
}

/// Order of rationals by cross multiplication (meaningful for positive denominators).
pub open spec fn q_le(a: Q, b: Q) -> bool {
    a.n * b.d <= b.n * a.d
}

/// Strict order of rationals by cross multiplication.
pub open spec fn q_lt(a: Q, b: Q) -> bool {
    a.n * b.d < b.n * a.d
}

/// The exact sum of two rationals.
pub open spec fn q_add(a: Q, b: Q) -> Q {
    Q { n: a.n * b.d + b.n * a.d, d: a.d * b.d }
}

/// The exact difference of two rationals.
pub open spec fn q_sub(a: Q, b: Q) -> Q {
    Q { n: a.n * b.d - b.n * a.d, d: a.d * b.d }
}

/// The exact product of two rationals.
pub open spec fn q_mul(a: Q, b: Q) -> Q {
    Q { n: a.n * b.n, d: a.d * b.d }
}

/// The exact quotient of two rationals (well formed when `b.n != 0`).
pub open spec fn q_div(a: Q, b: Q) -> Q {
    if b.n < 0 {
        Q { n: -(a.n * b.d), d: -(a.d * b.n) }
    } else {
        Q { n: a.n * b.d, d: a.d * b.n }
    }
}

/// The exact negation of a rational.
pub open spec fn q_neg(a: Q) -> Q {
    Q { n: -a.n, d: a.d }
}

/// Numerators and denominators stay strictly below this bound.
pub const RAT_LIMIT: i64 = 0x4000_0000_0000_0000;

/// An exact rational scalar.
#[derive(Debug, Clone, Copy, PartialEq, Eq, Structural)]
pub struct Rat {
    pub n: i64,
    pub d: i64,
}

impl View for Rat {
    type V = Q;

    open spec fn view(&self) -> Q {
        Q { n: self.n as int, d: self.d as int }
    }
}

/// A stored rational is well formed: positive denominator, both parts in range.
pub open spec fn rat_wf(r: Rat) -> bool {
    1 <= r.view().d < RAT_LIMIT as int && -(RAT_LIMIT as int) < r.view().n < RAT_LIMIT as int
}

/// The views of a sequence of stored rationals.
pub open spec fn qs(s: Seq<Rat>) -> Seq<Q> {
    s.map_values(|r: Rat| r@)
}

/// Every rational of the sequence is well formed.
pub open spec fn seq_wf(s: Seq<Rat>) -> bool {
    forall|i: int| 0 <= i < s.len() ==> rat_wf(#[trigger] s[i])
}

/// The exact value `v` fits the stored range as written, before any
/// reduction: an operation whose exact result fits is owed success.
pub open spec fn q_fits(v: Q) -> bool {
    &&& -(RAT_LIMIT as int) < v.n < RAT_LIMIT as int
    &&& -(RAT_LIMIT as int) < v.d < RAT_LIMIT as int
    &&& v.d != 0
}

/// `g` divides `a` exactly.
pub open spec fn divides(g: int, a: int) -> bool {
    exists|k: int| a == #[trigger] (g * k)
}

proof fn lemma_mul_bound(x: int, y: int, b: int)
    by (nonlinear_arith)
    requires
        -b <= x <= b,
        -b <= y <= b,
        0 <= b,
    ensures
        -(b * b) <= x * y <= b * b,
{
}

proof fn lemma_mul_pos(x: int, y: int)
    by (nonlinear_arith)
    requires
        x > 0,
        y > 0,
    ensures
        x * y > 0,
{
}

/// Rationals equal to a common one are equal to each other.
pub proof fn lemma_q_eq_trans(a: Q, b: Q, c: Q)
    by (nonlinear_arith)
    requires
        q_wf(a),
        q_wf(b),
        q_wf(c),
        q_eq(a, b),
        q_eq(b, c),
    ensures
        q_eq(a, c),
{
}

/// Sums of equal rationals are equal.
pub proof fn lemma_q_add_cong(a: Q, b: Q, a2: Q, b2: Q)
    requires
        q_wf(a),
        q_wf(b),
        q_wf(a2),
        q_wf(b2),
        q_eq(a, a2),
        q_eq(b, b2),
    ensures
        q_eq(q_add(a, b), q_add(a2, b2)),
{
    assert((a.n * b.d) * (a2.d * b2.d) == (a2.n * b2.d) * (a.d * b.d)) by (nonlinear_arith)
        requires
            a.n * a2.d == a2.n * a.d,
    ;
    assert((b.n * a.d) * (a2.d * b2.d) == (b2.n * a2.d) * (a.d * b.d)) by (nonlinear_arith)
        requires
            b.n * b2.d == b2.n * b.d,
    ;
    assert(q_eq(q_add(a, b), q_add(a2, b2))) by (nonlinear_arith)
        requires
            (a.n * b.d) * (a2.d * b2.d) == (a2.n * b2.d) * (a.d * b.d),
            (b.n * a.d) * (a2.d * b2.d) == (b2.n * a2.d) * (a.d * b.d),
    ;
}

/// Differences of equal rationals are equal.
pub proof fn lemma_q_sub_cong(a: Q, b: Q, a2: Q, b2: Q)
    requires
        q_wf(a),
        q_wf(b),
        q_wf(a2),
        q_wf(b2),
        q_eq(a, a2),
        q_eq(b, b2),
    ensures
        q_eq(q_sub(a, b), q_sub(a2, b2)),
{
    assert((a.n * b.d) * (a2.d * b2.d) == (a2.n * b2.d) * (a.d * b.d)) by (nonlinear_arith)
        requires
            a.n * a2.d == a2.n * a.d,
    ;
    assert((b.n * a.d) * (a2.d * b2.d) == (b2.n * a2.d) * (a.d * b.d)) by (nonlinear_arith)
        requires
            b.n * b2.d == b2.n * b.d,
    ;
    assert(q_eq(q_sub(a, b), q_sub(a2, b2))) by (nonlinear_arith)
        requires
            (a.n * b.d) * (a2.d * b2.d) == (a2.n * b2.d) * (a.d * b.d),
            (b.n * a.d) * (a2.d * b2.d) == (b2.n * a2.d) * (a.d * b.d),
    ;
}

/// Products of equal rationals are equal.
pub proof fn lemma_q_mul_cong(a: Q, b: Q, a2: Q, b2: Q)
    requires
        q_wf(a),
        q_wf(b),
        q_wf(a2),
        q_wf(b2),
        q_eq(a, a2),
        q_eq(b, b2),
    ensures
        q_eq(q_mul(a, b), q_mul(a2, b2)),
{
    assert((a.n * a2.d) * (b.n * b2.d) == (a2.n * a.d) * (b2.n * b.d)) by (nonlinear_arith)
        requires
            a.n * a2.d == a2.n * a.d,
            b.n * b2.d == b2.n * b.d,
    ;
    assert((a.n * b.n) * (a2.d * b2.d) == (a.n * a2.d) * (b.n * b2.d)) by (nonlinear_arith);
    assert((a2.n * b2.n) * (a.d * b.d) == (a2.n * a.d) * (b2.n * b.d)) by (nonlinear_arith);
    assert(q_eq(q_mul(a, b), q_mul(a2, b2)));
}

/// Quotients of equal rationals by equal positive divisors are equal.
pub proof fn lemma_q_div_cong(a: Q, b: Q, a2: Q, b2: Q)
    by (nonlinear_arith)
    requires
        q_wf(a),
        q_wf(b),
        q_wf(a2),
        q_wf(b2),
        b.n > 0,
        b2.n > 0,
        q_eq(a, a2),
        q_eq(b, b2),
    ensures
        q_eq(q_div(a, b), q_div(a2, b2)),
{
}


/// Negations of equal rationals are equal.
pub proof fn lemma_q_neg_cong(a: Q, a2: Q)
    by (nonlinear_arith)
    requires
        q_wf(a),
        q_wf(a2),
        q_eq(a, a2),
    ensures
        q_eq(q_neg(a), q_neg(a2)),
{
}

/// Quotients of equal rationals by one nonzero divisor are equal.
pub proof fn lemma_q_div_cong_num(a: Q, a2: Q, b: Q)
    requires
        q_wf(a),
        q_wf(a2),
        q_wf(b),
        b.n != 0,
        q_eq(a, a2),
    ensures
        q_eq(q_div(a, b), q_div(a2, b)),
{
    if b.n > 0 {
        assert((a.n * b.d) * (a2.d * b.n) == (a2.n * b.d) * (a.d * b.n)) by (nonlinear_arith)
            requires
                a.n * a2.d == a2.n * a.d,
        ;
    } else {
        assert((-(a.n * b.d)) * (-(a2.d * b.n)) == (-(a2.n * b.d)) * (-(a.d * b.n)))
            by (nonlinear_arith)
            requires
                a.n * a2.d == a2.n * a.d,
        ;
    }
}

/// Quotients of equal rationals by equal nonzero divisors are equal.
pub proof fn lemma_q_div_cong_all(a: Q, b: Q, a2: Q, b2: Q)
    requires
        q_wf(a),
        q_wf(b),
        q_wf(a2),
        q_wf(b2),
        b.n != 0,
        q_eq(a, a2),
        q_eq(b, b2),
    ensures
        b2.n != 0,
        q_eq(q_div(a, b), q_div(a2, b2)),
{
    assert(b2.n != 0 && (b.n > 0 <==> b2.n > 0)) by (nonlinear_arith)
        requires
            b.n * b2.d == b2.n * b.d,
            b.d > 0,
            b2.d > 0,
            b.n != 0,
    ;
    if b.n > 0 {
        lemma_q_div_cong(a, b, a2, b2);
    } else {
        assert(b.d * b2.n == b2.d * b.n) by (nonlinear_arith)
            requires
                b.n * b2.d == b2.n * b.d,
        ;
        assert((a.n * b.d) * (a2.d * b2.n) == (a.n * a2.d) * (b.d * b2.n)) by (nonlinear_arith);
        assert((a2.n * b2.d) * (a.d * b.n) == (a2.n * a.d) * (b2.d * b.n)) by (nonlinear_arith);
        assert((a.n * a2.d) * (b.d * b2.n) == (a2.n * a.d) * (b2.d * b.n)) by (nonlinear_arith)
            requires
                a.n * a2.d == a2.n * a.d,
                b.d * b2.n == b2.d * b.n,
        ;
        assert(q_eq(q_div(a, b), q_div(a2, b2))) by (nonlinear_arith)
            requires
                (a.n * b.d) * (a2.d * b2.n) == (a2.n * b2.d) * (a.d * b.n),
                b.n < 0,
                b2.n < 0,
        ;
    }
}

/// The exact operations keep denominators positive.
pub proof fn lemma_q_ops_wf(a: Q, b: Q)
    by (nonlinear_arith)
    requires
        q_wf(a),
        q_wf(b),
    ensures
        q_wf(q_add(a, b)),
        q_wf(q_sub(a, b)),
        q_wf(q_mul(a, b)),
        q_wf(q_neg(a)),
        b.n != 0 ==> q_wf(q_div(a, b)),
{
}

fn gcd_i128(a: i128, b: i128) -> (g: i128)
    requires
        1 <= a,
        0 <= b,
    ensures
        1 <= g,
        divides(g as int, a as int),
        divides(g as int, b as int),
    decreases b,
{
    if b == 0 {
        proof {
            assert(a as int == a as int * 1);
            assert(0int == a as int * 0);
        }
        a
    } else {
        let r = a % b;
        assert(0 <= r < b);
        let g = gcd_i128(b, r);
        proof {
            let gi = g as int;
            let k1 = choose|k: int| b as int == #[trigger] (gi * k);
            let k2 = choose|k: int| r as int == #[trigger] (gi * k);
            let q = a as int / b as int;
            lemma_fundamental_div_mod(a as int, b as int);
            assert(a as int == b as int * q + r as int);
            assert(b as int * q + r as int == gi * (k1 * q + k2)) by (nonlinear_arith)
                requires
                    b as int == gi * k1,
                    r as int == gi * k2,
            ;
            assert(a as int == gi * (k1 * q + k2));
        }
        g
    }
}

impl Rat {
    /// The rational equal to the integer `v`.
    pub fn from_int(v: i64) -> (r: Rat)
        requires
            -RAT_LIMIT < v < RAT_LIMIT,
        ensures
            rat_wf(r),
            r@ == q_int(v as int),
    {
        Rat { n: v, d: 1 }
    }

    /// The rational `n / d`, reduced; `None` when `d` is zero or the reduced
    /// parts do not fit the representable range.
    pub fn new(n: i64, d: i64) -> (r: Option<Rat>)
        ensures
            r is Some ==> rat_wf(r.unwrap()) && q_eq(r.unwrap()@, Q { n: n as int, d: d as int }),
            d != 0 && -RAT_LIMIT < n < RAT_LIMIT && -RAT_LIMIT < d < RAT_LIMIT ==> r is Some,
    {
        if d == 0 {
            return None;
        }
        rat_make(n as i128, d as i128)
    }

    /// The numerator of the reduced stored form.
    pub fn numer(&self) -> (r: i64)
        ensures
            r as int == self@.n,
    {
        self.n
    }

    /// The denominator of the reduced stored form.
    pub fn denom(&self) -> (r: i64)
        ensures
            r as int == self@.d,
    {
        self.d
    }

    /// Exact sum; `None` when the result leaves the representable range.
    pub fn add(self, b: Rat) -> (r: Option<Rat>)
        requires
            rat_wf(self),
            rat_wf(b),
        ensures
            r is Some ==> rat_wf(r.unwrap()) && q_eq(r.unwrap()@, q_add(self@, b@)),
            q_fits(q_add(self@, b@)) ==> r is Some,
    {
        proof {
            lemma_mul_bound(self@.n, b@.d, RAT_LIMIT as int);
            lemma_mul_bound(b@.n, self@.d, RAT_LIMIT as int);
            lemma_mul_bound(self@.d, b@.d, RAT_LIMIT as int);
            lemma_mul_pos(self@.d, b@.d);
        }
        let n = (self.n as i128) * (b.d as i128) + (b.n as i128) * (self.d as i128);
        let d = (self.d as i128) * (b.d as i128);
        rat_make(n, d)
    }

    /// Exact difference; `None` when the result leaves the representable range.
    pub fn sub(self, b: Rat) -> (r: Option<Rat>)
        requires
            rat_wf(self),
            rat_wf(b),
        ensures
            r is Some ==> rat_wf(r.unwrap()) && q_eq(r.unwrap()@, q_sub(self@, b@)),
            q_fits(q_sub(self@, b@)) ==> r is Some,
    {
        proof {
            lemma_mul_bound(self@.n, b@.d, RAT_LIMIT as int);
            lemma_mul_bound(b@.n, self@.d, RAT_LIMIT as int);
            lemma_mul_bound(self@.d, b@.d, RAT_LIMIT as int);
            lemma_mul_pos(self@.d, b@.d);
        }
        let n = (self.n as i128) * (b.d as i128) - (b.n as i128) * (self.d as i128);
        let d = (self.d as i128) * (b.d as i128);
        rat_make(n, d)
    }

    /// Exact product; `None` when the result leaves the representable range.
    pub fn mul(self, b: Rat) -> (r: Option<Rat>)
        requires
            rat_wf(self),
            rat_wf(b),
        ensures
            r is Some ==> rat_wf(r.unwrap()) && q_eq(r.unwrap()@, q_mul(self@, b@)),
            q_fits(q_mul(self@, b@)) ==> r is Some,
    {
        proof {
            lemma_mul_bound(self@.n, b@.n, RAT_LIMIT as int);
            lemma_mul_bound(self@.d, b@.d, RAT_LIMIT as int);
            lemma_mul_pos(self@.d, b@.d);
        }
        let n = (self.n as i128) * (b.n as i128);
        let d = (self.d as i128) * (b.d as i128);
        rat_make(n, d)
    }

    /// Exact quotient; `None` when `b` is zero or the result leaves the
    /// representable range.
    pub fn div(self, b: Rat) -> (r: Option<Rat>)
        requires
            rat_wf(self),
            rat_wf(b),
        ensures
            r is Some ==> rat_wf(r.unwrap()) && b@.n != 0 && q_eq(r.unwrap()@, q_div(self@, b@)),
            b@.n != 0 && q_fits(q_div(self@, b@)) ==> r is Some,
    {
        if b.n == 0 {
            return None;
        }
        proof {
            lemma_mul_bound(self@.n, b@.d, RAT_LIMIT as int);
            lemma_mul_bound(self@.d, b@.n, RAT_LIMIT as int);
            if b@.n > 0 {
                lemma_mul_pos(self@.d, b@.n);
            } else {
                lemma_mul_pos(self@.d, -b@.n);
            }
        }
        let n = (self.n as i128) * (b.d as i128);
        let d = (self.d as i128) * (b.n as i128);
        assert(d as int != 0) by (nonlinear_arith)
            requires
                d as int == self@.d * b@.n,
                self@.d > 0,
                b@.n != 0,
        ;
        let r = rat_make(n, d);
        proof {
            if r is Some {
                assert(q_eq(r.unwrap()@, q_div(self@, b@))) by (nonlinear_arith)
                    requires
                        q_eq(r.unwrap()@, Q { n: self@.n * b@.d, d: self@.d * b@.n }),
                        q_div(self@, b@) == (if b@.n < 0 {
                            Q { n: -(self@.n * b@.d), d: -(self@.d * b@.n) }
                        } else {
                            Q { n: self@.n * b@.d, d: self@.d * b@.n }
                        }),
                ;
            }
        }
        r
    }

    /// Exact negation.
    pub fn neg(self) -> (r: Rat)
        requires
            rat_wf(self),
        ensures
            rat_wf(r),
            r@ == q_neg(self@),
    {
        Rat { n: -self.n, d: self.d }
    }

    /// Exact comparison: `self <= b`.
    pub fn le(self, b: Rat) -> (r: bool)
        requires
            rat_wf(self),
            rat_wf(b),
        ensures
            r == q_le(self@, b@),
    {
        proof {
            lemma_mul_bound(self@.n, b@.d, RAT_LIMIT as int);
            lemma_mul_bound(b@.n, self@.d, RAT_LIMIT as int);
        }
        (self.n as i128) * (b.d as i128) <= (b.n as i128) * (self.d as i128)
    }

    /// Exact comparison: `self < b`.
    pub fn lt(self, b: Rat) -> (r: bool)
        requires
            rat_wf(self),
            rat_wf(b),
        ensures
            r == q_lt(self@, b@),
    {
        proof {
            lemma_mul_bound(self@.n, b@.d, RAT_LIMIT as int);
            lemma_mul_bound(b@.n, self@.d, RAT_LIMIT as int);
        }
        (self.n as i128) * (b.d as i128) < (b.n as i128) * (self.d as i128)
    }

    /// Exact equality of values (the stored forms may differ).
    pub fn equiv(self, b: Rat) -> (r: bool)
        requires
            rat_wf(self),
            rat_wf(b),
        ensures
            r == q_eq(self@, b@),
    {
        proof {
            lemma_mul_bound(self@.n, b@.d, RAT_LIMIT as int);
            lemma_mul_bound(b@.n, self@.d, RAT_LIMIT as int);
        }
        (self.n as i128) * (b.d as i128) == (b.n as i128) * (self.d as i128)
    }

    /// Whether the stored parts satisfy the representation invariant.
    pub fn check_wf(&self) -> (b: bool)
        ensures
            b == rat_wf(*self),
    {
        1 <= self.d && self.d < RAT_LIMIT && -RAT_LIMIT < self.n && self.n < RAT_LIMIT
    }

    /// Whether the value is zero.
    pub fn is_zero(self) -> (r: bool)
        requires
            rat_wf(self),
        ensures
            r == (self@.n == 0),
    {
        self.n == 0
    }
}

fn rat_make(n0: i128, d0: i128) -> (r: Option<Rat>)
    requires
        d0 != 0,
        -0x4000_0000_0000_0000_0000_0000_0000_0000 < n0 < 0x4000_0000_0000_0000_0000_0000_0000_0000,
        -0x4000_0000_0000_0000_0000_0000_0000_0000 < d0 < 0x4000_0000_0000_0000_0000_0000_0000_0000,
    ensures
        r is Some ==> rat_wf(r.unwrap()) && q_eq(r.unwrap()@, Q { n: n0 as int, d: d0 as int }),
        -RAT_LIMIT < n0 < RAT_LIMIT && -RAT_LIMIT < d0 < RAT_LIMIT ==> r is Some,
{
    let (n1, d1) = if d0 < 0 {
        (-n0, -d0)
    } else {
        (n0, d0)
    };
    assert(n1 as int * d0 as int == n0 as int * d1 as int) by (nonlinear_arith)
        requires
            (d0 < 0 && n1 == -n0 && d1 == -d0) || (d0 > 0 && n1 == n0 && d1 == d0),
    ;
    if n1 == 0 {
        assert(0int * d0 as int == n0 as int * 1) by (nonlinear_arith)
            requires
                n1 as int * d0 as int == n0 as int * d1 as int,
                n1 == 0,
                d1 > 0,
                d0 != 0,
        ;
        return Some(Rat { n: 0, d: 1 });
    }
    let na = if n1 < 0 {
        -n1
    } else {
        n1
    };
    let g = gcd_i128(na, d1);
    let ghost gi = g as int;
    let ghost kn = choose|k: int| na as int == #[trigger] (gi * k);
    let ghost kd = choose|k: int| d1 as int == #[trigger] (gi * k);
    proof {
        assert(0 < kn <= na as int && 0 < kd <= d1 as int) by (nonlinear_arith)
            requires
                na as int == gi * kn,
                d1 as int == gi * kd,
                gi >= 1,
                na > 0,
                d1 > 0,
        ;
    }
    let nr = na / g;
    let dr = d1 / g;
    proof {
        lemma_fundamental_div_mod(na as int, gi);
        lemma_fundamental_div_mod(d1 as int, gi);
        assert(na as int / gi == kn && d1 as int / gi == kd) by (nonlinear_arith)
            requires
                na as int == gi * (na as int / gi) + na as int % gi,
                d1 as int == gi * (d1 as int / gi) + d1 as int % gi,
                0 <= na as int % gi < gi,
                0 <= d1 as int % gi < gi,
                na as int == gi * kn,
                d1 as int == gi * kd,
                gi >= 1,
        ;
    }
    if nr >= RAT_LIMIT as i128 || dr >= RAT_LIMIT as i128 {
        return None;
    }
    let n2 = if n1 < 0 {
        -nr
    } else {
        nr
    };
    let out = Rat { n: n2 as i64, d: dr as i64 };
    proof {
        assert(n2 as int * d1 as int == n1 as int * kd) by (nonlinear_arith)
            requires
                (n1 < 0 && n2 == -kn && -(n1 as int) == gi * kn) || (n1 > 0 && n2 == kn && n1 as int
                    == gi * kn),
                d1 as int == gi * kd,
        ;
        assert(n2 as int * d0 as int == n0 as int * kd) by (nonlinear_arith)
            requires
                n2 as int * d1 as int == n1 as int * kd,
                n1 as int * d0 as int == n0 as int * d1 as int,
                d1 > 0,
        ;
    }
    Some(out)
}

} // verus!
