//! Exact rational numbers with `i64` numerator and denominator, kept in
//! lowest terms.  They are the representation of the `REAL` values of the
//! interpreted language, so that arithmetic on them can be specified and
//! verified exactly.

use vstd::prelude::*;

verus! {

use vstd::arithmetic::div_mod::lemma_fundamental_div_mod;
use vstd::arithmetic::div_mod::lemma_fundamental_div_mod_converse;

/// Mathematical value of a rational: a numerator and a denominator.
pub struct RatView {
    pub n: int,
    pub d: int,
}

pub open spec fn abs_int(x: int) -> int {
    if x < 0 {
        -x
    } else {
        x
    }
}

/// Greatest common divisor, by the Euclidean recurrence.
pub open spec fn gcd_nat(a: nat, b: nat) -> nat
    decreases b,
{
    if b == 0 {
        a
    } else {
        gcd_nat(b, a % b)
    }
}

/// `d` divides `x` exactly.
pub open spec fn divides(d: int, x: int) -> bool {
    exists|k: int| x == #[trigger] (d * k)
}

pub proof fn lemma_gcd_pos(a: nat, b: nat)
    requires
        a > 0 || b > 0,
    ensures
        gcd_nat(a, b) > 0,
    decreases b,
{
    if b != 0 {
        lemma_gcd_pos(b, a % b);
    }
}

pub proof fn lemma_gcd_divides(a: nat, b: nat)
    ensures
        divides(gcd_nat(a, b) as int, a as int),
        divides(gcd_nat(a, b) as int, b as int),
    decreases b,
{
    let g = gcd_nat(a, b) as int;
    if b == 0 {
        assert(a as int == g * 1);
        assert(b as int == g * 0);
    } else {
        lemma_gcd_divides(b, a % b);
        let k1 = choose|k: int| b as int == #[trigger] (g * k);
        let k2 = choose|k: int| (a % b) as int == #[trigger] (g * k);
        lemma_fundamental_div_mod(a as int, b as int);
        let q = a as int / b as int;
        assert(a as int == g * (q * k1 + k2)) by (nonlinear_arith)
            requires
                a as int == (b as int) * q + (a % b) as int,
                b as int == g * k1,
                (a % b) as int == g * k2,
        ;
    }
}

pub proof fn lemma_gcd_greatest(a: nat, b: nat, d: int)
    requires
        divides(d, a as int),
        divides(d, b as int),
    ensures
        divides(d, gcd_nat(a, b) as int),
    decreases b,
{
    if b == 0 {
    } else {
        let ka = choose|k: int| a as int == #[trigger] (d * k);
        let kb = choose|k: int| b as int == #[trigger] (d * k);
        lemma_fundamental_div_mod(a as int, b as int);
        let q = a as int / b as int;
        assert((a % b) as int == a as int - q * (b as int));
        assert((a % b) as int == d * (ka - q * kb)) by (nonlinear_arith)
            requires
                (a % b) as int == a as int - q * (b as int),
                a as int == d * ka,
                b as int == d * kb,
        ;
        lemma_gcd_greatest(b, a % b, d);
    }
}

/// Exact division is recovered from a divisibility witness.
pub proof fn lemma_div_exact(x: int, d: int)
    requires
        d > 0,
        divides(d, x),
    ensures
        x == d * (x / d),
        x % d == 0,
{
    let k = choose|k: int| x == #[trigger] (d * k);
    assert(x == k * d + 0) by (nonlinear_arith)
        requires
            x == d * k,
    ;
    lemma_fundamental_div_mod_converse(x, d, k, 0);
}

/// After dividing both components by their gcd, the gcd is one.
pub proof fn lemma_gcd_reduced(a: nat, b: nat)
    requires
        b > 0,
    ensures
        gcd_nat(a, b) > 0,
        b as int / gcd_nat(a, b) as int > 0,
        gcd_nat((a as int / gcd_nat(a, b) as int) as nat, (b as int / gcd_nat(a, b) as int) as nat)
            == 1,
{
    lemma_gcd_pos(a, b);
    lemma_gcd_divides(a, b);
    let g = gcd_nat(a, b) as int;
    lemma_div_exact(a as int, g);
    lemma_div_exact(b as int, g);
    let qa = a as int / g;
    let qb = b as int / g;
    assert(qa >= 0) by (nonlinear_arith)
        requires
            a as int == g * qa,
            g > 0,
            a as int >= 0,
    ;
    assert(qb > 0) by (nonlinear_arith)
        requires
            b as int == g * qb,
            g > 0,
            b as int > 0,
    ;
    lemma_gcd_pos(qa as nat, qb as nat);
    let g2 = gcd_nat(qa as nat, qb as nat) as int;
    lemma_gcd_divides(qa as nat, qb as nat);
    let ka = choose|k: int| qa == #[trigger] (g2 * k);
    let kb = choose|k: int| qb == #[trigger] (g2 * k);
    assert(a as int == (g * g2) * ka) by (nonlinear_arith)
        requires
            a as int == g * qa,
            qa == g2 * ka,
    ;
    assert(b as int == (g * g2) * kb) by (nonlinear_arith)
        requires
            b as int == g * qb,
            qb == g2 * kb,
    ;
    assert(divides(g * g2, a as int));
    assert(divides(g * g2, b as int));
    lemma_gcd_greatest(a, b, g * g2);
    let k3 = choose|k: int| g == #[trigger] ((g * g2) * k);
    assert(g2 * k3 == 1) by (nonlinear_arith)
        requires
            g == (g * g2) * k3,
            g > 0,
    ;
    if g2 >= 2 {
        assert(false) by (nonlinear_arith)
            requires
                g2 * k3 == 1,
                g2 >= 2,
        ;
    }
}

/// The canonical (sign-normalized, reduced) form of the ratio `n / d`.
pub open spec fn norm_rat(n: int, d: int) -> RatView {
    let n2 = if d < 0 {
        -n
    } else {
        n
    };
    let d2 = if d < 0 {
        -d
    } else {
        d
    };
    if d2 <= 0 {
        RatView { n: 0, d: 1 }
    } else {
        let g = gcd_nat(abs_int(n2) as nat, d2 as nat) as int;
        RatView { n: n2 / g, d: d2 / g }
    }
}

/// The canonical sum of two rationals.
pub open spec fn rat_add_raw(x: RatView, y: RatView) -> RatView {
    norm_rat(x.n * y.d + y.n * x.d, x.d * y.d)
}

/// The canonical difference of two rationals.
pub open spec fn rat_sub_raw(x: RatView, y: RatView) -> RatView {
    norm_rat(x.n * y.d - y.n * x.d, x.d * y.d)
}

/// The canonical product of two rationals.
pub open spec fn rat_mul_raw(x: RatView, y: RatView) -> RatView {
    norm_rat(x.n * y.n, x.d * y.d)
}

/// The canonical quotient of two rationals (`y.n` must not be zero).
pub open spec fn rat_div_raw(x: RatView, y: RatView) -> RatView {
    norm_rat(x.n * y.d, x.d * y.n)
}

/// Truncating integer division (rounds toward zero).
pub open spec fn tdiv(x: int, y: int) -> int {
    if (x < 0) == (y < 0) {
        abs_int(x) / abs_int(y)
    } else {
        -(abs_int(x) / abs_int(y))
    }
}

/// The rational truncated toward zero, saturated to the `i32` range.
pub open spec fn trunc_sat_i32(r: RatView) -> int {
    let t = tdiv(r.n, r.d);
    if t < i32::MIN {
        i32::MIN as int
    } else if t > i32::MAX {
        i32::MAX as int
    } else {
        t
    }
}

/// A view is in canonical form: positive denominator, no common factor.
pub open spec fn rat_canon(r: RatView) -> bool {
    r.d > 0 && gcd_nat(abs_int(r.n) as nat, r.d as nat) == 1
}

/// Both components fit the machine representation.
pub open spec fn rat_fits(r: RatView) -> bool {
    -(i64::MAX as int) <= r.n <= i64::MAX as int && 0 < r.d <= i64::MAX as int
}

/// An exact rational number in lowest terms.
#[derive(Clone, Copy, Debug)]
pub struct Rational {
    num: i64,
    den: i64,
}

impl View for Rational {
    type V = RatView;

    closed spec fn view(&self) -> RatView {
        RatView { n: self.num as int, d: self.den as int }
    }
}

fn gcd_u128(a0: u128, b0: u128) -> (g: u128)
    ensures
        g as nat == gcd_nat(a0 as nat, b0 as nat),
{
    let mut a = a0;
    let mut b = b0;
    while b != 0
        invariant
            gcd_nat(a as nat, b as nat) == gcd_nat(a0 as nat, b0 as nat),
        decreases b,
    {
        let t = a % b;
        a = b;
        b = t;
    }
    a
}

impl Rational {
    /// The rational is in canonical form and within machine bounds.
    pub open spec fn wf(self) -> bool {
        rat_canon(self@) && rat_fits(self@)
    }

    pub fn num(&self) -> (r: i64)
        ensures
            r as int == self@.n,
    {
        self.num
    }

    pub fn den(&self) -> (r: i64)
        ensures
            r as int == self@.d,
    {
        self.den
    }

    /// The canonical rational with value `num / den`, or `None` when the
    /// reduced form does not fit in `i64` (or `den` is zero).
    pub fn new(num: i64, den: i64) -> (r: Option<Rational>)
        ensures
            match r {
                Some(q) => den != 0 && q.wf() && q@ == norm_rat(num as int, den as int),
                None => den == 0 || !rat_fits(norm_rat(num as int, den as int)),
            },
    {
        if den == 0 {
            None
        } else {
            normalize(num as i128, den as i128)
        }
    }

    /// The canonical rational with integer value `x`.
    pub fn from_integer(x: i64) -> (r: Rational)
        requires
            x > i64::MIN,
        ensures
            r.wf(),
            r@ == (RatView { n: x as int, d: 1 }),
    {
        proof {
            lemma_gcd_one(abs_int(x as int) as nat);
        }
        Rational { num: x, den: 1 }
    }
}

proof fn lemma_gcd_one(a: nat)
    ensures
        gcd_nat(a, 1) == 1,
{
    assert(a % 1 == 0) by (nonlinear_arith);
    assert(gcd_nat(a, 1) == gcd_nat(1, 0));
}

/// Builds the canonical form of `n / d` as machine integers, or reports that
/// the reduced components exceed `i64`.
pub(crate) fn normalize(n: i128, d: i128) -> (r: Option<Rational>)
    requires
        d != 0,
        n > i128::MIN,
        d > i128::MIN,
    ensures
        match r {
            Some(q) => q.wf() && q@ == norm_rat(n as int, d as int),
            None => !rat_fits(norm_rat(n as int, d as int)),
        },
{
    let nn: i128 = if d < 0 {
        -n
    } else {
        n
    };
    let dd: i128 = if d < 0 {
        -d
    } else {
        d
    };
    let an: u128 = if nn < 0 {
        (-nn) as u128
    } else {
        nn as u128
    };
    let ad: u128 = dd as u128;
    proof {
        lemma_gcd_pos(an as nat, ad as nat);
        lemma_gcd_reduced(an as nat, ad as nat);
        lemma_gcd_divides(an as nat, ad as nat);
        lemma_div_exact(an as int, gcd_nat(an as nat, ad as nat) as int);
        lemma_div_exact(ad as int, gcd_nat(an as nat, ad as nat) as int);
    }
    let g: u128 = gcd_u128(an, ad);
    let qn: u128 = an / g;
    let qd: u128 = ad / g;
    proof {
        let nv = norm_rat(n as int, d as int);
        assert(qn as int == an as int / g as int);
        assert(qd as int == ad as int / g as int);
        if nn < 0 {
            // the numerator of the normalized view is the negated quotient
            assert(nn as int == (g as int) * (-(qn as int))) by (nonlinear_arith)
                requires
                    an as int == (g as int) * (qn as int),
                    nn as int == -(an as int),
            ;
            assert(g as int > 0);
            assert(nn as int == (-(qn as int)) * (g as int) + 0) by (nonlinear_arith)
                requires
                    nn as int == (g as int) * (-(qn as int)),
            ;
            lemma_fundamental_div_mod_converse(nn as int, g as int, -(qn as int), 0);
            assert(nv.n == -(qn as int));
        } else {
            assert(nv.n == qn as int);
        }
        assert(nv.d == qd as int);
        assert(rat_canon(nv));
    }
    if qn > i64::MAX as u128 || qd > i64::MAX as u128 {
        None
    } else {
        if nn < 0 {
            Some(Rational { num: -(qn as i64), den: qd as i64 })
        } else {
            Some(Rational { num: qn as i64, den: qd as i64 })
        }
    }
}

proof fn lemma_mul_bound(x: int, y: int, m: int)
    requires
        -m <= x <= m,
        -m <= y <= m,
        0 <= m,
    ensures
        -(m * m) <= x * y <= m * m,
{
    assert(-(m * m) <= x * y <= m * m) by (nonlinear_arith)
        requires
            -m <= x <= m,
            -m <= y <= m,
            0 <= m,
    ;
}

proof fn lemma_pair_bounds(a: RatView, b: RatView)
    requires
        rat_fits(a),
        rat_fits(b),
    ensures
        -(i128::MAX as int) < a.n * b.d + b.n * a.d < i128::MAX as int,
        -(i128::MAX as int) < a.n * b.d - b.n * a.d < i128::MAX as int,
        -(i128::MAX as int) < a.n * b.n < i128::MAX as int,
        -(i128::MAX as int) < a.n * b.d < i128::MAX as int,
        0 < a.d * b.d < i128::MAX as int,
        -(i128::MAX as int) < a.d * b.n < i128::MAX as int,
        (a.d * b.n == 0) <==> (b.n == 0),
{
    let m = i64::MAX as int;
    lemma_mul_bound(a.n, b.d, m);
    lemma_mul_bound(b.n, a.d, m);
    lemma_mul_bound(a.n, b.n, m);
    lemma_mul_bound(a.d, b.d, m);
    lemma_mul_bound(a.d, b.n, m);
    assert(m * m + m * m < i128::MAX as int) by (nonlinear_arith)
        requires
            m == i64::MAX as int,
    ;
    assert(a.d * b.d > 0) by (nonlinear_arith)
        requires
            a.d > 0,
            b.d > 0,
    ;
    assert((a.d * b.n == 0) <==> (b.n == 0)) by (nonlinear_arith)
        requires
            a.d > 0,
    ;
}

impl Rational {
    /// The canonical sum, or `None` when it leaves the `i64` range.
    pub(crate) fn add_pair(self, other: Rational) -> (r: Option<Rational>)
        requires
            self.wf(),
            other.wf(),
        ensures
            match r {
                Some(q) => q.wf() && q@ == rat_add_raw(self@, other@),
                None => !rat_fits(rat_add_raw(self@, other@)),
            },
    {
        proof {
            lemma_pair_bounds(self@, other@);
        }
        let n: i128 = (self.num as i128) * (other.den as i128) + (other.num as i128) * (self.den
            as i128);
        let d: i128 = (self.den as i128) * (other.den as i128);
        normalize(n, d)
    }

    /// The canonical difference, or `None` when it leaves the `i64` range.
    pub(crate) fn sub_pair(self, other: Rational) -> (r: Option<Rational>)
        requires
            self.wf(),
            other.wf(),
        ensures
            match r {
                Some(q) => q.wf() && q@ == rat_sub_raw(self@, other@),
                None => !rat_fits(rat_sub_raw(self@, other@)),
            },
    {
        proof {
            lemma_pair_bounds(self@, other@);
        }
        let n: i128 = (self.num as i128) * (other.den as i128) - (other.num as i128) * (self.den
            as i128);
        let d: i128 = (self.den as i128) * (other.den as i128);
        normalize(n, d)
    }

    /// The canonical product, or `None` when it leaves the `i64` range.
    pub(crate) fn mul_pair(self, other: Rational) -> (r: Option<Rational>)
        requires
            self.wf(),
            other.wf(),
        ensures
            match r {
                Some(q) => q.wf() && q@ == rat_mul_raw(self@, other@),
                None => !rat_fits(rat_mul_raw(self@, other@)),
            },
    {
        proof {
            lemma_pair_bounds(self@, other@);
        }
        let n: i128 = (self.num as i128) * (other.num as i128);
        let d: i128 = (self.den as i128) * (other.den as i128);
        normalize(n, d)
    }

    /// The canonical quotient, or `None` when it leaves the `i64` range.
    /// The divisor must not be zero.
    pub(crate) fn div_pair(self, other: Rational) -> (r: Option<Rational>)
        requires
            self.wf(),
            other.wf(),
            other@.n != 0,
        ensures
            match r {
                Some(q) => q.wf() && q@ == rat_div_raw(self@, other@),
                None => !rat_fits(rat_div_raw(self@, other@)),
            },
    {
        proof {
            lemma_pair_bounds(self@, other@);
        }
        let n: i128 = (self.num as i128) * (other.den as i128);
        let d: i128 = (self.den as i128) * (other.num as i128);
        normalize(n, d)
    }

    /// The negated rational; canonical form is preserved.
    pub(crate) fn neg_rational(self) -> (r: Rational)
        requires
            self.wf(),
        ensures
            r.wf(),
            r@ == (RatView { n: -self@.n, d: self@.d }),
    {
        Rational { num: -self.num, den: self.den }
    }

    /// Truncation toward zero, saturated to the `i32` range.
    pub(crate) fn trunc_to_i32_sat(self) -> (r: i32)
        requires
            self.wf(),
        ensures
            r as int == trunc_sat_i32(self@),
    {
        let neg = self.num < 0;
        let an: u64 = if neg {
            (-self.num) as u64
        } else {
            self.num as u64
        };
        let q: u64 = an / (self.den as u64);
        proof {
            assert(an as int == abs_int(self@.n));
            assert(q as int == abs_int(self@.n) / self@.d);
        }
        if neg {
            if q >= 2147483648u64 {
                i32::MIN
            } else {
                -(q as i32)
            }
        } else {
            if q > 2147483647u64 {
                i32::MAX
            } else {
                q as i32
            }
        }
    }
}

} // verus!
