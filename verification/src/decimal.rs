use vstd::arithmetic::div_mod::{
    lemma_div_is_ordered, lemma_div_multiples_vanish, lemma_fundamental_div_mod,
    lemma_fundamental_div_mod_converse,
};
use vstd::arithmetic::mul::{lemma_mul_inequality, lemma_mul_is_distributive_add};
use vstd::prelude::*;

verus! {

/// Greatest number of digits after the decimal point a stored score may use.
pub const MAX_SCORE_SCALE: u32 = 6;

/// Greatest magnitude the mantissa of a stored score may have.
pub const MAX_SCORE_MANTISSA: i128 = 1_000_000_000;

/// Number of guard digits an average gains over the score scale, and the
/// power of ten they stand for.
pub const AVG_GUARD_DIGITS: u32 = 6;

pub const AVG_GUARD_FACTOR: i128 = 1_000_000;

/// Scale at which averages are produced: the score scale plus the guard
/// digits.
pub const AVG_SCALE: u32 = 12;

/// Bound on the magnitude of a score brought to `MAX_SCORE_SCALE`:
/// `MAX_SCORE_MANTISSA * 10^MAX_SCORE_SCALE`.
pub const MAX_SCALED_SCORE: i128 = 1_000_000_000_000_000;

/// Greatest magnitude the mantissa of an average may have:
/// `MAX_SCALED_SCORE * AVG_GUARD_FACTOR`.
pub const MAX_AVG_MANTISSA: i128 = 1_000_000_000_000_000_000_000;

/// Greatest number of rows an aggregate may run over without the running
/// sum leaving the machine's integer range.
pub const MAX_AGGREGATE_ROWS: u64 = 1_000_000_000_000;

/// Ten to the `e`-th power.
pub open spec fn pow10(e: nat) -> int
    decreases e,
{
    if e == 0 {
        1
    } else {
        10 * pow10((e - 1) as nat)
    }
}

pub proof fn lemma_pow10_pos(e: nat)
    ensures
        pow10(e) >= 1,
    decreases e,
{
    if e > 0 {
        lemma_pow10_pos((e - 1) as nat);
    }
}

pub proof fn lemma_pow10_mono(a: nat, b: nat)
    requires
        a <= b,
    ensures
        pow10(a) <= pow10(b),
    decreases b,
{
    if a < b {
        lemma_pow10_mono(a, (b - 1) as nat);
        lemma_pow10_pos((b - 1) as nat);
    }
}

/// The concrete powers of ten the library's bounds are built from.
pub proof fn lemma_pow10_values()
    ensures
        pow10(6) == 1_000_000,
        pow10(12) == 1_000_000_000_000,
{
    reveal_with_fuel(pow10, 13);
}

/// A fixed-point decimal number: the value `mantissa / 10^scale`.  Scores
/// and averages travel through the library in this form so that no digit is
/// ever lost to a floating-point approximation.
#[derive(Clone, Copy, Debug, PartialEq, Eq, Structural)]
pub struct Decimal {
    pub mantissa: i128,
    pub scale: u32,
}

impl Decimal {
    /// The envelope every decimal produced by the library stays within.
    pub open spec fn wf(&self) -> bool {
        &&& self.scale <= AVG_SCALE
        &&& -MAX_AVG_MANTISSA <= self.mantissa <= MAX_AVG_MANTISSA
    }

    /// The tighter envelope a stored score must fit: at most
    /// `MAX_SCORE_SCALE` fractional digits and a mantissa of at most
    /// `MAX_SCORE_MANTISSA` in magnitude.
    pub open spec fn score_wf(&self) -> bool {
        &&& self.scale <= MAX_SCORE_SCALE
        &&& -MAX_SCORE_MANTISSA <= self.mantissa <= MAX_SCORE_MANTISSA
    }

    /// The integer a score becomes when brought to `MAX_SCORE_SCALE`
    /// fractional digits; sums of scores are taken over this form.
    pub open spec fn scaled(&self) -> int
        recommends
            self.scale <= MAX_SCORE_SCALE,
    {
        self.mantissa * pow10((MAX_SCORE_SCALE - self.scale) as nat)
    }

    /// Two decimals denote the same number, whatever their scales.
    pub open spec fn same_value(a: Decimal, b: Decimal) -> bool {
        a.mantissa * pow10(b.scale as nat) == b.mantissa * pow10(a.scale as nat)
    }

    /// Compares two decimals as numbers, ignoring how many trailing zeros
    /// either carries.
    pub fn eq_value(&self, other: &Decimal) -> (r: bool)
        requires
            self.wf(),
            other.wf(),
        ensures
            r == Self::same_value(*self, *other),
    {
        let lf = pow10_exec(other.scale) as i128;
        let rf = pow10_exec(self.scale) as i128;
        proof {
            lemma_pow10_values();
            lemma_pow10_mono(other.scale as nat, 12);
            lemma_pow10_mono(self.scale as nat, 12);
            lemma_pow10_pos(other.scale as nat);
            lemma_pow10_pos(self.scale as nat);
            assert(self.mantissa * lf <= MAX_AVG_MANTISSA * (pow10(12) as i128)
                && self.mantissa * lf >= -MAX_AVG_MANTISSA * (pow10(12) as i128))
                by (nonlinear_arith)
                requires
                    -MAX_AVG_MANTISSA <= self.mantissa <= MAX_AVG_MANTISSA,
                    1 <= lf <= pow10(12),
                    pow10(12) == 1_000_000_000_000,
            ;
            assert(other.mantissa * rf <= MAX_AVG_MANTISSA * (pow10(12) as i128)
                && other.mantissa * rf >= -MAX_AVG_MANTISSA * (pow10(12) as i128))
                by (nonlinear_arith)
                requires
                    -MAX_AVG_MANTISSA <= other.mantissa <= MAX_AVG_MANTISSA,
                    1 <= rf <= pow10(12),
                    pow10(12) == 1_000_000_000_000,
            ;
        }
        let left: i128 = self.mantissa * lf;
        let right: i128 = other.mantissa * rf;
        left == right
    }
}

/// Ten to the `e`-th power, computed at run time for scale conversions.
pub fn pow10_exec(e: u32) -> (r: u128)
    requires
        e <= 12,
    ensures
        r as int == pow10(e as nat),
{
    let mut r: u128 = 1;
    let mut i: u32 = 0;
    while i < e
        invariant
            i <= e <= 12,
            r as int == pow10(i as nat),
        decreases e - i,
    {
        proof {
            lemma_pow10_mono(i as nat, 11);
            lemma_pow10_values();
            lemma_pow10_mono(11, 12);
        }
        r = r * 10;
        i = i + 1;
    }
    r
}

/// What it means for `d` to be the truncated mean of a sum of scores:
/// `total` is the sum brought to `MAX_SCORE_SCALE` digits, `n` the number of
/// scores, and `d` carries `AVG_GUARD_DIGITS` further digits of the exact
/// quotient, truncated toward zero.  Whenever the exact mean fits at the
/// average scale the truncation changes nothing and `d` is exact.
pub open spec fn is_truncated_mean(d: Decimal, total: int, n: int) -> bool {
    &&& d.scale == AVG_SCALE
    &&& d.wf()
    &&& (total >= 0 ==> d.mantissa * n <= total * (AVG_GUARD_FACTOR as int) < (d.mantissa + 1)
        * n)
    &&& (total < 0 ==> (d.mantissa - 1) * n < total * (AVG_GUARD_FACTOR as int) <= d.mantissa
        * n)
    &&& ((total * (AVG_GUARD_FACTOR as int)) % n == 0 ==> d.mantissa * n == total * (
    AVG_GUARD_FACTOR as int))
}

/// The mean of `count` scores whose sum, brought to `MAX_SCORE_SCALE`
/// digits, is `total`.  The result carries `AVG_GUARD_DIGITS` extra digits
/// and is the exact quotient truncated toward zero.
pub fn avg_of_sum(total: i128, count: usize) -> (r: Decimal)
    requires
        1 <= count,
        count as int <= MAX_AGGREGATE_ROWS as int,
        -((count as int) * (MAX_SCALED_SCORE as int)) <= total as int <= (count as int) * (
        MAX_SCALED_SCORE as int),
    ensures
        is_truncated_mean(r, total as int, count as int),
{
    proof {
        assert((count as int) * (MAX_SCALED_SCORE as int) <= 1_000_000_000_000
            * 1_000_000_000_000_000) by (nonlinear_arith)
            requires
                1 <= count as int <= 1_000_000_000_000,
        ;
    }
    let cnt: u128 = count as u128;
    let neg: bool = total < 0;
    let mag: u128 = if neg {
        (-total) as u128
    } else {
        total as u128
    };
    let num: u128 = mag * 1_000_000;
    let q: u128 = num / cnt;
    proof {
        lemma_fundamental_div_mod(num as int, cnt as int);
        // q is no larger than num itself, so it fits the mantissa type
        assert(q as int <= num as int) by (nonlinear_arith)
            requires
                num as int == (cnt as int) * (q as int) + (num as int) % (cnt as int),
                0 <= (num as int) % (cnt as int),
                cnt as int >= 1,
                0 <= q as int,
        ;
        // the quotient stays within the average-mantissa envelope
        assert((num as int) <= (cnt as int) * (MAX_AVG_MANTISSA as int)) by (nonlinear_arith)
            requires
                mag as int <= (cnt as int) * (MAX_SCALED_SCORE as int),
                num as int == (mag as int) * 1_000_000,
                MAX_SCALED_SCORE as int * 1_000_000 == MAX_AVG_MANTISSA as int,
                cnt as int >= 1,
        ;
        lemma_div_is_ordered(num as int, (cnt as int) * (MAX_AVG_MANTISSA as int), cnt as int);
        lemma_div_multiples_vanish(MAX_AVG_MANTISSA as int, cnt as int);
        assert((cnt as int) * (MAX_AVG_MANTISSA as int) == (MAX_AVG_MANTISSA as int) * (
        cnt as int)) by (nonlinear_arith);
    }
    let m: i128 = if neg {
        -(q as i128)
    } else {
        q as i128
    };
    proof {
        let t = (total as int) * (AVG_GUARD_FACTOR as int);
        let ni = num as int;
        let ci = cnt as int;
        let qi = q as int;
        assert(ni == qi * ci + ni % ci);
        assert(0 <= ni % ci < ci);
        assert(qi * ci <= ni < (qi + 1) * ci) by (nonlinear_arith)
            requires
                ni == qi * ci + ni % ci,
                0 <= ni % ci < ci,
        ;
        if neg {
            assert(t == -ni);
            assert((m as int - 1) * ci < t <= (m as int) * ci) by (nonlinear_arith)
                requires
                    m as int == -qi,
                    t == -ni,
                    qi * ci <= ni < (qi + 1) * ci,
            ;
        } else {
            assert(t == ni);
        }
        // exactness: a vanishing remainder of the signed quotient means the
        // truncation dropped nothing
        if t % ci == 0 {
            lemma_fundamental_div_mod(t, ci);
            assert(t == ci * (t / ci));
            if neg {
                assert(ni == ci * (-(t / ci))) by (nonlinear_arith)
                    requires
                        t == ci * (t / ci),
                        ni == -t,
                ;
                lemma_fundamental_div_mod_converse(ni, ci, -(t / ci), 0);
                assert(qi == -(t / ci));
                assert((m as int) * ci == t) by (nonlinear_arith)
                    requires
                        m as int == -qi,
                        qi == -(t / ci),
                        t == ci * (t / ci),
                ;
            } else {
                assert(ni == ci * (t / ci));
                lemma_fundamental_div_mod_converse(ni, ci, t / ci, 0);
                assert((m as int) * ci == t) by (nonlinear_arith)
                    requires
                        m as int == qi,
                        qi == t / ci,
                        t == ci * (t / ci),
                ;
            }
        }
    }
    Decimal { mantissa: m, scale: AVG_SCALE }
}

} // verus!
