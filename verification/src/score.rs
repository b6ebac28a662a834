//! Scores held as the bit pattern of a double-precision number, ordered and rounded to
//! single precision by integer arithmetic on the pattern.
use vstd::prelude::*;
use vstd::arithmetic::div_mod;
use vstd::arithmetic::power2;
use crate::value::Plain;

verus! {

/// A score: the bits of an IEEE 754 double.
#[derive(Debug, Clone, Copy, PartialEq, Eq, Hash, Structural)]
pub struct Score {
    pub bits: u64,
}

pub open spec fn sign_bit() -> int {
    0x8000_0000_0000_0000
}

/// The bits below the sign.
pub open spec fn magnitude(s: Score) -> int {
    if s.bits >= sign_bit() {
        s.bits - sign_bit()
    } else {
        s.bits as int
    }
}

/// Whether the pattern is not a number: beyond that of infinity.
pub open spec fn is_nan(s: Score) -> bool {
    magnitude(s) > 0x7ff0_0000_0000_0000
}

/// A value that orders numbers as their patterns say; both zeros have the same.
pub open spec fn level(s: Score) -> int {
    if s.bits >= sign_bit() {
        -magnitude(s)
    } else {
        magnitude(s)
    }
}

/// `a < b` on numbers; false where either is not a number.
pub open spec fn below(a: Score, b: Score) -> bool {
    !is_nan(a) && !is_nan(b) && level(a) < level(b)
}

/// `a >= b` on numbers; false where either is not a number.
pub open spec fn at_least(a: Score, b: Score) -> bool {
    !is_nan(a) && !is_nan(b) && level(a) >= level(b)
}

/// The greater of two scores; one that is not a number gives way.
pub open spec fn greater(a: Score, b: Score) -> Score {
    if is_nan(a) {
        b
    } else if is_nan(b) || level(a) >= level(b) {
        a
    } else {
        b
    }
}

/// The total order of patterns: negative ones first, each by its magnitude.
pub open spec fn total_level(s: Score) -> int {
    if s.bits >= sign_bit() {
        -magnitude(s) - 1
    } else {
        magnitude(s)
    }
}

// --- Single precision ---

/// The bits below the exponent.
pub open spec fn fraction_unit() -> int {
    0x10_0000_0000_0000
}

/// The step between two neighbouring singles, as a number of patterns of doubles with the
/// biased exponent `e`: 2^29 down to the least normal single, and twice as many with each
/// exponent below that one.
pub open spec fn step_at(e: int) -> int
    decreases 897 - e,
{
    if e >= 897 {
        0x2000_0000
    } else {
        2 * step_at(e + 1)
    }
}

/// A magnitude with its last `step` rounded: to the nearest, and to the even one where two are
/// equally near. The leading digit of the significand is not in the pattern and is put back
/// before it is divided.
pub open spec fn rounded_by(m: int, step: int) -> int {
    let significand = m % fraction_unit() + fraction_unit();
    let rest = significand % step;
    if 2 * rest > step || (2 * rest == step && (significand / step) % 2 == 1) {
        m - rest + step
    } else {
        m - rest
    }
}

/// The magnitude of the single that is nearest: beyond the greatest it is infinity, and up to
/// half the least one, whose exponent is 874, it is zero.
pub open spec fn rounded(m: int) -> int {
    let e = m / fraction_unit();
    if e >= 874 {
        let r = rounded_by(m, step_at(e));
        if r >= 0x47f0_0000_0000_0000 {
            0x7ff0_0000_0000_0000
        } else {
            r
        }
    } else if m > 873 * fraction_unit() {
        874 * fraction_unit()
    } else {
        0
    }
}

/// A score in single precision; what is not a number stays as it is.
pub open spec fn narrowed(s: Score) -> Score {
    if is_nan(s) {
        s
    } else if s.bits >= sign_bit() {
        Score { bits: (sign_bit() + rounded(magnitude(s))) as u64 }
    } else {
        Score { bits: rounded(magnitude(s)) as u64 }
    }
}

/// The steps fill the fractions of one exponent exactly.
proof fn lemma_step(e: int) -> (k: int)
    requires
        874 <= e,
    ensures
        k >= 1,
        step_at(e) * k == fraction_unit(),
        0x2000_0000 <= step_at(e) <= fraction_unit(),
        fraction_unit() % step_at(e) == 0,
    decreases 897 - e,
{
    let k: int = if e >= 897 {
        0x80_0000
    } else {
        power2::pow2((e - 874) as nat) as int
    };
    power2::lemma2_to64();
    power2::lemma2_to64_rest();
    if e < 897 {
        lemma_step_power(e);
        power2::lemma_pow2_adds((926 - e) as nat, (e - 874) as nat);
        power2::lemma_pow2_pos((e - 874) as nat);
        assert(step_at(e) <= fraction_unit()) by (nonlinear_arith)
            requires
                step_at(e) * k == fraction_unit(),
                k >= 1,
                step_at(e) >= 0,
        ;
    }
    div_mod::lemma_mod_multiples_basic(k, step_at(e));
    assert(k * step_at(e) == step_at(e) * k) by (nonlinear_arith);
    k
}

proof fn lemma_step_power(e: int)
    requires
        874 <= e <= 897,
    ensures
        step_at(e) == power2::pow2((926 - e) as nat),
        0x2000_0000 <= step_at(e),
    decreases 897 - e,
{
    power2::lemma2_to64();
    if e < 897 {
        lemma_step_power(e + 1);
        power2::lemma_pow2_unfold((926 - e) as nat);
    }
}

proof fn lemma_rounded_bounds(m: int)
    requires
        0 <= m <= 0x7ff0_0000_0000_0000,
    ensures
        0 <= rounded(m) <= 0x7ff0_0000_0000_0000,
{
    let e = m / fraction_unit();
    if e >= 874 {
        let k = lemma_step(e);
        let sig = m % fraction_unit() + fraction_unit();
        assert(sig - sig % step_at(e) >= fraction_unit()) by {
            lemma_quotient(sig, step_at(e), k);
        }
    }
}

/// A significand holds at least the steps of one exponent and fewer than those of two.
proof fn lemma_quotient(sig: int, step: int, k: int)
    requires
        step > 0,
        k >= 1,
        step * k == fraction_unit(),
        fraction_unit() <= sig < 2 * fraction_unit(),
    ensures
        sig == step * (sig / step) + sig % step,
        0 <= sig % step < step,
        k <= sig / step < 2 * k,
        step * (sig / step) >= fraction_unit(),
{
    let q = sig / step;
    div_mod::lemma_fundamental_div_mod(sig, step);
    let rest = sig % step;
    assert(k <= q < 2 * k) by (nonlinear_arith)
        requires
            step > 0,
            sig == step * q + rest,
            0 <= rest < step,
            step * k <= sig < 2 * (step * k),
    ;
    assert(step * q >= step * k) by (nonlinear_arith)
        requires
            step > 0,
            q >= k,
    ;
}

fn step(e: u64) -> (r: u64)
    requires
        e >= 874,
    ensures
        r == step_at(e as int),
    decreases 897 - e,
{
    proof {
        let _ = lemma_step(e as int);
    }
    if e >= 897 {
        0x2000_0000
    } else {
        2 * step(e + 1)
    }
}

fn round_magnitude(m: u64) -> (r: u64)
    requires
        m <= 0x7ff0_0000_0000_0000,
    ensures
        r == rounded(m as int),
{
    let unit: u64 = 0x10_0000_0000_0000;
    let e: u64 = m / unit;
    if e >= 874 {
        let width: u64 = step(e);
        proof {
            let _ = lemma_step(e as int);
        }
        let significand: u64 = m % unit + unit;
        let rest: u64 = significand % width;
        let up: bool = 2 * rest > width || (2 * rest == width && (significand / width) % 2 == 1);
        let r: u64 = if up {
            m - rest + width
        } else {
            m - rest
        };
        if r >= 0x47f0_0000_0000_0000 {
            0x7ff0_0000_0000_0000
        } else {
            r
        }
    } else if m > 873 * unit {
        874 * unit
    } else {
        0
    }
}

/// A score that may be missing, in single precision.
pub open spec fn narrowed_opt(s: Option<Score>) -> Option<Score> {
    match s {
        Some(x) => Some(narrowed(x)),
        None => None,
    }
}

impl Score {
    /// The score in single precision: the nearest, and the even one where two are equally near.
    pub fn narrow(self) -> (r: Score)
        ensures
            r == narrowed(self),
    {
        if self.not_a_number() {
            return self;
        }
        proof {
            lemma_rounded_bounds(magnitude(self));
        }
        let m: u64 = round_magnitude(self.magnitude_bits());
        if self.bits >= 0x8000_0000_0000_0000 {
            Score { bits: 0x8000_0000_0000_0000 + m }
        } else {
            Score { bits: m }
        }
    }

    fn magnitude_bits(self) -> (r: u64)
        ensures
            r == magnitude(self),
    {
        if self.bits >= 0x8000_0000_0000_0000 {
            self.bits - 0x8000_0000_0000_0000
        } else {
            self.bits
        }
    }

    pub fn not_a_number(self) -> (r: bool)
        ensures
            r == is_nan(self),
    {
        self.magnitude_bits() > 0x7ff0_0000_0000_0000
    }

    /// The place of the number among numbers; both zeros have the same.
    pub fn numeric_level(self) -> (r: i128)
        ensures
            r == level(self),
    {
        let m: i128 = self.magnitude_bits() as i128;
        if self.bits >= 0x8000_0000_0000_0000 {
            -m
        } else {
            m
        }
    }

    pub fn less_than(self, other: Score) -> (r: bool)
        ensures
            r == below(self, other),
    {
        !self.not_a_number() && !other.not_a_number() && self.numeric_level() < other.numeric_level()
    }

    pub fn at_least(self, other: Score) -> (r: bool)
        ensures
            r == at_least(self, other),
    {
        !self.not_a_number() && !other.not_a_number() && self.numeric_level() >= other.numeric_level()
    }

    pub fn max_of(self, other: Score) -> (r: Score)
        ensures
            r == greater(self, other),
    {
        if self.not_a_number() {
            other
        } else if other.not_a_number() || self.numeric_level() >= other.numeric_level() {
            self
        } else {
            other
        }
    }

    /// The place of the pattern in the total order.
    pub fn total(self) -> (r: i128)
        ensures
            r == total_level(self),
    {
        let m: i128 = self.magnitude_bits() as i128;
        if self.bits >= 0x8000_0000_0000_0000 {
            -m - 1
        } else {
            m
        }
    }
}

impl DeepView for Score {
    type V = Score;

    open spec fn deep_view(&self) -> Score {
        *self
    }
}

impl Plain for Score {
    fn copy(&self) -> (r: Score) {
        *self
    }

    fn same(&self, other: &Score) -> (r: bool) {
        *self == *other
    }
}

// --- Laws ---

/// A score in single precision stays what it is.
pub proof fn narrowing_twice_changes_nothing(s: Score)
    ensures
        narrowed(narrowed(s)) == narrowed(s),
{
    if !is_nan(s) {
        let m = magnitude(s);
        lemma_rounded_bounds(m);
        lemma_rounded_twice(m);
        assert(magnitude(narrowed(s)) == rounded(m));
    }
}

proof fn lemma_rounded_twice(m: int)
    requires
        0 <= m <= 0x7ff0_0000_0000_0000,
    ensures
        rounded(rounded(m)) == rounded(m),
{
    let u = fraction_unit();
    let e = m / u;
    assert(rounded(0x7ff0_0000_0000_0000) == 0x7ff0_0000_0000_0000) by {
        let _ = lemma_step(0x7ff);
    }
    if e >= 874 {
        let step = step_at(e);
        let k = lemma_step(e);
        let r = rounded_by(m, step);
        let sig = m % u + u;
        let q = sig / step;
        lemma_quotient(sig, step, k);
        let n: int = if r == m - sig % step {
            q
        } else {
            q + 1
        };
        assert(step * (q + 1) == step * q + step) by (nonlinear_arith);
        assert(r == (e - 1) * u + step * n);
        assert(u <= step * n) by (nonlinear_arith)
            requires
                step * k == u,
                n >= k,
                step > 0,
        ;
        if n < 2 * k {
            assert(step * n < 2 * u) by (nonlinear_arith)
                requires
                    step * k == u,
                    n < 2 * k,
                    step > 0,
            ;
            assert(r / u == e && r % u + u == step * n);
            div_mod::lemma_mod_multiples_basic(n, step);
            assert(n * step == step * n) by (nonlinear_arith);
        } else {
            assert(n == 2 * k);
            assert(step * n == 2 * u) by (nonlinear_arith)
                requires
                    step * k == u,
                    n == 2 * k,
            ;
            assert(r / u == e + 1 && r % u == 0);
            let _ = lemma_step(e + 1);
        }
        assert(rounded_by(r, step_at(r / u)) == r);
    } else {
        let _ = lemma_step(874);
    }
}

/// Numbers that are not below zero are in the order of their bits, those below zero in the
/// reverse order and before the others, and the two zeros are equal.
pub proof fn bits_order_numbers(a: Score, b: Score)
    requires
        !is_nan(a),
        !is_nan(b),
    ensures
        a.bits < 0x8000_0000_0000_0000 && b.bits < 0x8000_0000_0000_0000 ==> (below(a, b) <==> a.bits
            < b.bits),
        a.bits >= 0x8000_0000_0000_0000 && b.bits >= 0x8000_0000_0000_0000 ==> (below(a, b)
            <==> a.bits > b.bits),
        a.bits >= 0x8000_0000_0000_0000 && b.bits < 0x8000_0000_0000_0000 ==> (below(a, b) <==> !(
        a.bits == 0x8000_0000_0000_0000 && b.bits == 0)),
        at_least(a, b) == !below(a, b),
{
}

/// The greater of two scores is one of them, and not below either as long as that is a number.
pub proof fn greater_is_not_below(a: Score, b: Score)
    ensures
        greater(a, b) == a || greater(a, b) == b,
        !below(greater(a, b), a),
        !below(greater(a, b), b),
        is_nan(greater(a, b)) <==> is_nan(a) && is_nan(b),
{
}

/// Rounding a magnitude takes the nearest multiple of the step, counted with the leading digit,
/// and the even one where two are equally near.
pub proof fn rounding_takes_the_nearest(m: int, step: int)
    requires
        0 <= m,
        0 < step,
    ensures
        ({
            let r = rounded_by(m, step);
            let significand = m % fraction_unit() + fraction_unit() + (r - m);
            &&& significand % step == 0
            &&& -step <= 2 * (r - m) <= step
            &&& 2 * (r - m) == step || 2 * (r - m) == -step ==> (significand / step) % 2 == 0
        }),
{
    let s = m % fraction_unit() + fraction_unit();
    let rest = s % step;
    let q = s / step;
    vstd::arithmetic::div_mod::lemma_fundamental_div_mod(s, step);
    vstd::arithmetic::div_mod::lemma_mod_bound(s, step);
    let r = rounded_by(m, step);
    let t = s + (r - m);
    if 2 * rest > step || (2 * rest == step && q % 2 == 1) {
        assert(t == (q + 1) * step) by (nonlinear_arith)
            requires
                t == s - rest + step,
                s == step * q + rest,
        ;
        vstd::arithmetic::div_mod::lemma_fundamental_div_mod_converse(t, step, q + 1, 0);
    } else {
        assert(t == q * step) by (nonlinear_arith)
            requires
                t == s - rest,
                s == step * q + rest,
        ;
        vstd::arithmetic::div_mod::lemma_fundamental_div_mod_converse(t, step, q, 0);
    }
}

} // verus!
