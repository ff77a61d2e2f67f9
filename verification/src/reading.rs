//! What numbers and expressions come to over the real numbers.
//!
//! An [`Arithmetic`](crate::number::Arithmetic) rounds, and nothing is assumed
//! of how. What an operation is for is stated here without rounding: a
//! [`Double`] stands for a real number, and an expression for the real number
//! that its operations give.

use crate::number::{Double, HALF, NEGATIVE_ZERO, ONE, TWO, ZERO};
use vstd::prelude::*;

verus! {

/// A power of two.
pub open spec fn power(n: int) -> real
    decreases
            if n >= 0 {
                n
            } else {
                -n
            },
{
    if n == 0 {
        1 as real
    } else if n > 0 {
        2 as real * power(n - 1)
    } else {
        power(n + 1) / 2 as real
    }
}

/// Number of patterns that share an exponent.
pub open spec fn binade() -> int {
    0x10_0000_0000_0000
}

/// The real number that a magnitude stands for.
pub open spec fn exact_magnitude(m: int) -> real {
    let e = m / binade();
    if e == 0 {
        m as real * power(-1074)
    } else {
        (binade() + m % binade()) as real * power(e - 1075)
    }
}

/// The real number that a finite number stands for.
pub open spec fn exact(x: Double) -> real {
    if x.negative() {
        -exact_magnitude(x.magnitude())
    } else {
        exact_magnitude(x.magnitude())
    }
}

/// Functions that have no closed form, over the real numbers.
pub struct Functions {
    /// A square root.
    pub root: spec_fn(real) -> real,
    /// An exponential.
    pub exp: spec_fn(real) -> real,
    /// A natural logarithm.
    pub ln: spec_fn(real) -> real,
    /// A sine.
    pub sin: spec_fn(real) -> real,
    /// A cosine.
    pub cos: spec_fn(real) -> real,
}

/// The square of a real number.
pub open spec fn square(x: real) -> real {
    x * x
}

impl Functions {
    /// Whether the square root is one: not negative, and its square gives the
    /// number back.
    pub open spec fn takes_roots(self) -> bool {
        forall|x: real|
            x >= 0 as real ==> (#[trigger] (self.root)(x)) >= 0 as real && square((self.root)(x))
                == x
    }

    /// Whether the exponential and the logarithm undo each other, and the
    /// exponential is above zero.
    pub open spec fn takes_logarithms(self) -> bool {
        &&& forall|x: real| (#[trigger] (self.exp)(x)) > 0 as real
        &&& forall|x: real| (self.ln)(#[trigger] (self.exp)(x)) == x
        &&& forall|x: real| x > 0 as real ==> (self.exp)(#[trigger] (self.ln)(x)) == x
    }
}

/// The distance of a real number from zero.
pub open spec fn distance(x: real) -> real {
    if x < 0 as real {
        -x
    } else {
        x
    }
}

/// The larger of two real numbers.
pub open spec fn larger(x: real, y: real) -> real {
    if y < x {
        x
    } else {
        y
    }
}

/// What an expression comes to when nothing is rounded.
pub open spec fn reading(f: Functions, e: crate::number::Expr) -> real
    decreases e,
{
    match e {
        crate::number::Expr::Lit(x) => exact(x),
        crate::number::Expr::Int(n) => n as int as real,
        crate::number::Expr::Add(a, b) => reading(f, *a) + reading(f, *b),
        crate::number::Expr::Sub(a, b) => reading(f, *a) - reading(f, *b),
        crate::number::Expr::Mul(a, b) => reading(f, *a) * reading(f, *b),
        crate::number::Expr::Div(a, b) => reading(f, *a) / reading(f, *b),
        crate::number::Expr::Sqrt(a) => (f.root)(reading(f, *a)),
        crate::number::Expr::Exp(a) => (f.exp)(reading(f, *a)),
        crate::number::Expr::Ln(a) => (f.ln)(reading(f, *a)),
        crate::number::Expr::Sin(a) => (f.sin)(reading(f, *a)),
        crate::number::Expr::Cos(a) => (f.cos)(reading(f, *a)),
        crate::number::Expr::Abs(a) => distance(reading(f, *a)),
        crate::number::Expr::Neg(a) => -reading(f, *a),
        crate::number::Expr::Floor(a, b) => larger(reading(f, *a), reading(f, *b)),
        crate::number::Expr::IfAbove(a, b, t, u) => if reading(f, *b) < reading(f, *a) {
            reading(f, *t)
        } else {
            reading(f, *u)
        },
    }
}

/// The sum of the first `n` numbers.
pub open spec fn total(values: spec_fn(int) -> real, n: int) -> real
    decreases n,
{
    if n <= 0 {
        0 as real
    } else {
        total(values, n - 1) + values(n - 1)
    }
}

/// Powers of two are above zero, and each is twice the one before.
pub proof fn lemma_power(n: int)
    ensures
        power(n) > 0 as real,
        power(n + 1) == 2 as real * power(n),
    decreases
            if n >= 0 {
                n
            } else {
                -n
            },
{
    if n > 0 {
        lemma_power(n - 1);
    } else if n < 0 {
        lemma_power(n + 1);
        assert(power(n) == power(n + 1) / 2 as real);
    }
}

proof fn lemma_next_magnitude(m: int)
    requires
        0 <= m,
    ensures
        exact_magnitude(m) < exact_magnitude(m + 1),
        0 as real <= exact_magnitude(m),
{
    let e = m / binade();
    let rest = m % binade();
    lemma_power(-1074);
    lemma_power(e - 1075);
    let p = power(e - 1075);
    if e == 0 {
        let q = power(-1074);
        let a = m as real;
        assert(a * q >= 0 as real && (a + 1 as real) * q > a * q) by (nonlinear_arith)
            requires
                a >= 0 as real,
                q > 0 as real,
        ;
        assert((m + 1) as real == a + 1 as real);
    }
    if e > 0 {
        let a = (binade() + rest) as real;
        assert(a * p >= 0 as real) by (nonlinear_arith)
            requires
                a >= 0 as real,
                p > 0 as real,
        ;
    }
    if rest + 1 < binade() {
        assert((m + 1) / binade() == e && (m + 1) % binade() == rest + 1) by {
            vstd::arithmetic::div_mod::lemma_fundamental_div_mod(m, binade());
            vstd::arithmetic::div_mod::lemma_fundamental_div_mod_converse(
                m + 1,
                binade(),
                e,
                rest + 1,
            );
        }
        if e > 0 {
            let a = (binade() + rest) as real;
            assert((a + 1 as real) * p > a * p) by (nonlinear_arith)
                requires
                    p > 0 as real,
            ;
        }
    } else {
        assert((m + 1) / binade() == e + 1 && (m + 1) % binade() == 0) by {
            vstd::arithmetic::div_mod::lemma_fundamental_div_mod(m, binade());
            assert(m == binade() * e + rest);
            vstd::arithmetic::div_mod::lemma_fundamental_div_mod_converse(
                m + 1,
                binade(),
                e + 1,
                0,
            );
        }
        assert(power(e - 1074) == 2 as real * p);
        if e > 0 {
            let a = (binade() + rest) as real;
            let b = binade() as real;
            assert(a + 1 as real == 2 as real * b);
            assert(a * p < b * (2 as real * p)) by (nonlinear_arith)
                requires
                    a + 1 as real == 2 as real * b,
                    p > 0 as real,
            ;
        }
    }
}

proof fn lemma_magnitudes(m: int, n: int)
    requires
        0 <= m < n,
    ensures
        exact_magnitude(m) < exact_magnitude(n),
        0 as real <= exact_magnitude(m),
    decreases n - m,
{
    lemma_next_magnitude(m);
    if m + 1 < n {
        lemma_magnitudes(m + 1, n);
    }
}

/// The orders of numbers are those of the real numbers they stand for.
pub proof fn lemma_order(x: Double, y: Double)
    requires
        x.finite(),
        y.finite(),
    ensures
        x.lt(y) <==> exact(x) < exact(y),
        x.le(y) <==> exact(x) <= exact(y),
        x.eq_number(y) <==> exact(x) == exact(y),
{
    let m = x.magnitude();
    let n = y.magnitude();
    assert(exact_magnitude(0) == 0 as real);
    lemma_magnitudes(0, m + 1);
    lemma_magnitudes(0, n + 1);
    if 0 < m {
        lemma_magnitudes(0, m);
    }
    if 0 < n {
        lemma_magnitudes(0, n);
    }
    if m < n {
        lemma_magnitudes(m, n);
    } else if n < m {
        lemma_magnitudes(n, m);
    }
}

/// A number without its sign stands for its distance from zero, and one with
/// the opposite sign for the opposite.
pub proof fn lemma_signs(x: Double)
    ensures
        exact(x.abs()) == distance(exact(x)),
        exact(x.neg()) == -exact(x),
{
    assert(exact_magnitude(0) == 0 as real);
    lemma_next_magnitude(x.magnitude());
    if x.magnitude() > 0 {
        lemma_magnitudes(0, x.magnitude());
    }
}

proof fn lemma_small_powers()
    ensures
        power(0) == 1 as real,
        power(20) == 1_048_576 as real,
        power(52) == 0x10_0000_0000_0000 as real,
{
    reveal_with_fuel(power, 6);
    assert(power(5) == 32 as real);
    assert(power(10) == 1024 as real);
    assert(power(15) == 32_768 as real);
    assert(power(20) == 1_048_576 as real);
    assert(power(25) == 33_554_432 as real);
    assert(power(30) == 1_073_741_824 as real);
    assert(power(35) == 34_359_738_368 as real);
    assert(power(40) == 1_099_511_627_776 as real);
    assert(power(45) == 35_184_372_088_832 as real);
    assert(power(50) == 1_125_899_906_842_624 as real);
    assert(power(52) == 0x10_0000_0000_0000 as real);
}

/// A power of two times its inverse is one.
pub proof fn lemma_inverse_power(n: int)
    requires
        n >= 0,
    ensures
        power(n) * power(-n) == 1 as real,
    decreases n,
{
    if n > 0 {
        lemma_inverse_power(n - 1);
        let a = power(n - 1);
        let b = power(1 - n);
        assert(power(-n) == b / 2 as real);
        assert((2 as real * a) * (b / 2 as real) == a * b) by (nonlinear_arith);
    } else {
        assert(power(0) == 1 as real);
    }
}

/// Powers of two multiply by adding.
pub proof fn lemma_power_sum(m: int, n: int)
    requires
        n >= 0,
    ensures
        power(m + n) == power(m) * power(n),
    decreases n,
{
    if n > 0 {
        lemma_power_sum(m, n - 1);
        lemma_power(m + n - 1);
        let a = power(m);
        let b = power(n - 1);
        assert(2 as real * (a * b) == a * (2 as real * b)) by (nonlinear_arith);
    } else {
        assert(power(0) == 1 as real);
    }
}

/// A positive pattern with an exponent stands for its digits, shifted.
pub proof fn lemma_digits(bits: u64, shift: int)
    requires
        0 <= shift,
        binade() <= bits < crate::number::SIGN_BIT,
        bits as int / binade() == 1075 - shift,
    ensures
        exact(Double { bits }) * power(shift) == (binade() + bits as int % binade()) as real,
{
    lemma_inverse_power(shift);
    let d = (binade() + bits as int % binade()) as real;
    let p = power(shift);
    let q = power(-shift);
    assert((d * q) * p == d) by (nonlinear_arith)
        requires
            p * q == 1 as real,
    ;
}

/// The named numbers stand for what their names say.
pub proof fn lemma_constants()
    ensures
        exact(Double { bits: ZERO }) == 0 as real,
        exact(Double { bits: NEGATIVE_ZERO }) == 0 as real,
        exact(Double { bits: ONE }) == 1 as real,
        exact(Double { bits: TWO }) == 2 as real,
        2 as real * exact(Double { bits: HALF }) == 1 as real,
        exact(Double { bits: crate::number::EPSILON }) == power(-52),
        power(-52) > 0 as real,
{
    lemma_small_powers();
    lemma_power(-52);
    lemma_power(52);
    lemma_power(51);
    lemma_inverse_power(52);
    lemma_digits(ONE, 52);
    lemma_digits(TWO, 51);
    lemma_digits(HALF, 53);
    lemma_power_sum(-104, 52);
    let p = power(52);
    let b = 0x10_0000_0000_0000 as real;
    let one = exact(Double { bits: ONE });
    assert(one == 1 as real) by (nonlinear_arith)
        requires
            one * p == b,
            p == b,
            b > 0 as real,
    ;
    let two = exact(Double { bits: TWO });
    let half_p = power(51);
    assert(two == 2 as real) by (nonlinear_arith)
        requires
            two * half_p == b,
            p == 2 as real * half_p,
            p == b,
            b > 0 as real,
    ;
    let half = exact(Double { bits: HALF });
    let twice_p = power(53);
    assert(2 as real * half == 1 as real) by (nonlinear_arith)
        requires
            half * twice_p == b,
            twice_p == 2 as real * p,
            p == b,
            b > 0 as real,
    ;
    assert(crate::number::EPSILON as int / binade() == 971);
    assert(crate::number::EPSILON as int % binade() == 0);
    assert(exact(Double { bits: crate::number::EPSILON }) == b * power(-104));
}

/// A quotient times its divisor is its dividend.
pub proof fn lemma_quotient(x: real, y: real)
    requires
        y != 0 as real,
    ensures
        (x / y) * y == x,
{
    assert((x / y) * y == x) by (nonlinear_arith)
        requires
            y != 0 as real,
    ;
}

/// The sum of expressions comes to the sum of what they come to.
pub proof fn lemma_sum(f: Functions, terms: Seq<crate::number::Expr>)
    ensures
        reading(f, crate::transform::sum(terms)) == total(
            |i: int| reading(f, terms[i]),
            terms.len() as int,
        ),
    decreases terms.len(),
{
    lemma_constants();
    if terms.len() > 0 {
        let rest = terms.drop_last();
        lemma_sum(f, rest);
        lemma_totals(
            |i: int| reading(f, rest[i]),
            |i: int| reading(f, terms[i]),
            rest.len() as int,
        );
    }
}

/// Sums of equal numbers are equal.
pub proof fn lemma_totals(a: spec_fn(int) -> real, b: spec_fn(int) -> real, n: int)
    requires
        forall|i: int| 0 <= i < n ==> #[trigger] a(i) == b(i),
    ensures
        total(a, n) == total(b, n),
    decreases n,
{
    if n > 0 {
        lemma_totals(a, b, n - 1);
        assert(a(n - 1) == b(n - 1));
    }
}

/// A sum of numbers none of which is negative is not negative.
pub proof fn lemma_total_not_negative(a: spec_fn(int) -> real, n: int)
    requires
        forall|i: int| 0 <= i < n ==> #[trigger] a(i) >= 0 as real,
    ensures
        total(a, n) >= 0 as real,
    decreases n,
{
    if n > 0 {
        lemma_total_not_negative(a, n - 1);
        assert(a(n - 1) >= 0 as real);
    }
}

/// A power of two with an exponent that is not negative is an integer.
pub proof fn lemma_power_integer(n: nat)
    ensures
        power(n as int) == vstd::arithmetic::power2::pow2(n) as real,
    decreases n,
{
    vstd::arithmetic::power2::lemma2_to64();
    if n > 0 {
        lemma_power_integer((n - 1) as nat);
        vstd::arithmetic::power2::lemma_pow2_unfold(n);
    }
}

/// What a positive pattern of a number below `0x10_0000_0000_0000` stands for,
/// times its scale, is the integer of its digits.
pub proof fn lemma_literal(bits: u64, shift: nat)
    requires
        binade() <= bits < crate::number::SIGN_BIT,
        bits as int / binade() == 1075 - shift,
    ensures
        exact(Double { bits }) * (vstd::arithmetic::power2::pow2(shift) as real) == (binade() + bits
            as int % binade()) as real,
        vstd::arithmetic::power2::pow2(shift) > 0,
{
    lemma_digits(bits, shift as int);
    lemma_power_integer(shift);
    vstd::arithmetic::power2::lemma_pow2_pos(shift);
}

/// The sum of what a function gives for some numbers.
pub open spec fn gathered(values: Seq<Double>, g: spec_fn(Double) -> real) -> real {
    total(|i: int| g(values[i]), values.len() as int)
}

/// The arithmetic mean of some numbers.
pub open spec fn mean_of(values: Seq<Double>) -> real {
    gathered(values, |x: Double| exact(x)) / (values.len() as real)
}

/// The sum of the squared distances of some numbers from their mean.
pub open spec fn squares_of(values: Seq<Double>) -> real {
    gathered(values, |x: Double| square(exact(x) - mean_of(values)))
}

/// Sums over two sequences add up to the sum over both.
pub proof fn lemma_gathered_append(a: Seq<Double>, b: Seq<Double>, g: spec_fn(Double) -> real)
    ensures
        gathered(a + b, g) == gathered(a, g) + gathered(b, g),
    decreases b.len(),
{
    if b.len() == 0 {
        assert(a + b =~= a);
    } else {
        let c = b.drop_last();
        lemma_gathered_append(a, c, g);
        let n = (a + b).len() as int;
        lemma_totals(|i: int| g((a + c)[i]), |i: int| g((a + b)[i]), n - 1);
        lemma_totals(|i: int| g(c[i]), |i: int| g(b[i]), b.len() - 1);
    }
}

/// The sum over one number more.
pub proof fn lemma_gathered_push(a: Seq<Double>, v: Double, g: spec_fn(Double) -> real)
    ensures
        gathered(a.push(v), g) == gathered(a, g) + g(v),
{
    let b = a.push(v);
    lemma_totals(|i: int| g(a[i]), |i: int| g(b[i]), a.len() as int);
}

/// The sum over a sequence with one number replaced.
pub proof fn lemma_gathered_update(
    a: Seq<Double>,
    k: int,
    v: Double,
    g: spec_fn(Double) -> real,
)
    requires
        0 <= k < a.len(),
    ensures
        gathered(a.update(k, v), g) == gathered(a, g) - g(a[k]) + g(v),
{
    let head = a.take(k);
    let tail = a.skip(k + 1);
    assert(a =~= head.push(a[k]) + tail);
    assert(a.update(k, v) =~= head.push(v) + tail);
    lemma_gathered_append(head.push(a[k]), tail, g);
    lemma_gathered_append(head.push(v), tail, g);
    lemma_gathered_push(head, a[k], g);
    lemma_gathered_push(head, v, g);
}

/// The sum over a sequence read from another place on is the same.
pub proof fn lemma_gathered_rotated(a: Seq<Double>, k: int, g: spec_fn(Double) -> real)
    requires
        0 <= k <= a.len(),
    ensures
        gathered(a.skip(k) + a.take(k), g) == gathered(a, g),
{
    assert(a =~= a.take(k) + a.skip(k));
    lemma_gathered_append(a.take(k), a.skip(k), g);
    lemma_gathered_append(a.skip(k), a.take(k), g);
}

/// Sums of what two functions give alike are equal.
pub proof fn lemma_gathered_alike(
    a: Seq<Double>,
    g: spec_fn(Double) -> real,
    h: spec_fn(Double) -> real,
)
    requires
        forall|i: int| 0 <= i < a.len() ==> g(#[trigger] a[i]) == h(a[i]),
    ensures
        gathered(a, g) == gathered(a, h),
{
    let x = |i: int| g(a[i]);
    let y = |i: int| h(a[i]);
    assert forall|i: int| 0 <= i < a.len() implies #[trigger] x(i) == y(i) by {
        assert(g(a[i]) == h(a[i]));
    }
    lemma_totals(x, y, a.len() as int);
}

/// Distances from a level, and their squares, give the mean and the squared
/// distances from it.
pub proof fn lemma_moments(values: Seq<Double>, level: real, offset: real)
    requires
        values.len() > 0,
        (values.len() as real) * offset == gathered(values, |x: Double| exact(x) - level),
    ensures
        level + offset == mean_of(values),
        squares_of(values) == gathered(values, |x: Double| square(exact(x) - level)) - (
        values.len() as real) * (offset * offset),
        squares_of(values) >= 0 as real,
{
    let n = values.len() as real;
    lemma_gathered_level(values, level, offset, values.len() as int);
    let t = gathered(values, |x: Double| exact(x));
    lemma_quotient(t, n);
    let m = mean_of(values);
    assert(level + offset == m) by (nonlinear_arith)
        requires
            m * n == t,
            n * offset == t - n * level,
            n > 0 as real,
    ;
    let p = gathered(values, |x: Double| square(exact(x) - level));
    let s = gathered(values, |x: Double| square(exact(x) - (level + offset)));
    lemma_gathered_alike(
        values,
        |x: Double| square(exact(x) - (level + offset)),
        |x: Double| square(exact(x) - mean_of(values)),
    );
    let q = gathered(values, |x: Double| exact(x) - level);
    assert(s == p - 2 as real * (offset * q) + n * (offset * offset));
    assert(offset * q == n * (offset * offset)) by (nonlinear_arith)
        requires
            n * offset == q,
    ;
    let d = |i: int| square(exact(values[i]) - mean_of(values));
    assert forall|i: int| 0 <= i < values.len() implies #[trigger] d(i) >= 0 as real by {
        let y = exact(values[i]) - mean_of(values);
        assert(y * y >= 0 as real) by (nonlinear_arith);
    }
    lemma_total_not_negative(d, values.len() as int);
    lemma_totals(
        d,
        |i: int| (|x: Double| square(exact(x) - mean_of(values)))(values[i]),
        values.len() as int,
    );
}

proof fn lemma_gathered_level(values: Seq<Double>, level: real, offset: real, n: int)
    requires
        0 <= n <= values.len(),
    ensures
        total(|i: int| exact(values[i]) - level, n) == total(|i: int| exact(values[i]), n) - (
        n as real) * level,
        total(|i: int| square(exact(values[i]) - (level + offset)), n) == total(
            |i: int| square(exact(values[i]) - level),
            n,
        ) - 2 as real * (offset * total(|i: int| exact(values[i]) - level, n)) + (n as real) * (
        offset * offset),
        gathered(values, |x: Double| exact(x) - level) == total(
            |i: int| exact(values[i]) - level,
            values.len() as int,
        ),
        gathered(values, |x: Double| exact(x)) == total(
            |i: int| exact(values[i]),
            values.len() as int,
        ),
        gathered(values, |x: Double| square(exact(x) - level)) == total(
            |i: int| square(exact(values[i]) - level),
            values.len() as int,
        ),
        gathered(values, |x: Double| square(exact(x) - (level + offset))) == total(
            |i: int| square(exact(values[i]) - (level + offset)),
            values.len() as int,
        ),
    decreases n,
{
    let all = values.len() as int;
    lemma_totals(
        |i: int| (|x: Double| exact(x) - level)(values[i]),
        |i: int| exact(values[i]) - level,
        all,
    );
    lemma_totals(|i: int| (|x: Double| exact(x))(values[i]), |i: int| exact(values[i]), all);
    lemma_totals(
        |i: int| (|x: Double| square(exact(x) - level))(values[i]),
        |i: int| square(exact(values[i]) - level),
        all,
    );
    lemma_totals(
        |i: int| (|x: Double| square(exact(x) - (level + offset)))(values[i]),
        |i: int| square(exact(values[i]) - (level + offset)),
        all,
    );
    if n > 0 {
        lemma_gathered_level(values, level, offset, n - 1);
        let k = (n - 1) as real;
        let y = exact(values[n - 1]) - level;
        let q = total(|i: int| exact(values[i]) - level, n - 1);
        assert(k * level + level == (k + 1 as real) * level) by (nonlinear_arith);
        assert((y - offset) * (y - offset) == y * y - 2 as real * (offset * y) + offset * offset)
            by (nonlinear_arith);
        assert(offset * (q + y) == offset * q + offset * y) by (nonlinear_arith);
        let o = offset * offset;
        assert(k * o + o == (k + 1 as real) * o) by (nonlinear_arith);
        assert(exact(values[n - 1]) - (level + offset) == y - offset);
    } else {
        assert((0 as real) * level == 0 as real);
        assert(offset * (0 as real) == 0 as real);
        assert((0 as real) * (offset * offset) == 0 as real);
    }
}

/// Whether a positive pattern stands for a fraction as nearly as digits allow.
pub open spec fn nearly(bits: u64, numerator: int, denominator: int) -> bool {
    distance(exact(Double { bits }) * (denominator as real) - numerator as real) * (
    0x20_0000_0000_0000 as real) <= numerator as real
}

/// Digits that are near a fraction stand for it nearly.
pub proof fn lemma_nearly(bits: u64, shift: nat, scale: int, numerator: int, denominator: int)
    requires
        binade() <= bits < crate::number::SIGN_BIT,
        bits as int / binade() == 1075 - shift,
        scale == vstd::arithmetic::power2::pow2(shift),
        numerator > 0,
        denominator > 0,
        ({
            let gap = (binade() + bits as int % binade()) * denominator - numerator * scale;
            -(numerator * scale) <= gap * 0x20_0000_0000_0000 <= numerator * scale
        }),
    ensures
        nearly(bits, numerator, denominator),
{
    lemma_literal(bits, shift);
    let x = exact(Double { bits });
    let s = scale as real;
    let d = denominator as real;
    let n = numerator as real;
    let digits = binade() + bits as int % binade();
    let y = digits as real;
    assert(x * s == y);
    let gap = digits * denominator - numerator * scale;
    assert((digits * denominator) as real == y * d) by {
        lemma_product(digits, denominator);
    }
    assert((numerator * scale) as real == n * s) by {
        lemma_product(numerator, scale);
    }
    let g = gap as real;
    assert(g == y * d - n * s);
    let z = x * d - n;
    assert(z * s == g) by (nonlinear_arith)
        requires
            x * s == y,
            g == y * d - n * s,
            z == x * d - n,
    ;
    let w = 0x20_0000_0000_0000 as real;
    assert((gap * 0x20_0000_0000_0000) as real == g * w);
    assert(-(n * s) <= g * w <= n * s);
    assert(z * w <= n && -(z * w) <= n) by (nonlinear_arith)
        requires
            z * s == g,
            -(n * s) <= g * w <= n * s,
            s > 0 as real,
    ;
    assert(distance(z) * w == z * w || distance(z) * w == -(z * w)) by (nonlinear_arith)
        requires
            distance(z) == z || distance(z) == -z,
    ;
}

proof fn lemma_product(a: int, b: int)
    requires
        a >= 0,
    ensures
        (a * b) as real == (a as real) * (b as real),
    decreases a,
{
    if a > 0 {
        lemma_product(a - 1, b);
        assert(a * b == (a - 1) * b + b) by (nonlinear_arith);
        let x = (a - 1) as real;
        let y = b as real;
        assert((x + 1 as real) * y == x * y + y) by (nonlinear_arith);
        assert(((a - 1) * b + b) as real == ((a - 1) * b) as real + y);
    } else {
        assert(a * b == 0) by (nonlinear_arith)
            requires
                a == 0,
        ;
        assert((0 as real) * (b as real) == 0 as real);
    }
}

/// A pattern without digits to lose stands for an integer.
pub proof fn lemma_whole(bits: u64, shift: nat, scale: int, n: int)
    requires
        binade() <= bits < crate::number::SIGN_BIT,
        bits as int / binade() == 1075 - shift,
        scale == vstd::arithmetic::power2::pow2(shift),
        n >= 0,
        binade() + bits as int % binade() == n * scale,
    ensures
        exact(Double { bits }) == n as real,
{
    lemma_literal(bits, shift);
    lemma_product(n, scale);
    let x = exact(Double { bits });
    let s = scale as real;
    let y = n as real;
    assert(x == y) by (nonlinear_arith)
        requires
            x * s == y * s,
            s > 0 as real,
    ;
}

/// Comparing finite numbers compares the real numbers they stand for, and so
/// do taking off the sign, turning it and taking the larger of two.
pub proof fn lemma_comparisons_are_of_reals(
    x: Double,
    y: Double,
    below: bool,
    at_most: bool,
    equal: bool,
    absolute: Double,
    negated: Double,
    larger: Double,
)
    requires
        x.finite(),
        y.finite(),
        call_ensures(Double::is_below, (x, y), below),
        call_ensures(Double::is_at_most, (x, y), at_most),
        call_ensures(Double::equals, (x, y), equal),
        call_ensures(Double::absolute, (x,), absolute),
        call_ensures(Double::negated, (x,), negated),
        call_ensures(Double::at_least, (x, y), larger),
    ensures
        below <==> exact(x) < exact(y),
        at_most <==> exact(x) <= exact(y),
        equal <==> exact(x) == exact(y),
        exact(absolute) == distance(exact(x)),
        exact(negated) == -exact(x),
        exact(larger) >= exact(x),
        exact(larger) >= exact(y),
        larger == x || larger == y,
{
    lemma_order(x, y);
    lemma_order(y, x);
    lemma_signs(x);
}

/// A pattern that is not a number compares with nothing, and neither it nor an
/// infinity is finite.
pub proof fn lemma_patterns_without_order(
    x: Double,
    y: Double,
    finite: bool,
    nan: bool,
    below: bool,
    above: bool,
    equal: bool,
)
    requires
        call_ensures(Double::is_finite, (x,), finite),
        call_ensures(Double::is_nan, (x,), nan),
        call_ensures(Double::is_below, (x, y), below),
        call_ensures(Double::is_below, (y, x), above),
        call_ensures(Double::equals, (x, y), equal),
    ensures
        finite <==> x.bits % 0x8000_0000_0000_0000 < 0x7ff0_0000_0000_0000,
        nan <==> x.bits % 0x8000_0000_0000_0000 > 0x7ff0_0000_0000_0000,
        nan ==> !below && !above && !equal,
{
}

} // verus!
