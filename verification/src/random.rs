//! A small repeatable source of noise.

use crate::number::{Arithmetic, Term, ONE, TWO};
use vstd::prelude::*;

verus! {

/// State that stands in for a seed of zero.
pub const DEFAULT_STATE: u64 = 0x9e37_79b9_7f4a_7c15;

/// Smallest positive normal number.
pub const LEAST_POSITIVE: u64 = 0x0010_0000_0000_0000;

/// One less the distance from one to the next larger number.
pub const BELOW_ONE: u64 = 0x3fef_ffff_ffff_fffe;

/// Minus two.
pub const MINUS_TWO: u64 = 0xc000_0000_0000_0000;

/// A full turn in radians.
pub const TAU: u64 = 0x4019_21fb_5444_2d18;

/// The state that a seed gives.
pub open spec fn seeded(seed: u64) -> u64 {
    if seed == 0 {
        DEFAULT_STATE
    } else {
        seed
    }
}

/// The state after one draw, which is also the number drawn.
pub open spec fn stepped(state: u64) -> u64 {
    let a = state ^ (state << 13);
    let b = a ^ (a >> 7);
    b ^ (b << 17)
}

/// The state after `n` draws, which is also the number drawn last.
pub open spec fn drawn(state: u64, n: nat) -> u64
    decreases n,
{
    if n == 0 {
        state
    } else {
        stepped(drawn(state, (n - 1) as nat))
    }
}

/// A draw on the scale from minus one to one.
pub open spec fn symmetric(draw: u64) -> crate::number::Expr {
    crate::number::e_sub(
        crate::number::e_mul(
            crate::number::e_div(
                crate::number::Expr::Int(draw),
                crate::number::Expr::Int(u64::MAX),
            ),
            crate::number::e_lit(TWO),
        ),
        crate::number::e_lit(ONE),
    )
}

/// A draw on the scale from zero to one, without either end.
pub open spec fn open_unit(draw: u64) -> crate::number::Expr {
    crate::number::e_div(
        crate::number::e_add(crate::number::Expr::Int(draw), crate::number::e_lit(ONE)),
        crate::number::e_add(crate::number::Expr::Int(u64::MAX), crate::number::e_lit(TWO)),
    )
}

/// An expression kept between two bounds.
pub open spec fn clamped(e: crate::number::Expr, low: u64, high: u64) -> crate::number::Expr {
    crate::number::e_if_above(
        crate::number::e_lit(low),
        e,
        crate::number::e_lit(low),
        crate::number::e_if_above(e, crate::number::e_lit(high), crate::number::e_lit(high), e),
    )
}

/// Two draws turned into one of a standard normal distribution.
pub open spec fn normal(first: u64, second: u64) -> crate::number::Expr {
    crate::number::e_mul(
        crate::number::e_sqrt(
            crate::number::e_mul(
                crate::number::e_lit(MINUS_TWO),
                crate::number::e_ln(clamped(open_unit(first), LEAST_POSITIVE, BELOW_ONE)),
            ),
        ),
        crate::number::e_cos(
            crate::number::e_mul(crate::number::e_lit(TAU), open_unit(second)),
        ),
    )
}

/// The normal number that the two draws after the first `n` give.
pub open spec fn normal_after(state: u64, n: nat) -> crate::number::Expr {
    normal(drawn(state, n + 1), drawn(state, n + 2))
}

/// Shift-register generator.
#[derive(Debug, Clone, Copy)]
pub struct XorShift64 {
    /// State of the register.
    pub state: u64,
}

fn clamped_term<A: Arithmetic>(math: &A, term: Term, low: u64, high: u64) -> (r: Term)
    requires
        term.holds(math),
    ensures
        r.holds(math),
        r.expr@ == clamped(term.expr@, low, high),
{
    let least = Term::constant(math, low);
    let most = Term::constant(math, high);
    let ghost e = term.expr@;
    let inner = if most.value.is_below(term.value) {
        most.value
    } else {
        term.value
    };
    proof {
        crate::number::lemma_if_above(
            math,
            e,
            crate::number::e_lit(high),
            crate::number::e_lit(high),
            e,
            term.value,
            most.value,
            inner,
        );
    }
    let value = if term.value.is_below(least.value) {
        least.value
    } else {
        inner
    };
    proof {
        crate::number::lemma_if_above(
            math,
            crate::number::e_lit(low),
            e,
            crate::number::e_lit(low),
            crate::number::e_if_above(e, crate::number::e_lit(high), crate::number::e_lit(high), e),
            least.value,
            term.value,
            value,
        );
    }
    Term { value, expr: Ghost(clamped(e, low, high)) }
}

fn open_unit_term<A: Arithmetic>(math: &A, draw: u64) -> (r: Term)
    ensures
        r.holds(math),
        r.expr@ == open_unit(draw),
{
    let above = Term::integer(math, draw).plus(math, Term::constant(math, ONE));
    let below = Term::integer(math, u64::MAX).plus(math, Term::constant(math, TWO));
    above.over(math, below)
}

impl XorShift64 {
    /// Seed a generator.
    pub fn new(seed: u64) -> (rng: Self)
        ensures
            rng.state == seeded(seed),
    {
        XorShift64 {
            state: if seed == 0 {
                DEFAULT_STATE
            } else {
                seed
            },
        }
    }

    /// Draw the next number.
    pub fn next(&mut self) -> (draw: u64)
        ensures
            draw == stepped(old(self).state),
            final(self).state == draw,
    {
        let value: u64 = self.state;
        let a: u64 = value ^ (value << 13);
        let b: u64 = a ^ (a >> 7);
        let draw: u64 = b ^ (b << 17);
        self.state = draw;
        draw
    }

    /// Draw a number between minus one and one.
    pub fn symmetric<A: Arithmetic>(&mut self, math: &A) -> (term: Term)
        ensures
            term.holds(math),
            term.expr@ == symmetric(stepped(old(self).state)),
            final(self).state == stepped(old(self).state),
    {
        let draw: u64 = self.next();
        let unit = Term::integer(math, draw).over(math, Term::integer(math, u64::MAX));
        unit.times(math, Term::constant(math, TWO)).minus(math, Term::constant(math, ONE))
    }

    /// Draw a number of a standard normal distribution.
    pub fn normal<A: Arithmetic>(&mut self, math: &A) -> (term: Term)
        ensures
            term.holds(math),
            term.expr@ == normal_after(old(self).state, 0),
            final(self).state == drawn(old(self).state, 2),
    {
        let ghost start = self.state;
        let first: u64 = self.next();
        let second: u64 = self.next();
        proof {
            reveal_with_fuel(drawn, 3);
            assert(first == drawn(start, 1));
            assert(second == drawn(start, 2));
        }
        let near = clamped_term(math, open_unit_term(math, first), LEAST_POSITIVE, BELOW_ONE);
        let radius = Term::constant(math, MINUS_TWO).times(math, near.logarithm(math)).root(math);
        let angle = Term::constant(math, TAU).times(math, open_unit_term(math, second));
        radius.times(math, angle.cosine(math))
    }
}

/// Draws after draws are draws in a row.
pub proof fn lemma_drawn_on(state: u64, m: nat, n: nat)
    ensures
        drawn(drawn(state, m), n) == drawn(state, m + n),
    decreases n,
{
    if n > 0 {
        lemma_drawn_on(state, m, (n - 1) as nat);
    }
}

/// The generator never runs into the state that gives nothing but zeros.
pub proof fn lemma_never_sticks(seed: u64, n: nat)
    ensures
        drawn(seeded(seed), n) != 0,
    decreases n,
{
    if n > 0 {
        lemma_never_sticks(seed, (n - 1) as nat);
        let state = drawn(seeded(seed), (n - 1) as nat);
        let a = state ^ (state << 13);
        let b = a ^ (a >> 7);
        assert(a != 0) by (bit_vector)
            requires
                state != 0,
                a == state ^ (state << 13),
        ;
        assert(b != 0) by (bit_vector)
            requires
                a != 0,
                b == a ^ (a >> 7),
        ;
        assert(b ^ (b << 17) != 0) by (bit_vector)
            requires
                b != 0,
        ;
    }
}

/// A symmetric draw comes to a number from minus one to one, evenly spread: it
/// is lowest for the lowest draw and highest for the highest.
pub proof fn lemma_symmetric_spreads_evenly(f: crate::reading::Functions, draw: u64)
    ensures
        ({
            let x = crate::reading::reading(f, symmetric(draw));
            &&& (x + 1 as real) * (u64::MAX as int as real) == 2 as real * (draw as int as real)
            &&& -(1 as real) <= x <= 1 as real
        }),
{
    crate::reading::lemma_constants();
    reveal_with_fuel(crate::reading::reading, 4);
    let d = draw as int as real;
    let m = u64::MAX as int as real;
    let q = d / m;
    crate::reading::lemma_quotient(d, m);
    let x = crate::reading::reading(f, symmetric(draw));
    assert(x == q * 2 as real - 1 as real);
    assert((x + 1 as real) * m == 2 as real * d) by (nonlinear_arith)
        requires
            x == q * 2 as real - 1 as real,
            q * m == d,
    ;
    assert(0 as real <= q <= 1 as real) by (nonlinear_arith)
        requires
            q * m == d,
            0 as real <= d <= m,
            m > 0 as real,
    ;
}

/// A draw on the open scale comes to a number above zero and below one.
pub proof fn lemma_open_unit_is_inside(f: crate::reading::Functions, draw: u64)
    ensures
        ({
            let x = crate::reading::reading(f, open_unit(draw));
            &&& (0 as real) < x < 1 as real
            &&& x * (u64::MAX as int as real + 2 as real) == draw as int as real + 1 as real
        }),
{
    crate::reading::lemma_constants();
    reveal_with_fuel(crate::reading::reading, 3);
    let d = draw as int as real + 1 as real;
    let m = u64::MAX as int as real + 2 as real;
    crate::reading::lemma_quotient(d, m);
    let x = crate::reading::reading(f, open_unit(draw));
    assert(x == d / m);
    assert((0 as real) < x < 1 as real) by (nonlinear_arith)
        requires
            x * m == d,
            (0 as real) < d < m,
            m > 0 as real,
    ;
}

/// A normal number comes to a radius times the cosine of an angle. The square
/// of the radius is minus twice the logarithm of the first draw, kept below
/// one and above zero; the angle is the part of a full turn that the second
/// draw is.
pub proof fn lemma_normal_is_polar(f: crate::reading::Functions, first: u64, second: u64)
    ensures
        ({
            let low = crate::reading::exact(crate::number::Double { bits: LEAST_POSITIVE });
            let high = crate::reading::exact(crate::number::Double { bits: BELOW_ONE });
            let turn = crate::reading::exact(crate::number::Double { bits: TAU });
            let u = crate::reading::reading(f, open_unit(first));
            let kept = if u < low {
                low
            } else if u > high {
                high
            } else {
                u
            };
            crate::reading::reading(f, normal(first, second)) == (f.root)(
                -(2 as real) * (f.ln)(kept),
            ) * (f.cos)(turn * crate::reading::reading(f, open_unit(second)))
        }),
        crate::reading::nearly(TAU, 6_283_185_307_179_586, 1_000_000_000_000_000),
        crate::reading::exact(crate::number::Double { bits: BELOW_ONE }) < 1 as real,
        crate::reading::exact(crate::number::Double { bits: LEAST_POSITIVE }) > 0 as real,
{
    crate::reading::lemma_constants();
    vstd::arithmetic::power2::lemma2_to64();
    vstd::arithmetic::power2::lemma2_to64_rest();
    crate::reading::lemma_signs(crate::number::Double { bits: TWO });
    assert(crate::number::Double { bits: MINUS_TWO } == (crate::number::Double { bits: TWO }).neg());
    let one = crate::number::Double { bits: ONE };
    let below = crate::number::Double { bits: BELOW_ONE };
    let least = crate::number::Double { bits: LEAST_POSITIVE };
    crate::reading::lemma_order(below, one);
    crate::reading::lemma_order(crate::number::Double { bits: crate::number::ZERO }, least);
    crate::reading::lemma_nearly(
        TAU,
        50,
        0x4_0000_0000_0000,
        6_283_185_307_179_586,
        1_000_000_000_000_000,
    );
    let unit = open_unit(first);
    let u = crate::reading::reading(f, unit);
    let low = crate::reading::exact(least);
    let high = crate::reading::exact(below);
    let kept = clamped(unit, LEAST_POSITIVE, BELOW_ONE);
    let inner = crate::number::e_if_above(
        unit,
        crate::number::e_lit(BELOW_ONE),
        crate::number::e_lit(BELOW_ONE),
        unit,
    );
    assert(crate::reading::reading(f, crate::number::e_lit(BELOW_ONE)) == high);
    assert(crate::reading::reading(f, crate::number::e_lit(LEAST_POSITIVE)) == low);
    assert(crate::reading::reading(f, inner) == if high < u {
        high
    } else {
        u
    });
    let level = crate::reading::reading(f, kept);
    assert(level == if u < low {
        low
    } else if u > high {
        high
    } else {
        u
    });
    let log = crate::number::e_ln(kept);
    assert(crate::reading::reading(f, log) == (f.ln)(level));
    let twice = crate::number::e_mul(crate::number::e_lit(MINUS_TWO), log);
    assert(crate::reading::reading(f, crate::number::e_lit(MINUS_TWO)) == -(2 as real));
    assert(crate::reading::reading(f, twice) == -(2 as real) * (f.ln)(level));
    let radius = crate::number::e_sqrt(twice);
    assert(crate::reading::reading(f, radius) == (f.root)(-(2 as real) * (f.ln)(level)));
    let angle = crate::number::e_mul(crate::number::e_lit(TAU), open_unit(second));
    assert(crate::reading::reading(f, crate::number::e_lit(TAU)) == crate::reading::exact(
        crate::number::Double { bits: TAU },
    ));
    assert(crate::reading::reading(f, angle) == crate::reading::exact(
        crate::number::Double { bits: TAU },
    ) * crate::reading::reading(f, open_unit(second)));
    let cosine = crate::number::e_cos(angle);
    assert(crate::reading::reading(f, cosine) == (f.cos)(crate::reading::reading(f, angle)));
    assert(normal(first, second) == crate::number::e_mul(radius, cosine));
}

/// A generator steps through the same states whatever is drawn from it: a
/// symmetric number takes one step and a normal number two, and the step of a
/// state is that of the two halves of any split of it together.
pub proof fn lemma_generator_steps<A: Arithmetic>(
    math: &A,
    once: &mut XorShift64,
    draw: u64,
    even: &mut XorShift64,
    e: Term,
    twice: &mut XorShift64,
    n: Term,
)
    requires
        call_ensures(XorShift64::next, (once,), draw),
        call_ensures(XorShift64::symmetric::<A>, (even, math), e),
        call_ensures(XorShift64::normal::<A>, (twice, math), n),
    ensures
        final(once).state == draw,
        final(even).state == stepped(old(even).state),
        final(twice).state == stepped(stepped(old(twice).state)),
        crate::number::computes(math, symmetric(final(even).state), e.value),
        crate::number::computes(
            math,
            normal(stepped(old(twice).state), final(twice).state),
            n.value,
        ),
{
    reveal_with_fuel(drawn, 3);
}

/// A step is linear: that of a combination of two states is the combination of
/// their steps. It shifts by thirteen to the left, seven to the right and
/// seventeen to the left: the lowest bit alone goes to these places.
pub proof fn lemma_step_is_linear(a: u64, b: u64)
    ensures
        stepped(a ^ b) == stepped(a) ^ stepped(b),
        stepped(1) == 0x4082_2041,
{
    let x = a ^ (a << 13);
    let y = b ^ (b << 13);
    let z = (a ^ b) ^ ((a ^ b) << 13);
    assert(z == x ^ y) by (bit_vector)
        requires
            x == a ^ (a << 13),
            y == b ^ (b << 13),
            z == (a ^ b) ^ ((a ^ b) << 13),
    ;
    let p = x ^ (x >> 7);
    let q = y ^ (y >> 7);
    let r = z ^ (z >> 7);
    assert(r == p ^ q) by (bit_vector)
        requires
            p == x ^ (x >> 7),
            q == y ^ (y >> 7),
            r == z ^ (z >> 7),
            z == x ^ y,
    ;
    assert(r ^ (r << 17) == (p ^ (p << 17)) ^ (q ^ (q << 17))) by (bit_vector)
        requires
            r == p ^ q,
    ;
    let one = 1u64 ^ (1u64 << 13);
    let two = one ^ (one >> 7);
    assert(two ^ (two << 17) == 0x4082_2041u64) by (bit_vector)
        requires
            one == 1u64 ^ (1u64 << 13),
            two == one ^ (one >> 7),
    ;
}

} // verus!
