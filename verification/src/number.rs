//! Double-precision numbers by bit pattern, and the arithmetic over them.
//!
//! A [`Double`] is the bit pattern of an IEEE-754 binary64 number. Everything
//! that is decided by the pattern alone (sign, magnitude, finiteness, the two
//! orders) is computed here on integers. What rounds is done by an
//! [`Arithmetic`], which the caller supplies; nothing is assumed of it. An
//! [`Expr`] says which operations led to a number, and [`computes`] says that
//! the supplied arithmetic can give that number for them.

use vstd::prelude::*;
use vstd::std_specs::cmp::PartialEqSpecImpl;

verus! {

/// First bit pattern with the sign bit set.
pub const SIGN_BIT: u64 = 0x8000_0000_0000_0000;

/// Magnitude of an infinity: every larger magnitude is not a number.
pub const INFINITE_MAGNITUDE: u64 = 0x7ff0_0000_0000_0000;

/// Positive zero.
pub const ZERO: u64 = 0;

/// Negative zero, which leaves every number that is added to it as it is.
pub const NEGATIVE_ZERO: u64 = 0x8000_0000_0000_0000;

/// One half.
pub const HALF: u64 = 0x3fe0_0000_0000_0000;

/// One.
pub const ONE: u64 = 0x3ff0_0000_0000_0000;

/// Two.
pub const TWO: u64 = 0x4000_0000_0000_0000;

/// Distance from one to the next larger number.
pub const EPSILON: u64 = 0x3cb0_0000_0000_0000;

/// The quiet not-a-number used for absent values.
pub const NOT_A_NUMBER: u64 = 0x7ff8_0000_0000_0000;

/// A double-precision number by its bit pattern.
#[derive(Clone, Copy, Debug)]
pub struct Double {
    /// IEEE-754 binary64 bit pattern.
    pub bits: u64,
}

impl PartialEq for Double {
    /// Numeric equality: both zeros are equal, and what is not a number equals
    /// nothing.
    fn eq(&self, other: &Double) -> (equal: bool) {
        self.equals(*other)
    }
}

impl PartialEqSpecImpl for Double {
    open spec fn obeys_eq_spec() -> bool {
        true
    }

    open spec fn eq_spec(&self, other: &Double) -> bool {
        self.eq_number(*other)
    }
}

impl Double {
    /// Distance from zero, as an integer that grows with the number.
    pub open spec fn magnitude(self) -> int {
        if self.bits >= SIGN_BIT {
            self.bits - SIGN_BIT
        } else {
            self.bits as int
        }
    }

    /// Whether the sign bit is set.
    pub open spec fn negative(self) -> bool {
        self.bits >= SIGN_BIT
    }

    /// Whether the pattern is not a number.
    pub open spec fn nan(self) -> bool {
        self.magnitude() > INFINITE_MAGNITUDE
    }

    /// Whether the pattern is a finite number.
    pub open spec fn finite(self) -> bool {
        self.magnitude() < INFINITE_MAGNITUDE
    }

    /// Position on the number line: both zeros stand at the same place.
    pub open spec fn place(self) -> int {
        if self.negative() {
            -self.magnitude()
        } else {
            self.magnitude()
        }
    }

    /// Position in the total order of all patterns, which sets negative zero
    /// before positive zero.
    pub open spec fn total_place(self) -> int {
        if self.negative() {
            -self.magnitude() - 1
        } else {
            self.magnitude()
        }
    }

    /// Numeric `self < other`; false when either is not a number.
    pub open spec fn lt(self, other: Double) -> bool {
        !self.nan() && !other.nan() && self.place() < other.place()
    }

    /// Numeric `self <= other`; false when either is not a number.
    pub open spec fn le(self, other: Double) -> bool {
        !self.nan() && !other.nan() && self.place() <= other.place()
    }

    /// Numeric equality; false when either is not a number.
    pub open spec fn eq_number(self, other: Double) -> bool {
        !self.nan() && !other.nan() && self.place() == other.place()
    }

    /// The number without its sign.
    pub open spec fn abs(self) -> Double {
        Double { bits: self.magnitude() as u64 }
    }

    /// The number with the opposite sign.
    pub open spec fn neg(self) -> Double {
        if self.negative() {
            Double { bits: self.magnitude() as u64 }
        } else {
            Double { bits: (self.bits + SIGN_BIT) as u64 }
        }
    }

    /// The larger of a number and a bound that is a number: the bound where
    /// `self` is not above it.
    pub open spec fn floored_at(self, bound: Double) -> Double {
        if bound.lt(self) {
            self
        } else {
            bound
        }
    }

    /// Take a bit pattern as a number.
    pub fn from_bits(bits: u64) -> (number: Double)
        ensures
            number.bits == bits,
    {
        Double { bits }
    }

    /// Return the bit pattern.
    pub fn to_bits(self) -> (bits: u64)
        ensures
            bits == self.bits,
    {
        self.bits
    }

    /// Return the integer magnitude of the pattern.
    pub fn magnitude_bits(self) -> (magnitude: u64)
        ensures
            magnitude == self.magnitude(),
    {
        if self.bits >= SIGN_BIT {
            self.bits - SIGN_BIT
        } else {
            self.bits
        }
    }

    /// Return whether the pattern is not a number.
    pub fn is_nan(self) -> (nan: bool)
        ensures
            nan == self.nan(),
    {
        self.magnitude_bits() > INFINITE_MAGNITUDE
    }

    /// Return whether the number is neither infinite nor not-a-number.
    pub fn is_finite(self) -> (finite: bool)
        ensures
            finite == self.finite(),
    {
        self.magnitude_bits() < INFINITE_MAGNITUDE
    }

    /// Numeric `self < other`.
    pub fn is_below(self, other: Double) -> (below: bool)
        ensures
            below == self.lt(other),
    {
        if self.is_nan() || other.is_nan() {
            return false;
        }
        let x: u64 = self.magnitude_bits();
        let y: u64 = other.magnitude_bits();
        if self.bits >= SIGN_BIT {
            if other.bits >= SIGN_BIT {
                x > y
            } else {
                x != 0 || y != 0
            }
        } else if other.bits >= SIGN_BIT {
            false
        } else {
            x < y
        }
    }

    /// Numeric `self <= other`.
    pub fn is_at_most(self, other: Double) -> (at_most: bool)
        ensures
            at_most == self.le(other),
    {
        if self.is_nan() || other.is_nan() {
            return false;
        }
        !other.is_below(self)
    }

    /// Numeric equality.
    pub fn equals(self, other: Double) -> (equal: bool)
        ensures
            equal == self.eq_number(other),
    {
        if self.is_nan() || other.is_nan() {
            return false;
        }
        !self.is_below(other) && !other.is_below(self)
    }

    /// Whether `self` stands before `other` in the total order of patterns.
    pub fn is_totally_below(self, other: Double) -> (below: bool)
        ensures
            below == (self.total_place() < other.total_place()),
    {
        if self.bits >= SIGN_BIT {
            if other.bits >= SIGN_BIT {
                self.bits > other.bits
            } else {
                true
            }
        } else if other.bits >= SIGN_BIT {
            false
        } else {
            self.bits < other.bits
        }
    }

    /// Drop the sign.
    pub fn absolute(self) -> (number: Double)
        ensures
            number == self.abs(),
    {
        Double { bits: self.magnitude_bits() }
    }

    /// Flip the sign.
    pub fn negated(self) -> (number: Double)
        ensures
            number == self.neg(),
    {
        if self.bits >= SIGN_BIT {
            Double { bits: self.bits - SIGN_BIT }
        } else {
            Double { bits: self.bits + SIGN_BIT }
        }
    }

    /// Return `self` where it is above `bound`, and `bound` elsewhere.
    pub fn at_least(self, bound: Double) -> (number: Double)
        ensures
            number == self.floored_at(bound),
    {
        if bound.is_below(self) {
            self
        } else {
            bound
        }
    }
}

/// Writes numbers out for a reader. Nothing is assumed of what it writes.
pub trait Rendering: Sized {
    /// A number as text.
    fn shown(&self, x: Double) -> String;
}

/// The rounding operations on doubles, supplied by the caller.
///
/// No method promises anything: what the library proves holds whatever the
/// operations return.
pub trait Arithmetic: Sized {
    /// `x + y`.
    fn plus(&self, x: Double, y: Double) -> Double;

    /// `x - y`.
    fn minus(&self, x: Double, y: Double) -> Double;

    /// `x * y`.
    fn times(&self, x: Double, y: Double) -> Double;

    /// `x / y`.
    fn over(&self, x: Double, y: Double) -> Double;

    /// The square root.
    fn root(&self, x: Double) -> Double;

    /// The natural exponential.
    fn exponential(&self, x: Double) -> Double;

    /// The natural logarithm.
    fn logarithm(&self, x: Double) -> Double;

    /// The sine of an angle in radians.
    fn sine(&self, x: Double) -> Double;

    /// The cosine of an angle in radians.
    fn cosine(&self, x: Double) -> Double;

    /// The number nearest to an integer.
    fn nearest(&self, n: u64) -> Double;
}

/// How a number came about: literals and the operations applied to them.
pub enum Expr {
    /// A given number.
    Lit(Double),
    /// The number nearest to an integer.
    Int(u64),
    /// A sum.
    Add(Box<Expr>, Box<Expr>),
    /// A difference.
    Sub(Box<Expr>, Box<Expr>),
    /// A product.
    Mul(Box<Expr>, Box<Expr>),
    /// A quotient.
    Div(Box<Expr>, Box<Expr>),
    /// A square root.
    Sqrt(Box<Expr>),
    /// An exponential.
    Exp(Box<Expr>),
    /// A logarithm.
    Ln(Box<Expr>),
    /// A sine.
    Sin(Box<Expr>),
    /// A cosine.
    Cos(Box<Expr>),
    /// The number without its sign.
    Abs(Box<Expr>),
    /// The number with the opposite sign.
    Neg(Box<Expr>),
    /// The first, or the second where the first is not above it.
    Floor(Box<Expr>, Box<Expr>),
    /// The third where the first is above the second, else the fourth.
    IfAbove(Box<Expr>, Box<Expr>, Box<Expr>, Box<Expr>),
}

/// Whether `math` can give `r` for `e`.
pub open spec fn computes<A: Arithmetic>(math: &A, e: Expr, r: Double) -> bool
    decreases e,
{
    match e {
        Expr::Lit(x) => r == x,
        Expr::Int(n) => call_ensures(A::nearest, (math, n), r),
        Expr::Add(a, b) => exists|x: Double, y: Double|
            computes(math, *a, x) && computes(math, *b, y) && #[trigger] call_ensures(
                A::plus,
                (math, x, y),
                r,
            ),
        Expr::Sub(a, b) => exists|x: Double, y: Double|
            computes(math, *a, x) && computes(math, *b, y) && #[trigger] call_ensures(
                A::minus,
                (math, x, y),
                r,
            ),
        Expr::Mul(a, b) => exists|x: Double, y: Double|
            computes(math, *a, x) && computes(math, *b, y) && #[trigger] call_ensures(
                A::times,
                (math, x, y),
                r,
            ),
        Expr::Div(a, b) => exists|x: Double, y: Double|
            computes(math, *a, x) && computes(math, *b, y) && #[trigger] call_ensures(
                A::over,
                (math, x, y),
                r,
            ),
        Expr::Sqrt(a) => exists|x: Double|
            computes(math, *a, x) && #[trigger] call_ensures(A::root, (math, x), r),
        Expr::Exp(a) => exists|x: Double|
            computes(math, *a, x) && #[trigger] call_ensures(A::exponential, (math, x), r),
        Expr::Ln(a) => exists|x: Double|
            computes(math, *a, x) && #[trigger] call_ensures(A::logarithm, (math, x), r),
        Expr::Sin(a) => exists|x: Double|
            computes(math, *a, x) && #[trigger] call_ensures(A::sine, (math, x), r),
        Expr::Cos(a) => exists|x: Double|
            computes(math, *a, x) && #[trigger] call_ensures(A::cosine, (math, x), r),
        Expr::Abs(a) => exists|x: Double| computes(math, *a, x) && r == #[trigger] x.abs(),
        Expr::Neg(a) => exists|x: Double| computes(math, *a, x) && r == #[trigger] x.neg(),
        Expr::Floor(a, b) => exists|x: Double, y: Double|
            computes(math, *a, x) && computes(math, *b, y) && r == #[trigger] x.floored_at(y),
        Expr::IfAbove(a, b, t, f) => exists|x: Double, y: Double|
            computes(math, *a, x) && computes(math, *b, y) && if #[trigger] y.lt(x) {
                computes(math, *t, r)
            } else {
                computes(math, *f, r)
            },
    }
}

/// The sum of two expressions.
pub open spec fn e_add(a: Expr, b: Expr) -> Expr {
    Expr::Add(Box::new(a), Box::new(b))
}

/// The difference of two expressions.
pub open spec fn e_sub(a: Expr, b: Expr) -> Expr {
    Expr::Sub(Box::new(a), Box::new(b))
}

/// The product of two expressions.
pub open spec fn e_mul(a: Expr, b: Expr) -> Expr {
    Expr::Mul(Box::new(a), Box::new(b))
}

/// The quotient of two expressions.
pub open spec fn e_div(a: Expr, b: Expr) -> Expr {
    Expr::Div(Box::new(a), Box::new(b))
}

/// The square root of an expression.
pub open spec fn e_sqrt(a: Expr) -> Expr {
    Expr::Sqrt(Box::new(a))
}

/// The exponential of an expression.
pub open spec fn e_exp(a: Expr) -> Expr {
    Expr::Exp(Box::new(a))
}

/// The logarithm of an expression.
pub open spec fn e_ln(a: Expr) -> Expr {
    Expr::Ln(Box::new(a))
}

/// The sine of an expression.
pub open spec fn e_sin(a: Expr) -> Expr {
    Expr::Sin(Box::new(a))
}

/// The cosine of an expression.
pub open spec fn e_cos(a: Expr) -> Expr {
    Expr::Cos(Box::new(a))
}

/// An expression without its sign.
pub open spec fn e_abs(a: Expr) -> Expr {
    Expr::Abs(Box::new(a))
}

/// An expression with the opposite sign.
pub open spec fn e_neg(a: Expr) -> Expr {
    Expr::Neg(Box::new(a))
}

/// An expression bounded from below.
pub open spec fn e_floor(a: Expr, bound: Double) -> Expr {
    Expr::Floor(Box::new(a), Box::new(Expr::Lit(bound)))
}

/// `t` where `a` is above `b`, else `f`.
pub open spec fn e_if_above(a: Expr, b: Expr, t: Expr, f: Expr) -> Expr {
    Expr::IfAbove(Box::new(a), Box::new(b), Box::new(t), Box::new(f))
}

/// A literal by its bit pattern.
pub open spec fn e_lit(bits: u64) -> Expr {
    Expr::Lit(Double { bits })
}

/// A number together with how it came about.
#[derive(Clone, Copy)]
pub struct Term {
    pub value: Double,
    pub expr: Ghost<Expr>,
}

impl Term {
    /// Whether `math` can give the number for the expression.
    pub open spec fn holds<A: Arithmetic>(self, math: &A) -> bool {
        computes(math, self.expr@, self.value)
    }

    /// A given number.
    pub fn literal<A: Arithmetic>(math: &A, value: Double) -> (t: Term)
        ensures
            t.holds(math),
            t.value == value,
            t.expr@ == Expr::Lit(value),
    {
        Term { value, expr: Ghost(Expr::Lit(value)) }
    }

    /// A given bit pattern.
    pub fn constant<A: Arithmetic>(math: &A, bits: u64) -> (t: Term)
        ensures
            t.holds(math),
            t.value.bits == bits,
            t.expr@ == e_lit(bits),
    {
        Term { value: Double { bits }, expr: Ghost(e_lit(bits)) }
    }

    /// The number nearest to an integer.
    pub fn integer<A: Arithmetic>(math: &A, n: u64) -> (t: Term)
        ensures
            t.holds(math),
            t.expr@ == Expr::Int(n),
    {
        Term { value: math.nearest(n), expr: Ghost(Expr::Int(n)) }
    }

    /// `self + other`.
    pub fn plus<A: Arithmetic>(self, math: &A, other: Term) -> (t: Term)
        requires
            self.holds(math),
            other.holds(math),
        ensures
            t.holds(math),
            t.expr@ == e_add(self.expr@, other.expr@),
    {
        let value = math.plus(self.value, other.value);
        Term { value, expr: Ghost(e_add(self.expr@, other.expr@)) }
    }

    /// `self - other`.
    pub fn minus<A: Arithmetic>(self, math: &A, other: Term) -> (t: Term)
        requires
            self.holds(math),
            other.holds(math),
        ensures
            t.holds(math),
            t.expr@ == e_sub(self.expr@, other.expr@),
    {
        let value = math.minus(self.value, other.value);
        Term { value, expr: Ghost(e_sub(self.expr@, other.expr@)) }
    }

    /// `self * other`.
    pub fn times<A: Arithmetic>(self, math: &A, other: Term) -> (t: Term)
        requires
            self.holds(math),
            other.holds(math),
        ensures
            t.holds(math),
            t.expr@ == e_mul(self.expr@, other.expr@),
    {
        let value = math.times(self.value, other.value);
        Term { value, expr: Ghost(e_mul(self.expr@, other.expr@)) }
    }

    /// `self / other`.
    pub fn over<A: Arithmetic>(self, math: &A, other: Term) -> (t: Term)
        requires
            self.holds(math),
            other.holds(math),
        ensures
            t.holds(math),
            t.expr@ == e_div(self.expr@, other.expr@),
    {
        let value = math.over(self.value, other.value);
        Term { value, expr: Ghost(e_div(self.expr@, other.expr@)) }
    }

    /// The square root.
    pub fn root<A: Arithmetic>(self, math: &A) -> (t: Term)
        requires
            self.holds(math),
        ensures
            t.holds(math),
            t.expr@ == e_sqrt(self.expr@),
    {
        let value = math.root(self.value);
        Term { value, expr: Ghost(e_sqrt(self.expr@)) }
    }

    /// The exponential.
    pub fn exponential<A: Arithmetic>(self, math: &A) -> (t: Term)
        requires
            self.holds(math),
        ensures
            t.holds(math),
            t.expr@ == e_exp(self.expr@),
    {
        let value = math.exponential(self.value);
        Term { value, expr: Ghost(e_exp(self.expr@)) }
    }

    /// The natural logarithm.
    pub fn logarithm<A: Arithmetic>(self, math: &A) -> (t: Term)
        requires
            self.holds(math),
        ensures
            t.holds(math),
            t.expr@ == e_ln(self.expr@),
    {
        let value = math.logarithm(self.value);
        Term { value, expr: Ghost(e_ln(self.expr@)) }
    }

    /// The sine.
    pub fn sine<A: Arithmetic>(self, math: &A) -> (t: Term)
        requires
            self.holds(math),
        ensures
            t.holds(math),
            t.expr@ == e_sin(self.expr@),
    {
        let value = math.sine(self.value);
        Term { value, expr: Ghost(e_sin(self.expr@)) }
    }

    /// The cosine.
    pub fn cosine<A: Arithmetic>(self, math: &A) -> (t: Term)
        requires
            self.holds(math),
        ensures
            t.holds(math),
            t.expr@ == e_cos(self.expr@),
    {
        let value = math.cosine(self.value);
        Term { value, expr: Ghost(e_cos(self.expr@)) }
    }

    /// The number without its sign.
    pub fn absolute<A: Arithmetic>(self, math: &A) -> (t: Term)
        requires
            self.holds(math),
        ensures
            t.holds(math),
            t.expr@ == e_abs(self.expr@),
    {
        Term { value: self.value.absolute(), expr: Ghost(e_abs(self.expr@)) }
    }

    /// The number with the opposite sign.
    pub fn negated<A: Arithmetic>(self, math: &A) -> (t: Term)
        requires
            self.holds(math),
        ensures
            t.holds(math),
            t.expr@ == e_neg(self.expr@),
    {
        Term { value: self.value.negated(), expr: Ghost(e_neg(self.expr@)) }
    }

    /// The number bounded from below.
    pub fn at_least<A: Arithmetic>(self, math: &A, bound: Double) -> (t: Term)
        requires
            self.holds(math),
        ensures
            t.holds(math),
            t.expr@ == e_floor(self.expr@, bound),
            t.value == self.value.floored_at(bound),
    {
        let value = self.value.at_least(bound);
        assert(value == self.value.floored_at(bound));
        assert(computes(math, Expr::Lit(bound), bound));
        Term { value, expr: Ghost(e_floor(self.expr@, bound)) }
    }
}

/// A branch on a comparison gives what the taken side gives.
pub proof fn lemma_if_above<A: Arithmetic>(
    math: &A,
    a: Expr,
    b: Expr,
    t: Expr,
    f: Expr,
    x: Double,
    y: Double,
    r: Double,
)
    requires
        computes(math, a, x),
        computes(math, b, y),
        y.lt(x) ==> computes(math, t, r),
        !y.lt(x) ==> computes(math, f, r),
    ensures
        computes(math, e_if_above(a, b, t, f), r),
{
    assert(y.lt(x) || !y.lt(x));
}

/// Whether each operation of `math` gives one result per argument.
pub open spec fn deterministic<A: Arithmetic>(math: &A) -> bool {
    &&& forall|x: Double, y: Double, r: Double, s: Double| #[trigger]
        call_ensures(A::plus, (math, x, y), r) && #[trigger] call_ensures(A::plus, (math, x, y), s)
            ==> r == s
    &&& forall|x: Double, y: Double, r: Double, s: Double| #[trigger]
        call_ensures(A::minus, (math, x, y), r) && #[trigger] call_ensures(
            A::minus,
            (math, x, y),
            s,
        ) ==> r == s
    &&& forall|x: Double, y: Double, r: Double, s: Double| #[trigger]
        call_ensures(A::times, (math, x, y), r) && #[trigger] call_ensures(
            A::times,
            (math, x, y),
            s,
        ) ==> r == s
    &&& forall|x: Double, y: Double, r: Double, s: Double| #[trigger]
        call_ensures(A::over, (math, x, y), r) && #[trigger] call_ensures(A::over, (math, x, y), s)
            ==> r == s
    &&& forall|x: Double, r: Double, s: Double| #[trigger]
        call_ensures(A::root, (math, x), r) && #[trigger] call_ensures(A::root, (math, x), s) ==> r
            == s
    &&& forall|x: Double, r: Double, s: Double| #[trigger]
        call_ensures(A::exponential, (math, x), r) && #[trigger] call_ensures(
            A::exponential,
            (math, x),
            s,
        ) ==> r == s
    &&& forall|x: Double, r: Double, s: Double| #[trigger]
        call_ensures(A::logarithm, (math, x), r) && #[trigger] call_ensures(
            A::logarithm,
            (math, x),
            s,
        ) ==> r == s
    &&& forall|x: Double, r: Double, s: Double| #[trigger]
        call_ensures(A::sine, (math, x), r) && #[trigger] call_ensures(A::sine, (math, x), s) ==> r
            == s
    &&& forall|x: Double, r: Double, s: Double| #[trigger]
        call_ensures(A::cosine, (math, x), r) && #[trigger] call_ensures(A::cosine, (math, x), s)
            ==> r == s
    &&& forall|n: u64, r: Double, s: Double| #[trigger]
        call_ensures(A::nearest, (math, n), r) && #[trigger] call_ensures(A::nearest, (math, n), s)
            ==> r == s
}

/// An arithmetic whose operations each give one result gives one number for
/// one expression.
pub proof fn lemma_computes_unique<A: Arithmetic>(math: &A, e: Expr, r: Double, s: Double)
    requires
        deterministic(math),
        computes(math, e, r),
        computes(math, e, s),
    ensures
        r == s,
    decreases e,
{
    match e {
        Expr::Lit(_) => {},
        Expr::Int(_) => {},
        Expr::Add(a, b) => {
            let (x, y) = choose|x: Double, y: Double|
                computes(math, *a, x) && computes(math, *b, y) && #[trigger] call_ensures(
                    A::plus,
                    (math, x, y),
                    r,
                );
            let (z, w) = choose|x: Double, y: Double|
                computes(math, *a, x) && computes(math, *b, y) && #[trigger] call_ensures(
                    A::plus,
                    (math, x, y),
                    s,
                );
            lemma_computes_unique(math, *a, x, z);
            lemma_computes_unique(math, *b, y, w);
        },
        Expr::Sub(a, b) => {
            let (x, y) = choose|x: Double, y: Double|
                computes(math, *a, x) && computes(math, *b, y) && #[trigger] call_ensures(
                    A::minus,
                    (math, x, y),
                    r,
                );
            let (z, w) = choose|x: Double, y: Double|
                computes(math, *a, x) && computes(math, *b, y) && #[trigger] call_ensures(
                    A::minus,
                    (math, x, y),
                    s,
                );
            lemma_computes_unique(math, *a, x, z);
            lemma_computes_unique(math, *b, y, w);
        },
        Expr::Mul(a, b) => {
            let (x, y) = choose|x: Double, y: Double|
                computes(math, *a, x) && computes(math, *b, y) && #[trigger] call_ensures(
                    A::times,
                    (math, x, y),
                    r,
                );
            let (z, w) = choose|x: Double, y: Double|
                computes(math, *a, x) && computes(math, *b, y) && #[trigger] call_ensures(
                    A::times,
                    (math, x, y),
                    s,
                );
            lemma_computes_unique(math, *a, x, z);
            lemma_computes_unique(math, *b, y, w);
        },
        Expr::Div(a, b) => {
            let (x, y) = choose|x: Double, y: Double|
                computes(math, *a, x) && computes(math, *b, y) && #[trigger] call_ensures(
                    A::over,
                    (math, x, y),
                    r,
                );
            let (z, w) = choose|x: Double, y: Double|
                computes(math, *a, x) && computes(math, *b, y) && #[trigger] call_ensures(
                    A::over,
                    (math, x, y),
                    s,
                );
            lemma_computes_unique(math, *a, x, z);
            lemma_computes_unique(math, *b, y, w);
        },
        Expr::Sqrt(a) => {
            let x = choose|x: Double|
                computes(math, *a, x) && #[trigger] call_ensures(A::root, (math, x), r);
            let z = choose|x: Double|
                computes(math, *a, x) && #[trigger] call_ensures(A::root, (math, x), s);
            lemma_computes_unique(math, *a, x, z);
        },
        Expr::Exp(a) => {
            let x = choose|x: Double|
                computes(math, *a, x) && #[trigger] call_ensures(A::exponential, (math, x), r);
            let z = choose|x: Double|
                computes(math, *a, x) && #[trigger] call_ensures(A::exponential, (math, x), s);
            lemma_computes_unique(math, *a, x, z);
        },
        Expr::Ln(a) => {
            let x = choose|x: Double|
                computes(math, *a, x) && #[trigger] call_ensures(A::logarithm, (math, x), r);
            let z = choose|x: Double|
                computes(math, *a, x) && #[trigger] call_ensures(A::logarithm, (math, x), s);
            lemma_computes_unique(math, *a, x, z);
        },
        Expr::Sin(a) => {
            let x = choose|x: Double|
                computes(math, *a, x) && #[trigger] call_ensures(A::sine, (math, x), r);
            let z = choose|x: Double|
                computes(math, *a, x) && #[trigger] call_ensures(A::sine, (math, x), s);
            lemma_computes_unique(math, *a, x, z);
        },
        Expr::Cos(a) => {
            let x = choose|x: Double|
                computes(math, *a, x) && #[trigger] call_ensures(A::cosine, (math, x), r);
            let z = choose|x: Double|
                computes(math, *a, x) && #[trigger] call_ensures(A::cosine, (math, x), s);
            lemma_computes_unique(math, *a, x, z);
        },
        Expr::Abs(a) => {
            let x = choose|x: Double| computes(math, *a, x) && r == #[trigger] x.abs();
            let z = choose|x: Double| computes(math, *a, x) && s == #[trigger] x.abs();
            lemma_computes_unique(math, *a, x, z);
        },
        Expr::Neg(a) => {
            let x = choose|x: Double| computes(math, *a, x) && r == #[trigger] x.neg();
            let z = choose|x: Double| computes(math, *a, x) && s == #[trigger] x.neg();
            lemma_computes_unique(math, *a, x, z);
        },
        Expr::Floor(a, b) => {
            let (x, y) = choose|x: Double, y: Double|
                computes(math, *a, x) && computes(math, *b, y) && r == #[trigger] x.floored_at(y);
            let (z, w) = choose|x: Double, y: Double|
                computes(math, *a, x) && computes(math, *b, y) && s == #[trigger] x.floored_at(y);
            lemma_computes_unique(math, *a, x, z);
            lemma_computes_unique(math, *b, y, w);
        },
        Expr::IfAbove(a, b, t, f) => {
            let (x, y) = choose|x: Double, y: Double|
                computes(math, *a, x) && computes(math, *b, y) && if #[trigger] y.lt(x) {
                    computes(math, *t, r)
                } else {
                    computes(math, *f, r)
                };
            let (z, w) = choose|x: Double, y: Double|
                computes(math, *a, x) && computes(math, *b, y) && if #[trigger] y.lt(x) {
                    computes(math, *t, s)
                } else {
                    computes(math, *f, s)
                };
            lemma_computes_unique(math, *a, x, z);
            lemma_computes_unique(math, *b, y, w);
            if y.lt(x) {
                lemma_computes_unique(math, *t, r, s);
            } else {
                lemma_computes_unique(math, *f, r, s);
            }
        },
    }
}

} // verus!
