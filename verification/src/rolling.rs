//! Fixed-capacity online statistics for stateful streaming adapters.
//!
//! [`RollingMoments`] is not an implicit stateful graph node. It is a reusable
//! primitive for an owner that already has an explicit state boundary, such as
//! a circuit callback, simulator, or bounded backtest.

use crate::number::{Arithmetic, Double, Rendering, Term, NEGATIVE_ZERO, ZERO};
use vstd::prelude::*;
use vstd::string::*;

verus! {

/// Invalid input or arithmetic failure from [`RollingMoments`].
#[derive(Debug, Clone, Copy, PartialEq)]
pub enum RollingError {
    /// A rolling window must retain at least one observation.
    EmptyWindow,
    /// Only finite observations can enter or be scored against the window.
    NonFinite(Double),
    /// The supplied values exceeded finite moment arithmetic.
    NumericalOverflow,
}

impl RollingError {
    /// Whether a text says what failed, with the number as a rendering may
    /// write it.
    pub open spec fn said<R: Rendering>(self, rendering: &R, text: Seq<char>) -> bool {
        match self {
            RollingError::EmptyWindow => text == "rolling window must be positive"@,
            RollingError::NonFinite(value) => exists|a: String| #[trigger]
                call_ensures(R::shown, (rendering, value), a) && text
                    == "rolling observation must be finite, got "@ + a@,
            RollingError::NumericalOverflow => text == "rolling moment arithmetic overflowed"@,
        }
    }

    /// Say what failed, with the number written out.
    pub fn message<R: Rendering>(&self, rendering: &R) -> (text: String)
        ensures
            self.said(rendering, text@),
    {
        match self {
            RollingError::EmptyWindow => "rolling window must be positive".to_owned(),
            RollingError::NonFinite(value) => {
                let a = rendering.shown(*value);
                assert(call_ensures(R::shown, (rendering, *value), a));
                "rolling observation must be finite, got ".to_owned().concat(a.as_str())
            },
            RollingError::NumericalOverflow => "rolling moment arithmetic overflowed".to_owned(),
        }
    }
}

/// Replacements per slot after which the moments are computed afresh.
pub const REBUILD_FACTOR: usize = 1024;

/// Fixed-capacity rolling mean and variance with constant-time replacement.
///
/// The implementation keeps a preallocated circular buffer and the corrected
/// sum of squares `M2`. Insertions and evictions use the centered updating
/// identities associated with Welford and Chan--Golub--LeVeque rather than the
/// cancellation-prone `sum(x²) - sum(x)² / n` formula. A bounded periodic
/// rebuild limits accumulated roundoff, while an internal retained origin
/// keeps small variations precise around a large common level. Updates remain
/// amortized constant time.
#[derive(Debug)]
pub struct RollingMoments {
    values: Vec<Double>,
    len: usize,
    next: usize,
    origin: Double,
    mean_offset: Double,
    m2: Double,
    replacements_since_rebuild: usize,
}

/// A rolling window as a mathematical value.
pub struct RollingView {
    /// Number of observations that a full window retains.
    pub capacity: nat,
    /// Observations in the order of their slots.
    pub stored: Seq<Double>,
    /// Slot of the next observation.
    pub next: int,
    /// Level from which offsets are taken.
    pub origin: Double,
    /// Mean less the origin.
    pub mean_offset: Double,
    /// Corrected sum of squares.
    pub m2: Double,
    /// Replacements since the moments were last computed afresh.
    pub replacements: nat,
}

impl View for RollingMoments {
    type V = RollingView;

    closed spec fn view(&self) -> RollingView {
        RollingView {
            capacity: self.values@.len(),
            stored: self.values@.take(self.len as int),
            next: self.next as int,
            origin: self.origin,
            mean_offset: self.mean_offset,
            m2: self.m2,
            replacements: self.replacements_since_rebuild as nat,
        }
    }
}

impl Clone for RollingMoments {
    fn clone(&self) -> (copy: Self)
        ensures
            copy@ == self@,
    {
        proof {
            use_type_invariant(self);
        }
        let mut values: Vec<Double> = Vec::new();
        let mut i: usize = 0;
        while i < self.values.len()
            invariant
                0 <= i <= self.values@.len(),
                values@ == self.values@.take(i as int),
            decreases self.values@.len() - i,
        {
            values.push(self.values[i]);
            i = i + 1;
        }
        assert(values@ =~= self.values@);
        RollingMoments {
            values,
            len: self.len,
            next: self.next,
            origin: self.origin,
            mean_offset: self.mean_offset,
            m2: self.m2,
            replacements_since_rebuild: self.replacements_since_rebuild,
        }
    }
}

/// Replacements after which a window of some capacity is computed afresh.
pub open spec fn rebuild_interval(capacity: nat) -> nat {
    if capacity * REBUILD_FACTOR > usize::MAX {
        usize::MAX as nat
    } else {
        capacity * REBUILD_FACTOR as nat
    }
}

impl RollingView {
    /// What holds of every window: its buffer is circular, and every number in
    /// it is finite, with no negative sum of squares.
    pub open spec fn sound(self) -> bool {
        &&& 0 < self.capacity <= usize::MAX
        &&& self.stored.len() <= self.capacity
        &&& 0 <= self.next < self.capacity
        &&& self.stored.len() < self.capacity ==> self.next == self.stored.len()
        &&& forall|i: int| 0 <= i < self.stored.len() ==> (#[trigger] self.stored[i]).finite()
        &&& self.origin.finite()
        &&& self.mean_offset.finite()
        &&& self.m2.finite()
        &&& (Double { bits: ZERO }).le(self.m2)
        &&& self.replacements <= usize::MAX
    }

    /// Whether the next insertion evicts the oldest observation.
    pub open spec fn full(self) -> bool {
        self.stored.len() == self.capacity
    }

    /// Observations from the oldest to the newest.
    pub open spec fn window(self) -> Seq<Double> {
        if self.full() {
            self.stored.skip(self.next) + self.stored.take(self.next)
        } else {
            self.stored
        }
    }

    /// The observation that the next insertion evicts.
    pub open spec fn evicted(self) -> Option<Double> {
        if self.full() {
            Some(self.stored[self.next])
        } else {
            None
        }
    }

    /// The level from which the offset of a new observation is taken.
    pub open spec fn level(self, value: Double) -> Double {
        if self.stored.len() == 0 {
            value
        } else {
            self.origin
        }
    }

    /// The window with an observation stored and new moments, before any
    /// rebuild.
    pub open spec fn replaced(self, value: Double, draft: Draft) -> RollingView {
        RollingView {
            capacity: self.capacity,
            stored: if self.full() {
                self.stored.update(self.next, value)
            } else {
                self.stored.push(value)
            },
            next: if self.next + 1 == self.capacity {
                0
            } else {
                self.next + 1
            },
            origin: self.level(value),
            mean_offset: draft.mean_offset,
            m2: draft.m2.floored_at(Double { bits: ZERO }),
            replacements: if !self.full() || self.replacements == usize::MAX {
                self.replacements
            } else {
                self.replacements + 1
            },
        }
    }

    /// Whether the moments are computed afresh after an insertion into this
    /// window led to `after`.
    pub open spec fn rebuilds(self, after: RollingView) -> bool {
        self.full() && after.replacements >= rebuild_interval(self.capacity)
    }
}

/// The numbers that an insertion computes.
pub struct Draft {
    /// The observation less the origin.
    pub offset: Double,
    /// New mean less the origin.
    pub mean_offset: Double,
    /// New mean.
    pub mean: Double,
    /// New corrected sum of squares.
    pub m2: Double,
}

/// The mean after one of `len` values has left.
pub open spec fn removed_mean(len: nat, mean: Double, value: crate::number::Expr) -> crate::number::Expr {
    let before = crate::number::Expr::Lit(mean);
    if len == 1 {
        crate::number::e_lit(ZERO)
    } else {
        crate::number::e_add(
            before,
            crate::number::e_div(
                crate::number::e_sub(before, value),
                crate::number::Expr::Int((len - 1) as u64),
            ),
        )
    }
}

/// The corrected sum of squares after one of `len` values has left.
pub open spec fn removed_m2(
    len: nat,
    mean: Double,
    m2: Double,
    value: crate::number::Expr,
) -> crate::number::Expr {
    if len == 1 {
        crate::number::e_lit(ZERO)
    } else {
        crate::number::e_sub(
            crate::number::Expr::Lit(m2),
            crate::number::e_mul(
                crate::number::e_sub(value, crate::number::Expr::Lit(mean)),
                crate::number::e_sub(value, removed_mean(len, mean, value)),
            ),
        )
    }
}

/// The mean after a value has joined `len` others.
pub open spec fn added_mean(
    len: nat,
    mean: crate::number::Expr,
    value: crate::number::Expr,
) -> crate::number::Expr {
    crate::number::e_add(
        mean,
        crate::number::e_div(
            crate::number::e_sub(value, mean),
            crate::number::Expr::Int((len + 1) as u64),
        ),
    )
}

/// The corrected sum of squares after a value has joined `len` others.
pub open spec fn added_m2(
    len: nat,
    mean: crate::number::Expr,
    m2: crate::number::Expr,
    value: crate::number::Expr,
) -> crate::number::Expr {
    crate::number::e_add(
        m2,
        crate::number::e_mul(
            crate::number::e_sub(value, mean),
            crate::number::e_sub(value, added_mean(len, mean, value)),
        ),
    )
}

/// A number less another.
pub open spec fn offset(value: Double, origin: Double) -> crate::number::Expr {
    crate::number::e_sub(crate::number::Expr::Lit(value), crate::number::Expr::Lit(origin))
}

impl RollingView {
    /// Number of observations that stay for an insertion.
    pub open spec fn base_len(self) -> nat {
        if self.full() {
            (self.stored.len() - 1) as nat
        } else {
            self.stored.len()
        }
    }

    /// Mean offset of the observations that stay for an insertion.
    pub open spec fn base_mean(self, value: Double) -> crate::number::Expr {
        if self.full() {
            removed_mean(
                self.stored.len(),
                self.mean_offset,
                offset(self.stored[self.next], self.level(value)),
            )
        } else {
            crate::number::Expr::Lit(self.mean_offset)
        }
    }

    /// Corrected sum of squares of the observations that stay for an
    /// insertion.
    pub open spec fn base_m2(self, value: Double) -> crate::number::Expr {
        if self.full() {
            removed_m2(
                self.stored.len(),
                self.mean_offset,
                self.m2,
                offset(self.stored[self.next], self.level(value)),
            )
        } else {
            crate::number::Expr::Lit(self.m2)
        }
    }

    /// Mean offset after an insertion.
    pub open spec fn next_mean(self, value: Double) -> crate::number::Expr {
        added_mean(self.base_len(), self.base_mean(value), offset(value, self.level(value)))
    }

    /// Corrected sum of squares after an insertion.
    pub open spec fn next_m2(self, value: Double) -> crate::number::Expr {
        added_m2(
            self.base_len(),
            self.base_mean(value),
            self.base_m2(value),
            offset(value, self.level(value)),
        )
    }

    /// Whether an arithmetic can give the numbers of an insertion.
    pub open spec fn drafts<A: Arithmetic>(self, math: &A, value: Double, draft: Draft) -> bool {
        &&& crate::number::computes(math, offset(value, self.level(value)), draft.offset)
        &&& draft.offset.finite() ==> {
            &&& crate::number::computes(math, self.next_mean(value), draft.mean_offset)
            &&& crate::number::computes(math, self.next_m2(value), draft.m2)
            &&& crate::number::computes(
                math,
                crate::number::e_add(
                    crate::number::Expr::Lit(self.level(value)),
                    self.next_mean(value),
                ),
                draft.mean,
            )
        }
    }
}

impl Draft {
    /// Whether every number is finite.
    pub open spec fn finite(self) -> bool {
        self.offset.finite() && self.mean_offset.finite() && self.mean.finite() && self.m2.finite()
    }
}

/// Each of some values less the first.
pub open spec fn shifted(values: Seq<Double>) -> Seq<crate::number::Expr> {
    Seq::new(values.len(), |i: int| offset(values[i], values[0]))
}

/// Mean of some values less the first, in one pass.
pub open spec fn pass_mean(values: Seq<Double>) -> crate::number::Expr {
    crate::number::e_div(
        crate::transform::sum(shifted(values).skip(1)),
        crate::number::Expr::Int(values.len() as u64),
    )
}

/// Deviation of one value from the mean.
pub open spec fn pass_deviation(values: Seq<Double>, i: int) -> crate::number::Expr {
    crate::number::e_sub(offset(values[i], values[0]), pass_mean(values))
}

/// Sum of the first `n` squared deviations.
pub open spec fn pass_squares(values: Seq<Double>, n: nat) -> crate::number::Expr
    decreases n,
{
    if n == 0 {
        crate::number::e_lit(ZERO)
    } else {
        crate::number::e_add(
            pass_squares(values, (n - 1) as nat),
            crate::number::e_mul(pass_deviation(values, n - 1), pass_deviation(values, n - 1)),
        )
    }
}

/// Sum of the first `n` deviations.
pub open spec fn pass_sum(values: Seq<Double>, n: nat) -> crate::number::Expr
    decreases n,
{
    if n == 0 {
        crate::number::e_lit(ZERO)
    } else {
        crate::number::e_add(
            pass_sum(values, (n - 1) as nat),
            pass_deviation(values, n - 1),
        )
    }
}

/// Corrected sum of squares of some values, in two passes.
pub open spec fn pass_m2(values: Seq<Double>) -> crate::number::Expr {
    let total = pass_sum(values, values.len());
    crate::number::e_floor(
        crate::number::e_sub(
            pass_squares(values, values.len()),
            crate::number::e_div(
                crate::number::e_mul(total, total),
                crate::number::Expr::Int(values.len() as u64),
            ),
        ),
        Double { bits: ZERO },
    )
}

/// Whether an arithmetic can give some moments in two passes.
pub open spec fn passes<A: Arithmetic>(
    math: &A,
    values: Seq<Double>,
    mean: Double,
    mean_offset: Double,
    m2: Double,
) -> bool {
    &&& crate::number::computes(math, pass_mean(values), mean_offset)
    &&& crate::number::computes(math, pass_m2(values), m2)
    &&& crate::number::computes(
        math,
        crate::number::e_add(crate::number::Expr::Lit(values[0]), pass_mean(values)),
        mean,
    )
    &&& (Double { bits: ZERO }).le(m2)
}

/// Whether a window is another with its moments computed afresh, where that
/// gave finite numbers.
pub open spec fn rebuilt<A: Arithmetic>(math: &A, a: RollingView, b: RollingView) -> bool {
    exists|mean: Double, mean_offset: Double, m2: Double|
        {
            &&& #[trigger] passes(math, a.stored, mean, mean_offset, m2)
            &&& b == if mean.finite() && mean_offset.finite() && m2.finite() {
                RollingView { origin: a.stored[0], mean_offset, m2, replacements: 0, ..a }
            } else {
                a
            }
        }
}

/// Whether an insertion led from one window to another with a result.
pub open spec fn pushes<A: Arithmetic>(
    math: &A,
    a: RollingView,
    value: Double,
    result: Result<Option<Double>, RollingError>,
    b: RollingView,
) -> bool {
    if !value.finite() {
        result == Err::<Option<Double>, RollingError>(RollingError::NonFinite(value)) && b == a
    } else {
        exists|draft: Draft|
            {
                &&& #[trigger] a.drafts(math, value, draft)
                &&& if !draft.finite() {
                    &&& result == Err::<Option<Double>, RollingError>(
                        RollingError::NumericalOverflow,
                    )
                    &&& b == a
                } else {
                    &&& result == Ok::<Option<Double>, RollingError>(a.evicted())
                    &&& if a.rebuilds(a.replaced(value, draft)) {
                        rebuilt(math, a.replaced(value, draft), b)
                    } else {
                        b == a.replaced(value, draft)
                    }
                }
            }
    }
}

fn add_moment<A: Arithmetic>(math: &A, len: usize, mean: Term, m2: Term, value: Term) -> (r: (
    usize,
    Term,
    Term,
))
    requires
        len < usize::MAX,
        mean.holds(math),
        m2.holds(math),
        value.holds(math),
    ensures
        r.0 == len + 1,
        r.1.holds(math),
        r.2.holds(math),
        r.1.expr@ == added_mean(len as nat, mean.expr@, value.expr@),
        r.2.expr@ == added_m2(len as nat, mean.expr@, m2.expr@, value.expr@),
{
    let new_len: usize = len + 1;
    let delta = value.minus(math, mean);
    let new_mean = mean.plus(math, delta.over(math, Term::integer(math, new_len as u64)));
    let new_m2 = m2.plus(math, delta.times(math, value.minus(math, new_mean)));
    (new_len, new_mean, new_m2)
}

fn remove_moment<A: Arithmetic>(math: &A, len: usize, mean: Double, m2: Double, value: Term) -> (r:
    (usize, Term, Term))
    requires
        len > 0,
        value.holds(math),
    ensures
        r.0 == len - 1,
        r.1.holds(math),
        r.2.holds(math),
        r.1.expr@ == removed_mean(len as nat, mean, value.expr@),
        r.2.expr@ == removed_m2(len as nat, mean, m2, value.expr@),
{
    if len == 1 {
        return (0, Term::constant(math, ZERO), Term::constant(math, ZERO));
    }
    let new_len: usize = len - 1;
    let before = Term::literal(math, mean);
    let new_mean = before.plus(
        math,
        before.minus(math, value).over(math, Term::integer(math, new_len as u64)),
    );
    let new_m2 = Term::literal(math, m2).minus(
        math,
        value.minus(math, before).times(math, value.minus(math, new_mean)),
    );
    (new_len, new_mean, new_m2)
}

/// Compute the moments of some values afresh: the first value, the mean less
/// it, and the corrected sum of squares.
fn corrected_two_pass<A: Arithmetic>(math: &A, values: &Vec<Double>) -> (r: Option<
    (Double, Double, Double),
>)
    requires
        values@.len() > 0,
    ensures
        exists|mean: Double, mean_offset: Double, m2: Double|
            {
                &&& #[trigger] passes(math, values@, mean, mean_offset, m2)
                &&& r == if mean.finite() && mean_offset.finite() && m2.finite() {
                    Some((values@[0], mean_offset, m2))
                } else {
                    None
                }
            },
{
    let origin: Double = values[0];
    let base = Term::literal(math, origin);
    let count = Term::integer(math, values.len() as u64);
    let ghost rest = shifted(values@).skip(1);
    let mut shifted_sum = Term::constant(math, NEGATIVE_ZERO);
    let mut i: usize = 1;
    assert(rest.take(0) =~= Seq::<crate::number::Expr>::empty());
    while i < values.len()
        invariant
            1 <= i <= values@.len(),
            origin == values@[0],
            base.holds(math),
            base.expr@ == crate::number::Expr::Lit(origin),
            rest == shifted(values@).skip(1),
            shifted_sum.holds(math),
            shifted_sum.expr@ == crate::transform::sum(rest.take(i - 1)),
        decreases values@.len() - i,
    {
        shifted_sum = shifted_sum.plus(math, Term::literal(math, values[i]).minus(math, base));
        proof {
            assert(rest.take(i as int).drop_last() =~= rest.take(i - 1));
            assert(rest.take(i as int).last() == offset(values@[i as int], origin));
        }
        i = i + 1;
    }
    assert(rest.take(i - 1) =~= rest);
    let mean_offset = shifted_sum.over(math, count);
    let mut squared_deviations = Term::constant(math, ZERO);
    let mut deviation_sum = Term::constant(math, ZERO);
    let mut k: usize = 0;
    while k < values.len()
        invariant
            0 <= k <= values@.len(),
            origin == values@[0],
            base.holds(math),
            base.expr@ == crate::number::Expr::Lit(origin),
            mean_offset.holds(math),
            mean_offset.expr@ == pass_mean(values@),
            squared_deviations.holds(math),
            squared_deviations.expr@ == pass_squares(values@, k as nat),
            deviation_sum.holds(math),
            deviation_sum.expr@ == pass_sum(values@, k as nat),
        decreases values@.len() - k,
    {
        let deviation = Term::literal(math, values[k]).minus(math, base).minus(math, mean_offset);
        assert(deviation.expr@ == pass_deviation(values@, k as int));
        squared_deviations = squared_deviations.plus(math, deviation.times(math, deviation));
        deviation_sum = deviation_sum.plus(math, deviation);
        k = k + 1;
    }
    let correction = deviation_sum.times(math, deviation_sum).over(math, count);
    let zero = Double { bits: ZERO };
    let m2 = squared_deviations.minus(math, correction).at_least(math, zero);
    let mean = base.plus(math, mean_offset);
    assert(passes(math, values@, mean.value, mean_offset.value, m2.value));
    if mean.value.is_finite() && mean_offset.value.is_finite() && m2.value.is_finite() {
        Some((origin, mean_offset.value, m2.value))
    } else {
        None
    }
}

/// The mean of a window.
pub open spec fn mean_expr(a: RollingView) -> crate::number::Expr {
    crate::number::e_add(
        crate::number::Expr::Lit(a.origin),
        crate::number::Expr::Lit(a.mean_offset),
    )
}

/// The corrected sum of squares over a number, not below zero.
pub open spec fn variance_expr(a: RollingView, over: nat) -> crate::number::Expr {
    crate::number::e_floor(
        crate::number::e_div(
            crate::number::Expr::Lit(a.m2),
            crate::number::Expr::Int(over as u64),
        ),
        Double { bits: ZERO },
    )
}

/// The population standard deviation of a window.
pub open spec fn deviation_expr(a: RollingView) -> crate::number::Expr {
    crate::number::e_sqrt(variance_expr(a, a.stored.len()))
}

/// The distance of a value from the mean in deviations.
pub open spec fn score_expr(a: RollingView, value: Double, deviation: Double) -> crate::number::Expr {
    crate::number::e_div(
        crate::number::e_sub(
            offset(value, a.origin),
            crate::number::Expr::Lit(a.mean_offset),
        ),
        crate::number::Expr::Lit(deviation),
    )
}

/// Whether a window has a deviation, and an arithmetic can give it.
pub open spec fn deviates<A: Arithmetic>(math: &A, a: RollingView, deviation: Option<Double>) -> bool {
    match deviation {
        Some(d) => a.stored.len() > 1 && crate::number::computes(math, deviation_expr(a), d) && (
        Double { bits: ZERO }).lt(d),
        None => a.stored.len() <= 1 || exists|d: Double| #[trigger]
            crate::number::computes(math, deviation_expr(a), d) && !(Double { bits: ZERO }).lt(d),
    }
}

/// Whether scoring a value against a window gives a result.
pub open spec fn scores<A: Arithmetic>(
    math: &A,
    a: RollingView,
    value: Double,
    result: Result<Option<Double>, RollingError>,
) -> bool {
    if !value.finite() {
        result == Err::<Option<Double>, RollingError>(RollingError::NonFinite(value))
    } else {
        match result {
            Ok(None) => deviates(math, a, None),
            Ok(Some(score)) => score.finite() && exists|d: Double|
                #[trigger] deviates(math, a, Some(d)) && crate::number::computes(
                    math,
                    score_expr(a, value, d),
                    score,
                ),
            Err(e) => e == RollingError::NumericalOverflow && exists|d: Double, score: Double|
                #[trigger] deviates(math, a, Some(d)) && #[trigger] crate::number::computes(
                    math,
                    score_expr(a, value, d),
                    score,
                ) && !score.finite(),
        }
    }
}

impl RollingMoments {
    #[verifier::type_invariant]
    spec fn well_formed(self) -> bool {
        &&& self.len <= self.values@.len()
        &&& self@.sound()
    }

    /// Allocate an empty rolling window with fixed `capacity`.
    pub fn new(capacity: usize) -> (result: Result<Self, RollingError>)
        ensures
            match result {
                Ok(rolling) => capacity > 0 && rolling@ == (RollingView {
                    capacity: capacity as nat,
                    stored: Seq::empty(),
                    next: 0,
                    origin: Double { bits: ZERO },
                    mean_offset: Double { bits: ZERO },
                    m2: Double { bits: ZERO },
                    replacements: 0,
                }),
                Err(e) => capacity == 0 && e == RollingError::EmptyWindow,
            },
    {
        if capacity == 0 {
            return Err(RollingError::EmptyWindow);
        }
        let zero = Double { bits: ZERO };
        let mut values: Vec<Double> = Vec::with_capacity(capacity);
        let mut i: usize = 0;
        while i < capacity
            invariant
                0 <= i <= capacity,
                values@.len() == i,
            decreases capacity - i,
        {
            values.push(zero);
            i = i + 1;
        }
        assert(values@.take(0) =~= Seq::empty());
        Ok(
            RollingMoments {
                values,
                len: 0,
                next: 0,
                origin: zero,
                mean_offset: zero,
                m2: zero,
                replacements_since_rebuild: 0,
            },
        )
    }

    /// Return the fixed number of observations retained by a full window.
    pub fn capacity(&self) -> (capacity: usize)
        ensures
            capacity == self@.capacity,
            self@.sound(),
    {
        proof {
            use_type_invariant(self);
        }
        self.values.len()
    }

    /// Return the number of observations currently retained.
    pub fn len(&self) -> (len: usize)
        ensures
            len == self@.stored.len(),
            len == self@.window().len(),
    {
        proof {
            use_type_invariant(self);
        }
        self.len
    }

    /// Return whether the window contains no observations.
    pub fn is_empty(&self) -> (empty: bool)
        ensures
            empty == (self@.stored.len() == 0),
    {
        proof {
            use_type_invariant(self);
        }
        self.len == 0
    }

    /// Return whether the next insertion will evict the oldest observation.
    pub fn is_full(&self) -> (full: bool)
        ensures
            full == self@.full(),
    {
        proof {
            use_type_invariant(self);
        }
        self.len == self.values.len()
    }

    /// Return the current arithmetic mean, or `None` for an empty window.
    pub fn mean<A: Arithmetic>(&self, math: &A) -> (mean: Option<Double>)
        ensures
            match mean {
                Some(mean) => self@.stored.len() > 0 && crate::number::computes(
                    math,
                    mean_expr(self@),
                    mean,
                ),
                None => self@.stored.len() == 0,
            },
    {
        proof {
            use_type_invariant(self);
        }
        if self.len > 0 {
            let mean = Term::literal(math, self.origin).plus(
                math,
                Term::literal(math, self.mean_offset),
            );
            Some(mean.value)
        } else {
            None
        }
    }

    fn variance<A: Arithmetic>(&self, math: &A, over: usize) -> (variance: Term)
        ensures
            variance.holds(math),
            variance.expr@ == variance_expr(self@, over as nat),
    {
        let ratio = Term::literal(math, self.m2).over(math, Term::integer(math, over as u64));
        ratio.at_least(math, Double { bits: ZERO })
    }

    /// Return the population variance, or `None` for an empty window.
    pub fn population_variance<A: Arithmetic>(&self, math: &A) -> (variance: Option<Double>)
        ensures
            match variance {
                Some(variance) => self@.stored.len() > 0 && crate::number::computes(
                    math,
                    variance_expr(self@, self@.stored.len()),
                    variance,
                ),
                None => self@.stored.len() == 0,
            },
    {
        proof {
            use_type_invariant(self);
        }
        if self.len > 0 {
            Some(self.variance(math, self.len).value)
        } else {
            None
        }
    }

    /// Return the sample variance, or `None` until two values are present.
    pub fn sample_variance<A: Arithmetic>(&self, math: &A) -> (variance: Option<Double>)
        ensures
            match variance {
                Some(variance) => self@.stored.len() > 1 && crate::number::computes(
                    math,
                    variance_expr(self@, (self@.stored.len() - 1) as nat),
                    variance,
                ),
                None => self@.stored.len() <= 1,
            },
    {
        proof {
            use_type_invariant(self);
        }
        if self.len > 1 {
            Some(self.variance(math, self.len - 1).value)
        } else {
            None
        }
    }

    /// Return the population standard deviation, or `None` when it is zero or
    /// fewer than two observations are present.
    pub fn population_standard_deviation<A: Arithmetic>(&self, math: &A) -> (deviation: Option<
        Double,
    >)
        ensures
            deviates(math, self@, deviation),
    {
        proof {
            use_type_invariant(self);
        }
        if self.len > 1 {
            let deviation = self.variance(math, self.len).root(math);
            if (Double { bits: ZERO }).is_below(deviation.value) {
                Some(deviation.value)
            } else {
                assert(crate::number::computes(math, deviation_expr(self@), deviation.value));
                None
            }
        } else {
            None
        }
    }

    /// Standardize `value` against the observations already in the window.
    ///
    /// Calling this before [`Self::push`] gives a no-look-ahead score for a new
    /// observation. `None` means the existing window has insufficient or zero
    /// variance.
    pub fn z_score<A: Arithmetic>(&self, math: &A, value: Double) -> (result: Result<
        Option<Double>,
        RollingError,
    >)
        ensures
            scores(math, self@, value, result),
    {
        if !value.is_finite() {
            return Err(RollingError::NonFinite(value));
        }
        let deviation: Double = match self.population_standard_deviation(math) {
            Some(deviation) => deviation,
            None => {
                return Ok(None);
            },
        };
        assert(deviates(math, self@, Some(deviation)));
        let centered = Term::literal(math, value).minus(
            math,
            Term::literal(math, self.origin),
        ).minus(math, Term::literal(math, self.mean_offset));
        let score = centered.over(math, Term::literal(math, deviation));
        assert(crate::number::computes(math, score_expr(self@, value, deviation), score.value));
        if !score.value.is_finite() {
            return Err(RollingError::NumericalOverflow);
        }
        Ok(Some(score.value))
    }

    /// A window of one slot without an observation.
    fn blank() -> (rolling: Self)
        ensures
            rolling@ == (RollingView {
                capacity: 1,
                stored: Seq::empty(),
                next: 0,
                origin: Double { bits: ZERO },
                mean_offset: Double { bits: ZERO },
                m2: Double { bits: ZERO },
                replacements: 0,
            }),
    {
        let zero = Double { bits: ZERO };
        let rolling = RollingMoments {
            values: vec![zero],
            len: 0,
            next: 0,
            origin: zero,
            mean_offset: zero,
            m2: zero,
            replacements_since_rebuild: 0,
        };
        assert(rolling@.stored =~= Seq::empty());
        rolling
    }

    /// Insert `value`, returning the evicted observation when the window was
    /// already full.
    ///
    /// Invalid or overflowing input leaves the window unchanged.
    pub fn push<A: Arithmetic>(&mut self, math: &A, value: Double) -> (result: Result<
        Option<Double>,
        RollingError,
    >)
        ensures
            pushes(math, old(self)@, value, result, final(self)@),
            final(self)@.sound(),
    {
        proof {
            use_type_invariant(&*self);
        }
        let ghost a = self@;
        if !value.is_finite() {
            return Err(RollingError::NonFinite(value));
        }
        let origin: Double = if self.len == 0 {
            value
        } else {
            self.origin
        };
        let base = Term::literal(math, origin);
        let value_offset = Term::literal(math, value).minus(math, base);
        if !value_offset.value.is_finite() {
            proof {
                let draft = Draft {
                    offset: value_offset.value,
                    mean_offset: value,
                    mean: value,
                    m2: value,
                };
                assert(a.drafts(math, value, draft));
            }
            return Err(RollingError::NumericalOverflow);
        }
        let full: bool = self.len == self.values.len();
        let evicted: Option<Double> = if full {
            Some(self.values[self.next])
        } else {
            None
        };
        let (base_len, base_mean, base_m2) = match evicted {
            Some(oldest) => {
                let oldest_offset = Term::literal(math, oldest).minus(math, base);
                remove_moment(math, self.len, self.mean_offset, self.m2, oldest_offset)
            },
            None => (
                self.len,
                Term::literal(math, self.mean_offset),
                Term::literal(math, self.m2),
            ),
        };
        let (new_len, new_mean_offset, new_m2) = add_moment(
            math,
            base_len,
            base_mean,
            base_m2,
            value_offset,
        );
        let new_mean = base.plus(math, new_mean_offset);
        let ghost draft = Draft {
            offset: value_offset.value,
            mean_offset: new_mean_offset.value,
            mean: new_mean.value,
            m2: new_m2.value,
        };
        assert(a.drafts(math, value, draft));
        if !new_mean_offset.value.is_finite() || !new_mean.value.is_finite()
            || !new_m2.value.is_finite() {
            return Err(RollingError::NumericalOverflow);
        }
        let mut work = RollingMoments::blank();
        std::mem::swap(self, &mut work);
        let RollingMoments { mut values, next, replacements_since_rebuild, .. } = work;
        let capacity: usize = values.len();
        values.set(next, value);
        let next: usize = if next + 1 == capacity {
            0
        } else {
            next + 1
        };
        let replacements: usize = if full {
            replacements_since_rebuild.saturating_add(1)
        } else {
            replacements_since_rebuild
        };
        let zero = Double { bits: ZERO };
        let m2: Double = new_m2.value.at_least(zero);
        let ghost b = a.replaced(value, draft);
        assert(values@.take(new_len as int) =~= b.stored);
        let due: bool = full && (capacity as u128) * 1024 <= replacements as u128 || full
            && replacements == usize::MAX;
        if due {
            assert(values@.take(new_len as int) =~= values@);
            if let Some((origin, mean_offset, m2)) = corrected_two_pass(math, &values) {
                *self = RollingMoments {
                    values,
                    len: new_len,
                    next,
                    origin,
                    mean_offset,
                    m2,
                    replacements_since_rebuild: 0,
                };
                return Ok(evicted);
            }
        }
        *self = RollingMoments {
            values,
            len: new_len,
            next,
            origin,
            mean_offset: new_mean_offset.value,
            m2,
            replacements_since_rebuild: replacements,
        };
        Ok(evicted)
    }
}

/// A window holds the newest observations: an insertion appends to them, and
/// drops the oldest, which it reports, only where the window was full.
pub proof fn lemma_window_slides<A: Arithmetic>(
    math: &A,
    a: RollingView,
    value: Double,
    evicted: Option<Double>,
    b: RollingView,
)
    requires
        a.sound(),
        pushes(math, a, value, Ok(evicted), b),
    ensures
        b.capacity == a.capacity,
        a.full() ==> evicted == Some(a.window()[0]) && b.window() == a.window().skip(1).push(value),
        !a.full() ==> evicted is None && b.window() == a.window().push(value),
{
    let draft = choose|draft: Draft| #[trigger]
        a.drafts(math, value, draft) && draft.finite() && (if a.rebuilds(
            a.replaced(value, draft),
        ) {
            rebuilt(math, a.replaced(value, draft), b)
        } else {
            b == a.replaced(value, draft)
        });
    let r = a.replaced(value, draft);
    assert(b.stored == r.stored && b.next == r.next && b.capacity == r.capacity);
    if a.full() {
        assert(b.window() =~= a.window().skip(1).push(value));
    } else {
        assert(b.window() =~= a.window().push(value));
    }
}

/// A refused observation leaves the window as it was.
pub proof fn lemma_refused_observation<A: Arithmetic>(
    math: &A,
    a: RollingView,
    value: Double,
    error: RollingError,
    b: RollingView,
)
    requires
        pushes(math, a, value, Err(error), b),
    ensures
        b == a,
        !value.finite() <==> error == RollingError::NonFinite(value),
        value.finite() <==> error == RollingError::NumericalOverflow,
{
}

/// Whether the moments that a window keeps are those of its observations.
pub open spec fn holds_moments(a: RollingView) -> bool {
    let origin = crate::reading::exact(a.origin);
    let offset = crate::reading::exact(a.mean_offset);
    let m2 = crate::reading::exact(a.m2);
    if a.window().len() == 0 {
        offset == 0 as real && m2 == 0 as real
    } else {
        origin + offset == crate::reading::mean_of(a.window()) && m2 == crate::reading::squares_of(
            a.window(),
        )
    }
}

proof fn lemma_window_sums(a: RollingView)
    requires
        a.sound(),
    ensures
        a.window().len() == a.stored.len(),
        crate::reading::mean_of(a.window()) == crate::reading::mean_of(a.stored),
        crate::reading::squares_of(a.window()) == crate::reading::squares_of(a.stored),
{
    if a.full() {
        let g = |x: Double| crate::reading::exact(x);
        let h = |x: Double|
            crate::reading::square(
                crate::reading::exact(x) - crate::reading::mean_of(a.stored),
            );
        crate::reading::lemma_gathered_rotated(a.stored, a.next, g);
        crate::reading::lemma_gathered_rotated(a.stored, a.next, h);
        crate::reading::lemma_gathered_alike(
            a.window(),
            |x: Double|
                crate::reading::square(
                    crate::reading::exact(x) - crate::reading::mean_of(a.window()),
                ),
            h,
        );
    }
}

proof fn lemma_remove_algebra(n: real, mu: real, p: real, q: real, m: real, y: real)
    requires
        n > 0 as real,
        (n + 1 as real) * mu == p,
        m == q - (n + 1 as real) * (mu * mu),
    ensures
        ({
            let less = mu + (mu - y) / n;
            &&& n * less == p - y
            &&& m - (y - mu) * (y - less) == (q - y * y) - n * (less * less)
        }),
{
    let d = (mu - y) / n;
    let less = mu + d;
    crate::reading::lemma_quotient(mu - y, n);
    assert(d * n == mu - y);
    assert(n * less == p - y) by (nonlinear_arith)
        requires
            d * n == mu - y,
            less == mu + d,
            (n + 1 as real) * mu == p,
    ;
    let w = n * d;
    assert(w == mu - y) by (nonlinear_arith)
        requires
            d * n == mu - y,
            w == n * d,
    ;
    assert(y == mu - w);
    assert((y - mu) * (y - less) == w * w + w * d) by (nonlinear_arith)
        requires
            y == mu - w,
            less == mu + d,
    ;
    assert(y * y == mu * mu - 2 as real * (mu * w) + w * w) by (nonlinear_arith)
        requires
            y == mu - w,
    ;
    assert(n * (less * less) == n * (mu * mu) + 2 as real * (mu * w) + w * d) by (nonlinear_arith)
        requires
            less == mu + d,
            w == n * d,
    ;
    assert((n + 1 as real) * (mu * mu) == n * (mu * mu) + mu * mu) by (nonlinear_arith);
}

proof fn lemma_add_algebra(n: real, mu: real, p: real, q: real, m: real, z: real)
    requires
        n >= 0 as real,
        n * mu == p,
        m == q - n * (mu * mu),
    ensures
        ({
            let more = mu + (z - mu) / (n + 1 as real);
            &&& (n + 1 as real) * more == p + z
            &&& m + (z - mu) * (z - more) == (q + z * z) - (n + 1 as real) * (more * more)
        }),
{
    let k = n + 1 as real;
    let d = (z - mu) / k;
    let more = mu + d;
    crate::reading::lemma_quotient(z - mu, k);
    let w = k * d;
    assert(w == z - mu) by (nonlinear_arith)
        requires
            d * k == z - mu,
            w == k * d,
    ;
    assert(k * more == p + z) by (nonlinear_arith)
        requires
            k * d == z - mu,
            more == mu + d,
            n * mu == p,
            k == n + 1 as real,
    ;
    assert((z - mu) * (z - more) == w * w - w * d) by (nonlinear_arith)
        requires
            w == z - mu,
            more == mu + d,
    ;
    assert(z * z == mu * mu + 2 as real * (mu * w) + w * w) by (nonlinear_arith)
        requires
            w == z - mu,
    ;
    assert(k * (more * more) == k * (mu * mu) + 2 as real * (mu * w) + w * d) by (nonlinear_arith)
        requires
            more == mu + d,
            w == k * d,
    ;
    assert(k * (mu * mu) == n * (mu * mu) + mu * mu) by (nonlinear_arith)
        requires
            k == n + 1 as real,
    ;
}

/// The observations of a window with one more stored, slot by slot.
pub open spec fn stored_after(a: RollingView, value: Double) -> Seq<Double> {
    if a.full() {
        a.stored.update(a.next, value)
    } else {
        a.stored.push(value)
    }
}

#[verifier::spinoff_prover]
proof fn lemma_insertion_moments(f: crate::reading::Functions, a: RollingView, value: Double)
    requires
        a.sound(),
        holds_moments(a),
    ensures
        crate::reading::exact(a.level(value)) + crate::reading::reading(f, a.next_mean(value))
            == crate::reading::mean_of(stored_after(a, value)),
        crate::reading::reading(f, a.next_m2(value)) == crate::reading::squares_of(
            stored_after(a, value),
        ),
{
    lemma_window_sums(a);
    crate::reading::lemma_constants();
    let level = crate::reading::exact(a.level(value));
    let mu = crate::reading::exact(a.mean_offset);
    let m = crate::reading::exact(a.m2);
    let z = crate::reading::exact(value) - level;
    let g = |x: Double| crate::reading::exact(x) - level;
    let h = |x: Double| crate::reading::square(crate::reading::exact(x) - level);
    let after = stored_after(a, value);
    let len = a.stored.len() as real;
    let p = crate::reading::gathered(a.stored, g);
    let q = crate::reading::gathered(a.stored, h);
    if a.stored.len() > 0 {
        lemma_level_sums(a.stored, level, mu);
    } else {
        assert(len * mu == 0 as real);
        assert(len * (mu * mu) == 0 as real);
    }
    assert(len * mu == p);
    assert(m == q - len * (mu * mu));
    let value_offset = offset(value, a.level(value));
    assert(crate::reading::reading(f, value_offset) == z) by {
        reveal_with_fuel(crate::reading::reading, 2);
    }
    let base_mean = crate::reading::reading(f, a.base_mean(value));
    let base_m2 = crate::reading::reading(f, a.base_m2(value));
    let n = a.base_len() as real;
    let base_p = if a.full() {
        p - g(a.stored[a.next])
    } else {
        p
    };
    let base_q = if a.full() {
        q - h(a.stored[a.next])
    } else {
        q
    };
    if a.full() {
        let y = g(a.stored[a.next]);
        let oldest = offset(a.stored[a.next], a.level(value));
        assert(crate::reading::reading(f, oldest) == y) by {
            reveal_with_fuel(crate::reading::reading, 2);
        }
        crate::reading::lemma_gathered_update(a.stored, a.next, value, g);
        crate::reading::lemma_gathered_update(a.stored, a.next, value, h);
        if a.stored.len() == 1 {
            let one = a.stored[0];
            assert(a.stored =~= Seq::<Double>::empty().push(one));
            crate::reading::lemma_gathered_push(Seq::<Double>::empty(), one, g);
            crate::reading::lemma_gathered_push(Seq::<Double>::empty(), one, h);
            assert(base_mean == 0 as real && base_m2 == 0 as real);
            assert(n * base_mean == 0 as real && n * (base_mean * base_mean) == 0 as real);
        } else {
            assert(n + 1 as real == len);
            lemma_remove_algebra(n, mu, p, q, m, y);
            let before = crate::number::Expr::Lit(a.mean_offset);
            assert(base_mean == mu + (mu - y) / n) by {
                reveal_with_fuel(crate::reading::reading, 4);
            }
            assert(base_m2 == m - (y - mu) * (y - base_mean)) by {
                reveal_with_fuel(crate::reading::reading, 3);
                assert(a.base_m2(value) == crate::number::e_sub(
                    crate::number::Expr::Lit(a.m2),
                    crate::number::e_mul(
                        crate::number::e_sub(oldest, before),
                        crate::number::e_sub(oldest, a.base_mean(value)),
                    ),
                ));
                assert(crate::reading::reading(
                    f,
                    crate::number::e_sub(oldest, a.base_mean(value)),
                ) == y - base_mean);
            }
        }
    } else {
        crate::reading::lemma_gathered_push(a.stored, value, g);
        crate::reading::lemma_gathered_push(a.stored, value, h);
        assert(base_mean == mu && base_m2 == m);
    }
    assert(n * base_mean == base_p);
    assert(base_m2 == base_q - n * (base_mean * base_mean));
    lemma_add_algebra(n, base_mean, base_p, base_q, base_m2, z);
    let k = n + 1 as real;
    assert((a.base_len() + 1) as u64 as int as real == k);
    let next = crate::reading::reading(f, a.next_mean(value));
    assert(next == base_mean + (z - base_mean) / k) by {
        reveal_with_fuel(crate::reading::reading, 4);
        assert(crate::reading::reading(
            f,
            crate::number::e_sub(value_offset, a.base_mean(value)),
        ) == z - base_mean);
    }
    let next_m2 = crate::reading::reading(f, a.next_m2(value));
    assert(next_m2 == base_m2 + (z - base_mean) * (z - next)) by {
        reveal_with_fuel(crate::reading::reading, 3);
        assert(a.next_m2(value) == crate::number::e_add(
            a.base_m2(value),
            crate::number::e_mul(
                crate::number::e_sub(value_offset, a.base_mean(value)),
                crate::number::e_sub(value_offset, a.next_mean(value)),
            ),
        ));
        assert(crate::reading::reading(
            f,
            crate::number::e_sub(value_offset, a.base_mean(value)),
        ) == z - base_mean);
        assert(crate::reading::reading(
            f,
            crate::number::e_sub(value_offset, a.next_mean(value)),
        ) == z - next);
    }
    assert(after.len() as real == k);
    crate::reading::lemma_moments(after, level, next);
}

proof fn lemma_level_sums(values: Seq<Double>, level: real, offset: real)
    requires
        values.len() > 0,
        level + offset == crate::reading::mean_of(values),
    ensures
        (values.len() as real) * offset == crate::reading::gathered(
            values,
            |x: Double| crate::reading::exact(x) - level,
        ),
        crate::reading::squares_of(values) == crate::reading::gathered(
            values,
            |x: Double| crate::reading::square(crate::reading::exact(x) - level),
        ) - (values.len() as real) * (offset * offset),
{
    let n = values.len() as real;
    let q = crate::reading::gathered(values, |x: Double| crate::reading::exact(x) - level);
    crate::reading::lemma_quotient(q, n);
    let true_offset = q / n;
    assert(n * true_offset == q) by (nonlinear_arith)
        requires
            true_offset * n == q,
    ;
    crate::reading::lemma_moments(values, level, true_offset);
}

proof fn lemma_pass_readings(f: crate::reading::Functions, values: Seq<Double>, n: nat)
    requires
        n <= values.len(),
    ensures
        ({
            let base = crate::reading::exact(values[0]);
            let m = crate::reading::reading(f, pass_mean(values));
            let d = |i: int| crate::reading::exact(values[i]) - base - m;
            &&& crate::reading::reading(f, pass_sum(values, n)) == crate::reading::total(d, n as int)
            &&& crate::reading::reading(f, pass_squares(values, n)) == crate::reading::total(
                |i: int| crate::reading::square(d(i)),
                n as int,
            )
        }),
    decreases n,
{
    crate::reading::lemma_constants();
    if n > 0 {
        lemma_pass_readings(f, values, (n - 1) as nat);
        let base = crate::reading::exact(values[0]);
        let m = crate::reading::reading(f, pass_mean(values));
        let e = pass_deviation(values, n - 1);
        assert(crate::reading::reading(f, e) == crate::reading::exact(values[n - 1]) - base - m) by {
            reveal_with_fuel(crate::reading::reading, 3);
            assert(crate::reading::reading(f, offset(values[n - 1], values[0]))
                == crate::reading::exact(values[n - 1]) - base);
        }
        assert(crate::reading::reading(f, crate::number::e_mul(e, e)) == crate::reading::square(
            crate::reading::reading(f, e),
        ));
    }
}

proof fn lemma_total_from_second(x: spec_fn(int) -> real, n: int)
    requires
        n >= 1,
    ensures
        crate::reading::total(|i: int| x(i + 1), n - 1) == crate::reading::total(x, n) - x(0),
    decreases n,
{
    if n > 1 {
        lemma_total_from_second(x, n - 1);
    } else {
        assert(crate::reading::total(x, 1) == crate::reading::total(x, 0) + x(0));
    }
}

/// Moments computed afresh come to the mean and the squared distances from it.
pub proof fn lemma_fresh_moments(f: crate::reading::Functions, values: Seq<Double>)
    requires
        0 < values.len() <= u64::MAX,
    ensures
        crate::reading::exact(values[0]) + crate::reading::reading(f, pass_mean(values))
            == crate::reading::mean_of(values),
        crate::reading::reading(f, pass_m2(values)) == crate::reading::squares_of(values),
{
    let level = crate::reading::exact(values[0]);
    let len = values.len() as int;
    let n = len as real;
    let terms = shifted(values);
    let rest = terms.skip(1);
    let x = |i: int| crate::reading::exact(values[i]) - level;
    crate::reading::lemma_constants();
    crate::reading::lemma_sum(f, rest);
    assert forall|i: int| 0 <= i < rest.len() implies #[trigger] crate::reading::reading(
        f,
        rest[i],
    ) == x(i + 1) by {
        assert(rest[i] == offset(values[i + 1], values[0]));
        reveal_with_fuel(crate::reading::reading, 2);
    }
    crate::reading::lemma_totals(
        |i: int| crate::reading::reading(f, rest[i]),
        |i: int| x(i + 1),
        len - 1,
    );
    lemma_total_from_second(x, len);
    let t = crate::reading::total(x, len);
    let m = crate::reading::reading(f, pass_mean(values));
    assert(m == t / n) by {
        reveal_with_fuel(crate::reading::reading, 2);
    }
    crate::reading::lemma_quotient(t, n);
    crate::reading::lemma_totals(
        x,
        |i: int| (|y: Double| crate::reading::exact(y) - level)(values[i]),
        len,
    );
    assert(n * m == t) by (nonlinear_arith)
        requires
            m * n == t,
    ;
    crate::reading::lemma_moments(values, level, m);
    lemma_pass_readings(f, values, values.len());
    let d = |i: int| crate::reading::exact(values[i]) - level - m;
    lemma_centered_total(x, m, len);
    crate::reading::lemma_totals(d, |i: int| x(i) - m, len);
    assert(crate::reading::total(d, len) == 0 as real);
    let s = crate::reading::squares_of(values);
    let dd = |i: int| crate::reading::square(d(i));
    let mean = crate::reading::mean_of(values);
    let ss = |i: int|
        (|y: Double| crate::reading::square(crate::reading::exact(y) - mean))(values[i]);
    assert forall|i: int| 0 <= i < len implies #[trigger] dd(i) == ss(i) by {
        assert(d(i) == crate::reading::exact(values[i]) - mean);
    }
    crate::reading::lemma_totals(dd, ss, len);
    crate::reading::lemma_totals(
        ss,
        |i: int|
            (|y: Double|
                crate::reading::square(
                    crate::reading::exact(y) - crate::reading::mean_of(values),
                ))(values[i]),
        len,
    );
    assert(crate::reading::reading(f, pass_squares(values, values.len())) == s);
    let sum = pass_sum(values, values.len());
    assert(crate::reading::reading(f, sum) == 0 as real);
    let square = crate::number::e_mul(sum, sum);
    assert(crate::reading::reading(f, square) == 0 as real);
    let correction = crate::number::e_div(square, crate::number::Expr::Int(values.len() as u64));
    assert(crate::reading::reading(f, correction) == 0 as real) by {
        reveal_with_fuel(crate::reading::reading, 2);
        assert(crate::reading::reading(f, correction) == 0 as real / n);
        crate::reading::lemma_quotient(0 as real, n);
        let c = 0 as real / n;
        assert(c == 0 as real) by (nonlinear_arith)
            requires
                c * n == 0 as real,
                n > 0 as real,
        ;
    }
    let corrected = crate::number::e_sub(pass_squares(values, values.len()), correction);
    assert(crate::reading::reading(f, corrected) == s);
    assert(pass_m2(values) == crate::number::e_floor(corrected, Double { bits: ZERO }));
    reveal_with_fuel(crate::reading::reading, 2);
}

proof fn lemma_centered_total(x: spec_fn(int) -> real, m: real, n: int)
    requires
        n >= 0,
    ensures
        crate::reading::total(|i: int| x(i) - m, n) == crate::reading::total(x, n) - (n as real)
            * m,
    decreases n,
{
    if n > 0 {
        lemma_centered_total(x, m, n - 1);
        let k = (n - 1) as real;
        assert(k * m + m == (k + 1 as real) * m) by (nonlinear_arith);
    } else {
        assert((0 as real) * m == 0 as real);
    }
}

/// An empty window keeps the moments of no observations.
pub proof fn lemma_new_window_holds_moments(capacity: usize, result: Result<
    RollingMoments,
    RollingError,
>)
    requires
        call_ensures(RollingMoments::new, (capacity,), result),
    ensures
        result is Ok <==> capacity > 0,
        result is Ok ==> {
            &&& result->Ok_0@.capacity == capacity
            &&& result->Ok_0@.window().len() == 0
            &&& holds_moments(result->Ok_0@)
        },
        result is Err ==> result->Err_0 == RollingError::EmptyWindow,
{
    crate::reading::lemma_constants();
    if result is Ok {
        let a = result->Ok_0@;
        assert(a.window().len() == 0);
    }
}

/// An insertion into a window whose moments are those of its observations
/// computes the moments of the new observations: the expressions of the new
/// mean and the new sum of squares come to the mean of the new window and to
/// the squared distances from it.
pub proof fn lemma_insertion_keeps_moments<A: Arithmetic>(
    math: &A,
    f: crate::reading::Functions,
    rolling: &mut RollingMoments,
    value: Double,
    evicted: Option<Double>,
)
    requires
        call_ensures(RollingMoments::push::<A>, (rolling, math, value), Ok(evicted)),
        old(rolling)@.sound(),
        holds_moments(old(rolling)@),
    ensures
        ({
            let a = old(rolling)@;
            let b = final(rolling)@;
            let mean = crate::reading::mean_of(b.window());
            let squares = crate::reading::squares_of(b.window());
            &&& b.capacity == a.capacity
            &&& a.window().len() == a.capacity ==> evicted == Some(a.window()[0]) && b.window()
                == a.window().skip(1).push(value)
            &&& a.window().len() < a.capacity ==> evicted is None && b.window() == a.window().push(
                value,
            )
            &&& exists|e: crate::number::Expr, s: crate::number::Expr, m2: Double|
                {
                    &&& e == a.next_mean(value) && s == a.next_m2(value) || e == pass_mean(b.stored)
                        && s == pass_m2(b.stored)
                    &&& #[trigger] crate::number::computes(math, e, b.mean_offset)
                    &&& crate::reading::exact(b.origin) + crate::reading::reading(f, e) == mean
                    &&& #[trigger] crate::number::computes(math, s, m2)
                    &&& b.m2 == m2.floored_at(Double { bits: ZERO })
                    &&& crate::reading::reading(f, s) == squares
                }
        }),
{
    let a = old(rolling)@;
    let b = final(rolling)@;
    lemma_window_slides(math, a, value, evicted, b);
    lemma_insertion_moments(f, a, value);
    lemma_window_sums(b);
    let draft = choose|draft: Draft| #[trigger]
        a.drafts(math, value, draft) && draft.finite() && (if a.rebuilds(
            a.replaced(value, draft),
        ) {
            rebuilt(math, a.replaced(value, draft), b)
        } else {
            b == a.replaced(value, draft)
        });
    let r = a.replaced(value, draft);
    assert(r.stored == stored_after(a, value));
    assert(b.stored == r.stored);
    let fresh = a.rebuilds(r) && b != r;
    if fresh {
        let (mean, mean_offset, m2) = choose|mean: Double, mean_offset: Double, m2: Double|
            {
                &&& #[trigger] passes(math, r.stored, mean, mean_offset, m2)
                &&& b == if mean.finite() && mean_offset.finite() && m2.finite() {
                    RollingView { origin: r.stored[0], mean_offset, m2, replacements: 0, ..r }
                } else {
                    r
                }
            };
        lemma_fresh_moments(f, b.stored);
        let e = pass_mean(b.stored);
        let s = pass_m2(b.stored);
        assert(crate::number::computes(math, e, b.mean_offset));
        assert(crate::number::computes(math, s, m2));
        lemma_floored_again(math, r.stored, m2);
    } else {
        let e = a.next_mean(value);
        let s = a.next_m2(value);
        assert(crate::number::computes(math, e, b.mean_offset));
        assert(crate::number::computes(math, s, draft.m2));
        assert(b.m2 == draft.m2.floored_at(Double { bits: ZERO }));
    }
}

proof fn lemma_floored_again<A: Arithmetic>(math: &A, values: Seq<Double>, m2: Double)
    requires
        crate::number::computes(math, pass_m2(values), m2),
    ensures
        m2 == m2.floored_at(Double { bits: ZERO }),
{
    let zero = Double { bits: ZERO };
    match pass_m2(values) {
        crate::number::Expr::Floor(x, y) => {
            let (u, v) = choose|u: Double, v: Double|
                crate::number::computes(math, *x, u) && crate::number::computes(math, *y, v) && m2
                    == #[trigger] u.floored_at(v);
            assert(*y == crate::number::Expr::Lit(zero));
            assert(crate::number::computes(math, crate::number::Expr::Lit(zero), v));
        },
        _ => {},
    }
}

/// The mean of a window comes to the mean of its observations, and there is
/// one exactly where there is an observation.
pub proof fn lemma_mean_is_mean<A: Arithmetic>(
    math: &A,
    f: crate::reading::Functions,
    rolling: &RollingMoments,
    mean: Option<Double>,
)
    requires
        call_ensures(RollingMoments::mean::<A>, (rolling, math), mean),
        rolling@.sound(),
        holds_moments(rolling@),
    ensures
        mean is Some <==> rolling@.window().len() > 0,
        mean is Some ==> crate::number::computes(math, mean_expr(rolling@), mean->0)
            && crate::reading::reading(f, mean_expr(rolling@)) == crate::reading::mean_of(
            rolling@.window(),
        ),
{
    lemma_window_sums(rolling@);
    reveal_with_fuel(crate::reading::reading, 2);
}

proof fn lemma_variance_reading(f: crate::reading::Functions, a: RollingView, over: nat)
    requires
        a.sound(),
        holds_moments(a),
        a.window().len() > 0,
        0 < over <= u64::MAX,
    ensures
        crate::reading::reading(f, variance_expr(a, over)) * (over as real)
            == crate::reading::squares_of(a.window()),
        crate::reading::reading(f, variance_expr(a, over)) >= 0 as real,
{
    crate::reading::lemma_constants();
    crate::reading::lemma_order(Double { bits: ZERO }, a.m2);
    reveal_with_fuel(crate::reading::reading, 3);
    let m = crate::reading::exact(a.m2);
    let n = over as real;
    crate::reading::lemma_quotient(m, n);
    let r = m / n;
    assert(r >= 0 as real) by (nonlinear_arith)
        requires
            r * n == m,
            m >= 0 as real,
            n > 0 as real,
    ;
    assert(crate::reading::reading(f, variance_expr(a, over)) == r);
}

/// The population variance times the number of observations, and the sample
/// variance times one less, come to the squared distances of the observations
/// from their mean.
pub proof fn lemma_variances_are_variances<A: Arithmetic>(
    math: &A,
    f: crate::reading::Functions,
    rolling: &RollingMoments,
    population: Option<Double>,
    sample: Option<Double>,
)
    requires
        call_ensures(RollingMoments::population_variance::<A>, (rolling, math), population),
        call_ensures(RollingMoments::sample_variance::<A>, (rolling, math), sample),
        rolling@.sound(),
        holds_moments(rolling@),
    ensures
        ({
            let n = rolling@.window().len();
            let squares = crate::reading::squares_of(rolling@.window());
            &&& population is Some <==> n > 0
            &&& sample is Some <==> n > 1
            &&& population is Some ==> {
                let e = variance_expr(rolling@, n);
                &&& crate::number::computes(math, e, population->0)
                &&& crate::reading::reading(f, e) * (n as real) == squares
            }
            &&& sample is Some ==> {
                let e = variance_expr(rolling@, (n - 1) as nat);
                &&& crate::number::computes(math, e, sample->0)
                &&& crate::reading::reading(f, e) * ((n - 1) as real) == squares
            }
        }),
{
    lemma_window_sums(rolling@);
    let n = rolling@.window().len();
    if n > 0 {
        lemma_variance_reading(f, rolling@, n);
    }
    if n > 1 {
        lemma_variance_reading(f, rolling@, (n - 1) as nat);
    }
}

/// A score times the deviation comes to the value less the mean of the
/// observations in the window, so that it is negative exactly where the value
/// is below that mean. The square of the deviation times the number of
/// observations comes to their squared distances from the mean.
pub proof fn lemma_score_is_distance_from_mean<A: Arithmetic>(
    math: &A,
    f: crate::reading::Functions,
    rolling: &RollingMoments,
    value: Double,
    score: Double,
)
    requires
        call_ensures(RollingMoments::z_score::<A>, (rolling, math, value), Ok(Some(score))),
        rolling@.sound(),
        holds_moments(rolling@),
        f.takes_roots(),
    ensures
        rolling@.window().len() > 1,
        value.finite(),
        score.finite(),
        exists|d: Double|
            {
                let n = rolling@.window().len() as real;
                let mean = crate::reading::mean_of(rolling@.window());
                let e = score_expr(rolling@, value, d);
                let shown = crate::reading::reading(f, e);
                let spread = crate::reading::reading(f, deviation_expr(rolling@));
                &&& #[trigger] crate::number::computes(math, deviation_expr(rolling@), d)
                &&& spread >= 0 as real
                &&& (spread * spread) * n == crate::reading::squares_of(rolling@.window())
                &&& (Double { bits: ZERO }).lt(d)
                &&& crate::number::computes(math, e, score)
                &&& d.finite() ==> {
                    &&& shown * crate::reading::exact(d) == crate::reading::exact(value) - mean
                    &&& shown < 0 as real <==> crate::reading::exact(value) < mean
                    &&& shown == 0 as real <==> crate::reading::exact(value) == mean
                }
            },
{
    let a = rolling@;
    lemma_window_sums(a);
    assert(scores(math, a, value, Ok(Some(score))));
    let d = choose|d: Double|
        #[trigger] deviates(math, a, Some(d)) && crate::number::computes(
            math,
            score_expr(a, value, d),
            score,
        );
    assert(crate::number::computes(math, deviation_expr(a), d));
    let n = a.stored.len();
    lemma_variance_reading(f, a, n);
    let v = crate::reading::reading(f, variance_expr(a, n));
    let spread = crate::reading::reading(f, deviation_expr(a));
    assert(spread == (f.root)(v));
    assert(crate::reading::square(spread) == v);
    if d.finite() {
        crate::reading::lemma_constants();
        crate::reading::lemma_order(Double { bits: ZERO }, d);
        let x = crate::reading::exact(d);
        let mean = crate::reading::mean_of(a.window());
        let e = score_expr(a, value, d);
        let top = crate::number::e_sub(
            offset(value, a.origin),
            crate::number::Expr::Lit(a.mean_offset),
        );
        assert(crate::reading::reading(f, top) == crate::reading::exact(value) - mean) by {
            reveal_with_fuel(crate::reading::reading, 3);
        }
        let t = crate::reading::exact(value) - mean;
        assert(e == crate::number::e_div(top, crate::number::Expr::Lit(d)));
        let shown = crate::reading::reading(f, e);
        assert(shown == t / x) by {
            reveal_with_fuel(crate::reading::reading, 2);
        }
        crate::reading::lemma_quotient(t, x);
        assert((shown < 0 as real <==> t < 0 as real) && (shown == 0 as real <==> t == 0 as real))
            by (nonlinear_arith)
            requires
                shown * x == t,
                x > 0 as real,
        ;
    }
}

/// A value is scored exactly where it is finite and the window deviates; what
/// is refused is refused for what it is, and the score does not look ahead: it
/// is against the window as it stands.
pub proof fn lemma_score_is_given_where_owed<A: Arithmetic>(
    math: &A,
    rolling: &RollingMoments,
    value: Double,
    result: Result<Option<Double>, RollingError>,
)
    requires
        call_ensures(RollingMoments::z_score::<A>, (rolling, math, value), result),
        rolling@.sound(),
    ensures
        !value.finite() <==> result == Err::<Option<Double>, RollingError>(
            RollingError::NonFinite(value),
        ),
        value.finite() && rolling@.window().len() <= 1 ==> result == Ok::<
            Option<Double>,
            RollingError,
        >(None),
        result is Ok && result->Ok_0 is None && rolling@.window().len() > 1 ==> exists|d: Double|
            #[trigger]
            crate::number::computes(math, deviation_expr(rolling@), d) && !(Double {
                bits: ZERO,
            }).lt(d),
{
    lemma_window_sums(rolling@);
    assert(scores(math, rolling@, value, result));
}

/// A deviation squared, times the number of observations, comes to the squared
/// distances of the observations from their mean; fewer than two observations
/// have none.
pub proof fn lemma_deviation_is_root<A: Arithmetic>(
    math: &A,
    f: crate::reading::Functions,
    rolling: &RollingMoments,
    deviation: Option<Double>,
)
    requires
        call_ensures(
            RollingMoments::population_standard_deviation::<A>,
            (rolling, math),
            deviation,
        ),
        rolling@.sound(),
        holds_moments(rolling@),
        f.takes_roots(),
    ensures
        ({
            let n = rolling@.window().len();
            let e = deviation_expr(rolling@);
            let d = crate::reading::reading(f, e);
            &&& n < 2 ==> deviation is None
            &&& deviation is Some ==> {
                &&& crate::number::computes(math, e, deviation->0)
                &&& d >= 0 as real
                &&& crate::reading::square(d) * (n as real) == crate::reading::squares_of(
                    rolling@.window(),
                )
            }
        }),
{
    lemma_window_sums(rolling@);
    let n = rolling@.window().len();
    if n > 1 {
        lemma_variance_reading(f, rolling@, n);
        reveal_with_fuel(crate::reading::reading, 2);
        let v = crate::reading::reading(f, variance_expr(rolling@, n));
        assert((f.root)(v) >= 0 as real);
        assert(crate::reading::reading(f, deviation_expr(rolling@)) == (f.root)(v));
    }
}

} // verus!
