//! Reductions over in-memory vectors.

use crate::number::{Arithmetic, Double, Term, ZERO};
use crate::order::{sorted_order, Ranking};
use crate::slice_error::SliceError;
use crate::transform::sum_terms;
use vstd::prelude::*;

verus! {

/// The products of two vectors, slot by slot.
pub open spec fn products(lhs: Seq<Double>, rhs: Seq<Double>) -> Seq<crate::number::Expr> {
    Seq::new(
        lhs.len(),
        |i: int|
            crate::number::e_mul(
                crate::number::Expr::Lit(lhs[i]),
                crate::number::Expr::Lit(rhs[i]),
            ),
    )
}

/// Whether a result is the dot product of two vectors, or says that their
/// lengths differ.
pub open spec fn multiplies<A: Arithmetic>(
    math: &A,
    lhs: Seq<Double>,
    rhs: Seq<Double>,
    result: Result<Double, SliceError>,
) -> bool {
    match result {
        Ok(total) => lhs.len() == rhs.len() && crate::number::computes(
            math,
            crate::transform::sum(products(lhs, rhs)),
            total,
        ),
        Err(e) => lhs.len() != rhs.len() && e@ == (crate::slice_error::SliceFault::DotLength {
            lhs: lhs.len() as usize,
            rhs: rhs.len() as usize,
        }),
    }
}

/// Compute the dot product of equally sized in-memory vectors.
pub fn dot<A: Arithmetic>(math: &A, lhs: &[Double], rhs: &[Double]) -> (result: Result<
    Double,
    SliceError,
>)
    ensures
        multiplies(math, lhs@, rhs@, result),
{
    if lhs.len() != rhs.len() {
        return Err(SliceError::DotLength { lhs: lhs.len(), rhs: rhs.len() });
    }
    let mut terms: Vec<Term> = Vec::new();
    let mut i: usize = 0;
    while i < lhs.len()
        invariant
            0 <= i <= lhs@.len(),
            lhs@.len() == rhs@.len(),
            terms@.len() == i,
            crate::transform::all_hold(math, terms@),
            crate::transform::exprs(terms@) == products(lhs@, rhs@).take(i as int),
        decreases lhs@.len() - i,
    {
        let product = Term::literal(math, lhs[i]).times(math, Term::literal(math, rhs[i]));
        terms.push(product);
        assert(crate::transform::exprs(terms@) =~= products(lhs@, rhs@).take(i + 1));
        i = i + 1;
    }
    assert(products(lhs@, rhs@).take(i as int) =~= products(lhs@, rhs@));
    Ok(sum_terms(math, &terms).value)
}

/// Sum an in-memory vector.
pub fn sum<A: Arithmetic>(math: &A, values: &[Double]) -> (total: Double)
    ensures
        crate::number::computes(
            math,
            crate::transform::sum(crate::transform::literals(values@)),
            total,
        ),
{
    let mut terms: Vec<Term> = Vec::new();
    let ghost all = crate::transform::literals(values@);
    let mut i: usize = 0;
    while i < values.len()
        invariant
            0 <= i <= values@.len(),
            all == crate::transform::literals(values@),
            terms@.len() == i,
            crate::transform::all_hold(math, terms@),
            crate::transform::exprs(terms@) == all.take(i as int),
        decreases values@.len() - i,
    {
        terms.push(Term::literal(math, values[i]));
        assert(crate::transform::exprs(terms@) =~= all.take(i + 1));
        i = i + 1;
    }
    assert(all.take(i as int) =~= all);
    sum_terms(math, &terms).value
}

/// A vector without its signs.
pub open spec fn magnitudes(values: Seq<Double>) -> Seq<Double> {
    Seq::new(values.len(), |i: int| values[i].abs())
}

/// Sum absolute values in an in-memory vector.
pub fn sum_abs<A: Arithmetic>(math: &A, values: &[Double]) -> (total: Double)
    ensures
        crate::number::computes(
            math,
            crate::transform::sum(crate::transform::literals(magnitudes(values@))),
            total,
        ),
{
    let mut unsigned: Vec<Double> = Vec::new();
    let mut i: usize = 0;
    while i < values.len()
        invariant
            0 <= i <= values@.len(),
            unsigned@ == magnitudes(values@).take(i as int),
        decreases values@.len() - i,
    {
        unsigned.push(values[i].absolute());
        assert(unsigned@ =~= magnitudes(values@).take(i + 1));
        i = i + 1;
    }
    assert(unsigned@ =~= magnitudes(values@));
    sum(math, unsigned.as_slice())
}

/// Whether a value takes part in a ranking by magnitude.
pub open spec fn ranked(value: Double) -> bool {
    value.finite() && !value.eq_number(Double { bits: ZERO })
}

/// The slots before `n` whose values take part, with those values.
pub open spec fn candidates(values: Seq<Double>, n: nat) -> Seq<(usize, Double)>
    decreases n,
{
    if n == 0 {
        Seq::empty()
    } else {
        let before = candidates(values, (n - 1) as nat);
        if ranked(values[n - 1]) {
            before.push(((n - 1) as usize, values[n - 1]))
        } else {
            before
        }
    }
}

/// Whether one candidate has the larger magnitude.
pub open spec fn larger(items: Seq<(usize, Double)>) -> spec_fn(int, int) -> bool {
    |i: int, j: int| items[i].1.magnitude() > items[j].1.magnitude()
}

/// Candidates by descending magnitude, the lower slot first among equals.
pub open spec fn by_magnitude(items: Seq<(usize, Double)>) -> Seq<(usize, Double)> {
    crate::order::taken(items, crate::order::arrangement(items.len(), larger(items)))
}

/// The first `limit` of some items.
pub open spec fn at_most<T>(items: Seq<T>, limit: nat) -> Seq<T> {
    if limit < items.len() {
        items.take(limit as int)
    } else {
        items
    }
}

struct ByMagnitude<'a> {
    items: &'a Vec<(usize, Double)>,
}

impl<'a> Ranking for ByMagnitude<'a> {
    closed spec fn size(&self) -> nat {
        self.items@.len()
    }

    closed spec fn relation(&self) -> spec_fn(int, int) -> bool {
        larger(self.items@)
    }

    proof fn lawful(&self) {
    }

    fn before(&self, i: usize, j: usize) -> bool {
        let left = self.items[i].1;
        let right = self.items[j].1;
        right.magnitude_bits() < left.magnitude_bits()
    }
}

/// Return up to `limit` finite nonzero values by descending magnitude.
///
/// Equal magnitudes are ordered by ascending slot so results remain
/// deterministic.
pub fn top_abs(values: &[Double], limit: usize) -> (top: Vec<(usize, Double)>)
    ensures
        top@ == at_most(by_magnitude(candidates(values@, values@.len())), limit as nat),
{
    let mut items: Vec<(usize, Double)> = Vec::new();
    let zero = Double { bits: ZERO };
    let mut i: usize = 0;
    while i < values.len()
        invariant
            0 <= i <= values@.len(),
            zero == (Double { bits: ZERO }),
            items@ == candidates(values@, i as nat),
        decreases values@.len() - i,
    {
        let value = values[i];
        if value.is_finite() && !value.equals(zero) {
            items.push((i, value));
        }
        i = i + 1;
    }
    let order = sorted_order(&ByMagnitude { items: &items }, items.len());
    let ghost all = by_magnitude(items@);
    let n: usize = if limit < items.len() {
        limit
    } else {
        items.len()
    };
    let mut top: Vec<(usize, Double)> = Vec::new();
    let mut k: usize = 0;
    while k < n
        invariant
            0 <= k <= n,
            n <= items@.len(),
            order@.len() == items@.len(),
            crate::order::indexes(order@) == crate::order::arrangement(
                items@.len(),
                larger(items@),
            ),
            crate::order::arranged(
                items@.len(),
                larger(items@),
                crate::order::indexes(order@),
            ),
            all == by_magnitude(items@),
            top@ == all.take(k as int),
        decreases n - k,
    {
        proof {
            assert(crate::order::indexes(order@)[k as int] == order@[k as int] as int);
        }
        top.push(items[order[k]]);
        assert(top@ =~= all.take(k + 1));
        k = k + 1;
    }
    assert(n == items@.len() ==> all.take(n as int) =~= all);
    top
}

/// The slots of the candidates ascend and hold the values at those slots.
proof fn lemma_candidates(values: Seq<Double>, n: nat)
    requires
        n <= values.len(),
        values.len() <= usize::MAX,
    ensures
        forall|i: int|
            0 <= i < candidates(values, n).len() ==> {
                let item = #[trigger] candidates(values, n)[i];
                item.0 < n && item.1 == values[item.0 as int] && ranked(item.1)
            },
        forall|i: int, j: int|
            0 <= i < j < candidates(values, n).len() ==> (#[trigger] candidates(values, n)[i]).0 < (
            #[trigger] candidates(values, n)[j]).0,
        forall|s: int|
            0 <= s < n && ranked(#[trigger] values[s]) ==> candidates(values, n).contains(
                (s as usize, values[s]),
            ),
    decreases n,
{
    if n > 0 {
        let before = candidates(values, (n - 1) as nat);
        lemma_candidates(values, (n - 1) as nat);
        let all = candidates(values, n);
        assert forall|s: int| 0 <= s < n && ranked(#[trigger] values[s]) implies all.contains(
            (s as usize, values[s]),
        ) by {
            if s < n - 1 {
                assert(before.contains((s as usize, values[s])));
                let k = choose|k: int| 0 <= k < before.len() && before[k] == (s as usize, values[s]);
                assert(all[k] == (s as usize, values[s]));
            } else {
                assert(all[all.len() - 1] == (s as usize, values[s]));
            }
        }
    }
}

/// The reported slots hold what they are reported with, are finite and not
/// zero, come by descending magnitude and among equals by ascending slot, and
/// a slot that is left out has a smaller magnitude than every one that is
/// reported, or an equal one and a higher slot.
pub proof fn lemma_top_abs(values: Seq<Double>, limit: nat)
    requires
        values.len() <= usize::MAX,
    ensures
        ({
            let top = at_most(by_magnitude(candidates(values, values.len())), limit);
            &&& top.len() <= limit
            &&& forall|i: int|
                0 <= i < top.len() ==> (#[trigger] top[i]).0 < values.len() && top[i].1
                    == values[top[i].0 as int] && ranked(top[i].1)
            &&& forall|i: int, j: int|
                0 <= i < j < top.len() ==> (#[trigger] top[i]).1.magnitude() > (
                #[trigger] top[j]).1.magnitude() || (top[i].1.magnitude()
                    == top[j].1.magnitude() && top[i].0 < top[j].0)
            &&& forall|s: int, i: int|
                0 <= s < values.len() && ranked(#[trigger] values[s]) && 0 <= i < top.len()
                    && !top.contains((s as usize, values[s])) ==> values[s].magnitude() < (
                #[trigger] top[i]).1.magnitude() || (values[s].magnitude()
                    == top[i].1.magnitude() && top[i].0 < s)
        }),
{
    let items = candidates(values, values.len());
    let n = items.len();
    let order = crate::order::arrangement(n, larger(items));
    crate::order::lemma_arrangement_exists(n, larger(items));
    lemma_candidates(values, values.len());
    let all = by_magnitude(items);
    let top = at_most(all, limit);
    assert forall|i: int, j: int| 0 <= i < j < n implies (#[trigger] all[i]).1.magnitude() > (
    #[trigger] all[j]).1.magnitude() || (all[i].1.magnitude() == all[j].1.magnitude() && all[i].0
        < all[j].0) by {
        assert(crate::order::stands(larger(items), order[i], order[j]));
        assert(items[order[i]] == all[i]);
        assert(items[order[j]] == all[j]);
    }
    assert forall|s: int, i: int|
        0 <= s < values.len() && ranked(#[trigger] values[s]) && 0 <= i < top.len()
            && !top.contains((s as usize, values[s])) implies values[s].magnitude() < (
    #[trigger] top[i]).1.magnitude() || (values[s].magnitude() == top[i].1.magnitude()
        && top[i].0 < s) by {
        let item = (s as usize, values[s]);
        assert(items.contains(item));
        let k = choose|k: int| 0 <= k < n && items[k] == item;
        assert(order.contains(k));
        let a = choose|a: int| 0 <= a < n && order[a] == k;
        assert(all[a] == item);
        if a < top.len() {
            assert(top[a] == item);
        }
        assert(all[i] == top[i]);
        assert(i < a);
    }
    assert forall|i: int| 0 <= i < top.len() implies (#[trigger] top[i]).0 < values.len()
        && top[i].1 == values[top[i].0 as int] && ranked(top[i].1) by {
        assert(top[i] == all[i]);
        assert(all[i] == items[order[i]]);
    }
    assert forall|i: int, j: int| 0 <= i < j < top.len() implies (#[trigger] top[i]).1.magnitude()
        > (#[trigger] top[j]).1.magnitude() || (top[i].1.magnitude() == top[j].1.magnitude()
        && top[i].0 < top[j].0) by {
        assert(top[i] == all[i]);
        assert(top[j] == all[j]);
    }
}

/// A dot product comes to the sum of the products, slot by slot, and is given
/// exactly where the lengths agree.
pub proof fn lemma_dot_multiplies<A: Arithmetic>(
    math: &A,
    f: crate::reading::Functions,
    lhs: &[Double],
    rhs: &[Double],
    result: Result<Double, SliceError>,
)
    requires
        call_ensures(dot::<A>, (math, lhs, rhs), result),
    ensures
        result is Ok <==> lhs@.len() == rhs@.len(),
        result is Err ==> result->Err_0@ == (crate::slice_error::SliceFault::DotLength {
            lhs: lhs@.len() as usize,
            rhs: rhs@.len() as usize,
        }),
        result is Ok ==> {
            let e = crate::transform::sum(products(lhs@, rhs@));
            &&& crate::number::computes(math, e, result->Ok_0)
            &&& crate::reading::reading(f, e) == crate::reading::total(
                |i: int| crate::reading::exact(lhs@[i]) * crate::reading::exact(rhs@[i]),
                lhs@.len() as int,
            )
        },
{
    let terms = products(lhs@, rhs@);
    crate::reading::lemma_sum(f, terms);
    reveal_with_fuel(crate::reading::reading, 2);
    crate::reading::lemma_totals(
        |i: int| crate::reading::reading(f, terms[i]),
        |i: int| crate::reading::exact(lhs@[i]) * crate::reading::exact(rhs@[i]),
        terms.len() as int,
    );
}

/// A sum comes to the sum of the values.
pub proof fn lemma_sum_adds<A: Arithmetic>(
    math: &A,
    f: crate::reading::Functions,
    values: &[Double],
    total: Double,
)
    requires
        call_ensures(sum::<A>, (math, values), total),
    ensures
        ({
            let e = crate::transform::sum(crate::transform::literals(values@));
            &&& crate::number::computes(math, e, total)
            &&& crate::reading::reading(f, e) == crate::reading::total(
                |i: int| crate::reading::exact(values@[i]),
                values@.len() as int,
            )
        }),
{
    let terms = crate::transform::literals(values@);
    crate::reading::lemma_sum(f, terms);
    crate::reading::lemma_totals(
        |i: int| crate::reading::reading(f, terms[i]),
        |i: int| crate::reading::exact(values@[i]),
        terms.len() as int,
    );
}

/// A sum of absolute values comes to the sum of the distances from zero.
pub proof fn lemma_sum_abs_adds<A: Arithmetic>(
    math: &A,
    f: crate::reading::Functions,
    values: &[Double],
    total: Double,
)
    requires
        call_ensures(sum_abs::<A>, (math, values), total),
    ensures
        ({
            let e = crate::transform::sum(crate::transform::literals(magnitudes(values@)));
            &&& crate::number::computes(math, e, total)
            &&& crate::reading::reading(f, e) == crate::reading::total(
                |i: int| crate::reading::distance(crate::reading::exact(values@[i])),
                values@.len() as int,
            )
        }),
{
    let terms = crate::transform::literals(magnitudes(values@));
    crate::reading::lemma_sum(f, terms);
    assert forall|i: int| 0 <= i < terms.len() implies #[trigger] crate::reading::reading(
        f,
        terms[i],
    ) == crate::reading::distance(crate::reading::exact(values@[i])) by {
        crate::reading::lemma_signs(values@[i]);
    }
    crate::reading::lemma_totals(
        |i: int| crate::reading::reading(f, terms[i]),
        |i: int| crate::reading::distance(crate::reading::exact(values@[i])),
        terms.len() as int,
    );
}

/// The strongest slots are reported: as many as asked for, or every finite
/// slot that is not zero; each with its value, by descending distance from
/// zero and among equals by ascending slot; and none that is left out belongs
/// before one that is reported.
pub proof fn lemma_top_abs_reports_strongest(
    values: &[Double],
    limit: usize,
    top: Vec<(usize, Double)>,
)
    requires
        call_ensures(top_abs, (values, limit), top),
        values@.len() <= usize::MAX,
    ensures
        top@.len() <= limit,
        top@.len() < limit ==> forall|s: int|
            0 <= s < values@.len() && (#[trigger] values@[s]).finite() && crate::reading::exact(
                values@[s],
            ) != 0 as real ==> top@.contains((s as usize, values@[s])),
        forall|i: int|
            0 <= i < top@.len() ==> (#[trigger] top@[i]).0 < values@.len() && top@[i].1
                == values@[top@[i].0 as int] && top@[i].1.finite() && crate::reading::exact(
                top@[i].1,
            ) != 0 as real,
        forall|i: int, j: int|
            0 <= i < j < top@.len() ==> crate::reading::distance(
                crate::reading::exact((#[trigger] top@[i]).1),
            ) > crate::reading::distance(crate::reading::exact((#[trigger] top@[j]).1)) || (
            crate::reading::distance(crate::reading::exact(top@[i].1)) == crate::reading::distance(
                crate::reading::exact(top@[j].1),
            ) && top@[i].0 < top@[j].0),
        forall|s: int, i: int|
            0 <= s < values@.len() && (#[trigger] values@[s]).finite() && crate::reading::exact(
                values@[s],
            ) != 0 as real && 0 <= i < top@.len() && !top@.contains((s as usize, values@[s])) ==> {
                let left = crate::reading::distance(crate::reading::exact(values@[s]));
                let kept = crate::reading::distance(
                    crate::reading::exact((#[trigger] top@[i]).1),
                );
                left < kept || (left == kept && top@[i].0 < s)
            },
{
    let v = values@;
    let zero = Double { bits: ZERO };
    crate::reading::lemma_constants();
    lemma_top_abs(v, limit as nat);
    assert forall|x: Double| x.finite() implies #[trigger] ranked(x) == (crate::reading::exact(x)
        != 0 as real) by {
        crate::reading::lemma_order(x, zero);
    }
    assert forall|x: Double, y: Double| x.finite() && y.finite() implies (#[trigger] x.abs().lt(
        y.abs(),
    ) == (x.magnitude() < y.magnitude())) && (x.abs().lt(y.abs()) == (crate::reading::distance(
        crate::reading::exact(x),
    ) < crate::reading::distance(crate::reading::exact(y)))) by {
        crate::reading::lemma_signs(x);
        crate::reading::lemma_signs(y);
        crate::reading::lemma_order(x.abs(), y.abs());
    }
    if top@.len() < limit {
        let items = candidates(v, v.len());
        let n = items.len();
        crate::order::lemma_arrangement_exists(n, larger(items));
        let order = crate::order::arrangement(n, larger(items));
        lemma_candidates(v, v.len());
        assert(top@ == by_magnitude(items));
        assert forall|s: int| 0 <= s < v.len() && ranked(#[trigger] v[s]) implies top@.contains(
            (s as usize, v[s]),
        ) by {
            let item = (s as usize, v[s]);
            assert(items.contains(item));
            let k = choose|k: int| 0 <= k < n && items[k] == item;
            assert(order.contains(k));
            let a = choose|a: int| 0 <= a < n && order[a] == k;
            assert(top@[a] == item);
        }
    }
    assert forall|i: int, j: int| 0 <= i < j < top@.len() implies crate::reading::distance(
        crate::reading::exact((#[trigger] top@[i]).1),
    ) > crate::reading::distance(crate::reading::exact((#[trigger] top@[j]).1)) || (
    crate::reading::distance(crate::reading::exact(top@[i].1)) == crate::reading::distance(
        crate::reading::exact(top@[j].1),
    ) && top@[i].0 < top@[j].0) by {
        let x = top@[i].1;
        let y = top@[j].1;
        assert(x.abs().lt(y.abs()) == (x.magnitude() < y.magnitude()));
        assert(y.abs().lt(x.abs()) == (y.magnitude() < x.magnitude()));
    }
    assert forall|s: int, i: int|
        0 <= s < v.len() && (#[trigger] v[s]).finite() && crate::reading::exact(v[s]) != 0 as real
            && 0 <= i < top@.len() && !top@.contains((s as usize, v[s])) implies {
        let left = crate::reading::distance(crate::reading::exact(v[s]));
        let kept = crate::reading::distance(crate::reading::exact((#[trigger] top@[i]).1));
        left < kept || (left == kept && top@[i].0 < s)
    } by {
        let x = v[s];
        let y = top@[i].1;
        assert(ranked(x));
        assert(x.abs().lt(y.abs()) == (x.magnitude() < y.magnitude()));
        assert(y.abs().lt(x.abs()) == (y.magnitude() < x.magnitude()));
    }
}

} // verus!
