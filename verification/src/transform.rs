//! Cross-sectional transformations.

use crate::cube::Transform;
use crate::number::{Arithmetic, Double, Term, EPSILON, HALF, NEGATIVE_ZERO, ONE, TWO, ZERO};
use crate::order::{sorted_order, Ranking};
use vstd::prelude::*;

verus! {

/// Given numbers as expressions.
pub open spec fn literals(values: Seq<Double>) -> Seq<crate::number::Expr> {
    Seq::new(values.len(), |i: int| crate::number::Expr::Lit(values[i]))
}

/// The sum of some expressions from left to right.
pub open spec fn sum(terms: Seq<crate::number::Expr>) -> crate::number::Expr
    decreases terms.len(),
{
    if terms.len() == 0 {
        crate::number::e_lit(NEGATIVE_ZERO)
    } else {
        crate::number::e_add(sum(terms.drop_last()), terms.last())
    }
}

/// The sum over the number of terms.
pub open spec fn mean(terms: Seq<crate::number::Expr>) -> crate::number::Expr {
    crate::number::e_div(sum(terms), crate::number::Expr::Int(terms.len() as u64))
}

/// The squared distances from the mean.
pub open spec fn squared_deviations(terms: Seq<crate::number::Expr>) -> Seq<crate::number::Expr> {
    Seq::new(
        terms.len(),
        |i: int|
            crate::number::e_mul(
                crate::number::e_sub(terms[i], mean(terms)),
                crate::number::e_sub(terms[i], mean(terms)),
            ),
    )
}

/// The population standard deviation.
pub open spec fn deviation(terms: Seq<crate::number::Expr>) -> crate::number::Expr {
    crate::number::e_sqrt(mean_of(squared_deviations(terms), terms.len()))
}

/// A sum over a count.
pub open spec fn mean_of(terms: Seq<crate::number::Expr>, n: nat) -> crate::number::Expr {
    crate::number::e_div(sum(terms), crate::number::Expr::Int(n as u64))
}

/// The distance of term `k` from the mean in standard deviations; zero where
/// the standard deviation is not above the distance from one to the next
/// number.
pub open spec fn z_score(terms: Seq<crate::number::Expr>, k: int) -> crate::number::Expr {
    crate::number::e_if_above(
        deviation(terms),
        crate::number::e_lit(EPSILON),
        crate::number::e_div(
            crate::number::e_sub(terms[k], mean(terms)),
            deviation(terms),
        ),
        crate::number::e_lit(ZERO),
    )
}

/// How many values are below `x`.
pub open spec fn below(values: Seq<Double>, x: Double) -> nat {
    Set::new(|i: int| 0 <= i < values.len() && values[i].lt(x)).len()
}

/// How many values are not above `x`.
pub open spec fn not_above(values: Seq<Double>, x: Double) -> nat {
    Set::new(|i: int| 0 <= i < values.len() && values[i].le(x)).len()
}

/// A count as a machine integer.
pub open spec fn counted(n: nat) -> u64 {
    if n <= u64::MAX {
        n as u64
    } else {
        u64::MAX
    }
}

/// The ascending one-based rank of value `k`, the average over the values that
/// are equal to it: they take the ranks from one more than the number of
/// values below to the number of values not above.
pub open spec fn average_rank(values: Seq<Double>, k: int) -> crate::number::Expr {
    crate::number::e_div(
        crate::number::Expr::Int(
            counted(below(values, values[k]) + 1 + not_above(values, values[k])),
        ),
        crate::number::e_lit(TWO),
    )
}

/// The average ranks of some values.
pub open spec fn average_ranks(values: Seq<Double>) -> Seq<crate::number::Expr> {
    Seq::new(values.len(), |k: int| average_rank(values, k))
}

/// The rank of value `k` mapped to the closed interval from zero to one; one
/// half for a single value.
pub open spec fn fraction(values: Seq<Double>, k: int) -> crate::number::Expr {
    if values.len() == 1 {
        crate::number::e_lit(HALF)
    } else {
        crate::number::e_div(
            crate::number::e_sub(average_rank(values, k), crate::number::e_lit(ONE)),
            crate::number::Expr::Int((values.len() - 1) as u64),
        )
    }
}

/// What a transformation makes of value `k` of a cross-section.
pub open spec fn transformed(transform: Transform, values: Seq<Double>, k: int) -> crate::number::Expr {
    match transform {
        Transform::Identity => crate::number::Expr::Lit(values[k]),
        Transform::ZScore => z_score(literals(values), k),
        Transform::Rank => average_rank(values, k),
        Transform::Percentile => fraction(values, k),
        Transform::RankZScore => z_score(average_ranks(values), k),
    }
}

/// How some numbers came about.
pub open spec fn exprs(terms: Seq<Term>) -> Seq<crate::number::Expr> {
    Seq::new(terms.len(), |i: int| terms[i].expr@)
}

/// Whether an arithmetic can give each of some numbers for its expression.
pub open spec fn all_hold<A: Arithmetic>(math: &A, terms: Seq<Term>) -> bool {
    forall|i: int| 0 <= i < terms.len() ==> (#[trigger] terms[i]).holds(math)
}

/// Add some terms from left to right.
pub fn sum_terms<A: Arithmetic>(math: &A, terms: &Vec<Term>) -> (total: Term)
    requires
        all_hold(math, terms@),
    ensures
        total.holds(math),
        total.expr@ == sum(exprs(terms@)),
{
    let mut total = Term::constant(math, NEGATIVE_ZERO);
    let mut i: usize = 0;
    let ghost all = exprs(terms@);
    while i < terms.len()
        invariant
            0 <= i <= terms@.len(),
            all == exprs(terms@),
            all_hold(math, terms@),
            total.holds(math),
            total.expr@ == sum(all.take(i as int)),
        decreases terms@.len() - i,
    {
        total = total.plus(math, terms[i]);
        proof {
            assert(all.take(i + 1).drop_last() =~= all.take(i as int));
            assert(all.take(i + 1).last() == terms@[i as int].expr@);
        }
        i = i + 1;
    }
    assert(all.take(i as int) =~= all);
    total
}

/// Center and scale by the population standard deviation.
fn zscore<A: Arithmetic>(math: &A, terms: &Vec<Term>) -> (scores: Vec<Term>)
    requires
        all_hold(math, terms@),
    ensures
        all_hold(math, scores@),
        scores@.len() == terms@.len(),
        forall|k: int|
            0 <= k < scores@.len() ==> (#[trigger] scores@[k]).expr@ == z_score(exprs(terms@), k),
{
    let ghost all = exprs(terms@);
    let count = Term::integer(math, terms.len() as u64);
    let average = sum_terms(math, terms).over(math, count);
    assert(average.expr@ == mean(all));
    let mut squares: Vec<Term> = Vec::new();
    let mut i: usize = 0;
    while i < terms.len()
        invariant
            0 <= i <= terms@.len(),
            squares@.len() == i,
            all == exprs(terms@),
            all_hold(math, terms@),
            all_hold(math, squares@),
            average.holds(math),
            average.expr@ == mean(all),
            forall|k: int|
                0 <= k < i ==> (#[trigger] squares@[k]).expr@ == squared_deviations(all)[k],
        decreases terms@.len() - i,
    {
        let distance = terms[i].minus(math, average);
        squares.push(distance.times(math, distance));
        i = i + 1;
    }
    assert(exprs(squares@) =~= squared_deviations(all));
    let spread = sum_terms(math, &squares).over(math, count).root(math);
    assert(spread.expr@ == deviation(all));
    let least = Term::constant(math, EPSILON);
    let zero = Term::constant(math, ZERO);
    let scaled: bool = least.value.is_below(spread.value);
    let mut scores: Vec<Term> = Vec::new();
    let mut k: usize = 0;
    while k < terms.len()
        invariant
            0 <= k <= terms@.len(),
            scores@.len() == k,
            all == exprs(terms@),
            all_hold(math, terms@),
            all_hold(math, scores@),
            average.holds(math),
            average.expr@ == mean(all),
            spread.holds(math),
            spread.expr@ == deviation(all),
            least.holds(math),
            least.expr@ == crate::number::e_lit(EPSILON),
            zero.holds(math),
            zero.expr@ == crate::number::e_lit(ZERO),
            scaled == least.value.lt(spread.value),
            forall|j: int|
                0 <= j < k ==> (#[trigger] scores@[j]).expr@ == z_score(all, j),
        decreases terms@.len() - k,
    {
        let ghost e = z_score(all, k as int);
        let score: Term = if scaled {
            let quotient = terms[k].minus(math, average).over(math, spread);
            Term { value: quotient.value, expr: Ghost(e) }
        } else {
            Term { value: zero.value, expr: Ghost(e) }
        };
        proof {
            crate::number::lemma_if_above(
                math,
                deviation(all),
                crate::number::e_lit(EPSILON),
                crate::number::e_div(
                    crate::number::e_sub(all[k as int], mean(all)),
                    deviation(all),
                ),
                crate::number::e_lit(ZERO),
                spread.value,
                least.value,
                score.value,
            );
        }
        scores.push(score);
        k = k + 1;
    }
    scores
}

struct ByPlace<'a> {
    values: &'a Vec<Double>,
}

impl<'a> Ranking for ByPlace<'a> {
    closed spec fn size(&self) -> nat {
        self.values@.len()
    }

    closed spec fn relation(&self) -> spec_fn(int, int) -> bool {
        let values = self.values@;
        |i: int, j: int| values[i].total_place() < values[j].total_place()
    }

    proof fn lawful(&self) {
    }

    fn before(&self, i: usize, j: usize) -> bool {
        self.values[i].is_totally_below(self.values[j])
    }
}

/// Assign average ranks.
fn ranks<A: Arithmetic>(math: &A, values: &Vec<Double>) -> (terms: Vec<Term>)
    requires
        forall|i: int| 0 <= i < values@.len() ==> (#[trigger] values@[i]).finite(),
    ensures
        all_hold(math, terms@),
        exprs(terms@) == average_ranks(values@),
{
    let ranking = ByPlace { values };
    let ordered = sorted_order(&ranking, values.len());
    let ghost v = values@;
    let ghost n = v.len();
    let ghost f = ranking.relation();
    let ghost p = crate::order::indexes(ordered@);
    proof {
        ranking.lawful();
        assert forall|a: int| 0 <= a < n implies (#[trigger] ordered@[a]) < n by {
            assert(p[a] == ordered@[a]);
        }
        assert forall|a: int, b: int| 0 <= a < b < n implies v[#[trigger] p[a]].place()
            <= v[#[trigger] p[b]].place() by {
            assert(crate::order::stands(f, p[a], p[b]));
        }
    }
    let mut terms: Vec<Term> = Vec::new();
    let mut fill: usize = 0;
    while fill < values.len()
        invariant
            0 <= fill <= values@.len(),
            terms@.len() == fill,
        decreases values@.len() - fill,
    {
        terms.push(Term::constant(math, ZERO));
        fill = fill + 1;
    }
    let mut start: usize = 0;
    while start < ordered.len()
        invariant
            v == values@,
            n == v.len(),
            n <= usize::MAX,
            ordered@.len() == n,
            forall|a: int| 0 <= a < n ==> (#[trigger] ordered@[a]) < n,
            p == crate::order::indexes(ordered@),
            crate::order::strict_weak(n, f),
            crate::order::arranged(n, f, p),
            forall|i: int| 0 <= i < n ==> (#[trigger] v[i]).finite(),
            forall|a: int, b: int|
                0 <= a < b < n ==> v[#[trigger] p[a]].place() <= v[#[trigger] p[b]].place(),
            0 <= start <= n,
            start < n ==> forall|a: int|
                0 <= a < start ==> v[#[trigger] p[a]].place() < v[p[start as int]].place(),
            terms@.len() == n,
            forall|a: int|
                0 <= a < start ==> terms@[#[trigger] p[a]].holds(math) && terms@[p[a]].expr@
                    == average_rank(v, p[a]),
        decreases n - start,
    {
        let first: Double = values[ordered[start]];
        assert(p[start as int] == ordered@[start as int]);
        let mut end: usize = start + 1;
        while end < ordered.len() && values[ordered[end]].equals(first)
            invariant
                v == values@,
                n == v.len(),
                n <= usize::MAX,
                ordered@.len() == n,
                forall|a: int| 0 <= a < n ==> (#[trigger] ordered@[a]) < n,
                p == crate::order::indexes(ordered@),
                crate::order::arranged(n, f, p),
                0 <= start < end <= n,
                first == v[p[start as int]],
                forall|i: int| 0 <= i < n ==> (#[trigger] v[i]).finite(),
                forall|a: int| start <= a < end ==> v[#[trigger] p[a]].place() == first.place(),
            decreases n - end,
        {
            assert(p[end as int] == ordered@[end as int]);
            end = end + 1;
        }
        proof {
            if end < n {
                assert(p[end as int] == ordered@[end as int]);
                assert(v[p[end as int]].place() != first.place());
                assert(v[p[start as int]].place() <= v[p[end as int]].place());
            }
            assert forall|a: int| end <= a < n implies v[#[trigger] p[a]].place()
                > first.place() by {
                if a > end {
                    assert(v[p[end as int]].place() <= v[p[a]].place());
                }
            }
        }
        let doubled: u64 = (start as u64).saturating_add(1).saturating_add(end as u64);
        let rank = Term::integer(math, doubled).over(math, Term::constant(math, TWO));
        let ghost before_group = terms@;
        let mut k: usize = start;
        while k < end
            invariant
                v == values@,
                n == v.len(),
                ordered@.len() == n,
                p == crate::order::indexes(ordered@),
                crate::order::strict_weak(n, f),
                crate::order::arranged(n, f, p),
                forall|i: int| 0 <= i < n ==> (#[trigger] v[i]).finite(),
                0 <= start <= k <= end <= n,
                terms@.len() == n,
                forall|a: int|
                    0 <= a < start ==> v[#[trigger] p[a]].place() < first.place(),
                forall|a: int| start <= a < end ==> v[#[trigger] p[a]].place() == first.place(),
                forall|a: int| end <= a < n ==> v[#[trigger] p[a]].place() > first.place(),
                doubled == counted((start + 1 + end) as nat),
                rank.holds(math),
                rank.expr@ == crate::number::e_div(
                    crate::number::Expr::Int(doubled),
                    crate::number::e_lit(TWO),
                ),
                forall|a: int|
                    0 <= a < k ==> terms@[#[trigger] p[a]].holds(math) && terms@[p[a]].expr@
                        == average_rank(v, p[a]),
            decreases end - k,
        {
            let at: usize = ordered[k];
            let ghost was = terms@;
            proof {
                assert(p[k as int] == at);
                let x = v[at as int];
                let under = |i: int| v[i].lt(x);
                let upto = |i: int| v[i].le(x);
                assert forall|a: int| 0 <= a < n implies under(#[trigger] p[a]) == (a < start) by {
                    assert(v[p[a]].finite());
                }
                assert forall|a: int| 0 <= a < n implies upto(#[trigger] p[a]) == (a < end) by {
                    assert(v[p[a]].finite());
                }
                crate::order::lemma_leading_count(n, f, p, under, start as int);
                crate::order::lemma_leading_count(n, f, p, upto, end as int);
                assert(Set::new(|i: int| 0 <= i < n && under(i)) =~= Set::new(
                    |i: int| 0 <= i < v.len() && v[i].lt(x),
                ));
                assert(Set::new(|i: int| 0 <= i < n && upto(i)) =~= Set::new(
                    |i: int| 0 <= i < v.len() && v[i].le(x),
                ));
                assert(rank.expr@ == average_rank(v, at as int));
            }
            terms[at] = rank;
            proof {
                assert forall|a: int| 0 <= a < k + 1 implies terms@[#[trigger] p[a]].holds(math)
                    && terms@[p[a]].expr@ == average_rank(v, p[a]) by {
                    if p[a] != at {
                        assert(terms@[p[a]] == was[p[a]]);
                    }
                }
            }
            k = k + 1;
        }
        start = end;
    }
    proof {
        assert forall|i: int| 0 <= i < n implies (#[trigger] terms@[i]).holds(math)
            && terms@[i].expr@ == average_rank(v, i) by {
            assert(p.contains(i));
            let a = choose|a: int| 0 <= a < p.len() && p[a] == i;
            assert(terms@[p[a]].holds(math));
        }
        assert(exprs(terms@) =~= average_ranks(v));
    }
    terms
}

/// Map average ranks to the closed interval from zero to one.
fn percentile<A: Arithmetic>(math: &A, values: &Vec<Double>) -> (terms: Vec<Term>)
    requires
        forall|i: int| 0 <= i < values@.len() ==> (#[trigger] values@[i]).finite(),
    ensures
        all_hold(math, terms@),
        terms@.len() == values@.len(),
        forall|k: int|
            0 <= k < terms@.len() ==> (#[trigger] terms@[k]).expr@ == fraction(values@, k),
{
    let mut terms: Vec<Term> = Vec::new();
    if values.len() == 1 {
        terms.push(Term::constant(math, HALF));
        return terms;
    }
    if values.len() == 0 {
        return terms;
    }
    let denominator = Term::integer(math, (values.len() - 1) as u64);
    let ranked = ranks(math, values);
    let one = Term::constant(math, ONE);
    assert(ranked@.len() == exprs(ranked@).len());
    let mut k: usize = 0;
    while k < ranked.len()
        invariant
            0 <= k <= ranked@.len(),
            ranked@.len() == values@.len(),
            values@.len() > 1,
            terms@.len() == k,
            all_hold(math, terms@),
            all_hold(math, ranked@),
            exprs(ranked@) == average_ranks(values@),
            one.holds(math),
            one.expr@ == crate::number::e_lit(ONE),
            denominator.holds(math),
            denominator.expr@ == crate::number::Expr::Int((values@.len() - 1) as u64),
            forall|j: int|
                0 <= j < k ==> (#[trigger] terms@[j]).expr@ == fraction(values@, j),
        decreases ranked@.len() - k,
    {
        assert(exprs(ranked@)[k as int] == ranked@[k as int].expr@);
        terms.push(ranked[k].minus(math, one).over(math, denominator));
        k = k + 1;
    }
    terms
}

fn literal_terms<A: Arithmetic>(math: &A, values: &Vec<Double>) -> (terms: Vec<Term>)
    ensures
        all_hold(math, terms@),
        exprs(terms@) == literals(values@),
{
    let mut terms: Vec<Term> = Vec::new();
    let mut k: usize = 0;
    while k < values.len()
        invariant
            0 <= k <= values@.len(),
            terms@.len() == k,
            all_hold(math, terms@),
            forall|j: int|
                0 <= j < k ==> (#[trigger] terms@[j]).expr@ == crate::number::Expr::Lit(values@[j]),
        decreases values@.len() - k,
    {
        terms.push(Term::literal(math, values[k]));
        k = k + 1;
    }
    assert(exprs(terms@) =~= literals(values@));
    terms
}

/// Apply a transformation to the values of a cross-section.
pub fn apply_transform<A: Arithmetic>(
    math: &A,
    values: &Vec<Double>,
    transform: Transform,
) -> (out: Vec<Double>)
    requires
        forall|i: int| 0 <= i < values@.len() ==> (#[trigger] values@[i]).finite(),
    ensures
        out@.len() == values@.len(),
        forall|k: int|
            0 <= k < out@.len() ==> crate::number::computes(
                math,
                transformed(transform, values@, k),
                #[trigger] out@[k],
            ),
{
    let terms: Vec<Term> = match transform {
        Transform::Identity => literal_terms(math, values),
        Transform::ZScore => zscore(math, &literal_terms(math, values)),
        Transform::Rank => ranks(math, values),
        Transform::Percentile => percentile(math, values),
        Transform::RankZScore => zscore(math, &ranks(math, values)),
    };
    proof {
        assert(exprs(terms@).len() == terms@.len());
        assert(literals(values@).len() == values@.len());
        assert(average_ranks(values@).len() == values@.len());
        assert forall|k: int| 0 <= k < terms@.len() implies (#[trigger] terms@[k]).expr@
            == transformed(transform, values@, k) by {
            assert(exprs(terms@)[k] == terms@[k].expr@);
        }
    }
    let mut out: Vec<Double> = Vec::new();
    let mut k: usize = 0;
    while k < terms.len()
        invariant
            0 <= k <= terms@.len(),
            terms@.len() == values@.len(),
            out@.len() == k,
            all_hold(math, terms@),
            forall|j: int|
                0 <= j < terms@.len() ==> (#[trigger] terms@[j]).expr@ == transformed(
                    transform,
                    values@,
                    j,
                ),
            forall|j: int|
                0 <= j < k ==> crate::number::computes(
                    math,
                    transformed(transform, values@, j),
                    #[trigger] out@[j],
                ),
        decreases terms@.len() - k,
    {
        assert(terms@[k as int].holds(math));
        out.push(terms[k].value);
        k = k + 1;
    }
    out
}

/// The average of the first `n` numbers.
pub open spec fn average(x: spec_fn(int) -> real, n: int) -> real {
    crate::reading::total(x, n) / (n as real)
}

/// The average squared distance of the first `n` numbers from their average.
pub open spec fn variance(x: spec_fn(int) -> real, n: int) -> real {
    average(|i: int| crate::reading::square(x(i) - average(x, n)), n)
}

/// What some expressions come to.
pub open spec fn readings_of(
    f: crate::reading::Functions,
    terms: Seq<crate::number::Expr>,
) -> spec_fn(int) -> real {
    |i: int| crate::reading::reading(f, terms[i])
}

proof fn lemma_variance_not_negative(x: spec_fn(int) -> real, n: int)
    requires
        n > 0,
    ensures
        variance(x, n) >= 0 as real,
{
    let m = average(x, n);
    let d = |i: int| crate::reading::square(x(i) - m);
    assert forall|i: int| 0 <= i < n implies #[trigger] d(i) >= 0 as real by {
        let y = x(i) - m;
        assert(y * y >= 0 as real) by (nonlinear_arith);
    }
    crate::reading::lemma_total_not_negative(d, n);
    let t = crate::reading::total(d, n);
    let k = n as real;
    assert(t / k >= 0 as real) by (nonlinear_arith)
        requires
            t >= 0 as real,
            k > 0 as real,
    ;
}

proof fn lemma_z_score_reading(
    f: crate::reading::Functions,
    terms: Seq<crate::number::Expr>,
    k: int,
)
    requires
        0 <= k < terms.len() <= u64::MAX,
    ensures
        ({
            let x = readings_of(f, terms);
            let n = terms.len() as int;
            let spread = (f.root)(variance(x, n));
            let e = z_score(terms, k);
            &&& spread > crate::reading::power(-52) ==> crate::reading::reading(f, e) * spread
                == crate::reading::reading(f, terms[k]) - average(x, n)
            &&& spread <= crate::reading::power(-52) ==> crate::reading::reading(f, e) == 0 as real
        }),
{
    let x = readings_of(f, terms);
    let n = terms.len() as int;
    let m = average(x, n);
    crate::reading::lemma_constants();
    crate::reading::lemma_sum(f, terms);
    crate::reading::lemma_totals(|i: int| crate::reading::reading(f, terms[i]), x, n);
    reveal_with_fuel(crate::reading::reading, 4);
    assert(crate::reading::reading(f, mean(terms)) == m);
    let squares = squared_deviations(terms);
    crate::reading::lemma_sum(f, squares);
    let d = |i: int| crate::reading::square(x(i) - m);
    let g = |i: int| crate::reading::reading(f, squares[i]);
    assert forall|i: int| 0 <= i < n implies #[trigger] g(i) == d(i) by {
        assert(squares[i] == crate::number::e_mul(
            crate::number::e_sub(terms[i], mean(terms)),
            crate::number::e_sub(terms[i], mean(terms)),
        ));
        assert(crate::reading::reading(f, crate::number::e_sub(terms[i], mean(terms))) == x(i) - m);
    }
    crate::reading::lemma_totals(g, d, n);
    assert(crate::reading::reading(f, mean_of(squares, terms.len())) == variance(x, n));
    let spread = (f.root)(variance(x, n));
    assert(crate::reading::reading(f, deviation(terms)) == spread);
    let top = crate::number::e_sub(terms[k], mean(terms));
    assert(crate::reading::reading(f, top) == x(k) - m);
    let quotient = crate::number::e_div(top, deviation(terms));
    assert(crate::reading::reading(f, quotient) == (x(k) - m) / spread);
    if spread > crate::reading::power(-52) {
        crate::reading::lemma_quotient(x(k) - m, spread);
    }
}

/// How many of the first `n` numbers are below another.
pub open spec fn count_below(x: spec_fn(int) -> real, n: int, y: real) -> nat {
    Set::new(|i: int| 0 <= i < n && x(i) < y).len()
}

/// How many of the first `n` numbers are not above another.
pub open spec fn count_not_above(x: spec_fn(int) -> real, n: int, y: real) -> nat {
    Set::new(|i: int| 0 <= i < n && x(i) <= y).len()
}

/// What some values stand for.
pub open spec fn exact_values(values: Seq<Double>) -> spec_fn(int) -> real {
    |i: int| crate::reading::exact(values[i])
}

proof fn lemma_counts(values: Seq<Double>, k: int)
    requires
        forall|i: int| 0 <= i < values.len() ==> (#[trigger] values[i]).finite(),
        0 <= k < values.len(),
    ensures
        ({
            let x = exact_values(values);
            let n = values.len() as int;
            &&& below(values, values[k]) == count_below(x, n, x(k))
            &&& not_above(values, values[k]) == count_not_above(x, n, x(k))
            &&& below(values, values[k]) < n
            &&& 1 <= not_above(values, values[k]) <= n
            &&& below(values, values[k]) < not_above(values, values[k])
        }),
{
    let x = exact_values(values);
    let n = values.len() as int;
    assert forall|i: int| 0 <= i < n implies (#[trigger] values[i].lt(values[k])) == (x(i) < x(k))
        by {
        crate::reading::lemma_order(values[i], values[k]);
    }
    assert forall|i: int| 0 <= i < n implies (#[trigger] values[i].le(values[k])) == (x(i) <= x(k))
        by {
        crate::reading::lemma_order(values[i], values[k]);
    }
    let under = Set::new(|i: int| 0 <= i < n && values[i].lt(values[k]));
    let upto = Set::new(|i: int| 0 <= i < n && values[i].le(values[k]));
    let all = vstd::set_lib::set_int_range(0, n);
    vstd::set_lib::lemma_int_range(0, n);
    assert(under =~= Set::new(|i: int| 0 <= i < n && x(i) < x(k)));
    assert(upto =~= Set::new(|i: int| 0 <= i < n && x(i) <= x(k)));
    assert(upto.subset_of(all));
    vstd::set_lib::lemma_len_subset(upto, all);
    assert(under.insert(k).subset_of(upto)) by {
        crate::reading::lemma_order(values[k], values[k]);
    }
    assert(!under.contains(k));
    assert(under.subset_of(all));
    vstd::set_lib::lemma_len_subset(under, all);
    vstd::set_lib::lemma_len_subset(under.insert(k), upto);
}

/// Twice the average rank of value `k`: one more than the values below it and
/// the values not above it together.
pub open spec fn twice_rank(x: spec_fn(int) -> real, n: int, k: int) -> real {
    (count_below(x, n, x(k)) + count_not_above(x, n, x(k)) + 1) as real
}

proof fn lemma_rank_reading(f: crate::reading::Functions, values: Seq<Double>, k: int)
    requires
        forall|i: int| 0 <= i < values.len() ==> (#[trigger] values[i]).finite(),
        0 <= k < values.len(),
        2 * values.len() <= u64::MAX,
    ensures
        2 as real * crate::reading::reading(f, average_rank(values, k)) == twice_rank(
            exact_values(values),
            values.len() as int,
            k,
        ),
{
    crate::reading::lemma_constants();
    lemma_counts(values, k);
    reveal_with_fuel(crate::reading::reading, 3);
    let x = twice_rank(exact_values(values), values.len() as int, k);
    assert(crate::reading::reading(f, average_rank(values, k)) == x / 2 as real);
}

/// What a transformation is for, over the real numbers, of every finite
/// cross-section.
///
/// Identity gives every value back. A z-score times the standard deviation is
/// the value less the average, and zero where the deviation is not above the
/// distance from one to the next number. Twice a rank is one more than the
/// values below and the values not above together. A percentile spreads the
/// ranks evenly from zero to one, and is one half for a single value. A rank
/// z-score is the z-score of the ranks.
pub proof fn lemma_transforms_mean<A: Arithmetic>(
    math: &A,
    f: crate::reading::Functions,
    values: &Vec<Double>,
    transform: Transform,
    out: Vec<Double>,
    k: int,
)
    requires
        call_ensures(apply_transform::<A>, (math, values, transform), out),
        forall|i: int| 0 <= i < values@.len() ==> (#[trigger] values@[i]).finite(),
        0 <= k < values@.len(),
        2 * values@.len() <= u64::MAX,
    ensures
        out@.len() == values@.len(),
        crate::number::computes(math, transformed(transform, values@, k), out@[k]),
        ({
            let n = values@.len() as int;
            let x = exact_values(values@);
            let rank = |i: int| twice_rank(x, n, i) / 2 as real;
            let e = crate::reading::reading(f, transformed(transform, values@, k));
            let least = crate::reading::power(-52);
            match transform {
                Transform::Identity => out@[k] == values@[k],
                Transform::ZScore => {
                    let spread = (f.root)(variance(x, n));
                    &&& spread > least ==> e * spread == x(k) - average(x, n)
                    &&& spread <= least ==> e == 0 as real
                },
                Transform::Rank => 2 as real * e == twice_rank(x, n, k),
                Transform::Percentile => {
                    &&& 0 as real <= e <= 1 as real
                    &&& n > 1 ==> 2 as real * (e * ((n - 1) as real)) + 2 as real == twice_rank(
                        x,
                        n,
                        k,
                    )
                    &&& n == 1 ==> 2 as real * e == 1 as real
                },
                Transform::RankZScore => {
                    let spread = (f.root)(variance(rank, n));
                    &&& spread > least ==> e * spread == rank(k) - average(rank, n)
                    &&& spread <= least ==> e == 0 as real
                },
            }
        }),
{
    let v = values@;
    let n = v.len() as int;
    let x = exact_values(v);
    assert(out@[k] == out@[k]);
    match transform {
        Transform::Identity => {},
        Transform::ZScore => {
            let terms = literals(v);
            lemma_z_score_reading(f, terms, k);
            lemma_moments_alike(readings_of(f, terms), x, n);
        },
        Transform::Rank => {
            lemma_rank_reading(f, v, k);
        },
        Transform::Percentile => {
            crate::reading::lemma_constants();
            lemma_rank_reading(f, v, k);
            lemma_counts(v, k);
            reveal_with_fuel(crate::reading::reading, 3);
            if n > 1 {
                let r = crate::reading::reading(f, average_rank(v, k));
                let d = (n - 1) as real;
                let e = crate::reading::reading(f, fraction(v, k));
                assert(e == (r - 1 as real) / d);
                crate::reading::lemma_quotient(r - 1 as real, d);
                let t = twice_rank(x, n, k);
                assert(2 as real <= t <= 2 as real * d + 2 as real);
                assert(0 as real <= e <= 1 as real) by (nonlinear_arith)
                    requires
                        e * d == r - 1 as real,
                        d > 0 as real,
                        0 as real <= r - 1 as real <= d,
                ;
            }
        },
        Transform::RankZScore => {
            let terms = average_ranks(v);
            let rank = |i: int| twice_rank(x, n, i) / 2 as real;
            lemma_z_score_reading(f, terms, k);
            assert forall|i: int| 0 <= i < n implies #[trigger] (readings_of(f, terms))(i) == rank(i)
                by {
                lemma_rank_reading(f, v, i);
                assert(terms[i] == average_rank(v, i));
            }
            lemma_moments_alike(readings_of(f, terms), rank, n);
            assert((readings_of(f, terms))(k) == rank(k));
        },
    }
}

proof fn lemma_moments_alike(a: spec_fn(int) -> real, b: spec_fn(int) -> real, n: int)
    requires
        forall|i: int| 0 <= i < n ==> #[trigger] a(i) == b(i),
    ensures
        average(a, n) == average(b, n),
        variance(a, n) == variance(b, n),
{
    crate::reading::lemma_totals(a, b, n);
    let m = average(a, n);
    let x = |i: int| crate::reading::square(a(i) - m);
    let y = |i: int| crate::reading::square(b(i) - m);
    assert forall|i: int| 0 <= i < n implies #[trigger] x(i) == y(i) by {
        assert(a(i) == b(i));
    }
    crate::reading::lemma_totals(x, y, n);
}

/// Z-scores that are scaled have the average zero and the variance one: their
/// sum is zero, and the sum of their squares is their number.
pub proof fn lemma_z_scores_are_standard(
    f: crate::reading::Functions,
    values: Seq<Double>,
)
    requires
        0 < values.len() <= u64::MAX,
        f.takes_roots(),
        (f.root)(variance(exact_values(values), values.len() as int)) > crate::reading::power(-52),
    ensures
        ({
            let n = values.len() as int;
            let z = |k: int| crate::reading::reading(f, transformed(Transform::ZScore, values, k));
            &&& crate::reading::total(z, n) == 0 as real
            &&& crate::reading::total(|k: int| crate::reading::square(z(k)), n) == n as real
        }),
{
    let n = values.len() as int;
    let x = exact_values(values);
    let m = average(x, n);
    let spread = (f.root)(variance(x, n));
    let terms = literals(values);
    let z = |k: int| crate::reading::reading(f, transformed(Transform::ZScore, values, k));
    crate::reading::lemma_power(-52);
    lemma_moments_alike(readings_of(f, terms), x, n);
    assert forall|k: int| 0 <= k < n implies #[trigger] z(k) * spread == x(k) - m by {
        lemma_z_score_reading(f, terms, k);
    }
    lemma_variance_not_negative(x, n);
    assert(crate::reading::square(spread) == variance(x, n));
    let c = |k: int| z(k) * spread;
    let d = |k: int| x(k) - m;
    crate::reading::lemma_totals(c, d, n);
    lemma_total_scaled(z, spread, n);
    lemma_total_shifted(x, m, n);
    let t = crate::reading::total(x, n);
    let k = n as real;
    crate::reading::lemma_quotient(t, k);
    let s = crate::reading::total(z, n);
    assert(s * spread == t - k * m);
    assert(k * m == t) by (nonlinear_arith)
        requires
            m * k == t,
    ;
    assert(s == 0 as real) by (nonlinear_arith)
        requires
            s * spread == 0 as real,
            spread > 0 as real,
    ;
    let zz = |i: int| crate::reading::square(z(i));
    let dd = |i: int| crate::reading::square(x(i) - m);
    let v = spread * spread;
    let zv = |i: int| zz(i) * v;
    assert forall|i: int| 0 <= i < n implies #[trigger] zv(i) == dd(i) by {
        let a = z(i);
        let b = x(i) - m;
        assert(a * spread == b);
        assert((a * a) * (spread * spread) == b * b) by (nonlinear_arith)
            requires
                a * spread == b,
        ;
    }
    crate::reading::lemma_totals(zv, dd, n);
    lemma_total_scaled(zz, v, n);
    let q = crate::reading::total(zz, n);
    let u = crate::reading::total(dd, n);
    crate::reading::lemma_quotient(u, k);
    assert(q * v == u);
    assert(v * k == u);
    assert(q == k) by (nonlinear_arith)
        requires
            q * v == u,
            v * k == u,
            v == spread * spread,
            spread > 0 as real,
    ;
}

proof fn lemma_total_scaled(x: spec_fn(int) -> real, c: real, n: int)
    requires
        n >= 0,
    ensures
        crate::reading::total(|i: int| x(i) * c, n) == crate::reading::total(x, n) * c,
    decreases n,
{
    if n > 0 {
        lemma_total_scaled(x, c, n - 1);
        let a = crate::reading::total(x, n - 1);
        let b = x(n - 1);
        assert(a * c + b * c == (a + b) * c) by (nonlinear_arith);
    } else {
        assert((0 as real) * c == 0 as real);
    }
}

proof fn lemma_total_shifted(x: spec_fn(int) -> real, c: real, n: int)
    requires
        n >= 0,
    ensures
        crate::reading::total(|i: int| x(i) - c, n) == crate::reading::total(x, n) - (n as real)
            * c,
    decreases n,
{
    if n > 0 {
        lemma_total_shifted(x, c, n - 1);
        let k = (n - 1) as real;
        assert(k * c + c == (k + 1 as real) * c) by (nonlinear_arith);
    } else {
        assert((0 as real) * c == 0 as real);
    }
}

/// Ranks, percentiles and rank z-scores depend on the order of the values
/// alone: two cross-sections of one length whose values compare alike pairwise
/// have the same ones.
pub proof fn lemma_ranks_depend_on_order(
    transform: Transform,
    a: Seq<Double>,
    b: Seq<Double>,
    k: int,
)
    requires
        transform == Transform::Rank || transform == Transform::Percentile || transform
            == Transform::RankZScore,
        a.len() == b.len(),
        0 <= k < a.len(),
        forall|i: int, j: int|
            0 <= i < a.len() && 0 <= j < a.len() ==> (#[trigger] a[i]).lt(#[trigger] a[j])
                == b[i].lt(b[j]) && a[i].eq_number(a[j]) == b[i].eq_number(b[j]),
    ensures
        transformed(transform, a, k) == transformed(transform, b, k),
{
    assert forall|j: int| 0 <= j < a.len() implies #[trigger] average_rank(a, j) == average_rank(
        b,
        j,
    ) by {
        assert forall|i: int| 0 <= i < a.len() implies a[i].lt(a[j]) == b[i].lt(b[j]) && a[i].le(
            a[j],
        ) == b[i].le(b[j]) by {
            assert(a[i].lt(a[j]) == b[i].lt(b[j]) && a[i].eq_number(a[j]) == b[i].eq_number(b[j]));
        }
        assert(Set::new(|i: int| 0 <= i < a.len() && a[i].lt(a[j])) =~= Set::new(
            |i: int| 0 <= i < b.len() && b[i].lt(b[j]),
        ));
        assert(Set::new(|i: int| 0 <= i < a.len() && a[i].le(a[j])) =~= Set::new(
            |i: int| 0 <= i < b.len() && b[i].le(b[j]),
        ));
    }
    assert(average_rank(a, k) == average_rank(b, k));
    assert(average_ranks(a) =~= average_ranks(b));
}

/// A strictly increasing change of the values leaves their ranks, percentiles
/// and rank z-scores as they are, under an arithmetic whose operations each
/// give one result.
pub proof fn lemma_increasing_change_keeps_ranks<A: Arithmetic>(
    math: &A,
    transform: Transform,
    a: &Vec<Double>,
    b: &Vec<Double>,
    x: Vec<Double>,
    y: Vec<Double>,
)
    requires
        crate::number::deterministic(math),
        transform == Transform::Rank || transform == Transform::Percentile || transform
            == Transform::RankZScore,
        call_ensures(apply_transform::<A>, (math, a, transform), x),
        call_ensures(apply_transform::<A>, (math, b, transform), y),
        a@.len() == b@.len(),
        forall|i: int| 0 <= i < a@.len() ==> (#[trigger] a@[i]).finite(),
        forall|i: int| 0 <= i < b@.len() ==> (#[trigger] b@[i]).finite(),
        forall|i: int, j: int|
            0 <= i < a@.len() && 0 <= j < a@.len() ==> (crate::reading::exact(#[trigger] a@[i])
                < crate::reading::exact(#[trigger] a@[j])) == (crate::reading::exact(b@[i])
                < crate::reading::exact(b@[j])),
    ensures
        x@ == y@,
{
    assert forall|i: int, j: int| 0 <= i < a@.len() && 0 <= j < a@.len() implies (
    #[trigger] a@[i]).lt(#[trigger] a@[j]) == b@[i].lt(b@[j]) && a@[i].eq_number(a@[j])
        == b@[i].eq_number(b@[j]) by {
        crate::reading::lemma_order(a@[i], a@[j]);
        crate::reading::lemma_order(b@[i], b@[j]);
        assert((crate::reading::exact(a@[j]) < crate::reading::exact(a@[i])) == (
        crate::reading::exact(b@[j]) < crate::reading::exact(b@[i])));
    }
    assert forall|k: int| 0 <= k < x@.len() implies #[trigger] x@[k] == y@[k] by {
        lemma_ranks_depend_on_order(transform, a@, b@, k);
        crate::number::lemma_computes_unique(
            math,
            transformed(transform, a@, k),
            x@[k],
            y@[k],
        );
    }
    assert(x@ =~= y@);
}

} // verus!
