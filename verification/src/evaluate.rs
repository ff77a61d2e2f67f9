//! Evaluation of nodes over the rows of one update.
//!
//! A column holds what one node gives for each row. Columns are related to the
//! rows and to the columns upstream by the expressions of
//! [`crate::number`]: whatever arithmetic is supplied, each number is one that
//! it can give for the stated expression.

use crate::clock::micros_since;
use crate::cube::{InputRow, NodeKind, NodeSpec, Transform, WeightedInput};
use crate::number::{Arithmetic, Double, Term, EPSILON, ZERO};
use crate::order::{sorted_order, Ranking};
use crate::plan::ExecutionPlan;
use crate::text::is_before;
use crate::transform::apply_transform;
use std::time::Instant;
use vstd::prelude::*;

verus! {

/// A value and the oldest observation that contributed to it.
#[derive(Debug, Clone, Copy, PartialEq)]
pub struct Slot {
    /// Calculated value.
    pub value: Double,
    /// Observation time.
    pub observed_at_ms: i64,
}

/// The rows as they came.
pub open spec fn row_order(n: nat) -> Seq<int> {
    Seq::new(n, |i: int| i)
}

/// Whether one row's key stands before another's.
pub open spec fn by_key(rows: Seq<crate::cube::RowView>) -> spec_fn(int, int) -> bool {
    |i: int, j: int| crate::text::precedes(rows[i].key, rows[j].key)
}

/// The rows in dictionary order of their keys.
pub open spec fn key_order(rows: Seq<crate::cube::RowView>) -> Seq<int> {
    crate::order::arrangement(rows.len(), by_key(rows))
}

/// The finite value of a field in a row.
pub open spec fn field_slot(row: crate::cube::RowView, field: Seq<char>) -> Option<Slot> {
    match crate::table::found(row.fields, field) {
        Some(value) => if value.finite() {
            Some(Slot { value, observed_at_ms: row.observed_at_ms })
        } else {
            None
        },
        None => None,
    }
}

/// The finite values of a field, row by row.
pub open spec fn field_slots(rows: Seq<crate::cube::RowView>, field: Seq<char>) -> Seq<
    Option<Slot>,
> {
    Seq::new(rows.len(), |r: int| field_slot(rows[r], field))
}

/// The rows among the first `n` of an order that have a value.
pub open spec fn valued(column: Seq<Option<Slot>>, order: Seq<int>, n: int) -> Seq<int>
    decreases n,
{
    if n <= 0 {
        Seq::empty()
    } else if column[order[n - 1]] is Some {
        valued(column, order, n - 1).push(order[n - 1])
    } else {
        valued(column, order, n - 1)
    }
}

/// The values at some rows.
pub open spec fn values_at(column: Seq<Option<Slot>>, rows: Seq<int>) -> Seq<Double> {
    Seq::new(rows.len(), |k: int| column[rows[k]]->0.value)
}

/// Whether a slot holds a value of an expression, and nothing where that value
/// is not finite.
pub open spec fn settled<A: Arithmetic>(
    math: &A,
    expr: crate::number::Expr,
    time: i64,
    out: Option<Slot>,
) -> bool {
    exists|value: Double| #[trigger]
        crate::number::computes(math, expr, value) && out == if value.finite() {
            Some(Slot { value, observed_at_ms: time })
        } else {
            None
        }
}

/// Whether every value of a column is finite.
pub open spec fn finite_column(column: Seq<Option<Slot>>) -> bool {
    forall|r: int|
        0 <= r < column.len() && (#[trigger] column[r]) is Some ==> column[r]->0.value.finite()
}

/// Whether a column is the transformed form of a raw one, whose values are
/// taken in the given order of rows. A value that is not finite is missing.
pub open spec fn transforms<A: Arithmetic>(
    math: &A,
    transform: Transform,
    order: Seq<int>,
    raw: Seq<Option<Slot>>,
    column: Seq<Option<Slot>>,
) -> bool {
    let rows = valued(raw, order, order.len() as int);
    &&& column.len() == raw.len()
    &&& forall|r: int| 0 <= r < raw.len() && raw[r] is None ==> (#[trigger] column[r]) is None
    &&& forall|k: int|
        0 <= k < rows.len() ==> {
            settled(
                math,
                crate::transform::transformed(transform, values_at(raw, rows), k),
                raw[rows[k]]->0.observed_at_ms,
                column[#[trigger] rows[k]],
            )
        }
    &&& finite_column(column)
}

/// What the edges of node `i` read for row `r`.
pub open spec fn readings(
    nodes: Seq<crate::cube::NodeView>,
    grid: Seq<Seq<Option<Slot>>>,
    i: int,
    r: int,
) -> Seq<Option<Slot>> {
    Seq::new(
        nodes[i].edges().len(),
        |k: int|
            match crate::plan::upstream(nodes, i)[k] {
                Some(j) => grid[j][r],
                None => None,
            },
    )
}

/// The weighted sum over the first `n` edges that read a value.
pub open spec fn weighted(
    edges: Seq<crate::cube::EdgeView>,
    read: Seq<Option<Slot>>,
    n: int,
) -> crate::number::Expr
    decreases n,
{
    if n <= 0 {
        crate::number::e_lit(ZERO)
    } else {
        match read[n - 1] {
            Some(slot) => crate::number::e_add(
                weighted(edges, read, n - 1),
                crate::number::e_mul(
                    crate::number::Expr::Lit(edges[n - 1].weight),
                    crate::number::Expr::Lit(slot.value),
                ),
            ),
            None => weighted(edges, read, n - 1),
        }
    }
}

/// The sum of the absolute weights over the first `n` edges that read a value.
pub open spec fn weight_scale(
    edges: Seq<crate::cube::EdgeView>,
    read: Seq<Option<Slot>>,
    n: int,
) -> crate::number::Expr
    decreases n,
{
    if n <= 0 {
        crate::number::e_lit(ZERO)
    } else {
        match read[n - 1] {
            Some(_) => crate::number::e_add(
                weight_scale(edges, read, n - 1),
                crate::number::e_abs(crate::number::Expr::Lit(edges[n - 1].weight)),
            ),
            None => weight_scale(edges, read, n - 1),
        }
    }
}

/// The oldest of a time and the observations that the first `n` edges read.
pub open spec fn oldest(read: Seq<Option<Slot>>, time: i64, n: int) -> i64
    decreases n,
{
    if n <= 0 {
        time
    } else {
        match read[n - 1] {
            Some(slot) => if slot.observed_at_ms < oldest(read, time, n - 1) {
                slot.observed_at_ms
            } else {
                oldest(read, time, n - 1)
            },
            None => oldest(read, time, n - 1),
        }
    }
}

/// Whether a required edge reads nothing.
pub open spec fn lacks(edges: Seq<crate::cube::EdgeView>, read: Seq<Option<Slot>>) -> bool {
    exists|k: int| 0 <= k < edges.len() && edges[k].required && (#[trigger] read[k]) is None
}

/// Whether any edge reads a value.
pub open spec fn reads_any(read: Seq<Option<Slot>>) -> bool {
    exists|k: int| 0 <= k < read.len() && (#[trigger] read[k]) is Some
}

/// Whether `out` is the weighted combination of what the edges read: nothing
/// where a required edge or every edge reads nothing, where the weights to
/// divide by are not above the distance from one to the next number, or where
/// the result is not finite.
pub open spec fn blends<A: Arithmetic>(
    math: &A,
    edges: Seq<crate::cube::EdgeView>,
    read: Seq<Option<Slot>>,
    normalize: bool,
    time: i64,
    out: Option<Slot>,
) -> bool {
    let n = edges.len() as int;
    if lacks(edges, read) || !reads_any(read) {
        out is None
    } else {
        exists|scale: Double| #[trigger]
            crate::number::computes(math, weight_scale(edges, read, n), scale) && if normalize
                && scale.le(Double { bits: EPSILON }) {
                out is None
            } else {
                exists|value: Double| #[trigger]
                    crate::number::computes(
                        math,
                        blended(edges, read, normalize),
                        value,
                    ) && out == if value.finite() {
                        Some(Slot { value, observed_at_ms: oldest(read, time, n) })
                    } else {
                        None
                    }
            }
    }
}

/// The weighted combination of what the edges read.
pub open spec fn blended(
    edges: Seq<crate::cube::EdgeView>,
    read: Seq<Option<Slot>>,
    normalize: bool,
) -> crate::number::Expr {
    let n = edges.len() as int;
    if normalize {
        crate::number::e_div(weighted(edges, read, n), weight_scale(edges, read, n))
    } else {
        weighted(edges, read, n)
    }
}

/// Whether a raw column holds the weighted combinations of node `i`.
pub open spec fn combines<A: Arithmetic>(
    math: &A,
    rows: Seq<crate::cube::RowView>,
    nodes: Seq<crate::cube::NodeView>,
    grid: Seq<Seq<Option<Slot>>>,
    i: int,
    normalize: bool,
    raw: Seq<Option<Slot>>,
) -> bool {
    &&& raw.len() == rows.len()
    &&& forall|r: int|
        0 <= r < rows.len() ==> blends(
            math,
            nodes[i].edges(),
            readings(nodes, grid, i, r),
            normalize,
            rows[r].observed_at_ms,
            #[trigger] raw[r],
        )
}

/// Whether column `i` is what node `i` gives for the rows and the columns
/// upstream.
pub open spec fn evaluates<A: Arithmetic>(
    math: &A,
    rows: Seq<crate::cube::RowView>,
    nodes: Seq<crate::cube::NodeView>,
    grid: Seq<Seq<Option<Slot>>>,
    i: int,
) -> bool {
    match nodes[i].kind {
        crate::cube::KindView::Field { field } => transforms(
            math,
            nodes[i].transform,
            row_order(rows.len()),
            field_slots(rows, field),
            grid[i],
        ),
        crate::cube::KindView::Linear { normalize_weights, .. } => exists|raw: Seq<Option<Slot>>|
            {
                &&& #[trigger] combines(math, rows, nodes, grid, i, normalize_weights, raw)
                &&& transforms(math, nodes[i].transform, key_order(rows), raw, grid[i])
            },
    }
}

/// Whether a grid holds what every node gives.
pub open spec fn resolves<A: Arithmetic>(
    math: &A,
    rows: Seq<crate::cube::RowView>,
    nodes: Seq<crate::cube::NodeView>,
    grid: Seq<Seq<Option<Slot>>>,
) -> bool {
    &&& grid.len() == nodes.len()
    &&& forall|i: int| 0 <= i < nodes.len() ==> (#[trigger] grid[i]).len() == rows.len()
    &&& forall|i: int| 0 <= i < nodes.len() ==> #[trigger] evaluates(math, rows, nodes, grid, i)
}

struct ByKey<'a> {
    rows: &'a Vec<InputRow>,
}

impl<'a> Ranking for ByKey<'a> {
    closed spec fn size(&self) -> nat {
        self.rows@.len()
    }

    closed spec fn relation(&self) -> spec_fn(int, int) -> bool {
        by_key(crate::text::views(self.rows@))
    }

    proof fn lawful(&self) {
        lemma_by_key(crate::text::views(self.rows@));
    }

    fn before(&self, i: usize, j: usize) -> bool {
        is_before(self.rows[i].key.as_str(), self.rows[j].key.as_str())
    }
}

/// Order rows by their keys.
pub fn rows_by_key(rows: &Vec<InputRow>) -> (order: Vec<usize>)
    ensures
        crate::order::indexes(order@) == key_order(crate::text::views(rows@)),
        orders(crate::order::indexes(order@), rows@.len()),
{
    let ranking = ByKey { rows };
    let order = sorted_order(&ranking, rows.len());
    proof {
        lemma_key_order(crate::text::views(rows@));
    }
    order
}

/// Whether an order names each of `n` rows once.
pub open spec fn orders(order: Seq<int>, n: nat) -> bool {
    &&& order.len() == n
    &&& order.no_duplicates()
    &&& forall|a: int| 0 <= a < n ==> 0 <= #[trigger] order[a] < n
    &&& forall|r: int| 0 <= r < n ==> #[trigger] order.contains(r)
}

proof fn lemma_valued(column: Seq<Option<Slot>>, order: Seq<int>, n: int)
    requires
        order.no_duplicates(),
        0 <= n <= order.len(),
        forall|a: int| 0 <= a < order.len() ==> 0 <= #[trigger] order[a] < column.len(),
    ensures
        forall|k: int|
            0 <= k < valued(column, order, n).len() ==> {
                &&& 0 <= #[trigger] valued(column, order, n)[k] < column.len()
                &&& column[valued(column, order, n)[k]] is Some
                &&& order.take(n).contains(valued(column, order, n)[k])
            },
        valued(column, order, n).no_duplicates(),
        valued(column, order, n).len() <= n,
    decreases n,
{
    if n > 0 {
        lemma_valued(column, order, n - 1);
        let before = valued(column, order, n - 1);
        let now = valued(column, order, n);
        let x = order[n - 1];
        let head = order.take(n - 1);
        assert(order.take(n)[n - 1] == x);
        assert forall|k: int| 0 <= k < now.len() implies {
            &&& 0 <= #[trigger] now[k] < column.len()
            &&& column[now[k]] is Some
            &&& order.take(n).contains(now[k])
        } by {
            if k < before.len() {
                assert(now[k] == before[k]);
                let a = choose|a: int| 0 <= a < head.len() && head[a] == before[k];
                assert(order.take(n)[a] == before[k]);
            } else {
                assert(now[k] == x);
            }
        }
        assert forall|a: int, b: int|
            0 <= a < now.len() && 0 <= b < now.len() && a != b implies now[a] != now[b] by {
            if a < before.len() && b < before.len() {
                assert(before[a] != before[b]);
            } else {
                let c = if a < before.len() {
                    a
                } else {
                    b
                };
                assert(order.take(n - 1).contains(before[c]));
                let d = choose|d: int| 0 <= d < head.len() && head[d] == before[c];
                assert(order[d] == before[c]);
                assert(order[d] != order[n - 1]);
            }
        }
    }
}

/// Transform a raw column, taking its values in the given order of rows.
pub fn transformed_column<A: Arithmetic>(
    math: &A,
    transform: Transform,
    order: &Vec<usize>,
    raw: &Vec<Option<Slot>>,
) -> (column: Vec<Option<Slot>>)
    requires
        orders(crate::order::indexes(order@), raw@.len()),
        forall|r: int|
            0 <= r < raw@.len() && (#[trigger] raw@[r]) is Some ==> raw@[r]->0.value.finite(),
    ensures
        transforms(math, transform, crate::order::indexes(order@), raw@, column@),
{
    let ghost p = crate::order::indexes(order@);
    let mut rows: Vec<usize> = Vec::new();
    let mut values: Vec<Double> = Vec::new();
    let mut column: Vec<Option<Slot>> = Vec::new();
    let mut i: usize = 0;
    assert(crate::order::indexes(rows@) =~= valued(raw@, p, 0));
    while i < order.len()
        invariant
            0 <= i <= order@.len(),
            p == crate::order::indexes(order@),
            orders(p, raw@.len()),
            column@.len() == i,
            forall|r: int| 0 <= r < i ==> (#[trigger] column@[r]) is None,
            crate::order::indexes(rows@) == valued(raw@, p, i as int),
            rows@.len() == values@.len(),
            forall|r: int|
                0 <= r < raw@.len() && (#[trigger] raw@[r]) is Some ==> raw@[r]->0.value.finite(),
            forall|k: int|
                0 <= k < rows@.len() ==> (#[trigger] rows@[k]) < raw@.len()
                    && raw@[rows@[k] as int] == Some(
                    Slot {
                        value: values@[k],
                        observed_at_ms: raw@[rows@[k] as int]->0.observed_at_ms,
                    },
                ),
        decreases order@.len() - i,
    {
        let r: usize = order[i];
        let ghost before = rows@;
        assert(p[i as int] == r);
        match raw[r] {
            Some(slot) => {
                rows.push(r);
                values.push(slot.value);
                assert(crate::order::indexes(rows@) =~= crate::order::indexes(before).push(
                    r as int,
                ));
            },
            None => {},
        }
        column.push(None);
        i = i + 1;
    }
    let ghost q = valued(raw@, p, p.len() as int);
    proof {
        lemma_valued(raw@, p, p.len() as int);
        assert(values@ =~= values_at(raw@, q)) by {
            assert forall|k: int| 0 <= k < values@.len() implies values@[k] == values_at(
                raw@,
                q,
            )[k] by {
                assert(q[k] == rows@[k]);
            }
        }
        assert forall|k: int| 0 <= k < values@.len() implies (#[trigger] values@[k]).finite() by {
            assert(raw@[rows@[k] as int] is Some);
        }
    }
    let out = apply_transform(math, &values, transform);
    let mut k: usize = 0;
    while k < rows.len()
        invariant
            0 <= k <= rows@.len(),
            rows@.len() == out@.len(),
            q == crate::order::indexes(rows@),
            q.no_duplicates(),
            column@.len() == raw@.len(),
            forall|j: int|
                0 <= j < q.len() ==> 0 <= #[trigger] q[j] < raw@.len() && raw@[q[j]] is Some,
            forall|r: int|
                0 <= r < raw@.len() && raw@[r] is None ==> (#[trigger] column@[r]) is None,
            forall|j: int|
                0 <= j < out@.len() ==> crate::number::computes(
                    math,
                    crate::transform::transformed(transform, values_at(raw@, q), j),
                    #[trigger] out@[j],
                ),
            forall|j: int|
                0 <= j < k ==> column@[#[trigger] q[j]] == if out@[j].finite() {
                    Some(
                        Slot { value: out@[j], observed_at_ms: raw@[q[j]]->0.observed_at_ms },
                    )
                } else {
                    None
                },
            finite_column(column@),
        decreases rows@.len() - k,
    {
        let r: usize = rows[k];
        assert(q[k as int] == r);
        let ghost was = column@;
        match raw[r] {
            Some(slot) => {
                column[r] =
                if out[k].is_finite() {
                    Some(Slot { value: out[k], observed_at_ms: slot.observed_at_ms })
                } else {
                    None
                };
            },
            None => {},
        }
        proof {
            assert forall|j: int| 0 <= j < k + 1 implies column@[#[trigger] q[j]] == if out@[j].finite() {
                Some(Slot { value: out@[j], observed_at_ms: raw@[q[j]]->0.observed_at_ms })
            } else {
                None
            } by {
                if j < k {
                    assert(q[j] != q[k as int]);
                    assert(column@[q[j]] == was[q[j]]);
                }
            }
        }
        k = k + 1;
    }
    proof {
        assert forall|j: int| 0 <= j < q.len() implies settled(
            math,
            crate::transform::transformed(transform, values_at(raw@, q), j),
            raw@[q[j]]->0.observed_at_ms,
            column@[#[trigger] q[j]],
        ) by {
            assert(crate::number::computes(
                math,
                crate::transform::transformed(transform, values_at(raw@, q), j),
                out@[j],
            ));
        }
    }
    column
}

/// A grid as columns of slots.
pub open spec fn columns(grid: Seq<Vec<Option<Slot>>>) -> Seq<Seq<Option<Slot>>> {
    Seq::new(grid.len(), |i: int| grid[i]@)
}

fn read_slot(
    grid: &Vec<Vec<Option<Slot>>>,
    target: Option<usize>,
    r: usize,
) -> (slot: Option<Slot>)
    requires
        target matches Some(j) ==> j < grid@.len() && r < grid@[j as int]@.len(),
    ensures
        slot == (match target {
            Some(j) => grid@[j as int]@[r as int],
            None => None,
        }),
{
    match target {
        Some(j) => grid[j][r],
        None => None,
    }
}

/// Combine what the edges of a node read for one row.
pub fn blended_slot<A: Arithmetic>(
    math: &A,
    inputs: &Vec<WeightedInput>,
    read: &Vec<Option<Slot>>,
    normalize: bool,
    time: i64,
) -> (out: Option<Slot>)
    requires
        read@.len() == inputs@.len(),
    ensures
        blends(math, crate::text::views(inputs@), read@, normalize, time, out),
        out matches Some(slot) ==> slot.value.finite(),
{
    let ghost edges = crate::text::views(inputs@);
    let mut value = Term::constant(math, ZERO);
    let mut scale = Term::constant(math, ZERO);
    let mut observed_at_ms: i64 = time;
    let mut any: bool = false;
    let mut k: usize = 0;
    while k < inputs.len()
        invariant
            0 <= k <= inputs@.len(),
            edges == crate::text::views(inputs@),
            read@.len() == inputs@.len(),
            value.holds(math),
            value.expr@ == weighted(edges, read@, k as int),
            scale.holds(math),
            scale.expr@ == weight_scale(edges, read@, k as int),
            observed_at_ms == oldest(read@, time, k as int),
            any == exists|j: int| 0 <= j < k && (#[trigger] read@[j]) is Some,
            forall|j: int| 0 <= j < k && edges[j].required ==> (#[trigger] read@[j]) is Some,
        decreases inputs@.len() - k,
    {
        let input = &inputs[k];
        assert(edges[k as int] == input@);
        match read[k] {
            Some(slot) => {
                let weight = Term::literal(math, input.weight);
                value = value.plus(math, weight.times(math, Term::literal(math, slot.value)));
                scale = scale.plus(math, weight.absolute(math));
                if slot.observed_at_ms < observed_at_ms {
                    observed_at_ms = slot.observed_at_ms;
                }
                any = true;
                assert(read@[k as int] is Some);
            },
            None => {
                if input.required {
                    assert(lacks(edges, read@)) by {
                        assert(edges[k as int].required && read@[k as int] is None);
                    }
                    return None;
                }
            },
        }
        k = k + 1;
    }
    assert(!lacks(edges, read@));
    if !any {
        return None;
    }
    if normalize && scale.value.is_at_most(Double { bits: EPSILON }) {
        return None;
    }
    let result = if normalize {
        value.over(math, scale)
    } else {
        value
    };
    assert(result.expr@ == blended(edges, read@, normalize));
    assert(crate::number::computes(math, blended(edges, read@, normalize), result.value));
    if result.value.is_finite() {
        Some(Slot { value: result.value, observed_at_ms })
    } else {
        None
    }
}

/// Read one primitive field from every row and transform it.
pub fn compute_field<A: Arithmetic>(
    math: &A,
    transform: Transform,
    field: &str,
    rows: &Vec<InputRow>,
) -> (column: Vec<Option<Slot>>)
    ensures
        transforms(
            math,
            transform,
            row_order(rows@.len()),
            field_slots(crate::text::views(rows@), field@),
            column@,
        ),
{
    let ghost all = crate::text::views(rows@);
    let mut raw: Vec<Option<Slot>> = Vec::new();
    let mut order: Vec<usize> = Vec::new();
    let mut r: usize = 0;
    while r < rows.len()
        invariant
            0 <= r <= rows@.len(),
            all == crate::text::views(rows@),
            raw@.len() == r,
            order@.len() == r,
            forall|k: int| 0 <= k < r ==> (#[trigger] raw@[k]) == field_slot(all[k], field@),
            forall|k: int| 0 <= k < r ==> (#[trigger] order@[k]) == k,
        decreases rows@.len() - r,
    {
        let row = &rows[r];
        assert(all[r as int] == row@);
        let slot: Option<Slot> = match row.fields.get(field) {
            Some(value) => if value.is_finite() {
                Some(Slot { value: *value, observed_at_ms: row.observed_at_ms })
            } else {
                None
            },
            None => None,
        };
        raw.push(slot);
        order.push(r);
        r = r + 1;
    }
    proof {
        let p = crate::order::indexes(order@);
        assert(p =~= row_order(rows@.len()));
        assert(raw@ =~= field_slots(all, field@));
        assert forall|i: int| 0 <= i < rows@.len() implies #[trigger] p.contains(i) by {
            assert(p[i] == i);
        }
    }
    transformed_column(math, transform, &order, &raw)
}

fn read_edges(
    grid: &Vec<Vec<Option<Slot>>>,
    targets: &Vec<Option<usize>>,
    r: usize,
) -> (read: Vec<Option<Slot>>)
    requires
        forall|k: int|
            0 <= k < targets@.len() ==> ((#[trigger] targets@[k]) matches Some(j) ==> j
                < grid@.len() && r < grid@[j as int]@.len()),
    ensures
        read@.len() == targets@.len(),
        forall|k: int|
            0 <= k < read@.len() ==> (#[trigger] read@[k]) == (match targets@[k] {
                Some(j) => grid@[j as int]@[r as int],
                None => None,
            }),
{
    let mut read: Vec<Option<Slot>> = Vec::new();
    let mut k: usize = 0;
    while k < targets.len()
        invariant
            0 <= k <= targets@.len(),
            read@.len() == k,
            forall|a: int|
                0 <= a < targets@.len() ==> ((#[trigger] targets@[a]) matches Some(j) ==> j
                    < grid@.len() && r < grid@[j as int]@.len()),
            forall|a: int|
                0 <= a < k ==> (#[trigger] read@[a]) == (match targets@[a] {
                    Some(j) => grid@[j as int]@[r as int],
                    None => None,
                }),
        decreases targets@.len() - k,
    {
        assert(targets@[k as int] matches Some(j) ==> j < grid@.len() && r
            < grid@[j as int]@.len());
        read.push(read_slot(grid, targets[k], r));
        k = k + 1;
    }
    read
}

/// Combine the columns upstream of node `i` for every row.
fn combined_column<A: Arithmetic>(
    math: &A,
    inputs: &Vec<WeightedInput>,
    targets: &Vec<Option<usize>>,
    normalize: bool,
    rows: &Vec<InputRow>,
    grid: &Vec<Vec<Option<Slot>>>,
    Ghost(nodes): Ghost<Seq<crate::cube::NodeView>>,
    Ghost(i): Ghost<int>,
) -> (raw: Vec<Option<Slot>>)
    requires
        0 <= i < nodes.len(),
        nodes.len() == grid@.len(),
        nodes.len() <= usize::MAX,
        nodes[i].edges() == crate::text::views(inputs@),
        targets@.len() == inputs@.len(),
        forall|k: int|
            0 <= k < targets@.len() ==> (#[trigger] targets@[k]) == crate::plan::pointed(
                crate::plan::position(nodes, nodes[i].edges()[k].node),
            ),
        forall|k: int|
            0 <= k < targets@.len() ==> ((#[trigger] targets@[k]) matches Some(j) ==> j
                < grid@.len() && grid@[j as int]@.len() == rows@.len()),
    ensures
        combines(
            math,
            crate::text::views(rows@),
            nodes,
            columns(grid@),
            i,
            normalize,
            raw@,
        ),
        forall|r: int|
            0 <= r < raw@.len() && (#[trigger] raw@[r]) is Some ==> raw@[r]->0.value.finite(),
{
    let ghost all = crate::text::views(rows@);
    let ghost cols = columns(grid@);
    let ghost edges = crate::text::views(inputs@);
    let mut raw: Vec<Option<Slot>> = Vec::new();
    let mut r: usize = 0;
    while r < rows.len()
        invariant
            0 <= r <= rows@.len(),
            raw@.len() == r,
            all == crate::text::views(rows@),
            cols == columns(grid@),
            edges == crate::text::views(inputs@),
            0 <= i < nodes.len(),
            nodes.len() == grid@.len(),
            grid@.len() <= usize::MAX,
            nodes[i].edges() == edges,
            targets@.len() == inputs@.len(),
            forall|k: int|
                0 <= k < targets@.len() ==> (#[trigger] targets@[k]) == crate::plan::pointed(
                    crate::plan::position(nodes, nodes[i].edges()[k].node),
                ),
            forall|k: int|
                0 <= k < targets@.len() ==> ((#[trigger] targets@[k]) matches Some(j) ==> j
                    < grid@.len() && grid@[j as int]@.len() == rows@.len()),
            forall|k: int|
                0 <= k < r ==> blends(
                    math,
                    edges,
                    readings(nodes, cols, i, k),
                    normalize,
                    all[k].observed_at_ms,
                    #[trigger] raw@[k],
                ),
            forall|k: int|
                0 <= k < raw@.len() && (#[trigger] raw@[k]) is Some ==> raw@[k]->0.value.finite(),
        decreases rows@.len() - r,
    {
        let read = read_edges(grid, targets, r);
        assert(read@ =~= readings(nodes, cols, i, r as int)) by {
            assert forall|k: int| 0 <= k < read@.len() implies read@[k] == readings(
                nodes,
                cols,
                i,
                r as int,
            )[k] by {
                let at = crate::plan::position(nodes, nodes[i].edges()[k].node);
                assert(targets@[k] == crate::plan::pointed(at));
                assert(crate::plan::upstream(nodes, i)[k] == at);
                match at {
                    Some(j) => {
                        crate::plan::lemma_position_bounds(nodes, nodes[i].edges()[k].node);
                        assert(j as usize == j);
                        assert(cols[j] == grid@[j]@);
                    },
                    None => {},
                }
            }
        }
        assert(all[r as int] == rows@[r as int]@);
        let slot = blended_slot(math, inputs, &read, normalize, rows[r].observed_at_ms);
        raw.push(slot);
        r = r + 1;
    }
    raw
}

/// What a node gives depends on its own column and on those upstream only.
proof fn lemma_evaluates_frame<A: Arithmetic>(
    math: &A,
    rows: Seq<crate::cube::RowView>,
    nodes: Seq<crate::cube::NodeView>,
    before: Seq<Seq<Option<Slot>>>,
    after: Seq<Seq<Option<Slot>>>,
    i: int,
)
    requires
        evaluates(math, rows, nodes, before, i),
        before[i] == after[i],
        forall|k: int|
            0 <= k < crate::plan::upstream(nodes, i).len() ==> ((
            #[trigger] crate::plan::upstream(nodes, i)[k]) matches Some(j) ==> before[j]
                == after[j]),
    ensures
        evaluates(math, rows, nodes, after, i),
{
    match nodes[i].kind {
        crate::cube::KindView::Field { .. } => {},
        crate::cube::KindView::Linear { normalize_weights, .. } => {
            let raw = choose|raw: Seq<Option<Slot>>|
                {
                    &&& #[trigger] combines(math, rows, nodes, before, i, normalize_weights, raw)
                    &&& transforms(math, nodes[i].transform, key_order(rows), raw, before[i])
                };
            assert forall|r: int| 0 <= r < rows.len() implies blends(
                math,
                nodes[i].edges(),
                readings(nodes, after, i, r),
                normalize_weights,
                rows[r].observed_at_ms,
                #[trigger] raw[r],
            ) by {
                assert(readings(nodes, after, i, r) =~= readings(nodes, before, i, r)) by {
                    assert forall|k: int| 0 <= k < nodes[i].edges().len() implies readings(
                        nodes,
                        after,
                        i,
                        r,
                    )[k] == readings(nodes, before, i, r)[k] by {
                        assert(crate::plan::upstream(nodes, i)[k] matches Some(j) ==> before[j]
                            == after[j]);
                    }
                }
            }
            assert(combines(math, rows, nodes, after, i, normalize_weights, raw));
        },
    }
}

fn computed_column<A: Arithmetic>(
    math: &A,
    node: &NodeSpec,
    targets: &Vec<Option<usize>>,
    rows: &Vec<InputRow>,
    keyed: &Vec<usize>,
    grid: &Vec<Vec<Option<Slot>>>,
    Ghost(nodes): Ghost<Seq<crate::cube::NodeView>>,
    Ghost(i): Ghost<int>,
) -> (column: Vec<Option<Slot>>)
    requires
        0 <= i < nodes.len(),
        nodes.len() == grid@.len(),
        nodes.len() <= usize::MAX,
        nodes[i] == node@,
        targets@.len() == nodes[i].edges().len(),
        forall|k: int|
            0 <= k < targets@.len() ==> (#[trigger] targets@[k]) == crate::plan::pointed(
                crate::plan::position(nodes, nodes[i].edges()[k].node),
            ),
        forall|k: int|
            0 <= k < targets@.len() ==> ((#[trigger] targets@[k]) matches Some(j) ==> j
                < grid@.len() && j != i && grid@[j as int]@.len() == rows@.len()),
        crate::order::indexes(keyed@) == key_order(crate::text::views(rows@)),
        orders(crate::order::indexes(keyed@), rows@.len()),
    ensures
        column@.len() == rows@.len(),
        evaluates(
            math,
            crate::text::views(rows@),
            nodes,
            columns(grid@).update(i, column@),
            i,
        ),
{
    let ghost all = crate::text::views(rows@);
    match &node.kind {
        NodeKind::Field { field } => {
            let column = compute_field(math, node.transform, field.as_str(), rows);
            assert(columns(grid@).update(i, column@)[i] == column@);
            assert(nodes[i].kind == (crate::cube::KindView::Field { field: field@ }));
            assert(all.len() == rows@.len());
            assert(evaluates(math, all, nodes, columns(grid@).update(i, column@), i));
            column
        },
        NodeKind::Linear { inputs, normalize_weights } => {
            let raw = combined_column(
                math,
                inputs,
                targets,
                *normalize_weights,
                rows,
                grid,
                Ghost(nodes),
                Ghost(i),
            );
            let column = transformed_column(math, node.transform, keyed, &raw);
            proof {
                let before = columns(grid@);
                let after = before.update(i, column@);
                assert forall|r: int| 0 <= r < all.len() implies blends(
                    math,
                    nodes[i].edges(),
                    readings(nodes, after, i, r),
                    *normalize_weights,
                    all[r].observed_at_ms,
                    #[trigger] raw@[r],
                ) by {
                    assert(readings(nodes, after, i, r) =~= readings(nodes, before, i, r)) by {
                        assert forall|k: int| 0 <= k < nodes[i].edges().len() implies readings(
                            nodes,
                            after,
                            i,
                            r,
                        )[k] == readings(nodes, before, i, r)[k] by {
                            let at = crate::plan::position(nodes, nodes[i].edges()[k].node);
                            assert(targets@[k] == crate::plan::pointed(at));
                            assert(crate::plan::upstream(nodes, i)[k] == at);
                            crate::plan::lemma_position_bounds(nodes, nodes[i].edges()[k].node);
                        }
                    }
                }
                assert(combines(math, all, nodes, after, i, *normalize_weights, raw@));
                assert(after[i] == column@);
                assert(nodes[i].kind == (crate::cube::KindView::Linear {
                    inputs: crate::text::views(inputs@),
                    normalize_weights: *normalize_weights,
                }));
                assert(transforms(math, nodes[i].transform, key_order(all), raw@, after[i]));
                assert(nodes[i].kind->normalize_weights == *normalize_weights);
                assert(combines(math, all, nodes, after, i, nodes[i].kind->normalize_weights, raw@));
                assert(evaluates(math, all, nodes, after, i));
            }
            column
        },
    }
}

/// Evaluate every node in the order of a plan. Beside the grid stands the time
/// that each node took.
pub fn resolved_grid<A: Arithmetic>(
    math: &A,
    rows: &Vec<InputRow>,
    nodes: &Vec<NodeSpec>,
    plan: &ExecutionPlan,
    keyed: &Vec<usize>,
) -> (result: (Vec<Vec<Option<Slot>>>, Vec<u64>))
    requires
        plan.plans(crate::text::views(nodes@)),
        crate::order::indexes(keyed@) == key_order(crate::text::views(rows@)),
        orders(crate::order::indexes(keyed@), rows@.len()),
    ensures
        resolves(
            math,
            crate::text::views(rows@),
            crate::text::views(nodes@),
            columns(result.0@),
        ),
        result.0@.len() == nodes@.len(),
        result.1@.len() == nodes@.len(),
{
    let ghost all = crate::text::views(nodes@);
    let ghost sheet = crate::text::views(rows@);
    let ghost p = crate::order::indexes(plan.order@);
    let mut grid: Vec<Vec<Option<Slot>>> = Vec::new();
    let mut micros: Vec<u64> = Vec::new();
    let mut fill: usize = 0;
    while fill < nodes.len()
        invariant
            0 <= fill <= nodes@.len(),
            grid@.len() == fill,
            micros@.len() == fill,
        decreases nodes@.len() - fill,
    {
        grid.push(Vec::new());
        micros.push(0);
        fill = fill + 1;
    }
    let mut a: usize = 0;
    while a < plan.order.len()
        invariant
            0 <= a <= plan.order@.len(),
            all == crate::text::views(nodes@),
            sheet == crate::text::views(rows@),
            p == crate::order::indexes(plan.order@),
            plan.plans(all),
            crate::order::indexes(keyed@) == key_order(sheet),
            orders(crate::order::indexes(keyed@), rows@.len()),
            all.len() <= usize::MAX,
            grid@.len() == all.len(),
            micros@.len() == all.len(),
            forall|b: int|
                0 <= b < a ==> grid@[#[trigger] p[b]]@.len() == rows@.len() && evaluates(
                    math,
                    sheet,
                    all,
                    columns(grid@),
                    p[b],
                ),
        decreases plan.order@.len() - a,
    {
        let i: usize = plan.order[a];
        assert(p[a as int] == i);
        assert(all[i as int] == nodes@[i as int]@);
        let started = Instant::now();
        let targets = &plan.dependencies[i];
        proof {
            assert(targets@.len() == all[i as int].edges().len());
            assert forall|k: int| 0 <= k < targets@.len() implies (#[trigger] targets@[k])
                == crate::plan::pointed(
                crate::plan::position(all, all[i as int].edges()[k].node),
            ) by {
                assert(plan.dependencies@[i as int]@[k] == targets@[k]);
            }
            assert forall|k: int| 0 <= k < targets@.len() implies ((
            #[trigger] targets@[k]) matches Some(j) ==> j < grid@.len() && j != i
                && grid@[j as int]@.len() == rows@.len()) by {
                let at = crate::plan::position(all, all[i as int].edges()[k].node);
                assert(targets@[k] == crate::plan::pointed(at));
                crate::plan::lemma_position_bounds(all, all[i as int].edges()[k].node);
                assert(crate::plan::upstream(all, p[a as int])[k] == at);
                if at is Some {
                    let head = p.take(a as int);
                    assert(head.contains(at->0));
                    let b = choose|b: int| 0 <= b < head.len() && head[b] == at->0;
                    assert(p[b] == at->0);
                    assert(p[b] != p[a as int]);
                }
            }
        }
        let ghost before = columns(grid@);
        let column = computed_column(
            math,
            &nodes[i],
            targets,
            rows,
            keyed,
            &grid,
            Ghost(all),
            Ghost(i as int),
        );
        let ghost filled = column@;
        micros[i] = micros_since(&started);
        grid[i] = column;
        proof {
            let after = columns(grid@);
            assert(after =~= before.update(i as int, filled));
            assert forall|b: int| 0 <= b < a + 1 implies grid@[#[trigger] p[b]]@.len()
                == rows@.len() && evaluates(math, sheet, all, after, p[b]) by {
                if b < a {
                    assert(p[b] != p[a as int]);
                    assert(before[p[b]] == after[p[b]]);
                    assert forall|k: int|
                        0 <= k < crate::plan::upstream(all, p[b]).len() implies ((
                    #[trigger] crate::plan::upstream(all, p[b])[k]) matches Some(j) ==> before[j]
                        == after[j]) by {
                        let at = crate::plan::upstream(all, p[b])[k];
                        if at is Some {
                            let head = p.take(b);
                            assert(head.contains(at->0));
                            let c = choose|c: int| 0 <= c < head.len() && head[c] == at->0;
                            assert(p[c] == at->0);
                            assert(p[c] != p[a as int]);
                        }
                    }
                    lemma_evaluates_frame(math, sheet, all, before, after, p[b]);
                }
            }
        }
        a = a + 1;
    }
    proof {
        let cols = columns(grid@);
        assert forall|i: int| 0 <= i < all.len() implies (#[trigger] cols[i]).len()
            == sheet.len() by {
            assert(p.contains(i));
            let b = choose|b: int| 0 <= b < p.len() && p[b] == i;
            assert(grid@[p[b]]@.len() == rows@.len());
        }
        assert forall|i: int| 0 <= i < all.len() implies #[trigger] evaluates(
            math,
            sheet,
            all,
            cols,
            i,
        ) by {
            assert(p.contains(i));
            let b = choose|b: int| 0 <= b < p.len() && p[b] == i;
            assert(grid@[p[b]]@.len() == rows@.len());
        }
    }
    (grid, micros)
}

/// The keys of any rows are in a strict weak order.
pub proof fn lemma_by_key(rows: Seq<crate::cube::RowView>)
    ensures
        crate::order::strict_weak(rows.len(), by_key(rows)),
{
    let f = by_key(rows);
    assert forall|i: int, j: int|
        0 <= i < rows.len() && 0 <= j < rows.len() && #[trigger] f(i, j) implies !f(j, i) by {
        crate::text::lemma_precedes_asymmetric(rows[i].key, rows[j].key);
    }
    assert forall|i: int, j: int, k: int|
        #![trigger f(i, k), f(j, k)]
        #![trigger f(i, k), f(i, j)]
        0 <= i < rows.len() && 0 <= j < rows.len() && 0 <= k < rows.len() && f(
            i,
            k,
        ) implies f(i, j) || f(j, k) by {
        crate::text::lemma_precedes_negative(rows[i].key, rows[j].key, rows[k].key);
    }
}

/// The dictionary order of the keys names each row once.
pub proof fn lemma_key_order(rows: Seq<crate::cube::RowView>)
    ensures
        orders(key_order(rows), rows.len()),
        crate::order::arranged(rows.len(), by_key(rows), key_order(rows)),
{
    lemma_by_key(rows);
    crate::order::lemma_arrangement_exists(rows.len(), by_key(rows));
    let p = key_order(rows);
    assert forall|a: int, b: int|
        0 <= a < p.len() && 0 <= b < p.len() && a != b implies p[a] != p[b] by {
        if a < b {
            assert(crate::order::stands(by_key(rows), p[a], p[b]));
        } else {
            assert(crate::order::stands(by_key(rows), p[b], p[a]));
        }
    }
}

proof fn lemma_valued_complete(column: Seq<Option<Slot>>, order: Seq<int>, n: int, a: int)
    requires
        0 <= a < n <= order.len(),
        column[order[a]] is Some,
    ensures
        valued(column, order, n).contains(order[a]),
    decreases n,
{
    let now = valued(column, order, n);
    if a == n - 1 {
        assert(now[now.len() - 1] == order[a]);
    } else {
        lemma_valued_complete(column, order, n - 1, a);
        let before = valued(column, order, n - 1);
        let k = choose|k: int| 0 <= k < before.len() && before[k] == order[a];
        assert(now[k] == order[a]);
    }
}

proof fn lemma_settled_unique<A: Arithmetic>(
    math: &A,
    expr: crate::number::Expr,
    time: i64,
    x: Option<Slot>,
    y: Option<Slot>,
)
    requires
        crate::number::deterministic(math),
        settled(math, expr, time, x),
        settled(math, expr, time, y),
    ensures
        x == y,
{
    assert forall|s: Double, t: Double| #[trigger]
        crate::number::computes(math, expr, s) && #[trigger] crate::number::computes(
            math,
            expr,
            t,
        ) implies s == t by {
        crate::number::lemma_computes_unique(math, expr, s, t);
    }
}

proof fn lemma_transforms_unique<A: Arithmetic>(
    math: &A,
    transform: Transform,
    order: Seq<int>,
    raw: Seq<Option<Slot>>,
    x: Seq<Option<Slot>>,
    y: Seq<Option<Slot>>,
)
    requires
        crate::number::deterministic(math),
        orders(order, raw.len()),
        transforms(math, transform, order, raw, x),
        transforms(math, transform, order, raw, y),
    ensures
        x == y,
{
    let rows = valued(raw, order, order.len() as int);
    assert forall|r: int| 0 <= r < raw.len() implies x[r] == y[r] by {
        if raw[r] is Some {
            assert(order.contains(r));
            let a = choose|a: int| 0 <= a < order.len() && order[a] == r;
            lemma_valued_complete(raw, order, order.len() as int, a);
            let k = choose|k: int| 0 <= k < rows.len() && rows[k] == r;
            lemma_settled_unique(
                math,
                crate::transform::transformed(transform, values_at(raw, rows), k),
                raw[r]->0.observed_at_ms,
                x[rows[k]],
                y[rows[k]],
            );
        } else {
            assert(x[r] is None && y[r] is None);
        }
    }
    assert(x =~= y);
}

proof fn lemma_blends_unique<A: Arithmetic>(
    math: &A,
    edges: Seq<crate::cube::EdgeView>,
    read: Seq<Option<Slot>>,
    normalize: bool,
    time: i64,
    x: Option<Slot>,
    y: Option<Slot>,
)
    requires
        crate::number::deterministic(math),
        blends(math, edges, read, normalize, time, x),
        blends(math, edges, read, normalize, time, y),
    ensures
        x == y,
{
    let n = edges.len() as int;
    let total = weight_scale(edges, read, n);
    let sum = blended(edges, read, normalize);
    let limit = Double { bits: EPSILON };
    if !(lacks(edges, read) || !reads_any(read)) {
        assert forall|s: Double, t: Double| #[trigger]
            crate::number::computes(math, total, s) && #[trigger] crate::number::computes(
                math,
                total,
                t,
            ) implies s == t by {
            crate::number::lemma_computes_unique(math, total, s, t);
        }
        assert forall|s: Double, t: Double| #[trigger]
            crate::number::computes(math, sum, s) && #[trigger] crate::number::computes(
                math,
                sum,
                t,
            ) implies s == t by {
            crate::number::lemma_computes_unique(math, sum, s, t);
        }
    }
}

proof fn lemma_column_unique<A: Arithmetic>(
    math: &A,
    rows: Seq<crate::cube::RowView>,
    nodes: Seq<crate::cube::NodeView>,
    x: Seq<Seq<Option<Slot>>>,
    y: Seq<Seq<Option<Slot>>>,
    i: int,
    depth: nat,
)
    requires
        crate::number::deterministic(math),
        resolves(math, rows, nodes, x),
        resolves(math, rows, nodes, y),
        0 <= i < nodes.len(),
        crate::plan::resolvable(nodes, i, depth),
    ensures
        x[i] == y[i],
    decreases depth,
{
    assert(evaluates(math, rows, nodes, x, i) && evaluates(math, rows, nodes, y, i));
    match nodes[i].kind {
        crate::cube::KindView::Field { field } => {
            let order = row_order(rows.len());
            assert forall|r: int| 0 <= r < rows.len() implies #[trigger] order.contains(r) by {
                assert(order[r] == r);
            }
            lemma_transforms_unique(
                math,
                nodes[i].transform,
                order,
                field_slots(rows, field),
                x[i],
                y[i],
            );
        },
        crate::cube::KindView::Linear { normalize_weights, .. } => {
            let a = choose|raw: Seq<Option<Slot>>|
                {
                    &&& #[trigger] combines(math, rows, nodes, x, i, normalize_weights, raw)
                    &&& transforms(math, nodes[i].transform, key_order(rows), raw, x[i])
                };
            let b = choose|raw: Seq<Option<Slot>>|
                {
                    &&& #[trigger] combines(math, rows, nodes, y, i, normalize_weights, raw)
                    &&& transforms(math, nodes[i].transform, key_order(rows), raw, y[i])
                };
            assert forall|r: int| 0 <= r < rows.len() implies a[r] == b[r] by {
                assert(readings(nodes, x, i, r) =~= readings(nodes, y, i, r)) by {
                    assert forall|k: int| 0 <= k < nodes[i].edges().len() implies readings(
                        nodes,
                        x,
                        i,
                        r,
                    )[k] == readings(nodes, y, i, r)[k] by {
                        let at = crate::plan::upstream(nodes, i)[k];
                        if at is Some {
                            crate::plan::lemma_position_bounds(nodes, nodes[i].edges()[k].node);
                            lemma_column_unique(
                                math,
                                rows,
                                nodes,
                                x,
                                y,
                                at->0,
                                (depth - 1) as nat,
                            );
                        }
                    }
                }
                lemma_blends_unique(
                    math,
                    nodes[i].edges(),
                    readings(nodes, x, i, r),
                    normalize_weights,
                    rows[r].observed_at_ms,
                    a[r],
                    b[r],
                );
            }
            assert(a =~= b);
            lemma_key_order(rows);
            lemma_transforms_unique(math, nodes[i].transform, key_order(rows), a, x[i], y[i]);
        },
    }
}

/// A graph without a fault gives one grid for the same rows, under an
/// arithmetic whose operations each give one result.
pub proof fn lemma_grid_unique<A: Arithmetic>(
    math: &A,
    rows: Seq<crate::cube::RowView>,
    nodes: Seq<crate::cube::NodeView>,
    x: Seq<Seq<Option<Slot>>>,
    y: Seq<Seq<Option<Slot>>>,
)
    requires
        crate::number::deterministic(math),
        crate::plan::graph_fault(nodes) is None,
        resolves(math, rows, nodes, x),
        resolves(math, rows, nodes, y),
    ensures
        x == y,
{
    assert forall|i: int| 0 <= i < nodes.len() implies x[i] == y[i] by {
        crate::plan::lemma_unstuck(nodes, nodes.len() as int, i);
        lemma_column_unique(math, rows, nodes, x, y, i, nodes.len());
    }
    assert(x =~= y);
}

/// Whether two lists of nodes declare the same nodes, in whatever order.
pub open spec fn same_declarations(
    a: Seq<crate::cube::NodeView>,
    b: Seq<crate::cube::NodeView>,
) -> bool {
    a.to_multiset() == b.to_multiset()
}

proof fn lemma_declared_elsewhere(
    a: Seq<crate::cube::NodeView>,
    b: Seq<crate::cube::NodeView>,
    i: int,
) -> (j: int)
    requires
        same_declarations(a, b),
        0 <= i < a.len(),
    ensures
        0 <= j < b.len(),
        b[j] == a[i],
{
    broadcast use vstd::seq_lib::group_to_multiset_ensures;

    assert(a.contains(a[i]));
    assert(a.to_multiset().count(a[i]) > 0);
    assert(b.contains(a[i]));
    choose|j: int| 0 <= j < b.len() && b[j] == a[i]
}

/// In a list of nodes without a fault, the node under an identifier is the one
/// that carries it.
proof fn lemma_position_is(nodes: Seq<crate::cube::NodeView>, j: int)
    requires
        crate::plan::graph_fault(nodes) is None,
        0 <= j < nodes.len(),
    ensures
        crate::plan::position(nodes, nodes[j].id) == Some(j),
{
    let id = nodes[j].id;
    assert(crate::validation::node_seen(nodes, nodes.len() as int, id));
    crate::plan::lemma_position_bounds(nodes, id);
    let p = crate::plan::position(nodes, id)->0;
    if p < j {
        crate::validation::lemma_sound_nodes(nodes, nodes.len() as int, p, j);
    } else if j < p {
        crate::validation::lemma_sound_nodes(nodes, nodes.len() as int, j, p);
    }
}

proof fn lemma_column_moves<A: Arithmetic>(
    math: &A,
    rows: Seq<crate::cube::RowView>,
    a: Seq<crate::cube::NodeView>,
    b: Seq<crate::cube::NodeView>,
    x: Seq<Seq<Option<Slot>>>,
    y: Seq<Seq<Option<Slot>>>,
    i: int,
    j: int,
    depth: nat,
)
    requires
        crate::number::deterministic(math),
        same_declarations(a, b),
        crate::plan::graph_fault(a) is None,
        crate::plan::graph_fault(b) is None,
        resolves(math, rows, a, x),
        resolves(math, rows, b, y),
        0 <= i < a.len(),
        0 <= j < b.len(),
        a[i] == b[j],
        crate::plan::resolvable(a, i, depth),
    ensures
        x[i] == y[j],
    decreases depth,
{
    assert(evaluates(math, rows, a, x, i) && evaluates(math, rows, b, y, j));
    match a[i].kind {
        crate::cube::KindView::Field { field } => {
            let order = row_order(rows.len());
            assert forall|r: int| 0 <= r < rows.len() implies #[trigger] order.contains(r) by {
                assert(order[r] == r);
            }
            lemma_transforms_unique(
                math,
                a[i].transform,
                order,
                field_slots(rows, field),
                x[i],
                y[j],
            );
        },
        crate::cube::KindView::Linear { normalize_weights, .. } => {
            let u = choose|raw: Seq<Option<Slot>>|
                {
                    &&& #[trigger] combines(math, rows, a, x, i, normalize_weights, raw)
                    &&& transforms(math, a[i].transform, key_order(rows), raw, x[i])
                };
            let v = choose|raw: Seq<Option<Slot>>|
                {
                    &&& #[trigger] combines(math, rows, b, y, j, normalize_weights, raw)
                    &&& transforms(math, b[j].transform, key_order(rows), raw, y[j])
                };
            assert forall|r: int| 0 <= r < rows.len() implies u[r] == v[r] by {
                assert(readings(a, x, i, r) =~= readings(b, y, j, r)) by {
                    assert forall|k: int| 0 <= k < a[i].edges().len() implies readings(
                        a,
                        x,
                        i,
                        r,
                    )[k] == readings(b, y, j, r)[k] by {
                        let id = a[i].edges()[k].node;
                        let at = crate::plan::upstream(a, i)[k];
                        let to = crate::plan::upstream(b, j)[k];
                        crate::plan::lemma_position_bounds(a, id);
                        crate::plan::lemma_position_bounds(b, id);
                        if at is Some {
                            let q = lemma_declared_elsewhere(a, b, at->0);
                            lemma_position_is(b, q);
                            lemma_column_moves(
                                math,
                                rows,
                                a,
                                b,
                                x,
                                y,
                                at->0,
                                q,
                                (depth - 1) as nat,
                            );
                        } else if to is Some {
                            let q = lemma_declared_elsewhere(b, a, to->0);
                            lemma_position_is(a, q);
                        }
                    }
                }
                lemma_blends_unique(
                    math,
                    a[i].edges(),
                    readings(a, x, i, r),
                    normalize_weights,
                    rows[r].observed_at_ms,
                    u[r],
                    v[r],
                );
            }
            assert(u =~= v);
            lemma_key_order(rows);
            lemma_transforms_unique(math, a[i].transform, key_order(rows), u, x[i], y[j]);
        },
    }
}

/// The column of a node does not depend on where the node is declared, in
/// graphs without a fault and under an arithmetic whose operations each give
/// one result.
pub proof fn lemma_column_ignores_declaration_order<A: Arithmetic>(
    math: &A,
    rows: Seq<crate::cube::RowView>,
    a: Seq<crate::cube::NodeView>,
    b: Seq<crate::cube::NodeView>,
    x: Seq<Seq<Option<Slot>>>,
    y: Seq<Seq<Option<Slot>>>,
    i: int,
) -> (j: int)
    requires
        crate::number::deterministic(math),
        same_declarations(a, b),
        crate::plan::graph_fault(a) is None,
        crate::plan::graph_fault(b) is None,
        resolves(math, rows, a, x),
        resolves(math, rows, b, y),
        0 <= i < a.len(),
    ensures
        0 <= j < b.len(),
        b[j] == a[i],
        y[j] == x[i],
{
    let j = lemma_declared_elsewhere(a, b, i);
    crate::plan::lemma_unstuck(a, a.len() as int, i);
    lemma_column_moves(math, rows, a, b, x, y, i, j, a.len());
    j
}

/// Whether every value of a column bears the time of its row.
pub open spec fn timed_by_rows(
    rows: Seq<crate::cube::RowView>,
    column: Seq<Option<Slot>>,
) -> bool {
    forall|r: int|
        0 <= r < column.len() && (#[trigger] column[r]) is Some ==> column[r]->0.observed_at_ms
            == rows[r].observed_at_ms
}

proof fn lemma_transforms_keep_times<A: Arithmetic>(
    math: &A,
    transform: Transform,
    order: Seq<int>,
    rows: Seq<crate::cube::RowView>,
    raw: Seq<Option<Slot>>,
    column: Seq<Option<Slot>>,
)
    requires
        orders(order, raw.len()),
        transforms(math, transform, order, raw, column),
        timed_by_rows(rows, raw),
    ensures
        timed_by_rows(rows, column),
{
    let shown = valued(raw, order, order.len() as int);
    assert forall|r: int| 0 <= r < column.len() && (
    #[trigger] column[r]) is Some implies column[r]->0.observed_at_ms
        == rows[r].observed_at_ms by {
        assert(raw[r] is Some);
        assert(order.contains(r));
        let a = choose|a: int| 0 <= a < order.len() && order[a] == r;
        lemma_valued_complete(raw, order, order.len() as int, a);
        let k = choose|k: int| 0 <= k < shown.len() && shown[k] == r;
        assert(settled(
            math,
            crate::transform::transformed(transform, values_at(raw, shown), k),
            raw[shown[k]]->0.observed_at_ms,
            column[shown[k]],
        ));
    }
}

proof fn lemma_oldest_same(read: Seq<Option<Slot>>, time: i64, n: int)
    requires
        0 <= n <= read.len(),
        forall|k: int|
            0 <= k < read.len() && (#[trigger] read[k]) is Some ==> read[k]->0.observed_at_ms
                == time,
    ensures
        oldest(read, time, n) == time,
    decreases n,
{
    if n > 0 {
        lemma_oldest_same(read, time, n - 1);
    }
}

proof fn lemma_column_times<A: Arithmetic>(
    math: &A,
    rows: Seq<crate::cube::RowView>,
    nodes: Seq<crate::cube::NodeView>,
    grid: Seq<Seq<Option<Slot>>>,
    i: int,
    depth: nat,
)
    requires
        resolves(math, rows, nodes, grid),
        0 <= i < nodes.len(),
        crate::plan::resolvable(nodes, i, depth),
    ensures
        timed_by_rows(rows, grid[i]),
    decreases depth,
{
    assert(evaluates(math, rows, nodes, grid, i));
    match nodes[i].kind {
        crate::cube::KindView::Field { field } => {
            let order = row_order(rows.len());
            assert forall|r: int| 0 <= r < rows.len() implies #[trigger] order.contains(r) by {
                assert(order[r] == r);
            }
            lemma_transforms_keep_times(
                math,
                nodes[i].transform,
                order,
                rows,
                field_slots(rows, field),
                grid[i],
            );
        },
        crate::cube::KindView::Linear { normalize_weights, .. } => {
            let raw = choose|raw: Seq<Option<Slot>>|
                {
                    &&& #[trigger] combines(math, rows, nodes, grid, i, normalize_weights, raw)
                    &&& transforms(math, nodes[i].transform, key_order(rows), raw, grid[i])
                };
            assert forall|r: int| 0 <= r < raw.len() && (
            #[trigger] raw[r]) is Some implies raw[r]->0.observed_at_ms
                == rows[r].observed_at_ms by {
                let read = readings(nodes, grid, i, r);
                let time = rows[r].observed_at_ms;
                assert(blends(math, nodes[i].edges(), read, normalize_weights, time, raw[r]));
                assert forall|k: int| 0 <= k < read.len() && (
                #[trigger] read[k]) is Some implies read[k]->0.observed_at_ms == time by {
                    let at = crate::plan::upstream(nodes, i)[k];
                    assert(at is Some);
                    crate::plan::lemma_position_bounds(nodes, nodes[i].edges()[k].node);
                    lemma_column_times(math, rows, nodes, grid, at->0, (depth - 1) as nat);
                    assert(grid[at->0].len() == rows.len());
                    assert(grid[at->0][r] is Some);
                }
                lemma_oldest_same(read, time, nodes[i].edges().len() as int);
            }
            lemma_key_order(rows);
            lemma_transforms_keep_times(
                math,
                nodes[i].transform,
                key_order(rows),
                rows,
                raw,
                grid[i],
            );
        },
    }
}

/// In a graph without a fault every value bears the time of its row, however
/// many nodes it passed through.
pub proof fn lemma_values_bear_row_times<A: Arithmetic>(
    math: &A,
    rows: Seq<crate::cube::RowView>,
    nodes: Seq<crate::cube::NodeView>,
    grid: Seq<Seq<Option<Slot>>>,
    i: int,
)
    requires
        crate::plan::graph_fault(nodes) is None,
        resolves(math, rows, nodes, grid),
        0 <= i < nodes.len(),
    ensures
        timed_by_rows(rows, grid[i]),
{
    crate::plan::lemma_unstuck(nodes, nodes.len() as int, i);
    lemma_column_times(math, rows, nodes, grid, i, nodes.len());
}

/// What the first `n` edges that read a value contribute, over the real
/// numbers: their weights times what they read.
pub open spec fn contributions(
    edges: Seq<crate::cube::EdgeView>,
    read: spec_fn(int) -> Option<Double>,
    n: int,
) -> real {
    crate::reading::total(
        |k: int|
            if read(k) is Some {
                crate::reading::exact(edges[k].weight) * crate::reading::exact(read(k)->0)
            } else {
                0 as real
            },
        n,
    )
}

/// The sizes of the weights of the first `n` edges that read a value, together.
pub open spec fn weights_read(
    edges: Seq<crate::cube::EdgeView>,
    read: spec_fn(int) -> Option<Double>,
    n: int,
) -> real {
    crate::reading::total(
        |k: int|
            if read(k) is Some {
                crate::reading::distance(crate::reading::exact(edges[k].weight))
            } else {
                0 as real
            },
        n,
    )
}

/// The value of a slot, if it has one.
pub open spec fn value_in(slot: Option<Slot>) -> Option<Double> {
    match slot {
        Some(slot) => Some(slot.value),
        None => None,
    }
}

/// The values that edges read.
pub open spec fn values_read(read: Seq<Option<Slot>>) -> spec_fn(int) -> Option<Double> {
    |k: int| value_in(read[k])
}

/// A weighted combination comes to the sum of the weights times what their
/// edges read, over the edges that read a value; divided, where the weights
/// are normalized, by the sizes of those weights.
pub proof fn lemma_blend_means(
    f: crate::reading::Functions,
    edges: Seq<crate::cube::EdgeView>,
    read: Seq<Option<Slot>>,
)
    requires
        read.len() == edges.len(),
    ensures
        ({
            let n = edges.len() as int;
            let sum = contributions(edges, values_read(read), n);
            let scale = weights_read(edges, values_read(read), n);
            &&& crate::reading::reading(f, blended(edges, read, false)) == sum
            &&& scale != 0 as real ==> crate::reading::reading(f, blended(edges, read, true))
                * scale == sum
            &&& crate::reading::reading(f, weight_scale(edges, read, n)) == scale
        }),
{
    let n = edges.len() as int;
    lemma_weighted_reading(f, edges, read, n);
    let sum = contributions(edges, values_read(read), n);
    let scale = weights_read(edges, values_read(read), n);
    assert(crate::reading::reading(f, blended(edges, read, true)) == sum / scale);
    if scale != 0 as real {
        crate::reading::lemma_quotient(sum, scale);
    }
}

proof fn lemma_weighted_reading(
    f: crate::reading::Functions,
    edges: Seq<crate::cube::EdgeView>,
    read: Seq<Option<Slot>>,
    n: int,
)
    requires
        0 <= n <= edges.len(),
    ensures
        crate::reading::reading(f, weighted(edges, read, n)) == contributions(
            edges,
            values_read(read),
            n,
        ),
        crate::reading::reading(f, weight_scale(edges, read, n)) == weights_read(
            edges,
            values_read(read),
            n,
        ),
    decreases n,
{
    crate::reading::lemma_constants();
    if n > 0 {
        lemma_weighted_reading(f, edges, read, n - 1);
        match read[n - 1] {
            Some(slot) => {
                let w = crate::number::Expr::Lit(edges[n - 1].weight);
                let product = crate::number::e_mul(w, crate::number::Expr::Lit(slot.value));
                assert(crate::reading::reading(f, product) == crate::reading::exact(
                    edges[n - 1].weight,
                ) * crate::reading::exact(slot.value)) by {
                    reveal_with_fuel(crate::reading::reading, 2);
                }
                assert(crate::reading::reading(f, crate::number::e_abs(w))
                    == crate::reading::distance(crate::reading::exact(edges[n - 1].weight))) by {
                    reveal_with_fuel(crate::reading::reading, 2);
                }
                assert(weighted(edges, read, n) == crate::number::e_add(
                    weighted(edges, read, n - 1),
                    product,
                ));
            },
            None => {},
        }
    }
}

/// Whether what is shown for each of `n` rows is the transformed form of raw
/// values: nothing where there was nothing, and for the rows that had a value,
/// taken in some order, what the transformation makes of those values, or
/// nothing where that is not finite.
pub open spec fn shows_transformed<A: Arithmetic>(
    math: &A,
    transform: Transform,
    order: Seq<int>,
    raw: spec_fn(int) -> Option<Double>,
    out: spec_fn(int) -> Option<Double>,
    n: int,
) -> bool {
    let values = Seq::new(order.len(), |i: int| raw(order[i])->0);
    &&& order.no_duplicates()
    &&& forall|k: int| 0 <= k < order.len() ==> 0 <= #[trigger] order[k] < n
    &&& forall|r: int| 0 <= r < n ==> #[trigger] order.contains(r) == raw(r) is Some
    &&& forall|r: int| 0 <= r < n && raw(r) is None ==> (#[trigger] out(r)) is None
    &&& forall|k: int|
        0 <= k < order.len() ==> exists|v: Double|
            #[trigger] crate::number::computes(
                math,
                crate::transform::transformed(transform, values, k),
                v,
            ) && out(#[trigger] order[k]) == if v.finite() {
                Some(v)
            } else {
                None
            }
}

/// A transformed column shows the transformed form of its raw values.
pub proof fn lemma_column_is_transformed<A: Arithmetic>(
    math: &A,
    transform: Transform,
    order: Seq<int>,
    raw: Seq<Option<Slot>>,
    column: Seq<Option<Slot>>,
)
    requires
        orders(order, raw.len()),
        transforms(math, transform, order, raw, column),
    ensures
        shows_transformed(
            math,
            transform,
            valued(raw, order, order.len() as int),
            |r: int| value_in(raw[r]),
            |r: int| value_in(column[r]),
            raw.len() as int,
        ),
{
    let n = order.len() as int;
    let shown = valued(raw, order, n);
    let g = |r: int| value_in(raw[r]);
    let h = |r: int| value_in(column[r]);
    let values = Seq::new(shown.len(), |i: int| g(shown[i])->0);
    lemma_valued(raw, order, n);
    assert(values =~= values_at(raw, shown));
    assert forall|r: int| 0 <= r < raw.len() implies #[trigger] shown.contains(r) == (g(r) is Some)
        by {
        assert(order.contains(r));
        let a = choose|a: int| 0 <= a < order.len() && order[a] == r;
        if raw[r] is Some {
            lemma_valued_complete(raw, order, n, a);
        } else if shown.contains(r) {
            let k = choose|k: int| 0 <= k < shown.len() && shown[k] == r;
            assert(raw[shown[k]] is Some);
        }
    }
    assert forall|k: int| 0 <= k < shown.len() implies exists|v: Double|
        #[trigger] crate::number::computes(
            math,
            crate::transform::transformed(transform, values, k),
            v,
        ) && h(#[trigger] shown[k]) == if v.finite() {
            Some(v)
        } else {
            None
        } by {
        let e = crate::transform::transformed(transform, values_at(raw, shown), k);
        let time = raw[shown[k]]->0.observed_at_ms;
        assert(settled(math, e, time, column[shown[k]]));
        let v = choose|v: Double| #[trigger]
            crate::number::computes(math, e, v) && column[shown[k]] == if v.finite() {
                Some(Slot { value: v, observed_at_ms: time })
            } else {
                None
            };
        assert(crate::number::computes(
            math,
            crate::transform::transformed(transform, values, k),
            v,
        ));
    }
    assert forall|r: int| 0 <= r < raw.len() && g(r) is None implies (#[trigger] h(r)) is None by {
        assert(raw[r] is None);
        assert(column[r] is None);
    }
    assert(shows_transformed(math, transform, shown, g, h, raw.len() as int));
}

/// Rows that are taken in the order in which they came ascend.
pub proof fn lemma_valued_ascends(raw: Seq<Option<Slot>>, len: nat, n: int)
    requires
        0 <= n <= len,
    ensures
        forall|a: int, b: int|
            0 <= a < b < valued(raw, row_order(len), n).len() ==> #[trigger] valued(
                raw,
                row_order(len),
                n,
            )[a] < #[trigger] valued(raw, row_order(len), n)[b],
        forall|a: int|
            0 <= a < valued(raw, row_order(len), n).len() ==> #[trigger] valued(
                raw,
                row_order(len),
                n,
            )[a] < n,
    decreases n,
{
    if n > 0 {
        lemma_valued_ascends(raw, len, n - 1);
        let order = row_order(len);
        let before = valued(raw, order, n - 1);
        let now = valued(raw, order, n);
        assert(order[n - 1] == n - 1);
        assert forall|a: int| 0 <= a < now.len() implies #[trigger] now[a] < n by {
            if a < before.len() {
                assert(now[a] == before[a]);
            }
        }
        assert forall|a: int, b: int| 0 <= a < b < now.len() implies #[trigger] now[a]
            < #[trigger] now[b] by {
            assert(now[a] == before[a]);
            if b < before.len() {
                assert(now[b] == before[b]);
            }
        }
    }
}

/// Values that edges read, as slots without a time.
pub open spec fn as_slots(read: spec_fn(int) -> Option<Double>, n: nat) -> Seq<Option<Slot>> {
    Seq::new(
        n,
        |k: int|
            match read(k) {
                Some(value) => Some(Slot { value, observed_at_ms: 0 }),
                None => None,
            },
    )
}

/// A weighted combination depends on the values that are read alone.
pub proof fn lemma_blend_reads_values(
    edges: Seq<crate::cube::EdgeView>,
    a: Seq<Option<Slot>>,
    b: Seq<Option<Slot>>,
    n: int,
)
    requires
        0 <= n <= edges.len(),
        forall|k: int| 0 <= k < n ==> value_in(#[trigger] a[k]) == value_in(b[k]),
    ensures
        weighted(edges, a, n) == weighted(edges, b, n),
        weight_scale(edges, a, n) == weight_scale(edges, b, n),
    decreases n,
{
    if n > 0 {
        lemma_blend_reads_values(edges, a, b, n - 1);
        assert(value_in(a[n - 1]) == value_in(b[n - 1]));
    }
}

/// Rows that are taken in the order of their keys stand in that order.
pub proof fn lemma_valued_keeps_order(
    rows: Seq<crate::cube::RowView>,
    raw: Seq<Option<Slot>>,
    n: int,
)
    requires
        0 <= n <= rows.len(),
    ensures
        ({
            let shown = valued(raw, key_order(rows), n);
            &&& forall|a: int|
                0 <= a < shown.len() ==> key_order(rows).take(n).contains(#[trigger] shown[a])
            &&& forall|a: int, b: int|
                0 <= a < b < shown.len() ==> !crate::text::precedes(
                    rows[#[trigger] shown[b]].key,
                    rows[#[trigger] shown[a]].key,
                )
        }),
    decreases n,
{
    let order = key_order(rows);
    lemma_key_order(rows);
    if n > 0 {
        lemma_valued_keeps_order(rows, raw, n - 1);
        let before = valued(raw, order, n - 1);
        let now = valued(raw, order, n);
        let head = order.take(n - 1);
        assert forall|a: int| 0 <= a < now.len() implies order.take(n).contains(
            #[trigger] now[a],
        ) by {
            if a < before.len() {
                assert(now[a] == before[a]);
                assert(head.contains(before[a]));
                let c = choose|c: int| 0 <= c < head.len() && head[c] == before[a];
                assert(order.take(n)[c] == now[a]);
            } else {
                assert(order.take(n)[n - 1] == now[a]);
            }
        }
        assert forall|a: int, b: int| 0 <= a < b < now.len() implies !crate::text::precedes(
            rows[#[trigger] now[b]].key,
            rows[#[trigger] now[a]].key,
        ) by {
            assert(now[a] == before[a]);
            if b < before.len() {
                assert(now[b] == before[b]);
            } else {
                assert(head.contains(before[a]));
                let c = choose|c: int| 0 <= c < head.len() && head[c] == before[a];
                assert(order[c] == before[a]);
                assert(crate::order::stands(by_key(rows), order[c], order[n - 1]));
                if crate::text::precedes(rows[order[n - 1]].key, rows[order[c]].key) {
                    crate::text::lemma_precedes_asymmetric(
                        rows[order[n - 1]].key,
                        rows[order[c]].key,
                    );
                    crate::text::lemma_precedes_irreflexive(rows[order[c]].key);
                }
            }
        }
    }
}

/// Rows by key are all the rows, each once, and a row stands before another
/// only where its key is not the later one; equal keys keep their order.
pub proof fn lemma_rows_by_key_ascend(rows: &Vec<InputRow>, order: Vec<usize>)
    requires
        call_ensures(rows_by_key, (rows,), order),
    ensures
        order@.len() == rows@.len(),
        forall|a: int| 0 <= a < order@.len() ==> #[trigger] order@[a] < rows@.len(),
        forall|a: int, b: int|
            0 <= a < b < order@.len() ==> {
                let x = #[trigger] order@[a] as int;
                let y = #[trigger] order@[b] as int;
                &&& x != y
                &&& !crate::text::precedes(rows@[y].key@, rows@[x].key@)
                &&& rows@[x].key@ == rows@[y].key@ ==> x < y
            },
{
    let views = crate::text::views(rows@);
    let p = crate::order::indexes(order@);
    lemma_key_order(views);
    let f = by_key(views);
    assert forall|a: int| 0 <= a < order@.len() implies #[trigger] order@[a] < rows@.len() by {
        assert(p[a] == order@[a]);
    }
    assert forall|a: int, b: int| 0 <= a < b < order@.len() implies ({
        let x = #[trigger] order@[a] as int;
        let y = #[trigger] order@[b] as int;
        &&& x != y
        &&& !crate::text::precedes(rows@[y].key@, rows@[x].key@)
        &&& rows@[x].key@ == rows@[y].key@ ==> x < y
    }) by {
        let x = order@[a] as int;
        let y = order@[b] as int;
        assert(p[a] == x && p[b] == y);
        assert(crate::order::stands(f, p[a], p[b]));
        assert(views[x].key == rows@[x].key@);
        assert(views[y].key == rows@[y].key@);
        if crate::text::precedes(rows@[x].key@, rows@[y].key@) {
            crate::text::lemma_precedes_asymmetric(rows@[x].key@, rows@[y].key@);
        }
    }
}

proof fn lemma_oldest_is_least(read: Seq<Option<Slot>>, time: i64, n: int)
    requires
        0 <= n <= read.len(),
    ensures
        oldest(read, time, n) <= time,
        forall|k: int|
            0 <= k < n && (#[trigger] read[k]) is Some ==> oldest(read, time, n)
                <= read[k]->0.observed_at_ms,
        oldest(read, time, n) == time || exists|k: int|
            0 <= k < n && (#[trigger] read[k]) is Some && read[k]->0.observed_at_ms == oldest(
                read,
                time,
                n,
            ),
    decreases n,
{
    if n > 0 {
        lemma_oldest_is_least(read, time, n - 1);
        let before = oldest(read, time, n - 1);
        let now = oldest(read, time, n);
        if now == before {
            if before != time {
                let k = choose|k: int|
                    0 <= k < n - 1 && (#[trigger] read[k]) is Some && read[k]->0.observed_at_ms
                        == before;
                assert(read[k] is Some && read[k]->0.observed_at_ms == now);
            }
        } else {
            assert(read[n - 1] is Some && read[n - 1]->0.observed_at_ms == now);
        }
    }
}

/// A combination has no value where a required input has none or where no input
/// has one. One that has a value is as old as the oldest of its own time and of
/// the inputs that it reads, and its value is finite.
pub proof fn lemma_blend_is_as_old_as_inputs<A: Arithmetic>(
    math: &A,
    inputs: &Vec<WeightedInput>,
    read: &Vec<Option<Slot>>,
    normalize: bool,
    time: i64,
    out: Option<Slot>,
)
    requires
        read@.len() == inputs@.len(),
        call_ensures(blended_slot::<A>, (math, inputs, read, normalize, time), out),
    ensures
        (exists|k: int| 0 <= k < read@.len() && inputs@[k].required && (#[trigger] read@[k]) is None)
            ==> out is None,
        (forall|k: int| 0 <= k < read@.len() ==> (#[trigger] read@[k]) is None) ==> out is None,
        out matches Some(slot) ==> {
            &&& slot.value.finite()
            &&& slot.observed_at_ms <= time
            &&& forall|k: int|
                0 <= k < read@.len() && (#[trigger] read@[k]) is Some ==> slot.observed_at_ms
                    <= read@[k]->0.observed_at_ms
            &&& slot.observed_at_ms == time || exists|k: int|
                0 <= k < read@.len() && (#[trigger] read@[k]) is Some
                    && read@[k]->0.observed_at_ms == slot.observed_at_ms
        },
{
    let edges = crate::text::views(inputs@);
    lemma_oldest_is_least(read@, time, read@.len() as int);
    if exists|k: int|
        0 <= k < read@.len() && inputs@[k].required && (#[trigger] read@[k]) is None {
        let k = choose|k: int|
            0 <= k < read@.len() && inputs@[k].required && (#[trigger] read@[k]) is None;
        assert(edges[k] == inputs@[k]@);
        assert(edges[k].required && read@[k] is None);
        assert(lacks(edges, read@));
    }
}

} // verus!
