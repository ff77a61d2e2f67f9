//! Pure, generation-oriented calculation over entity cross-sections.
//!
//! The engine guards the order of generations, keeps the plan of a graph while
//! the graph stays the same, and builds snapshots. It performs no file or
//! network I/O.

use crate::cube::{
    CellValue, CubeError, CubeResult, InputRow, NodeKind, NodeSpec, NodeStatus, Snapshot, Update,
    WeightedInput,
};
use crate::evaluate::{resolved_grid, rows_by_key, Slot};
use crate::number::Arithmetic;
use crate::plan::ExecutionPlan;
use crate::text::same_text;
use crate::validation::validate_rows;
use vstd::prelude::*;

verus! {

/// The cells of a column for the first `n` rows of an order.
pub open spec fn column_cells(
    id: Seq<char>,
    rows: Seq<crate::cube::RowView>,
    order: Seq<int>,
    column: Seq<Option<Slot>>,
    n: int,
) -> Seq<crate::cube::CellView>
    decreases n,
{
    if n <= 0 {
        Seq::empty()
    } else {
        match column[order[n - 1]] {
            Some(slot) => column_cells(id, rows, order, column, n - 1).push(
                crate::cube::CellView {
                    node: id,
                    key: rows[order[n - 1]].key,
                    value: slot.value,
                    observed_at_ms: slot.observed_at_ms,
                },
            ),
            None => column_cells(id, rows, order, column, n - 1),
        }
    }
}

/// The cells of one node in dictionary order of the row keys.
pub open spec fn node_cells(
    rows: Seq<crate::cube::RowView>,
    nodes: Seq<crate::cube::NodeView>,
    grid: Seq<Seq<Option<Slot>>>,
    i: int,
) -> Seq<crate::cube::CellView> {
    column_cells(
        nodes[i].id,
        rows,
        crate::evaluate::key_order(rows),
        grid[i],
        crate::evaluate::key_order(rows).len() as int,
    )
}

/// The cells of the first `n` nodes, one node after the other.
pub open spec fn grid_cells(
    rows: Seq<crate::cube::RowView>,
    nodes: Seq<crate::cube::NodeView>,
    grid: Seq<Seq<Option<Slot>>>,
    n: int,
) -> Seq<crate::cube::CellView>
    decreases n,
{
    if n <= 0 {
        Seq::empty()
    } else {
        grid_cells(rows, nodes, grid, n - 1) + node_cells(rows, nodes, grid, n - 1)
    }
}

/// Whether status rows count what each node gave. The time that a node took
/// is left open.
pub open spec fn counts(
    rows: Seq<crate::cube::RowView>,
    nodes: Seq<crate::cube::NodeView>,
    grid: Seq<Seq<Option<Slot>>>,
    statuses: Seq<crate::cube::StatusView>,
) -> bool {
    &&& statuses.len() == nodes.len()
    &&& forall|i: int|
        0 <= i < nodes.len() ==> {
            &&& (#[trigger] statuses[i]).node == nodes[i].id
            &&& statuses[i].values == node_cells(rows, nodes, grid, i).len()
            &&& statuses[i].missing == rows.len() - node_cells(rows, nodes, grid, i).len()
        }
}

/// Whether a snapshot shows a grid.
pub open spec fn shows(
    update: crate::cube::UpdateView,
    grid: Seq<Seq<Option<Slot>>>,
    snapshot: crate::cube::SnapshotView,
) -> bool {
    &&& snapshot.generation == update.generation
    &&& snapshot.observed_at_ms == update.observed_at_ms
    &&& snapshot.mode == update.mode
    &&& snapshot.entity_count == update.rows.len()
    &&& snapshot.values == grid_cells(update.rows, update.nodes, grid, update.nodes.len() as int)
    &&& counts(update.rows, update.nodes, grid, snapshot.statuses)
}

/// Whether every value of some cells is finite.
pub open spec fn finite_cells(cells: Seq<crate::cube::CellView>) -> bool {
    forall|k: int| 0 <= k < cells.len() ==> (#[trigger] cells[k]).value.finite()
}

proof fn lemma_column_finite(
    id: Seq<char>,
    rows: Seq<crate::cube::RowView>,
    order: Seq<int>,
    column: Seq<Option<Slot>>,
    n: int,
)
    requires
        crate::evaluate::finite_column(column),
        n <= order.len(),
        forall|a: int| 0 <= a < order.len() ==> 0 <= #[trigger] order[a] < column.len(),
    ensures
        finite_cells(column_cells(id, rows, order, column, n)),
    decreases n,
{
    if n > 0 {
        lemma_column_finite(id, rows, order, column, n - 1);
        assert(0 <= order[n - 1] < column.len());
    }
}

proof fn lemma_grid_finite<A: Arithmetic>(
    math: &A,
    rows: Seq<crate::cube::RowView>,
    nodes: Seq<crate::cube::NodeView>,
    grid: Seq<Seq<Option<Slot>>>,
    n: int,
)
    requires
        crate::evaluate::resolves(math, rows, nodes, grid),
        n <= nodes.len(),
    ensures
        finite_cells(grid_cells(rows, nodes, grid, n)),
    decreases n,
{
    if n > 0 {
        lemma_grid_finite(math, rows, nodes, grid, n - 1);
        let i = n - 1;
        crate::evaluate::lemma_key_order(rows);
        assert(grid[i].len() == rows.len());
        assert(crate::evaluate::evaluates(math, rows, nodes, grid, i));
        lemma_column_finite(
            nodes[i].id,
            rows,
            crate::evaluate::key_order(rows),
            grid[i],
            crate::evaluate::key_order(rows).len() as int,
        );
    }
}

/// Whether a snapshot is a result of an update under an arithmetic.
pub open spec fn answers<A: Arithmetic>(
    math: &A,
    update: crate::cube::UpdateView,
    snapshot: crate::cube::SnapshotView,
) -> bool {
    exists|grid: Seq<Seq<Option<Slot>>>| #[trigger]
        crate::evaluate::resolves(math, update.rows, update.nodes, grid) && shows(
            update,
            grid,
            snapshot,
        )
}

/// What is wrong with an update after the last completed generation.
pub open spec fn update_fault(last: Option<u64>, update: crate::cube::UpdateView) -> Option<
    crate::cube::CubeErrorView,
> {
    if last matches Some(previous) && update.generation <= previous {
        Some(
            crate::cube::CubeErrorView::StaleGeneration {
                generation: update.generation,
                previous: last->0,
            },
        )
    } else {
        match crate::validation::rows_fault(update.rows, update.rows.len() as int) {
            Some(fault) => Some(fault),
            None => crate::plan::graph_fault(update.nodes),
        }
    }
}

/// Whether two edges are declared the same, their weights taken as numbers.
pub open spec fn same_edge(a: crate::cube::EdgeView, b: crate::cube::EdgeView) -> bool {
    a.node == b.node && a.weight.eq_number(b.weight) && a.required == b.required
}

/// Whether two nodes are declared the same.
pub open spec fn same_node(a: crate::cube::NodeView, b: crate::cube::NodeView) -> bool {
    &&& a.id == b.id
    &&& a.transform == b.transform
    &&& match (a.kind, b.kind) {
        (
            crate::cube::KindView::Field { field: x },
            crate::cube::KindView::Field { field: y },
        ) => x == y,
        (
            crate::cube::KindView::Linear { inputs: x, normalize_weights: m },
            crate::cube::KindView::Linear { inputs: y, normalize_weights: n },
        ) => m == n && x.len() == y.len() && forall|k: int|
            0 <= k < x.len() ==> same_edge(#[trigger] x[k], y[k]),
        _ => false,
    }
}

/// Whether two graphs are declared the same.
pub open spec fn same_graph(
    a: Seq<crate::cube::NodeView>,
    b: Seq<crate::cube::NodeView>,
) -> bool {
    a.len() == b.len() && forall|i: int| 0 <= i < a.len() ==> same_node(#[trigger] a[i], b[i])
}

proof fn lemma_same_seen(
    a: Seq<crate::cube::NodeView>,
    b: Seq<crate::cube::NodeView>,
    n: int,
    id: Seq<char>,
)
    requires
        same_graph(a, b),
        0 <= n <= a.len(),
    ensures
        crate::validation::node_seen(a, n, id) == crate::validation::node_seen(b, n, id),
{
    if crate::validation::node_seen(a, n, id) {
        let j = choose|j: int| 0 <= j < n && (#[trigger] a[j]).id == id;
        assert(same_node(a[j], b[j]));
        assert(b[j].id == id);
    }
    if crate::validation::node_seen(b, n, id) {
        let j = choose|j: int| 0 <= j < n && (#[trigger] b[j]).id == id;
        assert(same_node(a[j], b[j]));
        assert(a[j].id == id);
    }
}

proof fn lemma_same_edges_fault(
    id: Seq<char>,
    x: Seq<crate::cube::EdgeView>,
    y: Seq<crate::cube::EdgeView>,
    n: int,
)
    requires
        x.len() == y.len(),
        forall|k: int| 0 <= k < x.len() ==> same_edge(#[trigger] x[k], y[k]),
        0 <= n <= x.len(),
        crate::validation::edges_fault(id, x, n) is None,
    ensures
        crate::validation::edges_fault(id, y, n) is None,
    decreases n,
{
    if n > 0 {
        lemma_same_edges_fault(id, x, y, n - 1);
        assert(same_edge(x[n - 1], y[n - 1]));
        if crate::validation::edge_seen(y, n - 1, y[n - 1].node) {
            let j = choose|j: int| 0 <= j < n - 1 && (#[trigger] y[j]).node == y[n - 1].node;
            assert(same_edge(x[j], y[j]));
            assert(x[j].node == x[n - 1].node);
            assert(crate::validation::edge_seen(x, n - 1, x[n - 1].node));
        }
    }
}

proof fn lemma_same_declarations(
    a: Seq<crate::cube::NodeView>,
    b: Seq<crate::cube::NodeView>,
    n: int,
)
    requires
        same_graph(a, b),
        0 <= n <= a.len(),
        crate::validation::declarations_fault(a, n) is None,
    ensures
        crate::validation::declarations_fault(b, n) is None,
    decreases n,
{
    if n > 0 {
        lemma_same_declarations(a, b, n - 1);
        let i = n - 1;
        assert(same_node(a[i], b[i]));
        lemma_same_seen(a, b, i, a[i].id);
        match (a[i].kind, b[i].kind) {
            (
                crate::cube::KindView::Linear { inputs: x, .. },
                crate::cube::KindView::Linear { inputs: y, .. },
            ) => {
                lemma_same_edges_fault(a[i].id, x, y, x.len() as int);
            },
            _ => {},
        }
    }
}

proof fn lemma_same_dangling_edge(
    a: Seq<crate::cube::NodeView>,
    b: Seq<crate::cube::NodeView>,
    id: Seq<char>,
    x: Seq<crate::cube::EdgeView>,
    y: Seq<crate::cube::EdgeView>,
    n: int,
)
    requires
        same_graph(a, b),
        x.len() == y.len(),
        forall|k: int| 0 <= k < x.len() ==> same_edge(#[trigger] x[k], y[k]),
        0 <= n <= x.len(),
        crate::validation::dangling_edge(a, id, x, n) is None,
    ensures
        crate::validation::dangling_edge(b, id, y, n) is None,
    decreases n,
{
    if n > 0 {
        lemma_same_dangling_edge(a, b, id, x, y, n - 1);
        assert(same_edge(x[n - 1], y[n - 1]));
        lemma_same_seen(a, b, a.len() as int, x[n - 1].node);
    }
}

proof fn lemma_same_dangling(
    a: Seq<crate::cube::NodeView>,
    b: Seq<crate::cube::NodeView>,
    n: int,
)
    requires
        same_graph(a, b),
        0 <= n <= a.len(),
        crate::validation::dangling_fault(a, n) is None,
    ensures
        crate::validation::dangling_fault(b, n) is None,
    decreases n,
{
    if n > 0 {
        lemma_same_dangling(a, b, n - 1);
        assert(same_node(a[n - 1], b[n - 1]));
        lemma_same_dangling_edge(
            a,
            b,
            a[n - 1].id,
            a[n - 1].edges(),
            b[n - 1].edges(),
            a[n - 1].edges().len() as int,
        );
    }
}

proof fn lemma_same_upstream(
    a: Seq<crate::cube::NodeView>,
    b: Seq<crate::cube::NodeView>,
    i: int,
)
    requires
        same_graph(a, b),
        crate::validation::nodes_fault(a) is None,
        0 <= i < a.len(),
    ensures
        crate::plan::upstream(a, i) == crate::plan::upstream(b, i),
{
    assert(same_node(a[i], b[i]));
    assert(crate::plan::upstream(a, i) =~= crate::plan::upstream(b, i)) by {
        assert forall|k: int| 0 <= k < a[i].edges().len() implies crate::plan::upstream(a, i)[k]
            == crate::plan::upstream(b, i)[k] by {
            assert(same_edge(a[i].edges()[k], b[i].edges()[k]));
            let id = a[i].edges()[k].node;
            lemma_same_seen(a, b, a.len() as int, id);
            if crate::validation::node_seen(a, a.len() as int, id) {
                let p = crate::plan::position(a, id)->0;
                let q = crate::plan::position(b, id)->0;
                assert(same_node(a[q], b[q]));
                assert(a[q].id == id);
                if p < q {
                    crate::validation::lemma_sound_nodes(a, a.len() as int, p, q);
                }
                if q < p {
                    crate::validation::lemma_sound_nodes(a, a.len() as int, q, p);
                }
            }
        }
    }
}

proof fn lemma_same_resolvable(
    a: Seq<crate::cube::NodeView>,
    b: Seq<crate::cube::NodeView>,
    i: int,
    depth: nat,
)
    requires
        same_graph(a, b),
        crate::validation::nodes_fault(a) is None,
        0 <= i < a.len(),
        crate::plan::resolvable(a, i, depth),
    ensures
        crate::plan::resolvable(b, i, depth),
    decreases depth,
{
    lemma_same_upstream(a, b, i);
    assert forall|k: int|
        0 <= k < crate::plan::upstream(b, i).len() && (#[trigger] crate::plan::upstream(
            b,
            i,
        )[k]) is Some implies crate::plan::resolvable(
        b,
        crate::plan::upstream(b, i)[k]->0,
        (depth - 1) as nat,
    ) by {
        assert(crate::plan::upstream(a, i)[k] is Some);
        crate::plan::lemma_position_bounds(a, a[i].edges()[k].node);
        lemma_same_resolvable(a, b, crate::plan::upstream(a, i)[k]->0, (depth - 1) as nat);
    }
}

proof fn lemma_same_unstuck(
    a: Seq<crate::cube::NodeView>,
    b: Seq<crate::cube::NodeView>,
    n: int,
)
    requires
        same_graph(a, b),
        crate::validation::nodes_fault(a) is None,
        crate::plan::stuck(a, a.len() as int).len() == 0,
        0 <= n <= a.len(),
    ensures
        crate::plan::stuck(b, n).len() == 0,
    decreases n,
{
    if n > 0 {
        lemma_same_unstuck(a, b, n - 1);
        crate::plan::lemma_unstuck(a, a.len() as int, n - 1);
        lemma_same_resolvable(a, b, n - 1, a.len());
    }
}

/// A plan for one graph is a plan for every graph that is declared the same.
pub proof fn lemma_plan_reuse(
    plan: ExecutionPlan,
    a: Seq<crate::cube::NodeView>,
    b: Seq<crate::cube::NodeView>,
)
    requires
        plan.plans(a),
        same_graph(a, b),
    ensures
        plan.plans(b),
{
    lemma_same_declarations(a, b, a.len() as int);
    lemma_same_dangling(a, b, a.len() as int);
    lemma_same_unstuck(a, b, a.len() as int);
    assert forall|i: int| 0 <= i < b.len() implies crate::plan::upstream(a, i)
        == crate::plan::upstream(b, i) && a[i].edges().len() == (#[trigger] b[i]).edges().len() by {
        assert(same_node(a[i], b[i]));
        lemma_same_upstream(a, b, i);
    }
    assert(crate::plan::linked(b, plan.dependencies@, b.len() as int)) by {
        assert forall|i: int| 0 <= i < b.len() implies (#[trigger] plan.dependencies@[i])@.len()
            == b[i].edges().len() by {
            assert(plan.dependencies@[i]@.len() == a[i].edges().len());
            assert(a[i].edges().len() == b[i].edges().len());
        }
        assert forall|i: int, k: int| 0 <= i < b.len() && 0 <= k < b[i].edges().len() implies (
        #[trigger] plan.dependencies@[i]@[k]) == crate::plan::pointed(
            crate::plan::position(b, b[i].edges()[k].node),
        ) by {
            assert(a[i].edges().len() == b[i].edges().len());
            assert(crate::plan::upstream(a, i)[k] == crate::plan::position(
                a,
                a[i].edges()[k].node,
            ));
            assert(crate::plan::upstream(b, i)[k] == crate::plan::position(
                b,
                b[i].edges()[k].node,
            ));
            assert(plan.dependencies@[i]@[k] == crate::plan::pointed(
                crate::plan::position(a, a[i].edges()[k].node),
            ));
        }
    }
    let p = crate::order::indexes(plan.order@);
    assert(crate::plan::scheduled(b, p)) by {
        assert forall|x: int, k: int|
            0 <= x < p.len() && 0 <= k < crate::plan::upstream(b, p[x]).len() && (
            #[trigger] crate::plan::upstream(b, p[x])[k]) is Some implies p.take(x).contains(
            crate::plan::upstream(b, p[x])[k]->0,
        ) by {
            assert(0 <= p[x] < b.len());
            assert(a[p[x]].edges().len() == b[p[x]].edges().len());
            assert(crate::plan::upstream(a, p[x]) == crate::plan::upstream(b, p[x]));
            assert(crate::plan::upstream(a, p[x])[k] is Some);
        }
    }
}

fn edges_match(x: &Vec<WeightedInput>, y: &Vec<WeightedInput>) -> (same: bool)
    ensures
        same == (x@.len() == y@.len() && forall|k: int|
            0 <= k < x@.len() ==> same_edge(
                #[trigger] crate::text::views(x@)[k],
                crate::text::views(y@)[k],
            )),
{
    let ghost a = crate::text::views(x@);
    let ghost b = crate::text::views(y@);
    if x.len() != y.len() {
        return false;
    }
    let mut k: usize = 0;
    while k < x.len()
        invariant
            0 <= k <= x@.len(),
            x@.len() == y@.len(),
            a == crate::text::views(x@),
            b == crate::text::views(y@),
            forall|j: int| 0 <= j < k ==> same_edge(#[trigger] a[j], b[j]),
        decreases x@.len() - k,
    {
        assert(a[k as int] == x@[k as int]@ && b[k as int] == y@[k as int]@);
        if !same_text(x[k].node.as_str(), y[k].node.as_str()) || !x[k].weight.equals(y[k].weight)
            || x[k].required != y[k].required {
            assert(!same_edge(a[k as int], b[k as int]));
            return false;
        }
        k = k + 1;
    }
    true
}

fn node_matches(a: &NodeSpec, b: &NodeSpec) -> (same: bool)
    ensures
        same == same_node(a@, b@),
{
    if !same_text(a.id.as_str(), b.id.as_str()) || a.transform != b.transform {
        return false;
    }
    match (&a.kind, &b.kind) {
        (NodeKind::Field { field: x }, NodeKind::Field { field: y }) => same_text(
            x.as_str(),
            y.as_str(),
        ),
        (
            NodeKind::Linear { inputs: x, normalize_weights: m },
            NodeKind::Linear { inputs: y, normalize_weights: n },
        ) => *m == *n && edges_match(x, y),
        _ => false,
    }
}

/// Return whether two graphs are declared the same.
pub fn graphs_match(a: &Vec<NodeSpec>, b: &Vec<NodeSpec>) -> (same: bool)
    ensures
        same == same_graph(crate::text::views(a@), crate::text::views(b@)),
{
    let ghost x = crate::text::views(a@);
    let ghost y = crate::text::views(b@);
    if a.len() != b.len() {
        return false;
    }
    let mut i: usize = 0;
    while i < a.len()
        invariant
            0 <= i <= a@.len(),
            a@.len() == b@.len(),
            x == crate::text::views(a@),
            y == crate::text::views(b@),
            forall|j: int| 0 <= j < i ==> same_node(#[trigger] x[j], y[j]),
        decreases a@.len() - i,
    {
        assert(x[i as int] == a@[i as int]@ && y[i as int] == b@[i as int]@);
        if !node_matches(&a[i], &b[i]) {
            return false;
        }
        i = i + 1;
    }
    true
}

fn push_column(
    cells: &mut Vec<CellValue>,
    id: &String,
    rows: &Vec<InputRow>,
    keyed: &Vec<usize>,
    column: &Vec<Option<Slot>>,
) -> (count: usize)
    requires
        forall|a: int| 0 <= a < keyed@.len() ==> (#[trigger] keyed@[a]) < rows@.len(),
        column@.len() == rows@.len(),
    ensures
        crate::text::views(final(cells)@) == crate::text::views(old(cells)@) + column_cells(
            id@,
            crate::text::views(rows@),
            crate::order::indexes(keyed@),
            column@,
            keyed@.len() as int,
        ),
        count == column_cells(
            id@,
            crate::text::views(rows@),
            crate::order::indexes(keyed@),
            column@,
            keyed@.len() as int,
        ).len(),
        count <= keyed@.len(),
{
    let ghost before = crate::text::views(cells@);
    let ghost sheet = crate::text::views(rows@);
    let ghost p = crate::order::indexes(keyed@);
    let mut count: usize = 0;
    let mut a: usize = 0;
    assert(crate::text::views(cells@) =~= before + column_cells(id@, sheet, p, column@, 0));
    while a < keyed.len()
        invariant
            0 <= a <= keyed@.len(),
            count <= a,
            sheet == crate::text::views(rows@),
            p == crate::order::indexes(keyed@),
            forall|b: int| 0 <= b < keyed@.len() ==> (#[trigger] keyed@[b]) < rows@.len(),
            column@.len() == rows@.len(),
            crate::text::views(cells@) == before + column_cells(id@, sheet, p, column@, a as int),
            count == column_cells(id@, sheet, p, column@, a as int).len(),
        decreases keyed@.len() - a,
    {
        let r: usize = keyed[a];
        assert(p[a as int] == r);
        match column[r] {
            Some(slot) => {
                let ghost was = cells@;
                let cell = CellValue {
                    node: id.clone(),
                    key: rows[r].key.clone(),
                    value: slot.value,
                    observed_at_ms: slot.observed_at_ms,
                };
                let ghost view = cell@;
                cells.push(cell);
                count = count + 1;
                proof {
                    assert(crate::text::views(cells@) =~= crate::text::views(was).push(view));
                    assert(sheet[r as int] == rows@[r as int]@);
                    assert(crate::text::views(cells@) =~= before + column_cells(
                        id@,
                        sheet,
                        p,
                        column@,
                        a + 1,
                    ));
                }
            },
            None => {},
        }
        a = a + 1;
    }
    count
}

/// Build the snapshot of a grid.
pub fn snapshot_of(
    update: &Update,
    keyed: &Vec<usize>,
    grid: &Vec<Vec<Option<Slot>>>,
    micros: &Vec<u64>,
) -> (snapshot: Snapshot)
    requires
        grid@.len() == update.nodes@.len(),
        micros@.len() == update.nodes@.len(),
        forall|i: int| 0 <= i < grid@.len() ==> (#[trigger] grid@[i])@.len() == update.rows@.len(),
        crate::order::indexes(keyed@) == crate::evaluate::key_order(update@.rows),
        crate::evaluate::orders(crate::order::indexes(keyed@), update.rows@.len()),
    ensures
        shows(update@, crate::evaluate::columns(grid@), snapshot@),
        forall|i: int|
            0 <= i < update.nodes@.len() ==> (#[trigger] snapshot@.statuses[i]).compute_micros
                == micros@[i],
{
    let ghost sheet = update@.rows;
    let ghost nodes = update@.nodes;
    let ghost cols = crate::evaluate::columns(grid@);
    let ghost p = crate::order::indexes(keyed@);
    let mut values: Vec<CellValue> = Vec::new();
    let mut statuses: Vec<NodeStatus> = Vec::new();
    let mut i: usize = 0;
    assert(crate::text::views(values@) =~= grid_cells(sheet, nodes, cols, 0));
    assert forall|a: int| 0 <= a < keyed@.len() implies (#[trigger] keyed@[a])
        < update.rows@.len() by {
        assert(p[a] == keyed@[a]);
    }
    while i < update.nodes.len()
        invariant
            0 <= i <= update.nodes@.len(),
            sheet == update@.rows,
            nodes == update@.nodes,
            cols == crate::evaluate::columns(grid@),
            p == crate::order::indexes(keyed@),
            p == crate::evaluate::key_order(sheet),
            keyed@.len() == update.rows@.len(),
            grid@.len() == update.nodes@.len(),
            micros@.len() == update.nodes@.len(),
            forall|k: int|
                0 <= k < grid@.len() ==> (#[trigger] grid@[k])@.len() == update.rows@.len(),
            forall|a: int| 0 <= a < keyed@.len() ==> (#[trigger] keyed@[a]) < update.rows@.len(),
            crate::text::views(values@) == grid_cells(sheet, nodes, cols, i as int),
            statuses@.len() == i,
            forall|k: int|
                0 <= k < i ==> {
                    &&& (#[trigger] statuses@[k])@.node == nodes[k].id
                    &&& statuses@[k].values == node_cells(sheet, nodes, cols, k).len()
                    &&& statuses@[k].missing == sheet.len() - node_cells(
                        sheet,
                        nodes,
                        cols,
                        k,
                    ).len()
                    &&& statuses@[k].compute_micros == micros@[k]
                },
        decreases update.nodes@.len() - i,
    {
        let node = &update.nodes[i];
        assert(nodes[i as int] == node@);
        assert(cols[i as int] == grid@[i as int]@);
        let count: usize = push_column(&mut values, &node.id, &update.rows, keyed, &grid[i]);
        assert(crate::text::views(values@) =~= grid_cells(sheet, nodes, cols, i + 1));
        statuses.push(
            NodeStatus {
                node: node.id.clone(),
                values: count,
                missing: update.rows.len() - count,
                compute_micros: micros[i],
            },
        );
        i = i + 1;
    }
    let snapshot = Snapshot {
        generation: update.generation,
        observed_at_ms: update.observed_at_ms,
        mode: update.mode,
        entity_count: update.rows.len(),
        values,
        statuses,
    };
    assert forall|k: int| 0 <= k < nodes.len() implies {
        &&& (#[trigger] snapshot@.statuses[k]).node == nodes[k].id
        &&& snapshot@.statuses[k].values == node_cells(sheet, nodes, cols, k).len()
        &&& snapshot@.statuses[k].missing == sheet.len() - node_cells(sheet, nodes, cols, k).len()
        &&& snapshot@.statuses[k].compute_micros == micros@[k]
    } by {
        assert(snapshot@.statuses[k] == snapshot.statuses@[k]@);
    }
    snapshot
}

/// Stateful generation guard around the otherwise pure node evaluator.
#[derive(Debug)]
pub struct HypercubeEngine {
    last_generation: Option<u64>,
    cached_plan: Option<ExecutionPlan>,
    graph_compilations: u64,
}

impl Default for HypercubeEngine {
    fn default() -> (engine: Self)
        ensures
            engine.generation() is None,
            engine.planned() is None,
            engine.compilations() == 0,
    {
        HypercubeEngine { last_generation: None, cached_plan: None, graph_compilations: 0 }
    }
}

impl HypercubeEngine {
    #[verifier::type_invariant]
    spec fn well_formed(self) -> bool {
        self.cached_plan matches Some(plan) ==> plan.plans(crate::text::views(plan.nodes@))
    }

    /// The last successfully completed generation.
    pub closed spec fn generation(self) -> Option<u64> {
        self.last_generation
    }

    /// The graph whose plan is kept.
    pub closed spec fn planned(self) -> Option<Seq<crate::cube::NodeView>> {
        match self.cached_plan {
            Some(plan) => Some(crate::text::views(plan.nodes@)),
            None => None,
        }
    }

    /// Number of graph plans compiled so far.
    pub closed spec fn compilations(self) -> u64 {
        self.graph_compilations
    }

    /// Whether the kept plan serves a graph.
    pub open spec fn serves(self, nodes: Seq<crate::cube::NodeView>) -> bool {
        self.planned() matches Some(planned) && same_graph(planned, nodes)
    }

    /// Construct an engine with no previously accepted generation.
    pub fn new() -> (engine: Self)
        ensures
            engine.generation() is None,
            engine.planned() is None,
            engine.compilations() == 0,
    {
        HypercubeEngine { last_generation: None, cached_plan: None, graph_compilations: 0 }
    }

    /// Return the last successfully completed generation.
    pub fn last_generation(&self) -> (generation: Option<u64>)
        ensures
            generation == self.generation(),
    {
        self.last_generation
    }

    /// Return the number of graph plans compiled by this engine.
    ///
    /// A stable [`Update::nodes`] declaration is compiled once and reused by
    /// later generations. Changing any node declaration compiles a new plan.
    pub fn graph_compilations(&self) -> (compilations: u64)
        ensures
            compilations == self.compilations(),
    {
        self.graph_compilations
    }

    /// What an update does to the engine: a failed one changes nothing, a
    /// successful one completes its generation and keeps a plan for its graph.
    pub open spec fn updated(self, after: Self, update: crate::cube::UpdateView) -> bool {
        if update_fault(self.generation(), update) is Some {
            &&& after.generation() == self.generation()
            &&& after.planned() == self.planned()
            &&& after.compilations() == self.compilations()
        } else {
            &&& after.generation() == Some(update.generation)
            &&& if self.serves(update.nodes) {
                &&& after.planned() == self.planned()
                &&& after.compilations() == self.compilations()
            } else {
                &&& after.planned() == Some(update.nodes)
                &&& after.compilations() == if self.compilations() < u64::MAX {
                    (self.compilations() + 1) as u64
                } else {
                    u64::MAX
                }
            }
        }
    }

    /// Validate and evaluate one complete update.
    ///
    /// A failed update leaves [`Self::last_generation`] unchanged.
    pub fn update<A: Arithmetic>(&mut self, update: Update, math: &A) -> (result: CubeResult<
        Snapshot,
    >)
        ensures
            crate::validation::reports(result, update_fault(old(self).generation(), update@)),
            result matches Ok(snapshot) ==> answers(math, update@, snapshot@) && finite_cells(
                snapshot@.values,
            ),
            old(self).updated(*final(self), update@),
    {
        self.update_ref(&update, math)
    }

    /// Validate and evaluate one complete update without taking ownership.
    ///
    /// This is useful when the caller also needs to persist the accepted input
    /// for deterministic replay. A failed update leaves
    /// [`Self::last_generation`] unchanged.
    pub fn update_ref<A: Arithmetic>(&mut self, update: &Update, math: &A) -> (result: CubeResult<
        Snapshot,
    >)
        ensures
            crate::validation::reports(result, update_fault(old(self).generation(), update@)),
            result matches Ok(snapshot) ==> answers(math, update@, snapshot@) && finite_cells(
                snapshot@.values,
            ),
            old(self).updated(*final(self), update@),
    {
        proof {
            use_type_invariant(&*self);
        }
        match self.last_generation {
            Some(previous) => {
                if update.generation <= previous {
                    return Err(
                        CubeError::StaleGeneration { generation: update.generation, previous },
                    );
                }
            },
            None => {},
        }
        match validate_rows(&update.rows) {
            Ok(()) => {},
            Err(fault) => {
                return Err(fault);
            },
        }
        let keyed = rows_by_key(&update.rows);
        let served: bool = match &self.cached_plan {
            Some(plan) => graphs_match(&plan.nodes, &update.nodes),
            None => false,
        };
        if !served {
            let plan = match ExecutionPlan::compile(&update.nodes) {
                Ok(plan) => plan,
                Err(fault) => {
                    return Err(fault);
                },
            };
            self.cached_plan = Some(plan);
            self.graph_compilations = self.graph_compilations.saturating_add(1);
        }
        let (grid, micros) = match &self.cached_plan {
            Some(plan) => {
                proof {
                    if served {
                        lemma_plan_reuse(*plan, crate::text::views(plan.nodes@), update@.nodes);
                    }
                }
                resolved_grid(math, &update.rows, &update.nodes, plan, &keyed)
            },
            None => {
                assert(false);
                (Vec::new(), Vec::new())
            },
        };
        assert forall|i: int| 0 <= i < grid@.len() implies (#[trigger] grid@[i])@.len()
            == update.rows@.len() by {
            assert(crate::evaluate::columns(grid@)[i] == grid@[i]@);
        }
        let snapshot = snapshot_of(update, &keyed, &grid, &micros);
        self.last_generation = Some(update.generation);
        assert(crate::evaluate::resolves(
            math,
            update@.rows,
            update@.nodes,
            crate::evaluate::columns(grid@),
        ));
        proof {
            lemma_grid_finite(
                math,
                update@.rows,
                update@.nodes,
                crate::evaluate::columns(grid@),
                update.nodes@.len() as int,
            );
        }
        Ok(snapshot)
    }
}

/// Evaluating one update twice gives the same values and counts, whatever the
/// mode and however long each evaluation took, under an arithmetic whose
/// operations each give one result.
pub proof fn lemma_evaluation_deterministic<A: Arithmetic>(
    math: &A,
    first: crate::cube::UpdateView,
    second: crate::cube::UpdateView,
    a: crate::cube::SnapshotView,
    b: crate::cube::SnapshotView,
)
    requires
        crate::number::deterministic(math),
        first.rows == second.rows,
        first.nodes == second.nodes,
        crate::plan::graph_fault(first.nodes) is None,
        answers(math, first, a),
        answers(math, second, b),
    ensures
        a.values == b.values,
        a.entity_count == b.entity_count,
        a.statuses.len() == b.statuses.len(),
        forall|i: int|
            0 <= i < a.statuses.len() ==> {
                &&& (#[trigger] a.statuses[i]).node == b.statuses[i].node
                &&& a.statuses[i].values == b.statuses[i].values
                &&& a.statuses[i].missing == b.statuses[i].missing
            },
{
    let x = choose|grid: Seq<Seq<Option<Slot>>>| #[trigger]
        crate::evaluate::resolves(math, first.rows, first.nodes, grid) && shows(first, grid, a);
    let y = choose|grid: Seq<Seq<Option<Slot>>>| #[trigger]
        crate::evaluate::resolves(math, second.rows, second.nodes, grid) && shows(
            second,
            grid,
            b,
        );
    crate::evaluate::lemma_grid_unique(math, first.rows, first.nodes, x, y);
    assert forall|i: int| 0 <= i < a.statuses.len() implies {
        &&& (#[trigger] a.statuses[i]).node == b.statuses[i].node
        &&& a.statuses[i].values == b.statuses[i].values
        &&& a.statuses[i].missing == b.statuses[i].missing
    } by {
        assert(b.statuses[i].node == second.nodes[i].id);
    }
}

proof fn lemma_value_at_joined(
    a: Seq<crate::cube::CellView>,
    b: Seq<crate::cube::CellView>,
    node: Seq<char>,
    key: Seq<char>,
)
    ensures
        crate::cube::value_at(a + b, node, key) == match crate::cube::value_at(a, node, key) {
            Some(value) => Some(value),
            None => crate::cube::value_at(b, node, key),
        },
    decreases a.len(),
{
    if a.len() == 0 {
        assert(a + b =~= b);
    } else {
        assert((a + b).drop_first() =~= a.drop_first() + b);
        lemma_value_at_joined(a.drop_first(), b, node, key);
    }
}

/// Whether every cell is of a node.
spec fn all_of_node(cells: Seq<crate::cube::CellView>, id: Seq<char>) -> bool {
    forall|k: int| 0 <= k < cells.len() ==> (#[trigger] cells[k]).node == id
}

proof fn lemma_column_nodes(
    id: Seq<char>,
    rows: Seq<crate::cube::RowView>,
    order: Seq<int>,
    column: Seq<Option<Slot>>,
    n: int,
)
    ensures
        all_of_node(column_cells(id, rows, order, column, n), id),
    decreases n,
{
    if n > 0 {
        lemma_column_nodes(id, rows, order, column, n - 1);
    }
}

proof fn lemma_value_elsewhere(
    cells: Seq<crate::cube::CellView>,
    id: Seq<char>,
    node: Seq<char>,
    key: Seq<char>,
)
    requires
        id != node,
        all_of_node(cells, id),
    ensures
        crate::cube::value_at(cells, node, key) is None,
    decreases cells.len(),
{
    if cells.len() > 0 {
        assert(cells[0].node == id);
        lemma_value_elsewhere(cells.drop_first(), id, node, key);
    }
}

/// The value of a column at a row.
pub open spec fn slot_value(slot: Option<Slot>) -> Option<crate::number::Double> {
    match slot {
        Some(slot) => Some(slot.value),
        None => None,
    }
}

proof fn lemma_column_value(
    id: Seq<char>,
    rows: Seq<crate::cube::RowView>,
    order: Seq<int>,
    column: Seq<Option<Slot>>,
    n: int,
    r: int,
)
    requires
        crate::validation::rows_fault(rows, rows.len() as int) is None,
        0 <= n <= order.len(),
        0 <= r < rows.len(),
        crate::evaluate::orders(order, rows.len()),
    ensures
        crate::cube::value_at(column_cells(id, rows, order, column, n), id, rows[r].key)
            == if order.take(n).contains(r) {
            slot_value(column[r])
        } else {
            None
        },
    decreases n,
{
    let cells = column_cells(id, rows, order, column, n);
    if n <= 0 {
        assert(order.take(n) =~= Seq::empty());
    } else {
        let before = column_cells(id, rows, order, column, n - 1);
        lemma_column_value(id, rows, order, column, n - 1, r);
        let x = order[n - 1];
        let taken = order.take(n - 1);
        assert(order.take(n) =~= taken.push(x));
        assert(order.take(n).contains(r) <==> taken.contains(r) || x == r) by {
            if taken.contains(r) {
                let a = choose|a: int| 0 <= a < taken.len() && taken[a] == r;
                assert(order.take(n)[a] == r);
            }
            if x == r {
                assert(order.take(n)[n - 1] == r);
            }
        }
        assert(!taken.contains(x)) by {
            if taken.contains(x) {
                let a = choose|a: int| 0 <= a < taken.len() && taken[a] == x;
                assert(order[a] == order[n - 1]);
            }
        }
        if x != r {
            if x < r {
                crate::validation::lemma_sound_rows(rows, rows.len() as int, x, r);
            } else {
                crate::validation::lemma_sound_rows(rows, rows.len() as int, r, x);
            }
        }
        match column[x] {
            Some(slot) => {
                let cell = crate::cube::CellView {
                    node: id,
                    key: rows[x].key,
                    value: slot.value,
                    observed_at_ms: slot.observed_at_ms,
                };
                let last = seq![cell];
                assert(cells =~= before + last);
                lemma_value_at_joined(before, last, id, rows[r].key);
                assert(last.drop_first() =~= Seq::empty());
                assert(crate::cube::value_at(last.drop_first(), id, rows[r].key) is None);
            },
            None => {},
        }
    }
}

proof fn lemma_grid_value(
    rows: Seq<crate::cube::RowView>,
    nodes: Seq<crate::cube::NodeView>,
    grid: Seq<Seq<Option<Slot>>>,
    n: int,
    i: int,
    r: int,
)
    requires
        crate::validation::rows_fault(rows, rows.len() as int) is None,
        crate::validation::declarations_fault(nodes, nodes.len() as int) is None,
        0 <= n <= nodes.len(),
        0 <= i < nodes.len(),
        0 <= r < rows.len(),
    ensures
        crate::cube::value_at(grid_cells(rows, nodes, grid, n), nodes[i].id, rows[r].key) == if i
            < n {
            slot_value(grid[i][r])
        } else {
            None
        },
        crate::cube::cells_of(grid_cells(rows, nodes, grid, n), nodes[i].id) == if i < n {
            node_cells(rows, nodes, grid, i)
        } else {
            Seq::empty()
        },
    decreases n,
{
    let wanted = |cell: crate::cube::CellView| cell.node == nodes[i].id;
    let order = crate::evaluate::key_order(rows);
    crate::evaluate::lemma_key_order(rows);
    if n > 0 {
        let before = grid_cells(rows, nodes, grid, n - 1);
        let last = node_cells(rows, nodes, grid, n - 1);
        lemma_grid_value(rows, nodes, grid, n - 1, i, r);
        lemma_column_nodes(nodes[n - 1].id, rows, order, grid[n - 1], order.len() as int);
        lemma_value_at_joined(before, last, nodes[i].id, rows[r].key);
        Seq::filter_distributes_over_add(before, last, wanted);
        if i == n - 1 {
            lemma_column_value(nodes[i].id, rows, order, grid[i], order.len() as int, r);
            assert(order.take(order.len() as int) =~= order);
            assert(order.contains(r));
            lemma_filter_all(last, wanted);
            assert(Seq::<crate::cube::CellView>::empty() + last =~= last);
        } else {
            if i < n - 1 {
                crate::validation::lemma_sound_nodes(nodes, nodes.len() as int, i, n - 1);
            } else {
                crate::validation::lemma_sound_nodes(nodes, nodes.len() as int, n - 1, i);
            }
            lemma_value_elsewhere(last, nodes[n - 1].id, nodes[i].id, rows[r].key);
            lemma_filter_none(last, wanted);
            assert(before.filter(wanted) + Seq::<crate::cube::CellView>::empty() =~= before.filter(
                wanted,
            ));
        }
    } else {
        reveal(Seq::filter);
    }
}

proof fn lemma_filter_all(
    cells: Seq<crate::cube::CellView>,
    wanted: spec_fn(crate::cube::CellView) -> bool,
)
    requires
        forall|k: int| 0 <= k < cells.len() ==> wanted(#[trigger] cells[k]),
    ensures
        cells.filter(wanted) == cells,
    decreases cells.len(),
{
    reveal(Seq::filter);
    if cells.len() > 0 {
        lemma_filter_all(cells.drop_last(), wanted);
        assert(cells =~= cells.drop_last().push(cells.last()));
        assert(cells[cells.len() - 1] == cells.last());
    } else {
        assert(cells.filter(wanted) =~= cells);
    }
}

proof fn lemma_filter_none(
    cells: Seq<crate::cube::CellView>,
    wanted: spec_fn(crate::cube::CellView) -> bool,
)
    requires
        forall|k: int| 0 <= k < cells.len() ==> !wanted(#[trigger] cells[k]),
    ensures
        cells.filter(wanted) == Seq::<crate::cube::CellView>::empty(),
    decreases cells.len(),
{
    reveal(Seq::filter);
    if cells.len() > 0 {
        lemma_filter_none(cells.drop_last(), wanted);
        assert(cells[cells.len() - 1] == cells.last());
    } else {
        assert(cells.filter(wanted) =~= Seq::empty());
    }
}

/// The coordinates of a snapshot: selecting a node gives that node's
/// cross-section in dictionary order of the keys, and a node and a key select
/// the value that the node gave for that entity, if it gave one.
pub proof fn lemma_snapshot_coordinates(
    update: crate::cube::UpdateView,
    grid: Seq<Seq<Option<Slot>>>,
    snapshot: crate::cube::SnapshotView,
    i: int,
    r: int,
)
    requires
        update_fault(None, update) is None,
        shows(update, grid, snapshot),
        0 <= i < update.nodes.len(),
        0 <= r < update.rows.len(),
    ensures
        crate::cube::cells_of(snapshot.values, update.nodes[i].id) == node_cells(
            update.rows,
            update.nodes,
            grid,
            i,
        ),
        crate::cube::value_at(snapshot.values, update.nodes[i].id, update.rows[r].key)
            == slot_value(grid[i][r]),
{
    lemma_grid_value(update.rows, update.nodes, grid, update.nodes.len() as int, i, r);
}

proof fn lemma_node_cross_section(
    rows: Seq<crate::cube::RowView>,
    nodes: Seq<crate::cube::NodeView>,
    grid: Seq<Seq<Option<Slot>>>,
    n: int,
    id: Seq<char>,
)
    requires
        crate::validation::declarations_fault(nodes, nodes.len() as int) is None,
        0 <= n <= nodes.len(),
    ensures
        forall|i: int|
            0 <= i < n && (#[trigger] nodes[i]).id == id ==> crate::cube::cells_of(
                grid_cells(rows, nodes, grid, n),
                id,
            ) == node_cells(rows, nodes, grid, i),
        (forall|i: int| 0 <= i < n ==> (#[trigger] nodes[i]).id != id) ==> crate::cube::cells_of(
            grid_cells(rows, nodes, grid, n),
            id,
        ) == Seq::<crate::cube::CellView>::empty(),
    decreases n,
{
    let wanted = |cell: crate::cube::CellView| cell.node == id;
    let order = crate::evaluate::key_order(rows);
    if n > 0 {
        let before = grid_cells(rows, nodes, grid, n - 1);
        let last = node_cells(rows, nodes, grid, n - 1);
        lemma_node_cross_section(rows, nodes, grid, n - 1, id);
        lemma_column_nodes(nodes[n - 1].id, rows, order, grid[n - 1], order.len() as int);
        Seq::filter_distributes_over_add(before, last, wanted);
        if nodes[n - 1].id == id {
            lemma_filter_all(last, wanted);
            assert forall|i: int| 0 <= i < n - 1 implies (#[trigger] nodes[i]).id != id by {
                crate::validation::lemma_sound_nodes(nodes, nodes.len() as int, i, n - 1);
            }
            assert(Seq::<crate::cube::CellView>::empty() + last =~= last);
        } else {
            lemma_filter_none(last, wanted);
            assert(before.filter(wanted) + Seq::<crate::cube::CellView>::empty() =~= before.filter(
                wanted,
            ));
        }
    } else {
        reveal(Seq::filter);
    }
}

/// Neither the order in which nodes are declared, nor the mode, nor what an
/// engine accepted before, influences a value: updates with the same rows and
/// the same nodes in whatever order give every node the same cross-section,
/// under an arithmetic whose operations each give one result.
pub proof fn lemma_declaration_order_is_free<A: Arithmetic>(
    math: &A,
    first: crate::cube::UpdateView,
    second: crate::cube::UpdateView,
    a: crate::cube::SnapshotView,
    b: crate::cube::SnapshotView,
    id: Seq<char>,
)
    requires
        crate::number::deterministic(math),
        first.rows == second.rows,
        crate::evaluate::same_declarations(first.nodes, second.nodes),
        crate::plan::graph_fault(first.nodes) is None,
        crate::plan::graph_fault(second.nodes) is None,
        answers(math, first, a),
        answers(math, second, b),
    ensures
        crate::cube::cells_of(a.values, id) == crate::cube::cells_of(b.values, id),
{
    let x = choose|grid: Seq<Seq<Option<Slot>>>| #[trigger]
        crate::evaluate::resolves(math, first.rows, first.nodes, grid) && shows(first, grid, a);
    let y = choose|grid: Seq<Seq<Option<Slot>>>| #[trigger]
        crate::evaluate::resolves(math, second.rows, second.nodes, grid) && shows(
            second,
            grid,
            b,
        );
    let n = first.nodes.len() as int;
    let m = second.nodes.len() as int;
    lemma_node_cross_section(first.rows, first.nodes, x, n, id);
    lemma_node_cross_section(second.rows, second.nodes, y, m, id);
    if exists|i: int| 0 <= i < n && (#[trigger] first.nodes[i]).id == id {
        let i = choose|i: int| 0 <= i < n && (#[trigger] first.nodes[i]).id == id;
        let j = crate::evaluate::lemma_column_ignores_declaration_order(
            math,
            first.rows,
            first.nodes,
            second.nodes,
            x,
            y,
            i,
        );
        assert(second.nodes[j].id == id);
    } else {
        assert forall|j: int| 0 <= j < m implies (#[trigger] second.nodes[j]).id != id by {
            let i = crate::evaluate::lemma_column_ignores_declaration_order(
                math,
                second.rows,
                second.nodes,
                first.nodes,
                y,
                x,
                j,
            );
            assert(first.nodes[i].id == second.nodes[j].id);
        }
    }
}

/// Whether a cell bears the key and the time of a row.
pub open spec fn cell_of_row(cell: crate::cube::CellView, row: crate::cube::RowView) -> bool {
    cell.key == row.key && cell.observed_at_ms == row.observed_at_ms
}

/// Whether every cell bears the key and the time of some row.
pub open spec fn cells_of_rows(
    cells: Seq<crate::cube::CellView>,
    rows: Seq<crate::cube::RowView>,
) -> bool {
    forall|k: int|
        0 <= k < cells.len() ==> exists|r: int|
            0 <= r < rows.len() && cell_of_row(#[trigger] cells[k], #[trigger] rows[r])
}

proof fn lemma_column_cell_times(
    id: Seq<char>,
    rows: Seq<crate::cube::RowView>,
    order: Seq<int>,
    column: Seq<Option<Slot>>,
    n: int,
)
    requires
        crate::evaluate::timed_by_rows(rows, column),
        column.len() == rows.len(),
        n <= order.len(),
        forall|a: int| 0 <= a < order.len() ==> 0 <= #[trigger] order[a] < rows.len(),
    ensures
        cells_of_rows(column_cells(id, rows, order, column, n), rows),
    decreases n,
{
    if n > 0 {
        lemma_column_cell_times(id, rows, order, column, n - 1);
        let before = column_cells(id, rows, order, column, n - 1);
        let now = column_cells(id, rows, order, column, n);
        let x = order[n - 1];
        assert forall|k: int| 0 <= k < now.len() implies exists|r: int|
            0 <= r < rows.len() && cell_of_row(#[trigger] now[k], #[trigger] rows[r]) by {
            if k < before.len() {
                assert(now[k] == before[k]);
                let r = choose|r: int|
                    0 <= r < rows.len() && cell_of_row(before[k], #[trigger] rows[r]);
                assert(cell_of_row(now[k], rows[r]));
            } else {
                assert(column[x] is Some);
                assert(cell_of_row(now[k], rows[x]));
            }
        }
    }
}

proof fn lemma_grid_cell_times<A: Arithmetic>(
    math: &A,
    rows: Seq<crate::cube::RowView>,
    nodes: Seq<crate::cube::NodeView>,
    grid: Seq<Seq<Option<Slot>>>,
    n: int,
)
    requires
        crate::plan::graph_fault(nodes) is None,
        crate::evaluate::resolves(math, rows, nodes, grid),
        n <= nodes.len(),
    ensures
        cells_of_rows(grid_cells(rows, nodes, grid, n), rows),
    decreases n,
{
    if n > 0 {
        lemma_grid_cell_times(math, rows, nodes, grid, n - 1);
        let order = crate::evaluate::key_order(rows);
        crate::evaluate::lemma_key_order(rows);
        crate::evaluate::lemma_values_bear_row_times(math, rows, nodes, grid, n - 1);
        assert(grid[n - 1].len() == rows.len());
        lemma_column_cell_times(nodes[n - 1].id, rows, order, grid[n - 1], order.len() as int);
        let before = grid_cells(rows, nodes, grid, n - 1);
        let last = node_cells(rows, nodes, grid, n - 1);
        let now = grid_cells(rows, nodes, grid, n);
        assert forall|k: int| 0 <= k < now.len() implies exists|r: int|
            0 <= r < rows.len() && cell_of_row(#[trigger] now[k], #[trigger] rows[r]) by {
            if k < before.len() {
                assert(now[k] == before[k]);
            } else {
                assert(now[k] == last[k - before.len()]);
            }
        }
    }
}

/// The time of a cell is the time of the row with its key.
pub proof fn lemma_cells_bear_row_times<A: Arithmetic>(
    math: &A,
    update: crate::cube::UpdateView,
    snapshot: crate::cube::SnapshotView,
    k: int,
    r: int,
)
    requires
        update_fault(None, update) is None,
        answers(math, update, snapshot),
        0 <= k < snapshot.values.len(),
        0 <= r < update.rows.len(),
        snapshot.values[k].key == update.rows[r].key,
    ensures
        snapshot.values[k].observed_at_ms == update.rows[r].observed_at_ms,
{
    let rows = update.rows;
    let grid = choose|grid: Seq<Seq<Option<Slot>>>| #[trigger]
        crate::evaluate::resolves(math, update.rows, update.nodes, grid) && shows(
            update,
            grid,
            snapshot,
        );
    lemma_grid_cell_times(math, rows, update.nodes, grid, update.nodes.len() as int);
    let q = choose|q: int|
        0 <= q < rows.len() && cell_of_row(snapshot.values[k], #[trigger] rows[q]);
    assert(cell_of_row(snapshot.values[k], rows[q]));
    if q < r {
        crate::validation::lemma_sound_rows(rows, rows.len() as int, q, r);
    } else if r < q {
        crate::validation::lemma_sound_rows(rows, rows.len() as int, r, q);
    }
}

proof fn lemma_undeclared_node_shows_nothing(
    rows: Seq<crate::cube::RowView>,
    nodes: Seq<crate::cube::NodeView>,
    grid: Seq<Seq<Option<Slot>>>,
    id: Seq<char>,
    key: Seq<char>,
)
    requires
        crate::validation::declarations_fault(nodes, nodes.len() as int) is None,
        forall|i: int| 0 <= i < nodes.len() ==> (#[trigger] nodes[i]).id != id,
    ensures
        crate::cube::value_at(grid_cells(rows, nodes, grid, nodes.len() as int), id, key) is None,
{
    let cells = grid_cells(rows, nodes, grid, nodes.len() as int);
    lemma_node_cross_section(rows, nodes, grid, nodes.len() as int, id);
    let wanted = |cell: crate::cube::CellView| cell.node == id;
    assert forall|k: int| 0 <= k < cells.len() implies (#[trigger] cells[k]).node != id by {
        broadcast use vstd::seq_lib::group_filter_ensures;

        if cells[k].node == id {
            assert(wanted(cells[k]));
            assert(cells.filter(wanted).contains(cells[k]));
        }
    }
    lemma_no_cell_no_value(cells, id, key);
}

proof fn lemma_no_cell_no_value(
    cells: Seq<crate::cube::CellView>,
    id: Seq<char>,
    key: Seq<char>,
)
    requires
        forall|k: int| 0 <= k < cells.len() ==> (#[trigger] cells[k]).node != id,
    ensures
        crate::cube::value_at(cells, id, key) is None,
    decreases cells.len(),
{
    if cells.len() > 0 {
        assert(cells[0].node != id);
        assert forall|k: int| 0 <= k < cells.drop_first().len() implies (
        #[trigger] cells.drop_first()[k]).node != id by {
            assert(cells.drop_first()[k] == cells[k + 1]);
        }
        lemma_no_cell_no_value(cells.drop_first(), id, key);
    }
}

/// The value that a snapshot shows for a node and a row.
pub open spec fn shown_value(
    snapshot: crate::cube::SnapshotView,
    node: Seq<char>,
    rows: Seq<crate::cube::RowView>,
) -> spec_fn(int) -> Option<crate::number::Double> {
    |r: int| crate::cube::value_at(snapshot.values, node, rows[r].key)
}

/// The finite value of a field in a row, if there is one.
pub open spec fn given_value(
    rows: Seq<crate::cube::RowView>,
    field: Seq<char>,
) -> spec_fn(int) -> Option<crate::number::Double> {
    |r: int|
        match crate::table::found(rows[r].fields, field) {
            Some(value) => if value.finite() {
                Some(value)
            } else {
                None
            },
            None => None,
        }
}

proof fn lemma_shown_is_slot(
    update: crate::cube::UpdateView,
    grid: Seq<Seq<Option<Slot>>>,
    snapshot: crate::cube::SnapshotView,
    i: int,
)
    requires
        update_fault(None, update) is None,
        shows(update, grid, snapshot),
        0 <= i < update.nodes.len(),
    ensures
        forall|r: int|
            0 <= r < update.rows.len() ==> #[trigger] (shown_value(
                snapshot,
                update.nodes[i].id,
                update.rows,
            ))(r) == crate::evaluate::value_in(grid[i][r]),
{
    assert forall|r: int| 0 <= r < update.rows.len() implies #[trigger] (shown_value(
        snapshot,
        update.nodes[i].id,
        update.rows,
    ))(r) == crate::evaluate::value_in(grid[i][r]) by {
        lemma_snapshot_coordinates(update, grid, snapshot, i, r);
    }
}

proof fn lemma_transformed_alike<A: Arithmetic>(
    math: &A,
    transform: crate::cube::Transform,
    order: Seq<int>,
    raw: spec_fn(int) -> Option<crate::number::Double>,
    out: spec_fn(int) -> Option<crate::number::Double>,
    given: spec_fn(int) -> Option<crate::number::Double>,
    shown: spec_fn(int) -> Option<crate::number::Double>,
    n: int,
)
    requires
        crate::evaluate::shows_transformed(math, transform, order, raw, out, n),
        forall|r: int| 0 <= r < n ==> #[trigger] given(r) == raw(r),
        forall|r: int| 0 <= r < n ==> #[trigger] shown(r) == out(r),
    ensures
        crate::evaluate::shows_transformed(math, transform, order, given, shown, n),
{
    let a = Seq::new(order.len(), |i: int| raw(order[i])->0);
    let b = Seq::new(order.len(), |i: int| given(order[i])->0);
    assert forall|i: int| 0 <= i < order.len() implies #[trigger] a[i] == b[i] by {
        assert(given(order[i]) == raw(order[i]));
    }
    assert(a =~= b);
    assert forall|r: int| 0 <= r < n implies #[trigger] order.contains(r) == (given(r) is Some) by {
        assert(given(r) == raw(r));
    }
    assert forall|r: int| 0 <= r < n && given(r) is None implies (#[trigger] shown(r)) is None by {
        assert(given(r) == raw(r));
        assert(out(r) is None);
    }
    assert forall|k: int| 0 <= k < order.len() implies exists|v: crate::number::Double|
        #[trigger] crate::number::computes(
            math,
            crate::transform::transformed(transform, b, k),
            v,
        ) && shown(#[trigger] order[k]) == if v.finite() {
            Some(v)
        } else {
            None
        } by {
        let v = choose|v: crate::number::Double|
            #[trigger] crate::number::computes(
                math,
                crate::transform::transformed(transform, a, k),
                v,
            ) && out(order[k]) == if v.finite() {
                Some(v)
            } else {
                None
            };
        assert(shown(order[k]) == out(order[k]));
        assert(crate::number::computes(math, crate::transform::transformed(transform, b, k), v));
    }
}

/// A field node shows, for the rows that give its field a finite value and in
/// the order of the rows, what its transformation makes of those values, and
/// nothing for any other row.
pub proof fn lemma_field_node_shows_rows<A: Arithmetic>(
    math: &A,
    update: crate::cube::UpdateView,
    snapshot: crate::cube::SnapshotView,
    i: int,
    field: Seq<char>,
)
    requires
        update_fault(None, update) is None,
        answers(math, update, snapshot),
        0 <= i < update.nodes.len(),
        update.nodes[i].kind == (crate::cube::KindView::Field { field }),
    ensures
        exists|order: Seq<int>|
            {
                &&& #[trigger] crate::evaluate::shows_transformed(
                    math,
                    update.nodes[i].transform,
                    order,
                    given_value(update.rows, field),
                    shown_value(snapshot, update.nodes[i].id, update.rows),
                    update.rows.len() as int,
                )
                &&& forall|a: int, b: int|
                    0 <= a < b < order.len() ==> #[trigger] order[a] < #[trigger] order[b]
            },
        update.nodes[i].transform == crate::cube::Transform::Identity ==> forall|r: int|
            0 <= r < update.rows.len() ==> #[trigger] (shown_value(
                snapshot,
                update.nodes[i].id,
                update.rows,
            ))(r) == (given_value(update.rows, field))(r),
{
    let rows = update.rows;
    let n = rows.len() as int;
    let grid = choose|grid: Seq<Seq<Option<Slot>>>| #[trigger]
        crate::evaluate::resolves(math, rows, update.nodes, grid) && shows(update, grid, snapshot);
    assert(crate::evaluate::evaluates(math, rows, update.nodes, grid, i));
    let order = crate::evaluate::row_order(rows.len());
    let raw = crate::evaluate::field_slots(rows, field);
    let column = grid[i];
    assert forall|r: int| 0 <= r < rows.len() implies #[trigger] order.contains(r) by {
        assert(order[r] == r);
    }
    crate::evaluate::lemma_column_is_transformed(
        math,
        update.nodes[i].transform,
        order,
        raw,
        column,
    );
    lemma_shown_is_slot(update, grid, snapshot, i);
    let shown = crate::evaluate::valued(raw, order, n);
    let g = |r: int| crate::evaluate::value_in(raw[r]);
    let h = |r: int| crate::evaluate::value_in(column[r]);
    let given = given_value(rows, field);
    let out = shown_value(snapshot, update.nodes[i].id, rows);
    assert forall|r: int| 0 <= r < n implies #[trigger] given(r) == g(r) by {
        assert(raw[r] == crate::evaluate::field_slot(rows[r], field));
    }
    lemma_transformed_alike(math, update.nodes[i].transform, shown, g, h, given, out, n);
    crate::evaluate::lemma_valued_ascends(raw, rows.len(), n);
    if update.nodes[i].transform == crate::cube::Transform::Identity {
        assert forall|r: int| 0 <= r < n implies #[trigger] out(r) == given(r) by {
            if given(r) is Some {
                assert(shown.contains(r));
                let k = choose|k: int| 0 <= k < shown.len() && shown[k] == r;
                let values = Seq::new(shown.len(), |j: int| given(shown[j])->0);
                let v = choose|v: crate::number::Double|
                    #[trigger] crate::number::computes(
                        math,
                        crate::transform::transformed(update.nodes[i].transform, values, k),
                        v,
                    ) && out(shown[k]) == if v.finite() {
                        Some(v)
                    } else {
                        None
                    };
                assert(v == values[k]);
            }
        }
    }
}

/// Whether a value is the weighted combination of what the edges of a node
/// read for a row: nothing where a required edge or every edge reads nothing,
/// where the sizes of the weights to divide by are not above the distance from
/// one to the next number, or where the result is not finite; and else the sum
/// of the weights times what their edges read, divided by the sizes of those
/// weights where they are normalized.
pub open spec fn combined<A: Arithmetic>(
    math: &A,
    f: crate::reading::Functions,
    edges: Seq<crate::cube::EdgeView>,
    normalize: bool,
    read: spec_fn(int) -> Option<crate::number::Double>,
    out: Option<crate::number::Double>,
) -> bool {
    let n = edges.len() as int;
    let lacking = exists|k: int|
        0 <= k < n && (#[trigger] edges[k]).required && read(k) is None;
    let any = exists|k: int| 0 <= k < n && (#[trigger] read(k)) is Some;
    if lacking || !any {
        out is None
    } else {
        let slots = crate::evaluate::as_slots(read, edges.len());
        let scale = crate::evaluate::weight_scale(edges, slots, n);
        let sum = crate::evaluate::blended(edges, slots, normalize);
        let weights = crate::evaluate::weights_read(edges, read, n);
        let total = crate::evaluate::contributions(edges, read, n);
        &&& crate::reading::reading(f, scale) == weights
        &&& !normalize ==> crate::reading::reading(f, sum) == total
        &&& normalize && weights != 0 as real ==> crate::reading::reading(f, sum) * weights == total
        &&& exists|size: crate::number::Double| #[trigger]
            crate::number::computes(math, scale, size) && if normalize && size.le(
                crate::number::Double { bits: crate::number::EPSILON },
            ) {
                out is None
            } else {
                exists|v: crate::number::Double| #[trigger]
                    crate::number::computes(math, sum, v) && out == if v.finite() {
                        Some(v)
                    } else {
                        None
                    }
            }
    }
}

/// A linear node shows what its transformation makes of the weighted
/// combinations of the values that the same snapshot shows for its inputs, row
/// by row.
pub proof fn lemma_linear_node_combines_inputs<A: Arithmetic>(
    math: &A,
    f: crate::reading::Functions,
    update: crate::cube::UpdateView,
    snapshot: crate::cube::SnapshotView,
    i: int,
    inputs: Seq<crate::cube::EdgeView>,
    normalize_weights: bool,
)
    requires
        update_fault(None, update) is None,
        answers(math, update, snapshot),
        0 <= i < update.nodes.len(),
        update.nodes[i].kind == (crate::cube::KindView::Linear { inputs, normalize_weights }),
    ensures
        exists|order: Seq<int>, raw: spec_fn(int) -> Option<crate::number::Double>|
            {
                &&& #[trigger] crate::evaluate::shows_transformed(
                    math,
                    update.nodes[i].transform,
                    order,
                    raw,
                    shown_value(snapshot, update.nodes[i].id, update.rows),
                    update.rows.len() as int,
                )
                &&& forall|a: int, b: int|
                    0 <= a < b < order.len() ==> !crate::text::precedes(
                        update.rows[#[trigger] order[b]].key,
                        update.rows[#[trigger] order[a]].key,
                    )
                &&& forall|r: int|
                    0 <= r < update.rows.len() ==> combined(
                        math,
                        f,
                        inputs,
                        normalize_weights,
                        |k: int|
                            crate::cube::value_at(
                                snapshot.values,
                                inputs[k].node,
                                update.rows[r].key,
                            ),
                        #[trigger] raw(r),
                    )
            },
{
    let rows = update.rows;
    let nodes = update.nodes;
    let n = rows.len() as int;
    let grid = choose|grid: Seq<Seq<Option<Slot>>>| #[trigger]
        crate::evaluate::resolves(math, rows, nodes, grid) && shows(update, grid, snapshot);
    assert(crate::evaluate::evaluates(math, rows, nodes, grid, i));
    let column = grid[i];
    let slots = choose|raw: Seq<Option<Slot>>|
        {
            &&& #[trigger] crate::evaluate::combines(
                math,
                rows,
                nodes,
                grid,
                i,
                normalize_weights,
                raw,
            )
            &&& crate::evaluate::transforms(
                math,
                nodes[i].transform,
                crate::evaluate::key_order(rows),
                raw,
                column,
            )
        };
    let order = crate::evaluate::key_order(rows);
    crate::evaluate::lemma_key_order(rows);
    crate::evaluate::lemma_column_is_transformed(math, nodes[i].transform, order, slots, column);
    lemma_shown_is_slot(update, grid, snapshot, i);
    let shown = crate::evaluate::valued(slots, order, order.len() as int);
    let raw = |r: int| crate::evaluate::value_in(slots[r]);
    let h = |r: int| crate::evaluate::value_in(column[r]);
    let out = shown_value(snapshot, nodes[i].id, rows);
    lemma_transformed_alike(math, nodes[i].transform, shown, raw, h, raw, out, n);
    crate::evaluate::lemma_valued_keeps_order(rows, slots, order.len() as int);
    assert forall|r: int| 0 <= r < n implies combined(
        math,
        f,
        inputs,
        normalize_weights,
        |k: int| crate::cube::value_at(snapshot.values, inputs[k].node, rows[r].key),
        #[trigger] raw(r),
    ) by {
        lemma_row_combines(math, f, update, grid, snapshot, i, inputs, normalize_weights, slots, r);
    }
}

proof fn lemma_row_combines<A: Arithmetic>(
    math: &A,
    f: crate::reading::Functions,
    update: crate::cube::UpdateView,
    grid: Seq<Seq<Option<Slot>>>,
    snapshot: crate::cube::SnapshotView,
    i: int,
    inputs: Seq<crate::cube::EdgeView>,
    normalize: bool,
    slots: Seq<Option<Slot>>,
    r: int,
)
    requires
        update_fault(None, update) is None,
        shows(update, grid, snapshot),
        0 <= i < update.nodes.len(),
        0 <= r < update.rows.len(),
        update.nodes[i].kind == (crate::cube::KindView::Linear {
            inputs,
            normalize_weights: normalize,
        }),
        crate::evaluate::combines(math, update.rows, update.nodes, grid, i, normalize, slots),
    ensures
        combined(
            math,
            f,
            inputs,
            normalize,
            |k: int|
                crate::cube::value_at(snapshot.values, inputs[k].node, update.rows[r].key),
            crate::evaluate::value_in(slots[r]),
        ),
{
    let rows = update.rows;
    let nodes = update.nodes;
    let n = inputs.len() as int;
    let read = crate::evaluate::readings(nodes, grid, i, r);
    let got = |k: int| crate::cube::value_at(snapshot.values, inputs[k].node, rows[r].key);
    let values = crate::evaluate::values_read(read);
    assert forall|k: int| 0 <= k < n implies #[trigger] got(k) == values(k) by {
        let at = crate::plan::upstream(nodes, i)[k];
        crate::plan::lemma_position_bounds(nodes, inputs[k].node);
        match at {
            Some(j) => {
                lemma_snapshot_coordinates(update, grid, snapshot, j, r);
            },
            None => {
                assert forall|j: int| 0 <= j < nodes.len() implies (#[trigger] nodes[j]).id
                    != inputs[k].node by {
                    if nodes[j].id == inputs[k].node {
                        assert(crate::validation::node_seen(
                            nodes,
                            nodes.len() as int,
                            inputs[k].node,
                        ));
                    }
                }
                lemma_undeclared_node_shows_nothing(rows, nodes, grid, inputs[k].node, rows[r].key);
            },
        }
    }
    let time = rows[r].observed_at_ms;
    assert(crate::evaluate::blends(math, inputs, read, normalize, time, slots[r]));
    let lacking = exists|k: int|
        0 <= k < n && (#[trigger] inputs[k]).required && got(k) is None;
    let any = exists|k: int| 0 <= k < n && (#[trigger] got(k)) is Some;
    assert(lacking == crate::evaluate::lacks(inputs, read)) by {
        if crate::evaluate::lacks(inputs, read) {
            let k = choose|k: int|
                0 <= k < inputs.len() && inputs[k].required && (#[trigger] read[k]) is None;
            assert(got(k) == values(k));
            assert(inputs[k].required && got(k) is None);
        }
        if lacking {
            let k = choose|k: int| 0 <= k < n && (#[trigger] inputs[k]).required && got(k) is None;
            assert(got(k) == values(k));
            assert(read[k] is None);
        }
    }
    assert(any == crate::evaluate::reads_any(read)) by {
        if crate::evaluate::reads_any(read) {
            let k = choose|k: int| 0 <= k < read.len() && (#[trigger] read[k]) is Some;
            assert(got(k) == values(k));
        }
        if any {
            let k = choose|k: int| 0 <= k < n && (#[trigger] got(k)) is Some;
            assert(got(k) == values(k));
            assert(read[k] is Some);
        }
    }
    if !lacking && any {
        let alike = crate::evaluate::as_slots(got, inputs.len());
        crate::evaluate::lemma_blend_means(f, inputs, alike);
        let same = crate::evaluate::values_read(alike);
        assert forall|k: int| 0 <= k < n implies #[trigger] same(k) == got(k) by {
            assert(alike[k] == match got(k) {
                Some(value) => Some(Slot { value, observed_at_ms: 0 }),
                None => None,
            });
        }
        assert forall|k: int| 0 <= k < n implies crate::evaluate::value_in(#[trigger] alike[k])
            == crate::evaluate::value_in(read[k]) by {
            assert(same(k) == got(k) && got(k) == values(k));
        }
        crate::evaluate::lemma_blend_reads_values(inputs, alike, read, n);
        crate::reading::lemma_totals(
            |k: int|
                if got(k) is Some {
                    crate::reading::exact(inputs[k].weight) * crate::reading::exact(got(k)->0)
                } else {
                    0 as real
                },
            |k: int|
                if same(k) is Some {
                    crate::reading::exact(inputs[k].weight) * crate::reading::exact(same(k)->0)
                } else {
                    0 as real
                },
            n,
        );
        crate::reading::lemma_totals(
            |k: int|
                if got(k) is Some {
                    crate::reading::distance(crate::reading::exact(inputs[k].weight))
                } else {
                    0 as real
                },
            |k: int|
                if same(k) is Some {
                    crate::reading::distance(crate::reading::exact(inputs[k].weight))
                } else {
                    0 as real
                },
            n,
        );
        let scale = crate::evaluate::weight_scale(inputs, read, n);
        let sum = crate::evaluate::blended(inputs, read, normalize);
        let size = choose|size: crate::number::Double| #[trigger]
            crate::number::computes(math, scale, size) && if normalize && size.le(
                crate::number::Double { bits: crate::number::EPSILON },
            ) {
                slots[r] is None
            } else {
                exists|value: crate::number::Double| #[trigger]
                    crate::number::computes(math, sum, value) && slots[r] == if value.finite() {
                        Some(
                            Slot {
                                value,
                                observed_at_ms: crate::evaluate::oldest(read, time, n),
                            },
                        )
                    } else {
                        None
                    }
            };
        assert(crate::number::computes(math, scale, size));
        if !(normalize && size.le(crate::number::Double { bits: crate::number::EPSILON })) {
            let v = choose|value: crate::number::Double| #[trigger]
                crate::number::computes(math, sum, value) && slots[r] == if value.finite() {
                    Some(
                        Slot { value, observed_at_ms: crate::evaluate::oldest(read, time, n) },
                    )
                } else {
                    None
                };
            assert(crate::number::computes(math, sum, v));
        }
    }
}

/// A snapshot says of every node how many rows it has a value for, and how
/// many it lacks: the first number is that of the cells of the node, and both
/// together are all rows. It keeps the generation, the time and the mode of
/// the update.
pub proof fn lemma_statuses_count_cells<A: Arithmetic>(
    math: &A,
    update: crate::cube::UpdateView,
    snapshot: crate::cube::SnapshotView,
    i: int,
)
    requires
        update_fault(None, update) is None,
        answers(math, update, snapshot),
        0 <= i < update.nodes.len(),
    ensures
        snapshot.generation == update.generation,
        snapshot.observed_at_ms == update.observed_at_ms,
        snapshot.mode == update.mode,
        snapshot.entity_count == update.rows.len(),
        snapshot.statuses.len() == update.nodes.len(),
        snapshot.statuses[i].node == update.nodes[i].id,
        snapshot.statuses[i].values == crate::cube::cells_of(
            snapshot.values,
            update.nodes[i].id,
        ).len(),
        snapshot.statuses[i].values + snapshot.statuses[i].missing == update.rows.len(),
{
    let grid = choose|grid: Seq<Seq<Option<Slot>>>| #[trigger]
        crate::evaluate::resolves(math, update.rows, update.nodes, grid) && shows(
            update,
            grid,
            snapshot,
        );
    lemma_node_cross_section(
        update.rows,
        update.nodes,
        grid,
        update.nodes.len() as int,
        update.nodes[i].id,
    );
    assert(counts(update.rows, update.nodes, grid, snapshot.statuses));
    assert(snapshot.statuses[i].node == update.nodes[i].id);
}

/// An update by value and one by reference give what the engine is for: a
/// snapshot that answers the update where it has no fault, with the engine at
/// its generation, and else the fault, with the engine as it was. A generation
/// that is not newer than the last is always refused.
pub proof fn lemma_engine_answers_newer_generations<A: Arithmetic>(
    math: &A,
    engine: &mut HypercubeEngine,
    update: &Update,
    result: CubeResult<Snapshot>,
)
    requires
        call_ensures(HypercubeEngine::update_ref::<A>, (engine, update, math), result) || exists|
            owned: Update,
        | owned@ == update@ && #[trigger] call_ensures(
            HypercubeEngine::update::<A>,
            (engine, owned, math),
            result,
        ),
    ensures
        ({
            let last = old(engine).generation();
            let stale = last is Some && update.generation <= last->0;
            &&& stale ==> result is Err && result->Err_0@
                == (crate::cube::CubeErrorView::StaleGeneration {
                generation: update.generation,
                previous: last->0,
            })
            &&& result is Ok ==> !stale && update_fault(None, update@) is None && answers(
                math,
                update@,
                result->Ok_0@,
            )
            &&& result is Ok ==> final(engine).generation() == Some(update.generation)
            &&& result is Err ==> final(engine).generation() == old(engine).generation()
                && final(engine).planned() == old(engine).planned()
                && final(engine).compilations() == old(engine).compilations()
            &&& !stale && update_fault(None, update@) is None ==> result is Ok
            &&& !stale && result is Err ==> update_fault(None, update@) == Some(result->Err_0@)
            &&& result is Ok ==> forall|k: int|
                0 <= k < result->Ok_0@.values.len() ==> (
                #[trigger] result->Ok_0@.values[k]).value.finite()
        }),
{
}

} // verus!
