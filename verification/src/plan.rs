//! The order in which the nodes of a graph are evaluated.

use crate::cube::{copied_nodes, CubeError, NodeKind, NodeSpec};
use crate::table::Table;
use crate::validation::validate_nodes;
use vstd::prelude::*;
use vstd::string::*;

verus! {

/// The position of the node that carries an identifier.
pub open spec fn position(nodes: Seq<crate::cube::NodeView>, id: Seq<char>) -> Option<int> {
    if crate::validation::node_seen(nodes, nodes.len() as int, id) {
        Some(choose|j: int| 0 <= j < nodes.len() && (#[trigger] nodes[j]).id == id)
    } else {
        None
    }
}

/// The node that each edge of node `i` leads to; an optional edge may lead
/// nowhere.
pub open spec fn upstream(nodes: Seq<crate::cube::NodeView>, i: int) -> Seq<Option<int>> {
    Seq::new(nodes[i].edges().len(), |k: int| position(nodes, nodes[i].edges()[k].node))
}

/// Whether node `i` rests on primitive nodes over at most `depth` levels.
pub open spec fn resolvable(nodes: Seq<crate::cube::NodeView>, i: int, depth: nat) -> bool
    decreases depth,
{
    depth > 0 && forall|k: int|
        0 <= k < upstream(nodes, i).len() && (#[trigger] upstream(nodes, i)[k]) is Some
            ==> resolvable(nodes, upstream(nodes, i)[k]->0, (depth - 1) as nat)
}

/// Whether node `i` can be evaluated: it does not wait for itself.
pub open spec fn settles(nodes: Seq<crate::cube::NodeView>, i: int) -> bool {
    resolvable(nodes, i, nodes.len())
}

/// The nodes among the first `n` that cannot be evaluated, in declaration
/// order.
pub open spec fn stuck(nodes: Seq<crate::cube::NodeView>, n: int) -> Seq<int>
    decreases n,
{
    if n <= 0 {
        Seq::empty()
    } else if settles(nodes, n - 1) {
        stuck(nodes, n - 1)
    } else {
        stuck(nodes, n - 1).push(n - 1)
    }
}

/// The identifiers at some positions.
pub open spec fn ids_at(nodes: Seq<crate::cube::NodeView>, at: Seq<int>) -> Seq<Seq<char>> {
    Seq::new(at.len(), |k: int| nodes[at[k]].id)
}

/// What is wrong with a graph: a fault of its nodes, or else a cycle.
pub open spec fn graph_fault(nodes: Seq<crate::cube::NodeView>) -> Option<
    crate::cube::CubeErrorView,
> {
    match crate::validation::nodes_fault(nodes) {
        Some(fault) => Some(fault),
        None => if stuck(nodes, nodes.len() as int).len() == 0 {
            None
        } else {
            Some(
                crate::cube::CubeErrorView::DependencyCycle(
                    crate::text::joined(
                        ids_at(nodes, stuck(nodes, nodes.len() as int)),
                        ", "@,
                    ),
                ),
            )
        },
    }
}

/// A position as the plan keeps it.
pub open spec fn pointed(at: Option<int>) -> Option<usize> {
    match at {
        Some(j) => Some(j as usize),
        None => None,
    }
}

/// Whether lists of positions say where every edge of every node leads.
pub open spec fn linked(
    nodes: Seq<crate::cube::NodeView>,
    dependencies: Seq<Vec<Option<usize>>>,
    n: int,
) -> bool {
    &&& dependencies.len() == n
    &&& forall|i: int|
        0 <= i < n ==> (#[trigger] dependencies[i])@.len() == nodes[i].edges().len()
    &&& forall|i: int, k: int|
        0 <= i < n && 0 <= k < nodes[i].edges().len() ==> (#[trigger] dependencies[i]@[k])
            == pointed(position(nodes, nodes[i].edges()[k].node))
}

/// Whether an order names every node once, each after those it depends on.
pub open spec fn scheduled(nodes: Seq<crate::cube::NodeView>, order: Seq<int>) -> bool {
    &&& order.len() == nodes.len()
    &&& order.no_duplicates()
    &&& forall|a: int| 0 <= a < order.len() ==> 0 <= #[trigger] order[a] < nodes.len()
    &&& forall|i: int| 0 <= i < nodes.len() ==> #[trigger] order.contains(i)
    &&& forall|a: int, k: int|
        0 <= a < order.len() && 0 <= k < upstream(nodes, order[a]).len() && (
        #[trigger] upstream(nodes, order[a])[k]) is Some ==> order.take(a).contains(
            upstream(nodes, order[a])[k]->0,
        )
}

/// A compiled graph.
#[derive(Debug)]
pub struct ExecutionPlan {
    /// The declarations that were compiled.
    pub nodes: Vec<NodeSpec>,
    /// The order of evaluation.
    pub order: Vec<usize>,
    /// Where each edge of each node leads.
    pub dependencies: Vec<Vec<Option<usize>>>,
}

impl ExecutionPlan {
    /// Whether the plan is one for some nodes.
    pub open spec fn plans(self, nodes: Seq<crate::cube::NodeView>) -> bool {
        &&& graph_fault(nodes) is None
        &&& linked(nodes, self.dependencies@, nodes.len() as int)
        &&& scheduled(nodes, crate::order::indexes(self.order@))
    }
}

/// A node that rests on primitive nodes over some levels does so over more.
pub proof fn lemma_resolvable_deeper(
    nodes: Seq<crate::cube::NodeView>,
    i: int,
    depth: nat,
    deeper: nat,
)
    requires
        resolvable(nodes, i, depth),
        depth <= deeper,
    ensures
        resolvable(nodes, i, deeper),
    decreases depth,
{
    assert forall|k: int|
        0 <= k < upstream(nodes, i).len() && (#[trigger] upstream(nodes, i)[k]) is Some implies
    resolvable(nodes, upstream(nodes, i)[k]->0, (deeper - 1) as nat) by {
        lemma_resolvable_deeper(
            nodes,
            upstream(nodes, i)[k]->0,
            (depth - 1) as nat,
            (deeper - 1) as nat,
        );
    }
}

spec fn waits(nodes: Seq<crate::cube::NodeView>, done: Seq<bool>, i: int) -> bool {
    exists|k: int|
        0 <= k < upstream(nodes, i).len() && (#[trigger] upstream(nodes, i)[k]) is Some
            && !done[upstream(nodes, i)[k]->0]
}

/// A node found under an identifier carries it.
pub proof fn lemma_position_bounds(nodes: Seq<crate::cube::NodeView>, id: Seq<char>)
    ensures
        position(nodes, id) matches Some(j) ==> 0 <= j < nodes.len() && nodes[j].id == id,
{
}

proof fn lemma_waiting_never_resolves(
    nodes: Seq<crate::cube::NodeView>,
    done: Seq<bool>,
    i: int,
    depth: nat,
)
    requires
        done.len() == nodes.len(),
        0 <= i < nodes.len(),
        !done[i],
        forall|x: int| 0 <= x < nodes.len() && !done[x] ==> #[trigger] waits(nodes, done, x),
    ensures
        !resolvable(nodes, i, depth),
    decreases depth,
{
    if depth > 0 {
        assert(waits(nodes, done, i));
        let k = choose|k: int|
            0 <= k < upstream(nodes, i).len() && (#[trigger] upstream(nodes, i)[k]) is Some
                && !done[upstream(nodes, i)[k]->0];
        let d = upstream(nodes, i)[k]->0;
        lemma_position_bounds(nodes, nodes[i].edges()[k].node);
        lemma_waiting_never_resolves(nodes, done, d, (depth - 1) as nat);
    }
}

spec fn grows(at: Seq<usize>) -> bool {
    forall|a: int, b: int| 0 <= a < b < at.len() ==> #[trigger] at[a] < #[trigger] at[b]
}

proof fn lemma_stuck_is(nodes: Seq<crate::cube::NodeView>, at: Seq<usize>, n: int)
    requires
        grows(at),
        0 <= n <= usize::MAX,
        forall|a: int| 0 <= a < at.len() ==> 0 <= #[trigger] at[a] < n,
        forall|i: int| 0 <= i < n ==> #[trigger] at.contains(i as usize) == !settles(nodes, i),
    ensures
        crate::order::indexes(at) == stuck(nodes, n),
    decreases n,
{
    if n == 0 {
        if at.len() > 0 {
            assert(at[0] < 0);
        }
        assert(crate::order::indexes(at) =~= stuck(nodes, n));
    } else if settles(nodes, n - 1) {
        assert(!at.contains((n - 1) as usize));
        assert forall|a: int| 0 <= a < at.len() implies 0 <= #[trigger] at[a] < n - 1 by {
            if at[a] == n - 1 {
                assert(at.contains((n - 1) as usize));
            }
        }
        lemma_stuck_is(nodes, at, n - 1);
    } else {
        assert(at.contains((n - 1) as usize));
        let w = choose|w: int| 0 <= w < at.len() && at[w] == (n - 1) as usize;
        if w < at.len() - 1 {
            assert(at[w] < at[at.len() - 1]);
        }
        let rest = at.drop_last();
        assert forall|i: int| 0 <= i < n - 1 implies #[trigger] rest.contains(i as usize)
            == !settles(nodes, i) by {
            assert(at.contains(i as usize) == !settles(nodes, i));
            if at.contains(i as usize) {
                let v = choose|v: int| 0 <= v < at.len() && at[v] == i as usize;
                assert(rest[v] == i as usize);
            }
            if rest.contains(i as usize) {
                let v = choose|v: int| 0 <= v < rest.len() && rest[v] == i as usize;
                assert(at[v] == i as usize);
            }
        }
        assert forall|a: int| 0 <= a < rest.len() implies 0 <= #[trigger] rest[a] < n - 1 by {
            assert(at[a] < at[at.len() - 1]);
        }
        lemma_stuck_is(nodes, rest, n - 1);
        assert(crate::order::indexes(at) =~= crate::order::indexes(rest).push(n - 1));
    }
}

fn joined_ids(nodes: &Vec<NodeSpec>, at: &Vec<usize>) -> (text: String)
    requires
        forall|a: int| 0 <= a < at@.len() ==> (#[trigger] at@[a]) < nodes@.len(),
    ensures
        text@ == crate::text::joined(
            ids_at(crate::text::views(nodes@), crate::order::indexes(at@)),
            ", "@,
        ),
{
    let ghost all = crate::text::views(nodes@);
    let ghost parts = ids_at(all, crate::order::indexes(at@));
    let mut text: String = String::new();
    let mut i: usize = 0;
    assert(text@ =~= crate::text::joined(parts.take(0), ", "@));
    while i < at.len()
        invariant
            0 <= i <= at@.len(),
            all == crate::text::views(nodes@),
            parts == ids_at(all, crate::order::indexes(at@)),
            forall|a: int| 0 <= a < at@.len() ==> (#[trigger] at@[a]) < nodes@.len(),
            text@ == crate::text::joined(parts.take(i as int), ", "@),
        decreases at@.len() - i,
    {
        if i > 0 {
            text.append(", ");
        }
        let node = &nodes[at[i]];
        text.append(node.id.as_str());
        proof {
            let next = parts.take(i + 1);
            assert(next.drop_last() =~= parts.take(i as int));
            assert(next.last() == node.id@);
            if i == 0 {
                assert(text@ =~= next[0]);
            }
        }
        i = i + 1;
    }
    assert(parts.take(i as int) =~= parts);
    text
}

proof fn lemma_indexed_position(
    ids: Seq<(Seq<char>, usize)>,
    nodes: Seq<crate::cube::NodeView>,
    id: Seq<char>,
)
    requires
        crate::validation::indexed(ids, nodes, nodes.len() as int),
        crate::validation::nodes_fault(nodes) is None,
        nodes.len() <= usize::MAX,
    ensures
        pointed(position(nodes, id)) == crate::table::found(ids, id),
{
    match crate::table::found(ids, id) {
        Some(j) => {
            assert(nodes[j as int].id == id);
            assert(crate::validation::node_seen(nodes, nodes.len() as int, id));
            let p = position(nodes, id)->0;
            if p < j {
                crate::validation::lemma_sound_nodes(nodes, nodes.len() as int, p, j as int);
            }
            if j < p {
                crate::validation::lemma_sound_nodes(nodes, nodes.len() as int, j as int, p);
            }
        },
        None => {},
    }
}

fn linked_edges(
    node: &NodeSpec,
    ids: &Table<usize>,
    Ghost(nodes): Ghost<Seq<crate::cube::NodeView>>,
) -> (targets: Vec<Option<usize>>)
    requires
        crate::validation::indexed(ids@, nodes, nodes.len() as int),
        crate::validation::nodes_fault(nodes) is None,
        nodes.len() <= usize::MAX,
    ensures
        targets@.len() == node@.edges().len(),
        forall|k: int|
            0 <= k < targets@.len() ==> (#[trigger] targets@[k]) == pointed(
                position(nodes, node@.edges()[k].node),
            ),
{
    let mut targets: Vec<Option<usize>> = Vec::new();
    match &node.kind {
        NodeKind::Field { .. } => {},
        NodeKind::Linear { inputs, .. } => {
            let mut k: usize = 0;
            while k < inputs.len()
                invariant
                    0 <= k <= inputs@.len(),
                    targets@.len() == k,
                    node@.edges() == crate::text::views(inputs@),
                    crate::validation::indexed(ids@, nodes, nodes.len() as int),
                    crate::validation::nodes_fault(nodes) is None,
                    nodes.len() <= usize::MAX,
                    forall|j: int|
                        0 <= j < targets@.len() ==> (#[trigger] targets@[j]) == pointed(
                            position(nodes, node@.edges()[j].node),
                        ),
                decreases inputs@.len() - k,
            {
                let target: Option<usize> = match ids.get(inputs[k].node.as_str()) {
                    Some(j) => Some(*j),
                    None => None,
                };
                proof {
                    lemma_indexed_position(ids@, nodes, inputs@[k as int].node@);
                }
                targets.push(target);
                k = k + 1;
            }
        },
    }
    targets
}

fn linked_nodes(nodes: &Vec<NodeSpec>, ids: &Table<usize>) -> (dependencies: Vec<
    Vec<Option<usize>>,
>)
    requires
        crate::validation::indexed(ids@, crate::text::views(nodes@), nodes@.len() as int),
        crate::validation::nodes_fault(crate::text::views(nodes@)) is None,
    ensures
        linked(crate::text::views(nodes@), dependencies@, nodes@.len() as int),
{
    let ghost all = crate::text::views(nodes@);
    let mut dependencies: Vec<Vec<Option<usize>>> = Vec::new();
    let mut i: usize = 0;
    while i < nodes.len()
        invariant
            0 <= i <= nodes@.len(),
            all == crate::text::views(nodes@),
            crate::validation::indexed(ids@, all, nodes@.len() as int),
            crate::validation::nodes_fault(all) is None,
            linked(all, dependencies@, i as int),
        decreases nodes@.len() - i,
    {
        let targets = linked_edges(&nodes[i], ids, Ghost(all));
        let ghost before = dependencies@;
        dependencies.push(targets);
        proof {
            assert(all[i as int] == nodes@[i as int]@);
            assert forall|a: int| 0 <= a < i + 1 implies (#[trigger] dependencies@[a])@.len()
                == all[a].edges().len() by {
                if a < i {
                    assert(dependencies@[a] == before[a]);
                }
            }
            assert forall|a: int, k: int|
                0 <= a < i + 1 && 0 <= k < all[a].edges().len() implies (
            #[trigger] dependencies@[a]@[k]) == pointed(
                position(all, all[a].edges()[k].node),
            ) by {
                if a < i {
                    assert(dependencies@[a] == before[a]);
                }
            }
        }
        i = i + 1;
    }
    dependencies
}

fn is_waiting(
    targets: &Vec<Option<usize>>,
    done: &Vec<bool>,
    Ghost(nodes): Ghost<Seq<crate::cube::NodeView>>,
    Ghost(i): Ghost<int>,
) -> (waiting: bool)
    requires
        0 <= i < nodes.len(),
        nodes.len() <= usize::MAX,
        done@.len() == nodes.len(),
        targets@.len() == nodes[i].edges().len(),
        forall|k: int|
            0 <= k < targets@.len() ==> (#[trigger] targets@[k]) == pointed(
                position(nodes, nodes[i].edges()[k].node),
            ),
    ensures
        waiting == waits(nodes, done@, i),
{
    let mut k: usize = 0;
    while k < targets.len()
        invariant
            0 <= k <= targets@.len(),
            0 <= i < nodes.len(),
            nodes.len() <= usize::MAX,
            done@.len() == nodes.len(),
            targets@.len() == nodes[i].edges().len(),
            forall|j: int|
                0 <= j < targets@.len() ==> (#[trigger] targets@[j]) == pointed(
                    position(nodes, nodes[i].edges()[j].node),
                ),
            forall|j: int|
                0 <= j < k && (#[trigger] upstream(nodes, i)[j]) is Some ==> done@[upstream(
                    nodes,
                    i,
                )[j]->0],
        decreases targets@.len() - k,
    {
        proof {
            lemma_position_bounds(nodes, nodes[i].edges()[k as int].node);
            assert(upstream(nodes, i)[k as int] == position(
                nodes,
                nodes[i].edges()[k as int].node,
            ));
            assert(targets@[k as int] == pointed(position(nodes, nodes[i].edges()[k as int].node)));
        }
        match targets[k] {
            Some(target) => {
                if !done[target] {
                    return true;
                }
            },
            None => {},
        }
        k = k + 1;
    }
    false
}

spec fn advanced(nodes: Seq<crate::cube::NodeView>, order: Seq<int>, done: Seq<bool>) -> bool {
    &&& done.len() == nodes.len()
    &&& order.no_duplicates()
    &&& forall|a: int|
        0 <= a < order.len() ==> 0 <= #[trigger] order[a] < nodes.len() && done[order[a]]
            && resolvable(nodes, order[a], (a + 1) as nat)
    &&& forall|x: int| 0 <= x < nodes.len() && #[trigger] done[x] ==> order.contains(x)
    &&& forall|a: int, k: int|
        0 <= a < order.len() && 0 <= k < upstream(nodes, order[a]).len() && (
        #[trigger] upstream(nodes, order[a])[k]) is Some ==> order.take(a).contains(
            upstream(nodes, order[a])[k]->0,
        )
}

proof fn lemma_advance(
    nodes: Seq<crate::cube::NodeView>,
    order: Seq<int>,
    done: Seq<bool>,
    x: int,
)
    requires
        advanced(nodes, order, done),
        0 <= x < nodes.len(),
        !done[x],
        !waits(nodes, done, x),
    ensures
        advanced(nodes, order.push(x), done.update(x, true)),
{
    let next = order.push(x);
    let marked = done.update(x, true);
    let n = order.len();
    assert forall|k: int|
        0 <= k < upstream(nodes, x).len() && (#[trigger] upstream(nodes, x)[k]) is Some implies
    order.contains(upstream(nodes, x)[k]->0) && resolvable(
        nodes,
        upstream(nodes, x)[k]->0,
        n,
    ) by {
        let d = upstream(nodes, x)[k]->0;
        lemma_position_bounds(nodes, nodes[x].edges()[k].node);
        assert(done[d]);
        assert(order.contains(d));
        let a = choose|a: int| 0 <= a < order.len() && order[a] == d;
        lemma_resolvable_deeper(nodes, d, (a + 1) as nat, n);
    }
    assert(resolvable(nodes, x, (n + 1) as nat));
    assert forall|a: int| 0 <= a < next.len() implies 0 <= #[trigger] next[a] < nodes.len()
        && marked[next[a]] && resolvable(nodes, next[a], (a + 1) as nat) by {
        if a < n {
            assert(next[a] == order[a]);
        }
    }
    assert forall|y: int| 0 <= y < nodes.len() && #[trigger] marked[y] implies next.contains(y) by {
        if y == x {
            assert(next[n as int] == x);
        } else {
            assert(done[y]);
            let a = choose|a: int| 0 <= a < order.len() && order[a] == y;
            assert(next[a] == y);
        }
    }
    assert forall|a: int, k: int|
        0 <= a < next.len() && 0 <= k < upstream(nodes, next[a]).len() && (
        #[trigger] upstream(nodes, next[a])[k]) is Some implies next.take(a).contains(
        upstream(nodes, next[a])[k]->0,
    ) by {
        assert(next.take(a) =~= order.take(a));
        if a < n {
            assert(next[a] == order[a]);
            assert(upstream(nodes, order[a])[k] is Some);
        } else {
            assert(next[a] == x);
            assert(order.take(a) =~= order);
        }
    }
    assert(next.no_duplicates()) by {
        assert forall|a: int, b: int|
            0 <= a < next.len() && 0 <= b < next.len() && a != b implies next[a] != next[b] by {
            if a < n && b < n {
                assert(order[a] != order[b]);
            } else if a < n {
                assert(done[order[a]]);
            } else {
                assert(done[order[b]]);
            }
        }
    }
}

spec fn left_over(done: Seq<bool>, next: Seq<usize>, pending: Seq<usize>, j: int) -> bool {
    forall|x: int|
        0 <= x < done.len() ==> !(#[trigger] done[x]) == (next.contains(x as usize)
            || pending.skip(j).contains(x as usize))
}

fn passed(
    dependencies: &Vec<Vec<Option<usize>>>,
    pending: &Vec<usize>,
    done: &mut Vec<bool>,
    order: &mut Vec<usize>,
    Ghost(nodes): Ghost<Seq<crate::cube::NodeView>>,
) -> (next: Vec<usize>)
    requires
        linked(nodes, dependencies@, nodes.len() as int),
        nodes.len() <= usize::MAX,
        advanced(nodes, crate::order::indexes(old(order)@), old(done)@),
        grows(pending@),
        forall|a: int| 0 <= a < pending@.len() ==> (#[trigger] pending@[a]) < nodes.len(),
        forall|x: int|
            0 <= x < nodes.len() ==> !(#[trigger] old(done)@[x]) == pending@.contains(x as usize),
        old(order)@.len() + pending@.len() == nodes.len(),
    ensures
        advanced(nodes, crate::order::indexes(final(order)@), final(done)@),
        grows(next@),
        forall|a: int| 0 <= a < next@.len() ==> (#[trigger] next@[a]) < nodes.len(),
        forall|x: int|
            0 <= x < nodes.len() ==> !(#[trigger] final(done)@[x]) == next@.contains(x as usize),
        final(order)@.len() + next@.len() == nodes.len(),
        next@.len() <= pending@.len(),
        next@.len() == pending@.len() ==> forall|x: int|
            0 <= x < nodes.len() && !final(done)@[x] ==> #[trigger] waits(
                nodes,
                final(done)@,
                x,
            ),
{
    let mut next: Vec<usize> = Vec::new();
    let mut j: usize = 0;
    proof {
        assert(pending@.skip(0) =~= pending@);
        assert(left_over(done@, next@, pending@, 0));
    }
    while j < pending.len()
        invariant
            0 <= j <= pending@.len(),
            linked(nodes, dependencies@, nodes.len() as int),
            nodes.len() <= usize::MAX,
            advanced(nodes, crate::order::indexes(order@), done@),
            grows(pending@),
            grows(next@),
            forall|a: int| 0 <= a < pending@.len() ==> (#[trigger] pending@[a]) < nodes.len(),
            forall|a: int| 0 <= a < next@.len() ==> (#[trigger] next@[a]) < nodes.len(),
            forall|a: int, b: int|
                0 <= a < next@.len() && j <= b < pending@.len() ==> #[trigger] next@[a]
                    < #[trigger] pending@[b],
            left_over(done@, next@, pending@, j as int),
            order@.len() + next@.len() + (pending@.len() - j) == nodes.len(),
            next@.len() <= j,
            next@.len() == j ==> forall|a: int|
                0 <= a < next@.len() ==> waits(nodes, done@, #[trigger] next@[a] as int),
        decreases pending@.len() - j,
    {
        let x: usize = pending[j];
        let ghost before = next@;
        let ghost was = done@;
        let ghost ordered = order@;
        proof {
            assert(pending@.skip(j as int)[0] == x);
            assert(pending@.skip(j as int).contains(x));
            assert(!was[x as int]);
        }
        let waiting = is_waiting(&dependencies[x], done, Ghost(nodes), Ghost(x as int));
        if waiting {
            next.push(x);
            proof {
                assert forall|y: int| 0 <= y < done@.len() implies !(#[trigger] done@[y]) == (
                next@.contains(y as usize) || pending@.skip(j + 1).contains(y as usize)) by {
                    lemma_shift(pending@, j as int, y as usize);
                    lemma_pushed(before, x, y as usize);
                }
            }
        } else {
            done[x] = true;
            order.push(x);
            proof {
                lemma_advance(nodes, crate::order::indexes(ordered), was, x as int);
                assert(crate::order::indexes(order@) =~= crate::order::indexes(ordered).push(
                    x as int,
                ));
                assert forall|y: int| 0 <= y < done@.len() implies !(#[trigger] done@[y]) == (
                next@.contains(y as usize) || pending@.skip(j + 1).contains(y as usize)) by {
                    lemma_shift(pending@, j as int, y as usize);
                    if y == x {
                        if next@.contains(x) {
                            let w = choose|w: int| 0 <= w < next@.len() && next@[w] == x;
                            assert(next@[w] < pending@[j as int]);
                        }
                        let rest = pending@.skip(j + 1);
                        if rest.contains(x) {
                            let w = choose|w: int| 0 <= w < rest.len() && rest[w] == x;
                            assert(pending@[j as int] < pending@[j + 1 + w]);
                        }
                    } else {
                        assert(done@[y] == was[y]);
                    }
                }
            }
        }
        j = j + 1;
    }
    proof {
        assert(pending@.skip(j as int) =~= Seq::<usize>::empty());
        assert forall|x: int| 0 <= x < nodes.len() implies !(#[trigger] done@[x])
            == next@.contains(x as usize) by {}
        if next@.len() == pending@.len() {
            assert forall|x: int| 0 <= x < nodes.len() && !done@[x] implies #[trigger] waits(
                nodes,
                done@,
                x,
            ) by {
                assert(next@.contains(x as usize));
                let w = choose|w: int| 0 <= w < next@.len() && next@[w] == x as usize;
                assert(waits(nodes, done@, next@[w] as int));
            }
        }
    }
    next
}

proof fn lemma_shift(s: Seq<usize>, j: int, y: usize)
    requires
        0 <= j < s.len(),
    ensures
        s.skip(j).contains(y) == (s[j] == y || s.skip(j + 1).contains(y)),
{
    if s.skip(j).contains(y) {
        let w = choose|w: int| 0 <= w < s.skip(j).len() && s.skip(j)[w] == y;
        if w > 0 {
            assert(s.skip(j + 1)[w - 1] == y);
        }
    }
    if s[j] == y {
        assert(s.skip(j)[0] == y);
    }
    if s.skip(j + 1).contains(y) {
        let rest = s.skip(j + 1);
        let w = choose|w: int| 0 <= w < rest.len() && rest[w] == y;
        assert(s.skip(j)[w + 1] == y);
    }
}

proof fn lemma_pushed(s: Seq<usize>, x: usize, y: usize)
    ensures
        s.push(x).contains(y) == (x == y || s.contains(y)),
{
    if s.contains(y) {
        let w = choose|w: int| 0 <= w < s.len() && s[w] == y;
        assert(s.push(x)[w] == y);
    }
    if x == y {
        assert(s.push(x)[s.len() as int] == y);
    }
}

proof fn lemma_no_stuck(nodes: Seq<crate::cube::NodeView>, n: int)
    requires
        0 <= n <= nodes.len(),
        forall|i: int| 0 <= i < n ==> #[trigger] settles(nodes, i),
    ensures
        stuck(nodes, n).len() == 0,
    decreases n,
{
    if n > 0 {
        lemma_no_stuck(nodes, n - 1);
        assert(settles(nodes, n - 1));
    }
}

impl ExecutionPlan {
    /// Check the nodes of a graph and put them in an order of evaluation.
    pub fn compile(nodes: &Vec<NodeSpec>) -> (result: Result<ExecutionPlan, CubeError>)
        ensures
            crate::validation::reports(result, graph_fault(crate::text::views(nodes@))),
            result matches Ok(plan) ==> plan.plans(crate::text::views(nodes@))
                && crate::text::views(plan.nodes@) == crate::text::views(nodes@),
    {
        let ghost all = crate::text::views(nodes@);
        let ids = match validate_nodes(nodes) {
            Ok(ids) => ids,
            Err(fault) => {
                return Err(fault);
            },
        };
        let dependencies = linked_nodes(nodes, &ids);
        let mut done: Vec<bool> = Vec::new();
        let mut pending: Vec<usize> = Vec::new();
        let mut i: usize = 0;
        while i < nodes.len()
            invariant
                0 <= i <= nodes@.len(),
                done@.len() == i,
                pending@.len() == i,
                forall|k: int| 0 <= k < i ==> !#[trigger] done@[k],
                forall|k: int| 0 <= k < i ==> #[trigger] pending@[k] == k,
            decreases nodes@.len() - i,
        {
            done.push(false);
            pending.push(i);
            i = i + 1;
        }
        let mut order: Vec<usize> = Vec::new();
        proof {
            assert(crate::order::indexes(order@) =~= Seq::<int>::empty());
            assert forall|x: int| 0 <= x < all.len() implies !(#[trigger] done@[x])
                == pending@.contains(x as usize) by {
                assert(pending@[x] == x);
            }
        }
        while pending.len() > 0
            invariant
                all == crate::text::views(nodes@),
                all.len() <= usize::MAX,
                crate::validation::nodes_fault(all) is None,
                linked(all, dependencies@, all.len() as int),
                advanced(all, crate::order::indexes(order@), done@),
                grows(pending@),
                forall|a: int| 0 <= a < pending@.len() ==> (#[trigger] pending@[a]) < all.len(),
                forall|x: int|
                    0 <= x < all.len() ==> !(#[trigger] done@[x]) == pending@.contains(x as usize),
                order@.len() + pending@.len() == all.len(),
            decreases pending@.len(),
        {
            let next = passed(&dependencies, &pending, &mut done, &mut order, Ghost(all));
            if next.len() == pending.len() {
                proof {
                    assert forall|x: int| 0 <= x < all.len() implies #[trigger] next@.contains(
                        x as usize,
                    ) == !settles(all, x) by {
                        assert(!done@[x] == next@.contains(x as usize));
                        if done@[x] {
                            let p = crate::order::indexes(order@);
                            assert(p.contains(x));
                            let a = choose|a: int| 0 <= a < p.len() && p[a] == x;
                            assert(resolvable(all, p[a], (a + 1) as nat));
                            lemma_resolvable_deeper(all, x, (a + 1) as nat, all.len());
                        } else {
                            lemma_waiting_never_resolves(all, done@, x, all.len());
                        }
                    }
                    lemma_stuck_is(all, next@, all.len() as int);
                }
                return Err(CubeError::DependencyCycle(joined_ids(nodes, &next)));
            }
            pending = next;
        }
        let ghost p = crate::order::indexes(order@);
        proof {
            assert forall|x: int| 0 <= x < all.len() implies #[trigger] settles(all, x)
                && p.contains(x) by {
                assert(!done@[x] == pending@.contains(x as usize));
                assert(p.contains(x));
                let a = choose|a: int| 0 <= a < p.len() && p[a] == x;
                assert(resolvable(all, p[a], (a + 1) as nat));
                lemma_resolvable_deeper(all, x, (a + 1) as nat, all.len());
            }
            assert forall|x: int| 0 <= x < all.len() implies #[trigger] p.contains(x) by {
                assert(settles(all, x));
            }
            lemma_no_stuck(all, all.len() as int);
            assert(scheduled(all, p));
        }
        Ok(ExecutionPlan { nodes: copied_nodes(nodes), order, dependencies })
    }
}

/// Where no node is stuck, every node can be evaluated.
pub proof fn lemma_unstuck(nodes: Seq<crate::cube::NodeView>, n: int, i: int)
    requires
        stuck(nodes, n).len() == 0,
        0 <= i < n,
    ensures
        settles(nodes, i),
    decreases n,
{
    if i < n - 1 {
        lemma_unstuck(nodes, n - 1, i);
    }
}

proof fn lemma_chain_is_short(nodes: Seq<crate::cube::NodeView>, chain: Seq<int>, depth: nat)
    requires
        chain.len() > 0,
        resolvable(nodes, chain[0], depth),
        forall|k: int|
            0 <= k < chain.len() - 1 ==> reads_from(nodes, #[trigger] chain[k], chain[k + 1]),
    ensures
        chain.len() <= depth,
    decreases depth,
{
    if chain.len() > 1 {
        let rest = chain.skip(1);
        assert(reads_from(nodes, chain[0], chain[1]));
        let k = choose|k: int|
            0 <= k < upstream(nodes, chain[0]).len() && #[trigger] upstream(nodes, chain[0])[k]
                == Some(chain[1]);
        assert(upstream(nodes, chain[0])[k] is Some);
        assert forall|j: int| 0 <= j < rest.len() - 1 implies reads_from(
            nodes,
            #[trigger] rest[j],
            rest[j + 1],
        ) by {
            assert(rest[j] == chain[j + 1] && rest[j + 1] == chain[j + 2]);
            assert(reads_from(nodes, chain[j + 1], chain[j + 2]));
        }
        lemma_chain_is_short(nodes, rest, (depth - 1) as nat);
    }
}

/// Whether a node reads another.
pub open spec fn reads_from(nodes: Seq<crate::cube::NodeView>, i: int, j: int) -> bool {
    exists|k: int|
        0 <= k < upstream(nodes, i).len() && #[trigger] upstream(nodes, i)[k] == Some(j)
}

/// In a graph without a fault nothing reads in a circle: a path along which
/// each node reads the next never has more nodes than the graph.
pub proof fn lemma_sound_graph_has_no_cycle(nodes: Seq<crate::cube::NodeView>, chain: Seq<int>)
    requires
        graph_fault(nodes) is None,
        chain.len() > 0,
        0 <= chain[0] < nodes.len(),
        forall|k: int|
            0 <= k < chain.len() - 1 ==> reads_from(nodes, #[trigger] chain[k], chain[k + 1]),
    ensures
        chain.len() <= nodes.len(),
{
    lemma_unstuck(nodes, nodes.len() as int, chain[0]);
    lemma_chain_is_short(nodes, chain, nodes.len());
}

proof fn lemma_ranked_resolves(
    nodes: Seq<crate::cube::NodeView>,
    rank: spec_fn(int) -> nat,
    i: int,
)
    requires
        0 <= i < nodes.len(),
        forall|a: int, b: int|
            0 <= a < nodes.len() && #[trigger] reads_from(nodes, a, b) ==> rank(b) < rank(a),
    ensures
        resolvable(nodes, i, rank(i) + 1),
    decreases rank(i),
{
    assert forall|k: int|
        0 <= k < upstream(nodes, i).len() && (#[trigger] upstream(nodes, i)[k]) is Some implies
    resolvable(nodes, upstream(nodes, i)[k]->0, rank(i)) by {
        let j = upstream(nodes, i)[k]->0;
        lemma_position_bounds(nodes, nodes[i].edges()[k].node);
        assert(reads_from(nodes, i, j));
        lemma_ranked_resolves(nodes, rank, j);
        lemma_resolvable_deeper(nodes, j, rank(j) + 1, rank(i));
    }
}

proof fn lemma_nothing_stuck(nodes: Seq<crate::cube::NodeView>, n: int)
    requires
        0 <= n <= nodes.len(),
        forall|i: int| 0 <= i < n ==> #[trigger] settles(nodes, i),
    ensures
        stuck(nodes, n).len() == 0,
    decreases n,
{
    if n > 0 {
        lemma_nothing_stuck(nodes, n - 1);
    }
}

/// A well declared graph whose nodes can be ranked so that each reads lower
/// ranks only has no fault.
pub proof fn lemma_ranked_graph_is_sound(
    nodes: Seq<crate::cube::NodeView>,
    rank: spec_fn(int) -> nat,
)
    requires
        crate::validation::nodes_fault(nodes) is None,
        forall|i: int| 0 <= i < nodes.len() ==> #[trigger] rank(i) < nodes.len(),
        forall|a: int, b: int|
            0 <= a < nodes.len() && #[trigger] reads_from(nodes, a, b) ==> rank(b) < rank(a),
    ensures
        graph_fault(nodes) is None,
{
    assert forall|i: int| 0 <= i < nodes.len() implies #[trigger] settles(nodes, i) by {
        lemma_ranked_resolves(nodes, rank, i);
        assert(rank(i) < nodes.len());
        lemma_resolvable_deeper(nodes, i, rank(i) + 1, nodes.len());
    }
    lemma_nothing_stuck(nodes, nodes.len() as int);
}

/// A compiled plan runs every node once, after every node that it reads, and
/// a graph is compiled exactly where it has no fault.
pub proof fn lemma_plan_runs_inputs_first(
    nodes: &Vec<NodeSpec>,
    result: Result<ExecutionPlan, CubeError>,
)
    requires
        call_ensures(ExecutionPlan::compile, (nodes,), result),
    ensures
        ({
            let all = crate::text::views(nodes@);
            &&& result is Ok <==> graph_fault(all) is None
            &&& result is Err ==> graph_fault(all) == Some(result->Err_0@)
            &&& result is Ok ==> {
                let order = result->Ok_0.order@;
                &&& order.len() == nodes@.len()
                &&& forall|i: int|
                    0 <= i < nodes@.len() ==> #[trigger] crate::order::indexes(order).contains(i)
                &&& forall|a: int, j: int|
                    0 <= a < order.len() && #[trigger] reads_from(all, order[a] as int, j)
                        ==> exists|b: int| 0 <= b < a && #[trigger] order[b] == j
            }
        }),
{
    let all = crate::text::views(nodes@);
    if result is Ok {
        let order = result->Ok_0.order@;
        let p = crate::order::indexes(order);
        assert(scheduled(all, p));
        assert forall|a: int, j: int|
            0 <= a < order.len() && #[trigger] reads_from(all, order[a] as int, j) implies exists|
            b: int,
        | 0 <= b < a && #[trigger] order[b] == j by {
            assert(p[a] == order[a]);
            let k = choose|k: int|
                0 <= k < upstream(all, order[a] as int).len() && #[trigger] upstream(
                    all,
                    order[a] as int,
                )[k] == Some(j);
            assert(upstream(all, p[a])[k] is Some);
            let head = p.take(a);
            assert(head.contains(j));
            let b = choose|b: int| 0 <= b < head.len() && head[b] == j;
            assert(p[b] == order[b]);
        }
    }
}

} // verus!
