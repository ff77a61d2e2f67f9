//! Checks on the rows and the node declarations of an update.

use crate::cube::{CubeError, InputRow, NodeKind, NodeSpec, WeightedInput};
use crate::table::Table;
use crate::text::is_blank;
use vstd::prelude::*;

verus! {

/// Whether a key was used by one of the first `n` rows.
pub open spec fn row_seen(rows: Seq<crate::cube::RowView>, n: int, key: Seq<char>) -> bool {
    exists|j: int| 0 <= j < n && (#[trigger] rows[j]).key == key
}

/// What is wrong with row `i`, given the rows before it.
pub open spec fn row_fault(rows: Seq<crate::cube::RowView>, i: int) -> Option<
    crate::cube::CubeErrorView,
> {
    if crate::text::blank(rows[i].key) {
        Some(crate::cube::CubeErrorView::EmptyIdentifier { kind: "row key"@ })
    } else if row_seen(rows, i, rows[i].key) {
        Some(crate::cube::CubeErrorView::DuplicateRow(rows[i].key))
    } else {
        None
    }
}

/// The first fault among the first `n` rows.
pub open spec fn rows_fault(rows: Seq<crate::cube::RowView>, n: int) -> Option<
    crate::cube::CubeErrorView,
>
    decreases n,
{
    if n <= 0 {
        None
    } else {
        match rows_fault(rows, n - 1) {
            Some(fault) => Some(fault),
            None => row_fault(rows, n - 1),
        }
    }
}

/// Whether a node identifier was used by one of the first `n` nodes.
pub open spec fn node_seen(nodes: Seq<crate::cube::NodeView>, n: int, id: Seq<char>) -> bool {
    exists|j: int| 0 <= j < n && (#[trigger] nodes[j]).id == id
}

/// Whether an upstream node was named by one of the first `n` edges.
pub open spec fn edge_seen(edges: Seq<crate::cube::EdgeView>, n: int, node: Seq<char>) -> bool {
    exists|j: int| 0 <= j < n && (#[trigger] edges[j]).node == node
}

/// What is wrong with edge `i` of a node, given the edges before it.
pub open spec fn edge_fault(
    id: Seq<char>,
    edges: Seq<crate::cube::EdgeView>,
    i: int,
) -> Option<crate::cube::CubeErrorView> {
    if !edges[i].weight.finite() {
        Some(crate::cube::CubeErrorView::InvalidWeight { node: id, input: edges[i].node })
    } else if edge_seen(edges, i, edges[i].node) {
        Some(crate::cube::CubeErrorView::DuplicateInput { node: id, input: edges[i].node })
    } else {
        None
    }
}

/// The first fault among the first `n` edges of a node.
pub open spec fn edges_fault(
    id: Seq<char>,
    edges: Seq<crate::cube::EdgeView>,
    n: int,
) -> Option<crate::cube::CubeErrorView>
    decreases n,
{
    if n <= 0 {
        None
    } else {
        match edges_fault(id, edges, n - 1) {
            Some(fault) => Some(fault),
            None => edge_fault(id, edges, n - 1),
        }
    }
}

/// What is wrong with the declaration of node `i`, given the nodes before it.
pub open spec fn node_fault(nodes: Seq<crate::cube::NodeView>, i: int) -> Option<
    crate::cube::CubeErrorView,
> {
    let node = nodes[i];
    if crate::text::blank(node.id) {
        Some(crate::cube::CubeErrorView::EmptyIdentifier { kind: "node id"@ })
    } else if node_seen(nodes, i, node.id) {
        Some(crate::cube::CubeErrorView::DuplicateNode(node.id))
    } else {
        match node.kind {
            crate::cube::KindView::Field { field } => if crate::text::blank(field) {
                Some(crate::cube::CubeErrorView::EmptyIdentifier { kind: "field"@ })
            } else {
                None
            },
            crate::cube::KindView::Linear { inputs, .. } => if inputs.len() == 0 {
                Some(crate::cube::CubeErrorView::EmptyLinearNode { node: node.id })
            } else {
                edges_fault(node.id, inputs, inputs.len() as int)
            },
        }
    }
}

/// The first fault in the declarations of the first `n` nodes, each by itself.
pub open spec fn declarations_fault(nodes: Seq<crate::cube::NodeView>, n: int) -> Option<
    crate::cube::CubeErrorView,
>
    decreases n,
{
    if n <= 0 {
        None
    } else {
        match declarations_fault(nodes, n - 1) {
            Some(fault) => Some(fault),
            None => node_fault(nodes, n - 1),
        }
    }
}

/// The first of the first `n` edges of a node that is required and leads
/// nowhere.
pub open spec fn dangling_edge(
    nodes: Seq<crate::cube::NodeView>,
    id: Seq<char>,
    edges: Seq<crate::cube::EdgeView>,
    n: int,
) -> Option<crate::cube::CubeErrorView>
    decreases n,
{
    if n <= 0 {
        None
    } else {
        match dangling_edge(nodes, id, edges, n - 1) {
            Some(fault) => Some(fault),
            None => if edges[n - 1].required && !node_seen(
                nodes,
                nodes.len() as int,
                edges[n - 1].node,
            ) {
                Some(
                    crate::cube::CubeErrorView::UnknownDependency {
                        node: id,
                        dependency: edges[n - 1].node,
                    },
                )
            } else {
                None
            },
        }
    }
}

/// The first required edge of the first `n` nodes that leads nowhere.
pub open spec fn dangling_fault(nodes: Seq<crate::cube::NodeView>, n: int) -> Option<
    crate::cube::CubeErrorView,
>
    decreases n,
{
    if n <= 0 {
        None
    } else {
        match dangling_fault(nodes, n - 1) {
            Some(fault) => Some(fault),
            None => dangling_edge(
                nodes,
                nodes[n - 1].id,
                nodes[n - 1].edges(),
                nodes[n - 1].edges().len() as int,
            ),
        }
    }
}

/// The first fault of a list of nodes: each declaration by itself first, then
/// the required edges.
pub open spec fn nodes_fault(nodes: Seq<crate::cube::NodeView>) -> Option<
    crate::cube::CubeErrorView,
> {
    match declarations_fault(nodes, nodes.len() as int) {
        Some(fault) => Some(fault),
        None => dangling_fault(nodes, nodes.len() as int),
    }
}

/// Whether a result is what a fault, or its absence, calls for.
pub open spec fn reports<T>(
    result: Result<T, CubeError>,
    fault: Option<crate::cube::CubeErrorView>,
) -> bool {
    match fault {
        Some(f) => result matches Err(e) && e@ == f,
        None => result is Ok,
    }
}

proof fn lemma_rows_fault_stays(rows: Seq<crate::cube::RowView>, i: int, n: int)
    requires
        0 <= i <= n,
        rows_fault(rows, i) is Some,
    ensures
        rows_fault(rows, n) == rows_fault(rows, i),
    decreases n,
{
    if i < n {
        lemma_rows_fault_stays(rows, i, n - 1);
    }
}

proof fn lemma_edges_fault_stays(
    id: Seq<char>,
    edges: Seq<crate::cube::EdgeView>,
    i: int,
    n: int,
)
    requires
        0 <= i <= n,
        edges_fault(id, edges, i) is Some,
    ensures
        edges_fault(id, edges, n) == edges_fault(id, edges, i),
    decreases n,
{
    if i < n {
        lemma_edges_fault_stays(id, edges, i, n - 1);
    }
}

proof fn lemma_declarations_fault_stays(nodes: Seq<crate::cube::NodeView>, i: int, n: int)
    requires
        0 <= i <= n,
        declarations_fault(nodes, i) is Some,
    ensures
        declarations_fault(nodes, n) == declarations_fault(nodes, i),
    decreases n,
{
    if i < n {
        lemma_declarations_fault_stays(nodes, i, n - 1);
    }
}

proof fn lemma_dangling_edge_stays(
    nodes: Seq<crate::cube::NodeView>,
    id: Seq<char>,
    edges: Seq<crate::cube::EdgeView>,
    i: int,
    n: int,
)
    requires
        0 <= i <= n,
        dangling_edge(nodes, id, edges, i) is Some,
    ensures
        dangling_edge(nodes, id, edges, n) == dangling_edge(nodes, id, edges, i),
    decreases n,
{
    if i < n {
        lemma_dangling_edge_stays(nodes, id, edges, i, n - 1);
    }
}

proof fn lemma_dangling_fault_stays(nodes: Seq<crate::cube::NodeView>, i: int, n: int)
    requires
        0 <= i <= n,
        dangling_fault(nodes, i) is Some,
    ensures
        dangling_fault(nodes, n) == dangling_fault(nodes, i),
    decreases n,
{
    if i < n {
        lemma_dangling_fault_stays(nodes, i, n - 1);
    }
}

/// Rows without a fault have keys that are all different.
pub proof fn lemma_sound_rows(rows: Seq<crate::cube::RowView>, n: int, i: int, j: int)
    requires
        rows_fault(rows, n) is None,
        0 <= i < j < n <= rows.len(),
    ensures
        rows[i].key != rows[j].key,
    decreases n,
{
    if j < n - 1 {
        lemma_sound_rows(rows, n - 1, i, j);
    } else {
        assert(!row_seen(rows, j, rows[j].key));
    }
}

/// Nodes without a fault have identifiers that are all different.
pub proof fn lemma_sound_nodes(nodes: Seq<crate::cube::NodeView>, n: int, i: int, j: int)
    requires
        declarations_fault(nodes, n) is None,
        0 <= i < j < n <= nodes.len(),
    ensures
        nodes[i].id != nodes[j].id,
    decreases n,
{
    if j < n - 1 {
        lemma_sound_nodes(nodes, n - 1, i, j);
    } else {
        assert(!node_seen(nodes, j, nodes[j].id));
    }
}

/// Reject rows with an empty or repeated key.
pub fn validate_rows(rows: &Vec<InputRow>) -> (result: Result<(), CubeError>)
    ensures
        reports(result, rows_fault(crate::text::views(rows@), rows@.len() as int)),
{
    let ghost all = crate::text::views(rows@);
    let mut seen: Table<()> = Table::new();
    let mut i: usize = 0;
    while i < rows.len()
        invariant
            0 <= i <= rows@.len(),
            all == crate::text::views(rows@),
            rows_fault(all, i as int) is None,
            forall|key: Seq<char>|
                (#[trigger] crate::table::found(seen@, key) is Some) == row_seen(
                    all,
                    i as int,
                    key,
                ),
        decreases rows@.len() - i,
    {
        let row = &rows[i];
        assert(all[i as int] == row@);
        if is_blank(row.key.as_str()) {
            proof {
                lemma_rows_fault_stays(all, i + 1, rows@.len() as int);
            }
            return Err(CubeError::EmptyIdentifier { kind: "row key" });
        }
        let known: bool = seen.get(row.key.as_str()).is_some();
        if known {
            proof {
                lemma_rows_fault_stays(all, i + 1, rows@.len() as int);
            }
            return Err(CubeError::DuplicateRow(row.key.clone()));
        }
        let ghost before = seen@;
        seen.insert(row.key.clone(), ());
        proof {
            assert forall|key: Seq<char>|
                (#[trigger] crate::table::found(seen@, key) is Some) == row_seen(
                    all,
                    i + 1,
                    key,
                ) by {
                crate::table::lemma_entered(before, row.key@, (), key);
                assert(crate::table::found(before, key) is Some == row_seen(all, i as int, key));
                if row_seen(all, i as int, key) {
                    let j = choose|j: int| 0 <= j < i && (#[trigger] all[j]).key == key;
                    assert(all[j].key == key);
                }
                if key == row.key@ {
                    assert(all[i as int].key == key);
                }
            }
        }
        i = i + 1;
    }
    Ok(())
}

fn validate_edges(id: &String, inputs: &Vec<WeightedInput>) -> (result: Result<(), CubeError>)
    ensures
        reports(result, edges_fault(id@, crate::text::views(inputs@), inputs@.len() as int)),
{
    let ghost all = crate::text::views(inputs@);
    let mut seen: Table<()> = Table::new();
    let mut i: usize = 0;
    while i < inputs.len()
        invariant
            0 <= i <= inputs@.len(),
            all == crate::text::views(inputs@),
            edges_fault(id@, all, i as int) is None,
            forall|node: Seq<char>|
                (#[trigger] crate::table::found(seen@, node) is Some) == edge_seen(
                    all,
                    i as int,
                    node,
                ),
        decreases inputs@.len() - i,
    {
        let input = &inputs[i];
        assert(all[i as int] == input@);
        if !input.weight.is_finite() {
            proof {
                lemma_edges_fault_stays(id@, all, i + 1, inputs@.len() as int);
            }
            return Err(CubeError::InvalidWeight { node: id.clone(), input: input.node.clone() });
        }
        let known: bool = seen.get(input.node.as_str()).is_some();
        if known {
            proof {
                lemma_edges_fault_stays(id@, all, i + 1, inputs@.len() as int);
            }
            return Err(CubeError::DuplicateInput { node: id.clone(), input: input.node.clone() });
        }
        let ghost before = seen@;
        seen.insert(input.node.clone(), ());
        proof {
            assert forall|node: Seq<char>|
                (#[trigger] crate::table::found(seen@, node) is Some) == edge_seen(
                    all,
                    i + 1,
                    node,
                ) by {
                crate::table::lemma_entered(before, input.node@, (), node);
                assert(crate::table::found(before, node) is Some == edge_seen(
                    all,
                    i as int,
                    node,
                ));
                if edge_seen(all, i as int, node) {
                    let j = choose|j: int| 0 <= j < i && (#[trigger] all[j]).node == node;
                    assert(all[j].node == node);
                }
                if node == input.node@ {
                    assert(all[i as int].node == node);
                }
            }
        }
        i = i + 1;
    }
    Ok(())
}

fn validate_declaration(node: &NodeSpec, Ghost(nodes): Ghost<Seq<crate::cube::NodeView>>, Ghost(
    i,
): Ghost<int>) -> (result: Result<(), CubeError>)
    requires
        0 <= i < nodes.len(),
        nodes[i] == node@,
        !crate::text::blank(node.id@),
        !node_seen(nodes, i, node.id@),
    ensures
        reports(result, node_fault(nodes, i)),
{
    match &node.kind {
        NodeKind::Field { field } => {
            if is_blank(field.as_str()) {
                return Err(CubeError::EmptyIdentifier { kind: "field" });
            }
            Ok(())
        },
        NodeKind::Linear { inputs, .. } => {
            if inputs.len() == 0 {
                return Err(CubeError::EmptyLinearNode { node: node.id.clone() });
            }
            validate_edges(&node.id, inputs)
        },
    }
}

fn validate_required(
    node: &NodeSpec,
    ids: &Table<usize>,
    Ghost(nodes): Ghost<Seq<crate::cube::NodeView>>,
) -> (result: Result<(), CubeError>)
    requires
        forall|id: Seq<char>|
            (#[trigger] crate::table::found(ids@, id) is Some) == node_seen(
                nodes,
                nodes.len() as int,
                id,
            ),
    ensures
        reports(
            result,
            dangling_edge(nodes, node.id@, node@.edges(), node@.edges().len() as int),
        ),
{
    match &node.kind {
        NodeKind::Field { .. } => Ok(()),
        NodeKind::Linear { inputs, .. } => {
            let ghost edges = crate::text::views(inputs@);
            let mut i: usize = 0;
            while i < inputs.len()
                invariant
                    0 <= i <= inputs@.len(),
                    edges == crate::text::views(inputs@),
                    edges == node@.edges(),
                    dangling_edge(nodes, node.id@, edges, i as int) is None,
                    forall|id: Seq<char>|
                        (#[trigger] crate::table::found(ids@, id) is Some) == node_seen(
                            nodes,
                            nodes.len() as int,
                            id,
                        ),
                decreases inputs@.len() - i,
            {
                let input = &inputs[i];
                assert(edges[i as int] == input@);
                if input.required && ids.get(input.node.as_str()).is_none() {
                    proof {
                        lemma_dangling_edge_stays(
                            nodes,
                            node.id@,
                            edges,
                            i + 1,
                            edges.len() as int,
                        );
                    }
                    return Err(
                        CubeError::UnknownDependency {
                            node: node.id.clone(),
                            dependency: input.node.clone(),
                        },
                    );
                }
                i = i + 1;
            }
            Ok(())
        },
    }
}

/// Whether a table holds the position of each node under its identifier.
pub open spec fn indexed(
    ids: Seq<(Seq<char>, usize)>,
    nodes: Seq<crate::cube::NodeView>,
    n: int,
) -> bool {
    forall|id: Seq<char>|
        match #[trigger] crate::table::found(ids, id) {
            Some(j) => j < n && nodes[j as int].id == id,
            None => !node_seen(nodes, n, id),
        }
}

/// Reject nodes with an empty or repeated identifier, an empty field name, no
/// or faulty edges, or a required edge that leads nowhere. The result of valid
/// nodes is the position of each under its identifier.
pub fn validate_nodes(nodes: &Vec<NodeSpec>) -> (result: Result<Table<usize>, CubeError>)
    ensures
        reports(result, nodes_fault(crate::text::views(nodes@))),
        result matches Ok(ids) ==> indexed(
            ids@,
            crate::text::views(nodes@),
            nodes@.len() as int,
        ),
{
    let ghost all = crate::text::views(nodes@);
    let ghost n = nodes@.len() as int;
    let mut ids: Table<usize> = Table::new();
    let mut i: usize = 0;
    while i < nodes.len()
        invariant
            0 <= i <= nodes@.len(),
            n == nodes@.len(),
            all == crate::text::views(nodes@),
            declarations_fault(all, i as int) is None,
            indexed(ids@, all, i as int),
        decreases nodes@.len() - i,
    {
        let node = &nodes[i];
        assert(all[i as int] == node@);
        if is_blank(node.id.as_str()) {
            proof {
                lemma_declarations_fault_stays(all, i + 1, n);
            }
            return Err(CubeError::EmptyIdentifier { kind: "node id" });
        }
        let known: bool = ids.get(node.id.as_str()).is_some();
        if known {
            proof {
                assert(node_seen(all, i as int, node.id@));
                lemma_declarations_fault_stays(all, i + 1, n);
            }
            return Err(CubeError::DuplicateNode(node.id.clone()));
        }
        match validate_declaration(node, Ghost(all), Ghost(i as int)) {
            Ok(()) => {},
            Err(fault) => {
                proof {
                    lemma_declarations_fault_stays(all, i + 1, n);
                }
                return Err(fault);
            },
        }
        let ghost before = ids@;
        ids.insert(node.id.clone(), i);
        proof {
            assert forall|id: Seq<char>|
                match #[trigger] crate::table::found(ids@, id) {
                    Some(j) => j < i + 1 && all[j as int].id == id,
                    None => !node_seen(all, i + 1, id),
                } by {
                crate::table::lemma_entered(before, node.id@, i, id);
                if id != node.id@ {
                    assert(crate::table::found(ids@, id) == crate::table::found(before, id));
                }
            }
        }
        i = i + 1;
    }
    let mut k: usize = 0;
    proof {
        assert forall|id: Seq<char>|
            (#[trigger] crate::table::found(ids@, id) is Some) == node_seen(all, n, id) by {
            match crate::table::found(ids@, id) {
                Some(j) => {
                    assert(all[j as int].id == id);
                },
                None => {},
            }
        }
    }
    while k < nodes.len()
        invariant
            0 <= k <= nodes@.len(),
            n == nodes@.len(),
            all == crate::text::views(nodes@),
            declarations_fault(all, n) is None,
            dangling_fault(all, k as int) is None,
            forall|id: Seq<char>|
                (#[trigger] crate::table::found(ids@, id) is Some) == node_seen(all, n, id),
        decreases nodes@.len() - k,
    {
        assert(all[k as int] == nodes@[k as int]@);
        match validate_required(&nodes[k], &ids, Ghost(all)) {
            Ok(()) => {},
            Err(fault) => {
                proof {
                    lemma_dangling_fault_stays(all, k + 1, n);
                }
                return Err(fault);
            },
        }
        k = k + 1;
    }
    Ok(ids)
}

proof fn lemma_rows_fault(rows: Seq<crate::cube::RowView>, n: int)
    requires
        0 <= n <= rows.len(),
    ensures
        rows_fault(rows, n) is None <==> {
            &&& forall|i: int| 0 <= i < n ==> !crate::text::blank((#[trigger] rows[i]).key)
            &&& forall|i: int, j: int|
                0 <= i < j < n ==> (#[trigger] rows[i]).key != (#[trigger] rows[j]).key
        },
    decreases n,
{
    if n > 0 {
        lemma_rows_fault(rows, n - 1);
        if rows_fault(rows, n) is None {
            assert forall|i: int, j: int| 0 <= i < j < n implies (#[trigger] rows[i]).key != (
            #[trigger] rows[j]).key by {
                if j == n - 1 {
                    assert(!row_seen(rows, j, rows[j].key));
                }
            }
        } else if rows_fault(rows, n - 1) is None {
            if row_seen(rows, n - 1, rows[n - 1].key) {
                let j = choose|j: int| 0 <= j < n - 1 && (#[trigger] rows[j]).key == rows[n - 1].key;
                assert(rows[j].key == rows[n - 1].key);
            }
        }
    }
}

/// Rows are accepted exactly where every key holds more than white space and
/// no key comes twice.
pub proof fn lemma_rows_are_accepted(rows: &Vec<InputRow>, result: Result<(), CubeError>)
    requires
        call_ensures(validate_rows, (rows,), result),
    ensures
        result is Ok <==> {
            &&& forall|i: int|
                0 <= i < rows@.len() ==> !crate::text::blank((#[trigger] rows@[i]).key@)
            &&& forall|i: int, j: int|
                0 <= i < j < rows@.len() ==> (#[trigger] rows@[i]).key@ != (
                #[trigger] rows@[j]).key@
        },
{
    let all = crate::text::views(rows@);
    lemma_rows_fault(all, all.len() as int);
    assert(forall|i: int| 0 <= i < all.len() ==> (#[trigger] all[i]) == rows@[i]@);
    if result is Ok {
        assert forall|i: int| 0 <= i < rows@.len() implies !crate::text::blank(
            (#[trigger] rows@[i]).key@,
        ) by {
            assert(!crate::text::blank(all[i].key));
        }
        assert forall|i: int, j: int| 0 <= i < j < rows@.len() implies (#[trigger] rows@[i]).key@
            != (#[trigger] rows@[j]).key@ by {
            assert(all[i].key != all[j].key);
        }
    } else {
        assert(rows_fault(all, all.len() as int) is Some);
    }
}

/// Whether the inputs of a linear node are in order: there are some, with
/// finite weights, each from another node.
pub open spec fn inputs_in_order(edges: Seq<crate::cube::EdgeView>) -> bool {
    &&& edges.len() > 0
    &&& forall|k: int| 0 <= k < edges.len() ==> (#[trigger] edges[k]).weight.finite()
    &&& forall|k: int, l: int|
        0 <= k < l < edges.len() ==> (#[trigger] edges[k]).node != (#[trigger] edges[l]).node
}

proof fn lemma_edges_fault(id: Seq<char>, edges: Seq<crate::cube::EdgeView>, n: int)
    requires
        0 <= n <= edges.len(),
    ensures
        edges_fault(id, edges, n) is None <==> {
            &&& forall|k: int| 0 <= k < n ==> (#[trigger] edges[k]).weight.finite()
            &&& forall|k: int, l: int|
                0 <= k < l < n ==> (#[trigger] edges[k]).node != (#[trigger] edges[l]).node
        },
    decreases n,
{
    if n > 0 {
        lemma_edges_fault(id, edges, n - 1);
        if edges_fault(id, edges, n) is None {
            assert forall|k: int, l: int| 0 <= k < l < n implies (#[trigger] edges[k]).node != (
            #[trigger] edges[l]).node by {
                if l == n - 1 {
                    assert(!edge_seen(edges, l, edges[l].node));
                }
            }
        } else if edges_fault(id, edges, n - 1) is None {
            if edge_seen(edges, n - 1, edges[n - 1].node) {
                let j = choose|j: int|
                    0 <= j < n - 1 && (#[trigger] edges[j]).node == edges[n - 1].node;
                assert(edges[j].node == edges[n - 1].node);
            }
        }
    }
}

/// Whether a node is in order by itself.
pub open spec fn node_in_order(node: crate::cube::NodeView) -> bool {
    &&& !crate::text::blank(node.id)
    &&& match node.kind {
        crate::cube::KindView::Field { field } => !crate::text::blank(field),
        crate::cube::KindView::Linear { inputs, .. } => inputs_in_order(inputs),
    }
}

proof fn lemma_declarations_fault(nodes: Seq<crate::cube::NodeView>, n: int)
    requires
        0 <= n <= nodes.len(),
    ensures
        declarations_fault(nodes, n) is None <==> {
            &&& forall|i: int| 0 <= i < n ==> node_in_order(#[trigger] nodes[i])
            &&& forall|i: int, j: int|
                0 <= i < j < n ==> (#[trigger] nodes[i]).id != (#[trigger] nodes[j]).id
        },
    decreases n,
{
    if n > 0 {
        lemma_declarations_fault(nodes, n - 1);
        let node = nodes[n - 1];
        match node.kind {
            crate::cube::KindView::Field { .. } => {},
            crate::cube::KindView::Linear { inputs, .. } => {
                lemma_edges_fault(node.id, inputs, inputs.len() as int);
            },
        }
        if declarations_fault(nodes, n) is None {
            assert forall|i: int, j: int| 0 <= i < j < n implies (#[trigger] nodes[i]).id != (
            #[trigger] nodes[j]).id by {
                if j == n - 1 {
                    assert(!node_seen(nodes, j, nodes[j].id));
                }
            }
        } else if declarations_fault(nodes, n - 1) is None {
            if node_seen(nodes, n - 1, node.id) {
                let j = choose|j: int| 0 <= j < n - 1 && (#[trigger] nodes[j]).id == node.id;
                assert(nodes[j].id == nodes[n - 1].id);
            } else {
                assert(!node_in_order(nodes[n - 1]));
            }
        }
    }
}

/// Whether every required input of the first `n` edges is declared.
pub open spec fn inputs_declared(
    nodes: Seq<crate::cube::NodeView>,
    edges: Seq<crate::cube::EdgeView>,
    n: int,
) -> bool {
    forall|k: int|
        0 <= k < n && (#[trigger] edges[k]).required ==> exists|j: int|
            0 <= j < nodes.len() && (#[trigger] nodes[j]).id == edges[k].node
}

proof fn lemma_dangling_edge(
    nodes: Seq<crate::cube::NodeView>,
    id: Seq<char>,
    edges: Seq<crate::cube::EdgeView>,
    n: int,
)
    requires
        0 <= n <= edges.len(),
    ensures
        dangling_edge(nodes, id, edges, n) is None <==> inputs_declared(nodes, edges, n),
    decreases n,
{
    if n > 0 {
        lemma_dangling_edge(nodes, id, edges, n - 1);
        let seen = node_seen(nodes, nodes.len() as int, edges[n - 1].node);
        if inputs_declared(nodes, edges, n) {
            assert forall|k: int| 0 <= k < n - 1 && (#[trigger] edges[k]).required implies exists|
                j: int,
            | 0 <= j < nodes.len() && (#[trigger] nodes[j]).id == edges[k].node by {
                assert(edges[k].required);
            }
            assert(edges[n - 1].required ==> seen);
        }
    }
}

proof fn lemma_dangling_fault(nodes: Seq<crate::cube::NodeView>, n: int)
    requires
        0 <= n <= nodes.len(),
    ensures
        dangling_fault(nodes, n) is None <==> forall|i: int|
            0 <= i < n ==> inputs_declared(
                nodes,
                (#[trigger] nodes[i]).edges(),
                nodes[i].edges().len() as int,
            ),
    decreases n,
{
    if n > 0 {
        lemma_dangling_fault(nodes, n - 1);
        lemma_dangling_edge(
            nodes,
            nodes[n - 1].id,
            nodes[n - 1].edges(),
            nodes[n - 1].edges().len() as int,
        );
        if dangling_fault(nodes, n) is Some && dangling_fault(nodes, n - 1) is None {
            assert(!inputs_declared(
                nodes,
                nodes[n - 1].edges(),
                nodes[n - 1].edges().len() as int,
            ));
        }
    }
}

/// A graph is declared well exactly where every identifier and field holds
/// more than white space, no identifier comes twice, every linear node has
/// inputs with finite weights from different nodes, and every required input
/// is one of the nodes.
pub proof fn lemma_declared_graphs(nodes: Seq<crate::cube::NodeView>)
    ensures
        nodes_fault(nodes) is None <==> {
            &&& forall|i: int| 0 <= i < nodes.len() ==> node_in_order(#[trigger] nodes[i])
            &&& forall|i: int, j: int|
                0 <= i < j < nodes.len() ==> (#[trigger] nodes[i]).id != (#[trigger] nodes[j]).id
            &&& forall|i: int|
                0 <= i < nodes.len() ==> inputs_declared(
                    nodes,
                    (#[trigger] nodes[i]).edges(),
                    nodes[i].edges().len() as int,
                )
        },
{
    lemma_declarations_fault(nodes, nodes.len() as int);
    lemma_dangling_fault(nodes, nodes.len() as int);
}

} // verus!
