//! Inputs, node declarations and results of a calculation.

use crate::number::Double;
use crate::table::Table;
use crate::text::{push_decimal, same_text};
use vstd::prelude::*;
use vstd::string::*;

verus! {

/// Selects the operational context recorded with a snapshot.
#[derive(Debug, Clone, Copy, PartialEq, Eq, Structural)]
pub enum ExecutionMode {
    /// A continuing stream of strictly newer generations.
    Live,
    /// Deterministic re-evaluation of previously observed inputs.
    Replay,
    /// An offline bounded calculation.
    Batch,
}

/// Cross-sectional transformation applied after a node produces raw values.
#[derive(Debug, Clone, Copy, PartialEq, Eq, Structural)]
pub enum Transform {
    /// Preserve finite values unchanged.
    Identity,
    /// Center and scale using the population standard deviation.
    ZScore,
    /// Assign ascending, one-based ranks with average ranks for ties.
    Rank,
    /// Map ranks to the closed interval `[0, 1]`.
    Percentile,
    /// Rank values first, then z-score the resulting ranks.
    RankZScore,
}

impl Default for Transform {
    fn default() -> (transform: Self)
        ensures
            transform == Transform::Identity,
    {
        Transform::Identity
    }
}

/// Primitive values observed for one stable entity.
#[derive(Debug, PartialEq)]
pub struct InputRow {
    /// Stable entity key within this update.
    pub key: String,
    /// Unix-epoch milliseconds at which this row was observed.
    pub observed_at_ms: i64,
    /// Named primitive inputs available for calculation.
    pub fields: Table<Double>,
}

/// What an [`InputRow`] holds.
#[verifier::ext_equal]
pub struct RowView {
    /// Entity key.
    pub key: Seq<char>,
    /// Observation time.
    pub observed_at_ms: i64,
    /// Named values in dictionary order.
    pub fields: Seq<(Seq<char>, Double)>,
}

impl View for InputRow {
    type V = RowView;

    open spec fn view(&self) -> RowView {
        RowView { key: self.key@, observed_at_ms: self.observed_at_ms, fields: self.fields@ }
    }
}

impl InputRow {
    /// Create an empty row for `key` at `observed_at_ms`.
    pub fn new(key: &str, observed_at_ms: i64) -> (row: Self)
        ensures
            row@ == (RowView { key: key@, observed_at_ms, fields: Seq::empty() }),
    {
        InputRow { key: key.to_owned(), observed_at_ms, fields: Table::new() }
    }

    /// Add or replace one named field and return the row for chaining.
    pub fn with_field(self, name: &str, value: Double) -> (row: Self)
        ensures
            row@ == (RowView { fields: crate::table::entered(self@.fields, name@, value), ..self@ }),
    {
        let InputRow { key, observed_at_ms, fields } = self;
        let mut fields = fields;
        fields.insert(name.to_owned(), value);
        InputRow { key, observed_at_ms, fields }
    }
}

impl Clone for InputRow {
    fn clone(&self) -> (copy: Self)
        ensures
            copy@ == self@,
    {
        InputRow {
            key: self.key.clone(),
            observed_at_ms: self.observed_at_ms,
            fields: self.fields.clone(),
        }
    }
}

/// One weighted edge into a [`NodeKind::Linear`] node.
#[derive(Debug, PartialEq)]
pub struct WeightedInput {
    /// Identifier of the upstream node.
    pub node: String,
    /// Signed coefficient applied to the upstream value.
    pub weight: Double,
    /// Whether a missing value suppresses this entity's output.
    pub required: bool,
}

/// What a [`WeightedInput`] holds.
#[verifier::ext_equal]
pub struct EdgeView {
    /// Upstream node.
    pub node: Seq<char>,
    /// Coefficient.
    pub weight: Double,
    /// Whether the value must be there.
    pub required: bool,
}

impl View for WeightedInput {
    type V = EdgeView;

    open spec fn view(&self) -> EdgeView {
        EdgeView { node: self.node@, weight: self.weight, required: self.required }
    }
}

impl WeightedInput {
    /// Declare a dependency that must have a value for each emitted entity.
    pub fn required(node: &str, weight: Double) -> (edge: Self)
        ensures
            edge@ == (EdgeView { node: node@, weight, required: true }),
    {
        WeightedInput { node: node.to_owned(), weight, required: true }
    }

    /// Declare a dependency that may be absent for an entity.
    pub fn optional(node: &str, weight: Double) -> (edge: Self)
        ensures
            edge@ == (EdgeView { node: node@, weight, required: false }),
    {
        WeightedInput { node: node.to_owned(), weight, required: false }
    }
}

impl Clone for WeightedInput {
    fn clone(&self) -> (copy: Self)
        ensures
            copy@ == self@,
    {
        WeightedInput { node: self.node.clone(), weight: self.weight, required: self.required }
    }
}

/// Calculation performed by a node.
#[derive(Debug, PartialEq)]
pub enum NodeKind {
    /// Read one primitive field from every input row.
    Field {
        /// Name in [`InputRow::fields`].
        field: String,
    },
    /// Form a weighted combination of previously resolved nodes.
    Linear {
        /// Incoming dependency edges.
        inputs: Vec<WeightedInput>,
        /// Divide by the sum of absolute available weights when true.
        normalize_weights: bool,
    },
}

/// What a [`NodeKind`] holds.
#[verifier::ext_equal]
pub enum KindView {
    /// A primitive field.
    Field {
        /// Its name.
        field: Seq<char>,
    },
    /// A weighted combination.
    Linear {
        /// Incoming edges.
        inputs: Seq<EdgeView>,
        /// Whether the weights are normalized.
        normalize_weights: bool,
    },
}

impl View for NodeKind {
    type V = KindView;

    open spec fn view(&self) -> KindView {
        match self {
            NodeKind::Field { field } => KindView::Field { field: field@ },
            NodeKind::Linear { inputs, normalize_weights } => KindView::Linear {
                inputs: crate::text::views(inputs@),
                normalize_weights: *normalize_weights,
            },
        }
    }
}

fn copied_edges(edges: &Vec<WeightedInput>) -> (copy: Vec<WeightedInput>)
    ensures
        crate::text::views(copy@) == crate::text::views(edges@),
{
    let mut copy: Vec<WeightedInput> = Vec::new();
    let mut i: usize = 0;
    while i < edges.len()
        invariant
            0 <= i <= edges@.len(),
            copy@.len() == i,
            forall|k: int| 0 <= k < i ==> (#[trigger] copy@[k])@ == edges@[k]@,
        decreases edges@.len() - i,
    {
        copy.push(edges[i].clone());
        i = i + 1;
    }
    assert(crate::text::views(copy@) =~= crate::text::views(edges@));
    copy
}

impl Clone for NodeKind {
    fn clone(&self) -> (copy: Self)
        ensures
            copy@ == self@,
    {
        match self {
            NodeKind::Field { field } => NodeKind::Field { field: field.clone() },
            NodeKind::Linear { inputs, normalize_weights } => NodeKind::Linear {
                inputs: copied_edges(inputs),
                normalize_weights: *normalize_weights,
            },
        }
    }
}

/// Version-independent declaration of one calculated cross-section.
#[derive(Debug, PartialEq)]
pub struct NodeSpec {
    /// Unique node identifier within the update.
    pub id: String,
    /// Cross-sectional transformation applied to this node's raw output.
    pub transform: Transform,
    /// Primitive or derived calculation for this node.
    pub kind: NodeKind,
}

/// What a [`NodeSpec`] holds.
#[verifier::ext_equal]
pub struct NodeView {
    /// Identifier.
    pub id: Seq<char>,
    /// Transformation.
    pub transform: Transform,
    /// Calculation.
    pub kind: KindView,
}

impl View for NodeSpec {
    type V = NodeView;

    open spec fn view(&self) -> NodeView {
        NodeView { id: self.id@, transform: self.transform, kind: self.kind@ }
    }
}

impl NodeView {
    /// The incoming edges of a node: none for a primitive field.
    pub open spec fn edges(self) -> Seq<EdgeView> {
        match self.kind {
            KindView::Field { .. } => Seq::empty(),
            KindView::Linear { inputs, .. } => inputs,
        }
    }
}

impl NodeSpec {
    /// Declare a node that reads one primitive field.
    pub fn field(id: &str, field: &str, transform: Transform) -> (node: Self)
        ensures
            node@ == (NodeView { id: id@, transform, kind: KindView::Field { field: field@ } }),
    {
        NodeSpec {
            id: id.to_owned(),
            transform,
            kind: NodeKind::Field { field: field.to_owned() },
        }
    }

    /// Declare a weighted derived node.
    pub fn linear(
        id: &str,
        inputs: Vec<WeightedInput>,
        normalize_weights: bool,
        transform: Transform,
    ) -> (node: Self)
        ensures
            node@ == (NodeView {
                id: id@,
                transform,
                kind: KindView::Linear {
                    inputs: crate::text::views(inputs@),
                    normalize_weights,
                },
            }),
    {
        NodeSpec {
            id: id.to_owned(),
            transform,
            kind: NodeKind::Linear { inputs, normalize_weights },
        }
    }
}

impl Clone for NodeSpec {
    fn clone(&self) -> (copy: Self)
        ensures
            copy@ == self@,
    {
        NodeSpec { id: self.id.clone(), transform: self.transform, kind: self.kind.clone() }
    }
}

/// Copy a list of node declarations.
pub fn copied_nodes(nodes: &Vec<NodeSpec>) -> (copy: Vec<NodeSpec>)
    ensures
        crate::text::views(copy@) == crate::text::views(nodes@),
{
    let mut copy: Vec<NodeSpec> = Vec::new();
    let mut i: usize = 0;
    while i < nodes.len()
        invariant
            0 <= i <= nodes@.len(),
            copy@.len() == i,
            forall|k: int| 0 <= k < i ==> (#[trigger] copy@[k])@ == nodes@[k]@,
        decreases nodes@.len() - i,
    {
        copy.push(nodes[i].clone());
        i = i + 1;
    }
    assert(crate::text::views(copy@) =~= crate::text::views(nodes@));
    copy
}

/// Copy a list of rows.
pub fn copied_rows(rows: &Vec<InputRow>) -> (copy: Vec<InputRow>)
    ensures
        crate::text::views(copy@) == crate::text::views(rows@),
{
    let mut copy: Vec<InputRow> = Vec::new();
    let mut i: usize = 0;
    while i < rows.len()
        invariant
            0 <= i <= rows@.len(),
            copy@.len() == i,
            forall|k: int| 0 <= k < i ==> (#[trigger] copy@[k])@ == rows@[k]@,
        decreases rows@.len() - i,
    {
        copy.push(rows[i].clone());
        i = i + 1;
    }
    assert(crate::text::views(copy@) =~= crate::text::views(rows@));
    copy
}

/// One coherent input generation presented to the engine.
#[derive(Debug, PartialEq)]
pub struct Update {
    /// Strictly increasing generation number.
    pub generation: u64,
    /// Publication time for the generation, in Unix-epoch milliseconds.
    pub observed_at_ms: i64,
    /// Operational context recorded in the output.
    pub mode: ExecutionMode,
    /// Primitive entity rows for this generation.
    pub rows: Vec<InputRow>,
    /// Complete graph to evaluate.
    pub nodes: Vec<NodeSpec>,
}

/// What an [`Update`] holds.
#[verifier::ext_equal]
pub struct UpdateView {
    /// Generation.
    pub generation: u64,
    /// Publication time.
    pub observed_at_ms: i64,
    /// Operational context.
    pub mode: ExecutionMode,
    /// Rows.
    pub rows: Seq<RowView>,
    /// Nodes.
    pub nodes: Seq<NodeView>,
}

impl View for Update {
    type V = UpdateView;

    open spec fn view(&self) -> UpdateView {
        UpdateView {
            generation: self.generation,
            observed_at_ms: self.observed_at_ms,
            mode: self.mode,
            rows: crate::text::views(self.rows@),
            nodes: crate::text::views(self.nodes@),
        }
    }
}

impl Clone for Update {
    fn clone(&self) -> (copy: Self)
        ensures
            copy@ == self@,
    {
        Update {
            generation: self.generation,
            observed_at_ms: self.observed_at_ms,
            mode: self.mode,
            rows: copied_rows(&self.rows),
            nodes: copied_nodes(&self.nodes),
        }
    }
}

/// One calculated value at the `(node, entity)` coordinate.
#[derive(Debug, PartialEq)]
pub struct CellValue {
    /// Producing node identifier.
    pub node: String,
    /// Entity key.
    pub key: String,
    /// Finite calculated value.
    pub value: Double,
    /// Oldest observation time that contributed to this value.
    pub observed_at_ms: i64,
}

/// What a [`CellValue`] holds.
#[verifier::ext_equal]
pub struct CellView {
    /// Producing node.
    pub node: Seq<char>,
    /// Entity key.
    pub key: Seq<char>,
    /// Value.
    pub value: Double,
    /// Observation time.
    pub observed_at_ms: i64,
}

impl View for CellValue {
    type V = CellView;

    open spec fn view(&self) -> CellView {
        CellView {
            node: self.node@,
            key: self.key@,
            value: self.value,
            observed_at_ms: self.observed_at_ms,
        }
    }
}

impl Clone for CellValue {
    fn clone(&self) -> (copy: Self)
        ensures
            copy@ == self@,
    {
        CellValue {
            node: self.node.clone(),
            key: self.key.clone(),
            value: self.value,
            observed_at_ms: self.observed_at_ms,
        }
    }
}

/// Per-node diagnostics for one completed generation.
#[derive(Debug, PartialEq, Eq)]
pub struct NodeStatus {
    /// Node identifier.
    pub node: String,
    /// Number of emitted entity values.
    pub values: usize,
    /// Number of input entities without an emitted value.
    pub missing: usize,
    /// Local calculation duration in microseconds.
    pub compute_micros: u64,
}

/// What a [`NodeStatus`] holds.
#[verifier::ext_equal]
pub struct StatusView {
    /// Node.
    pub node: Seq<char>,
    /// Emitted values.
    pub values: usize,
    /// Entities without a value.
    pub missing: usize,
    /// Duration.
    pub compute_micros: u64,
}

impl View for NodeStatus {
    type V = StatusView;

    open spec fn view(&self) -> StatusView {
        StatusView {
            node: self.node@,
            values: self.values,
            missing: self.missing,
            compute_micros: self.compute_micros,
        }
    }
}

impl Clone for NodeStatus {
    fn clone(&self) -> (copy: Self)
        ensures
            copy@ == self@,
    {
        NodeStatus {
            node: self.node.clone(),
            values: self.values,
            missing: self.missing,
            compute_micros: self.compute_micros,
        }
    }
}

/// Coherent result of evaluating every declared node for one generation.
#[derive(Debug, PartialEq)]
pub struct Snapshot {
    /// Input generation represented by the snapshot.
    pub generation: u64,
    /// Publication time copied from the update.
    pub observed_at_ms: i64,
    /// Operational context copied from the update.
    pub mode: ExecutionMode,
    /// Number of distinct input entities.
    pub entity_count: usize,
    /// Values ordered first by node declaration, then by entity key.
    pub values: Vec<CellValue>,
    /// Status rows ordered by node declaration.
    pub statuses: Vec<NodeStatus>,
}

/// What a [`Snapshot`] holds.
#[verifier::ext_equal]
pub struct SnapshotView {
    /// Generation.
    pub generation: u64,
    /// Publication time.
    pub observed_at_ms: i64,
    /// Operational context.
    pub mode: ExecutionMode,
    /// Number of entities.
    pub entity_count: usize,
    /// Values.
    pub values: Seq<CellView>,
    /// Status rows.
    pub statuses: Seq<StatusView>,
}

impl View for Snapshot {
    type V = SnapshotView;

    open spec fn view(&self) -> SnapshotView {
        SnapshotView {
            generation: self.generation,
            observed_at_ms: self.observed_at_ms,
            mode: self.mode,
            entity_count: self.entity_count,
            values: crate::text::views(self.values@),
            statuses: crate::text::views(self.statuses@),
        }
    }
}

/// The cells of one node.
pub open spec fn cells_of(cells: Seq<CellView>, node: Seq<char>) -> Seq<CellView> {
    cells.filter(|cell: CellView| cell.node == node)
}

/// The value of the first cell at a node and an entity key.
pub open spec fn value_at(cells: Seq<CellView>, node: Seq<char>, key: Seq<char>) -> Option<Double>
    decreases cells.len(),
{
    if cells.len() == 0 {
        None
    } else if cells[0].node == node && cells[0].key == key {
        Some(cells[0].value)
    } else {
        value_at(cells.drop_first(), node, key)
    }
}

/// The views of a sequence of references, one for one.
pub open spec fn cells_behind(cells: Seq<&CellValue>) -> Seq<CellView> {
    Seq::new(cells.len(), |i: int| (*cells[i])@)
}

impl Snapshot {
    /// Select all values produced by `node`, in entity-key order.
    pub fn slice(&self, node: &str) -> (cells: Vec<&CellValue>)
        ensures
            cells_behind(cells@) == cells_of(self@.values, node@),
    {
        let mut cells: Vec<&CellValue> = Vec::new();
        let mut i: usize = 0;
        let ghost all = self@.values;
        let ghost wanted = |cell: CellView| cell.node == node@;
        assert(cells_behind(cells@) =~= all.take(0).filter(wanted)) by {
            reveal(Seq::filter);
        }
        while i < self.values.len()
            invariant
                0 <= i <= self.values@.len(),
                all == crate::text::views(self.values@),
                wanted == (|cell: CellView| cell.node == node@),
                cells_behind(cells@) == all.take(i as int).filter(wanted),
            decreases self.values@.len() - i,
        {
            let ghost before = cells@;
            let cell = &self.values[i];
            if same_text(cell.node.as_str(), node) {
                cells.push(cell);
                assert(cells_behind(cells@) =~= cells_behind(before).push(cell@));
            }
            proof {
                reveal(Seq::filter);
                assert(all.take(i + 1).drop_last() =~= all.take(i as int));
                assert(all.take(i + 1).last() == cell@);
            }
            i = i + 1;
        }
        assert(all.take(i as int) =~= all);
        cells
    }

    /// Look up one calculated value by node and entity key.
    pub fn value(&self, node: &str, key: &str) -> (value: Option<Double>)
        ensures
            value == value_at(self@.values, node@, key@),
    {
        let mut i: usize = 0;
        let ghost all = self@.values;
        assert(all.skip(0) =~= all);
        while i < self.values.len()
            invariant
                0 <= i <= self.values@.len(),
                all == crate::text::views(self.values@),
                value_at(all, node@, key@) == value_at(all.skip(i as int), node@, key@),
            decreases self.values@.len() - i,
        {
            let cell = &self.values[i];
            assert(all.skip(i as int)[0] == cell@);
            if same_text(cell.node.as_str(), node) && same_text(cell.key.as_str(), key) {
                return Some(cell.value);
            }
            assert(all.skip(i as int).drop_first() =~= all.skip(i + 1));
            i = i + 1;
        }
        None
    }
}

impl Clone for Snapshot {
    fn clone(&self) -> (copy: Self)
        ensures
            copy@ == self@,
    {
        let mut values: Vec<CellValue> = Vec::new();
        let mut i: usize = 0;
        while i < self.values.len()
            invariant
                0 <= i <= self.values@.len(),
                values@.len() == i,
                forall|k: int| 0 <= k < i ==> (#[trigger] values@[k])@ == self.values@[k]@,
            decreases self.values@.len() - i,
        {
            values.push(self.values[i].clone());
            i = i + 1;
        }
        let mut statuses: Vec<NodeStatus> = Vec::new();
        let mut j: usize = 0;
        while j < self.statuses.len()
            invariant
                0 <= j <= self.statuses@.len(),
                statuses@.len() == j,
                forall|k: int| 0 <= k < j ==> (#[trigger] statuses@[k])@ == self.statuses@[k]@,
            decreases self.statuses@.len() - j,
        {
            statuses.push(self.statuses[j].clone());
            j = j + 1;
        }
        let copy = Snapshot {
            generation: self.generation,
            observed_at_ms: self.observed_at_ms,
            mode: self.mode,
            entity_count: self.entity_count,
            values,
            statuses,
        };
        assert(copy@.values =~= self@.values);
        assert(copy@.statuses =~= self@.statuses);
        copy
    }
}

/// Validation or dependency-resolution failure.
#[derive(Debug, PartialEq)]
pub enum CubeError {
    /// The update did not advance beyond the last successful generation.
    StaleGeneration {
        /// Rejected generation.
        generation: u64,
        /// Last successfully completed generation.
        previous: u64,
    },
    /// A required row, node, or field identifier was empty.
    EmptyIdentifier {
        /// Kind of identifier that was empty.
        kind: &'static str,
    },
    /// More than one input row used the same key.
    DuplicateRow(String),
    /// More than one node used the same identifier.
    DuplicateNode(String),
    /// A linear node declared no incoming edges.
    EmptyLinearNode {
        /// Invalid node identifier.
        node: String,
    },
    /// A linear node repeated an upstream identifier.
    DuplicateInput {
        /// Invalid node identifier.
        node: String,
        /// Repeated upstream identifier.
        input: String,
    },
    /// A coefficient was NaN or infinite.
    InvalidWeight {
        /// Invalid node identifier.
        node: String,
        /// Upstream edge carrying the bad coefficient.
        input: String,
    },
    /// A required edge referred to no declared node.
    UnknownDependency {
        /// Invalid node identifier.
        node: String,
        /// Required upstream identifier that was not declared.
        dependency: String,
    },
    /// The remaining unresolved nodes form a dependency cycle.
    DependencyCycle(String),
}

/// What a [`CubeError`] holds.
#[verifier::ext_equal]
pub enum CubeErrorView {
    /// The update did not advance.
    StaleGeneration {
        /// Rejected generation.
        generation: u64,
        /// Last completed generation.
        previous: u64,
    },
    /// An identifier was empty.
    EmptyIdentifier {
        /// Which one.
        kind: Seq<char>,
    },
    /// A row key was repeated.
    DuplicateRow(Seq<char>),
    /// A node identifier was repeated.
    DuplicateNode(Seq<char>),
    /// A linear node has no edges.
    EmptyLinearNode {
        /// The node.
        node: Seq<char>,
    },
    /// A linear node repeats an edge.
    DuplicateInput {
        /// The node.
        node: Seq<char>,
        /// The repeated edge.
        input: Seq<char>,
    },
    /// A coefficient is not finite.
    InvalidWeight {
        /// The node.
        node: Seq<char>,
        /// The edge.
        input: Seq<char>,
    },
    /// A required edge leads nowhere.
    UnknownDependency {
        /// The node.
        node: Seq<char>,
        /// The missing node.
        dependency: Seq<char>,
    },
    /// Some nodes wait for each other.
    DependencyCycle(Seq<char>),
}

impl View for CubeError {
    type V = CubeErrorView;

    open spec fn view(&self) -> CubeErrorView {
        match self {
            CubeError::StaleGeneration { generation, previous } => CubeErrorView::StaleGeneration {
                generation: *generation,
                previous: *previous,
            },
            CubeError::EmptyIdentifier { kind } => CubeErrorView::EmptyIdentifier { kind: kind@ },
            CubeError::DuplicateRow(key) => CubeErrorView::DuplicateRow(key@),
            CubeError::DuplicateNode(id) => CubeErrorView::DuplicateNode(id@),
            CubeError::EmptyLinearNode { node } => CubeErrorView::EmptyLinearNode { node: node@ },
            CubeError::DuplicateInput { node, input } => CubeErrorView::DuplicateInput {
                node: node@,
                input: input@,
            },
            CubeError::InvalidWeight { node, input } => CubeErrorView::InvalidWeight {
                node: node@,
                input: input@,
            },
            CubeError::UnknownDependency { node, dependency } => CubeErrorView::UnknownDependency {
                node: node@,
                dependency: dependency@,
            },
            CubeError::DependencyCycle(ids) => CubeErrorView::DependencyCycle(ids@),
        }
    }
}

impl CubeErrorView {
    /// The message for a reader.
    pub open spec fn message(self) -> Seq<char> {
        match self {
            CubeErrorView::StaleGeneration { generation, previous } => "generation "@ + crate::text::decimal(
                generation as nat,
            ) + " is not newer than "@ + crate::text::decimal(previous as nat),
            CubeErrorView::EmptyIdentifier { kind } => "identifier cannot be empty: "@ + kind,
            CubeErrorView::DuplicateRow(key) => "duplicate row key: "@ + key,
            CubeErrorView::DuplicateNode(id) => "duplicate node id: "@ + id,
            CubeErrorView::EmptyLinearNode { node } => "node "@ + node + " has no inputs"@,
            CubeErrorView::DuplicateInput { node, input } => "node "@ + node
                + " has duplicate input "@ + input,
            CubeErrorView::InvalidWeight { node, input } => "node "@ + node
                + " has a non-finite weight for "@ + input,
            CubeErrorView::UnknownDependency { node, dependency } => "node "@ + node
                + " requires unknown dependency "@ + dependency,
            CubeErrorView::DependencyCycle(ids) => "dependency cycle among nodes: "@ + ids,
        }
    }
}

impl CubeError {
    /// Return the message for a reader.
    pub fn message(&self) -> (text: String)
        ensures
            text@ == self@.message(),
    {
        match self {
            CubeError::StaleGeneration { generation, previous } => {
                let mut text: String = "generation ".to_owned();
                push_decimal(&mut text, *generation);
                text.append(" is not newer than ");
                push_decimal(&mut text, *previous);
                text
            },
            CubeError::EmptyIdentifier { kind } => "identifier cannot be empty: ".to_owned().concat(
                kind,
            ),
            CubeError::DuplicateRow(key) => "duplicate row key: ".to_owned().concat(key.as_str()),
            CubeError::DuplicateNode(id) => "duplicate node id: ".to_owned().concat(id.as_str()),
            CubeError::EmptyLinearNode { node } => "node ".to_owned().concat(
                node.as_str(),
            ).concat(" has no inputs"),
            CubeError::DuplicateInput { node, input } => "node ".to_owned().concat(
                node.as_str(),
            ).concat(" has duplicate input ").concat(input.as_str()),
            CubeError::InvalidWeight { node, input } => "node ".to_owned().concat(
                node.as_str(),
            ).concat(" has a non-finite weight for ").concat(input.as_str()),
            CubeError::UnknownDependency { node, dependency } => "node ".to_owned().concat(
                node.as_str(),
            ).concat(" requires unknown dependency ").concat(dependency.as_str()),
            CubeError::DependencyCycle(ids) => "dependency cycle among nodes: ".to_owned().concat(
                ids.as_str(),
            ),
        }
    }
}

/// Result type returned by the calculation engine.
pub type CubeResult<T> = Result<T, CubeError>;

/// A row keeps its key and its time, holds each value under its name, and
/// keeps every other field when one is added.
pub proof fn lemma_row_holds_fields(
    key: &str,
    observed_at_ms: i64,
    fresh: InputRow,
    row: InputRow,
    name: &str,
    value: Double,
    out: InputRow,
    other: Seq<char>,
)
    requires
        call_ensures(InputRow::new, (key, observed_at_ms), fresh),
        call_ensures(InputRow::with_field, (row, name, value), out),
    ensures
        fresh.key@ == key@,
        fresh.observed_at_ms == observed_at_ms,
        fresh.fields@.len() == 0,
        out.key@ == row.key@,
        out.observed_at_ms == row.observed_at_ms,
        crate::table::found(out.fields@, name@) == Some(value),
        other != name@ ==> crate::table::found(out.fields@, other) == crate::table::found(
            row.fields@,
            other,
        ),
{
    crate::table::lemma_entered(row.fields@, name@, value, other);
}

/// An input names its node and its weight, and is required or not as it was
/// made.
pub proof fn lemma_inputs_keep_weights(
    node: &str,
    weight: Double,
    required: WeightedInput,
    optional: WeightedInput,
)
    requires
        call_ensures(WeightedInput::required, (node, weight), required),
        call_ensures(WeightedInput::optional, (node, weight), optional),
    ensures
        required.node@ == node@,
        required.weight == weight,
        required.required,
        optional.node@ == node@,
        optional.weight == weight,
        !optional.required,
{
}

/// A snapshot is looked up by coordinates. The value of a node and an entity
/// is that of the first cell with both, and there is none exactly where there
/// is no such cell. The slice of a node holds the cells of that node, all of
/// them and no others.
pub proof fn lemma_snapshot_lookups(
    snapshot: &Snapshot,
    node: &str,
    key: &str,
    value: Option<Double>,
    cells: Vec<&CellValue>,
)
    requires
        call_ensures(Snapshot::value, (snapshot, node, key), value),
        call_ensures(Snapshot::slice, (snapshot, node), cells),
    ensures
        value is None <==> forall|k: int|
            0 <= k < snapshot.values@.len() ==> !((#[trigger] snapshot.values@[k]).node@ == node@
                && snapshot.values@[k].key@ == key@),
        value is Some ==> exists|k: int|
            {
                &&& 0 <= k < snapshot.values@.len()
                &&& (#[trigger] snapshot.values@[k]).node@ == node@
                &&& snapshot.values@[k].key@ == key@
                &&& snapshot.values@[k].value == value->0
                &&& forall|j: int|
                    0 <= j < k ==> !((#[trigger] snapshot.values@[j]).node@ == node@
                        && snapshot.values@[j].key@ == key@)
            },
        forall|i: int| 0 <= i < cells@.len() ==> (#[trigger] cells@[i]).node@ == node@,
        forall|k: int|
            0 <= k < snapshot.values@.len() && (#[trigger] snapshot.values@[k]).node@ == node@
                ==> cells_behind(cells@).contains(snapshot.values@[k]@),
{
    broadcast use vstd::seq_lib::group_filter_ensures;

    let all = snapshot@.values;
    lemma_value_at(all, node@, key@);
    assert(forall|k: int| 0 <= k < all.len() ==> (#[trigger] all[k]) == snapshot.values@[k]@);
    if value is None {
        assert forall|k: int| 0 <= k < snapshot.values@.len() implies !((
        #[trigger] snapshot.values@[k]).node@ == node@ && snapshot.values@[k].key@ == key@) by {
            assert(!(all[k].node == node@ && all[k].key == key@));
        }
    } else {
        let k = choose|k: int|
            {
                &&& 0 <= k < all.len()
                &&& (#[trigger] all[k]).node == node@
                &&& all[k].key == key@
                &&& value == Some(all[k].value)
                &&& forall|j: int|
                    0 <= j < k ==> !((#[trigger] all[j]).node == node@ && all[j].key == key@)
            };
        assert(snapshot.values@[k].node@ == node@);
        assert forall|j: int| 0 <= j < k implies !((#[trigger] snapshot.values@[j]).node@ == node@
            && snapshot.values@[j].key@ == key@) by {
            assert(!(all[j].node == node@ && all[j].key == key@));
        }
    }
    let wanted = |cell: CellView| cell.node == node@;
    let kept = all.filter(wanted);
    assert(cells_behind(cells@) == kept);
    assert forall|i: int| 0 <= i < cells@.len() implies (#[trigger] cells@[i]).node@ == node@ by {
        assert(cells_behind(cells@)[i] == (*cells@[i])@);
        assert(wanted(kept[i]));
    }
    assert forall|k: int|
        0 <= k < snapshot.values@.len() && (#[trigger] snapshot.values@[k]).node@
            == node@ implies cells_behind(cells@).contains(snapshot.values@[k]@) by {
        assert(wanted(all[k]));
        assert(kept.contains(all[k]));
    }
}

proof fn lemma_value_at(cells: Seq<CellView>, node: Seq<char>, key: Seq<char>)
    ensures
        value_at(cells, node, key) is None <==> forall|k: int|
            0 <= k < cells.len() ==> !((#[trigger] cells[k]).node == node && cells[k].key == key),
        value_at(cells, node, key) is Some ==> exists|k: int|
            {
                &&& 0 <= k < cells.len()
                &&& (#[trigger] cells[k]).node == node
                &&& cells[k].key == key
                &&& value_at(cells, node, key) == Some(cells[k].value)
                &&& forall|j: int|
                    0 <= j < k ==> !((#[trigger] cells[j]).node == node && cells[j].key == key)
            },
    decreases cells.len(),
{
    if cells.len() > 0 {
        if cells[0].node == node && cells[0].key == key {
            assert(cells[0].node == node);
        } else {
            let rest = cells.drop_first();
            lemma_value_at(rest, node, key);
            assert(forall|k: int| 0 <= k < rest.len() ==> (#[trigger] rest[k]) == cells[k + 1]);
            if value_at(cells, node, key) is Some {
                let i = choose|i: int|
                    {
                        &&& 0 <= i < rest.len()
                        &&& (#[trigger] rest[i]).node == node
                        &&& rest[i].key == key
                        &&& value_at(rest, node, key) == Some(rest[i].value)
                        &&& forall|j: int|
                            0 <= j < i ==> !((#[trigger] rest[j]).node == node && rest[j].key
                                == key)
                    };
                assert(cells[i + 1] == rest[i]);
                assert forall|j: int| 0 <= j < i + 1 implies !((#[trigger] cells[j]).node == node
                    && cells[j].key == key) by {
                    if j > 0 {
                        assert(rest[j - 1] == cells[j]);
                    }
                }
            } else {
                assert forall|k: int| 0 <= k < cells.len() implies !((#[trigger] cells[k]).node
                    == node && cells[k].key == key) by {
                    if k > 0 {
                        assert(rest[k - 1] == cells[k]);
                    }
                }
            }
        }
    }
}

} // verus!
