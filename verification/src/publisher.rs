//! Projection of coherent in-process snapshots into independently readable slices.
//!
//! The publisher decides the layout, the catalog entries and the vector of
//! every selected node. Cross-slice atomicity remains outside this module's
//! contract.

use crate::catalog::SliceCatalogEntry;
use crate::cube::{CellValue, Snapshot};
use crate::header::ValueType;
use crate::layout::LayoutRegistry;
use crate::names::validate_slice_name;
use crate::number::{Double, NOT_A_NUMBER};
use crate::slice_error::SliceError;
use crate::table::Table;
use crate::text::{is_ascii_alphanumeric, letters};
use vstd::prelude::*;
use vstd::string::*;

verus! {

/// Persistence behavior after a snapshot becomes visible in mapped memory.
#[derive(Debug, Clone, Copy, PartialEq, Eq, Structural)]
pub enum PublishDurability {
    /// Return after the writer epochs make the new values visible to readers.
    MemoryMapped,
    /// Ask the operating system to begin flushing dirty pages without waiting.
    Async,
    /// Wait until every configured slice reports its dirty pages as durable.
    Durable,
}

impl Default for PublishDurability {
    fn default() -> (durability: Self)
        ensures
            durability == PublishDurability::Durable,
    {
        PublishDurability::Durable
    }
}

/// Why a publisher could not be made or a snapshot not be projected.
#[derive(Debug, PartialEq, Eq)]
pub enum PublishError {
    /// There are more entities than a layout has slots.
    TooManyEntities(usize),
    /// A layout, a name or a key was refused.
    Slice(SliceError),
    /// Two slices share a node.
    DuplicateNode(String),
    /// A cell names an entity that the layout does not have.
    UnknownEntity(String),
    /// A cell names a node that has no slice.
    UnconfiguredNode(String),
    /// A cell's entity lies beyond the active slots.
    OutsideLayout(String),
}

/// What a [`PublishError`] says.
pub enum PublishFault {
    /// See [`PublishError::TooManyEntities`].
    TooManyEntities(usize),
    /// See [`PublishError::Slice`].
    Slice(crate::slice_error::SliceFault),
    /// See [`PublishError::DuplicateNode`].
    DuplicateNode(Seq<char>),
    /// See [`PublishError::UnknownEntity`].
    UnknownEntity(Seq<char>),
    /// See [`PublishError::UnconfiguredNode`].
    UnconfiguredNode(Seq<char>),
    /// See [`PublishError::OutsideLayout`].
    OutsideLayout(Seq<char>),
}

impl View for PublishError {
    type V = PublishFault;

    open spec fn view(&self) -> PublishFault {
        match self {
            PublishError::TooManyEntities(count) => PublishFault::TooManyEntities(*count),
            PublishError::Slice(fault) => PublishFault::Slice(fault@),
            PublishError::DuplicateNode(node) => PublishFault::DuplicateNode(node@),
            PublishError::UnknownEntity(key) => PublishFault::UnknownEntity(key@),
            PublishError::UnconfiguredNode(node) => PublishFault::UnconfiguredNode(node@),
            PublishError::OutsideLayout(key) => PublishFault::OutsideLayout(key@),
        }
    }
}

impl PublishFault {
    /// The fault in words.
    pub open spec fn message(self) -> Seq<char> {
        match self {
            PublishFault::TooManyEntities(_) => "too many entities for a layout"@,
            PublishFault::Slice(fault) => fault.message(),
            PublishFault::DuplicateNode(node) => "duplicate slice node "@ + node,
            PublishFault::UnknownEntity(key) => "snapshot contains unknown entity "@ + key,
            PublishFault::UnconfiguredNode(node) => "snapshot contains unconfigured slice node "@
                + node,
            PublishFault::OutsideLayout(key) => "snapshot entity "@ + key
                + " resolves outside the active layout"@,
        }
    }
}

impl PublishError {
    /// Say what was refused.
    pub fn message(&self) -> (text: String)
        ensures
            text@ == self@.message(),
    {
        match self {
            PublishError::TooManyEntities(_) => "too many entities for a layout".to_owned(),
            PublishError::Slice(fault) => fault.message(),
            PublishError::DuplicateNode(node) => "duplicate slice node ".to_owned().concat(
                node.as_str(),
            ),
            PublishError::UnknownEntity(key) =>
                "snapshot contains unknown entity ".to_owned().concat(key.as_str()),
            PublishError::UnconfiguredNode(node) =>
                "snapshot contains unconfigured slice node ".to_owned().concat(node.as_str()),
            PublishError::OutsideLayout(key) => "snapshot entity ".to_owned().concat(
                key.as_str(),
            ).concat(" resolves outside the active layout"),
        }
    }
}

/// Publishes selected node cross-sections as vectors of one layout.
///
/// A publisher decides what the writer side of each slice holds. Any number
/// of other processes may read the files that a writer makes of it.
#[derive(Debug)]
pub struct SlicePublisher {
    layout: LayoutRegistry,
    nodes: Table<usize>,
    buffers: Vec<Vec<Double>>,
    slots: Table<u32>,
}

/// What a [`SlicePublisher`] holds.
#[verifier::ext_equal]
pub struct PublisherView {
    /// Layout of every slice.
    pub layout: crate::layout::LayoutView,
    /// Nodes with a slice, in dictionary order.
    pub nodes: Seq<Seq<char>>,
    /// Vector of each node.
    pub buffers: Seq<Seq<Double>>,
}

/// The keys of some entries.
pub open spec fn keys_of<V>(entries: Seq<(Seq<char>, V)>) -> Seq<Seq<char>> {
    Seq::new(entries.len(), |i: int| entries[i].0)
}

impl View for SlicePublisher {
    type V = PublisherView;

    closed spec fn view(&self) -> PublisherView {
        PublisherView {
            layout: self.layout@,
            nodes: keys_of(self.nodes@),
            buffers: crate::text::views(self.buffers@),
        }
    }
}

/// Whether a name was used by one of the first `n` nodes.
pub open spec fn node_taken(ids: Seq<Seq<char>>, n: int, id: Seq<char>) -> bool {
    exists|j: int| 0 <= j < n && #[trigger] ids[j] == id
}

/// The first fault among the first `n` nodes.
pub open spec fn nodes_fault(ids: Seq<Seq<char>>, n: int) -> Option<PublishFault>
    decreases n,
{
    if n <= 0 {
        None
    } else {
        match nodes_fault(ids, n - 1) {
            Some(fault) => Some(fault),
            None => match crate::names::slice_name_fault(ids[n - 1]) {
                Some(fault) => Some(PublishFault::Slice(fault)),
                None => if node_taken(ids, n - 1, ids[n - 1]) {
                    Some(PublishFault::DuplicateNode(ids[n - 1]))
                } else {
                    None
                },
            },
        }
    }
}

/// The first `n` nodes with their positions, in dictionary order.
pub open spec fn node_table(ids: Seq<Seq<char>>, n: int) -> Seq<(Seq<char>, usize)>
    decreases n,
{
    if n <= 0 {
        Seq::empty()
    } else {
        crate::table::entered(node_table(ids, n - 1), ids[n - 1], (n - 1) as usize)
    }
}

/// The layout of a publisher, or why it cannot be made.
pub open spec fn publisher_layout(
    layout_id: Seq<char>,
    keys: Seq<Seq<char>>,
    ids: Seq<Seq<char>>,
) -> Result<crate::layout::LayoutView, PublishFault> {
    if keys.len() > u32::MAX {
        Err(PublishFault::TooManyEntities(keys.len() as usize))
    } else {
        match crate::layout::layout_for(
            layout_id,
            "synthetic"@,
            keys.len() as u32,
            keys,
            None,
        ) {
            Err(fault) => Err(PublishFault::Slice(fault)),
            Ok(layout) => match nodes_fault(ids, ids.len() as int) {
                Some(fault) => Err(fault),
                None => Ok(layout),
            },
        }
    }
}

/// Number of slots that a vector of a layout has.
pub open spec fn width(layout: crate::layout::LayoutView) -> nat {
    crate::layout::active_prefix(layout.symbols, layout.symbols.len() as int) as nat
}

/// A vector of absent values.
pub open spec fn empty_vector(layout: crate::layout::LayoutView) -> Seq<Double> {
    Seq::new(width(layout), |i: int| Double { bits: NOT_A_NUMBER })
}

/// The slot of an entity in a layout, or why it has none.
pub open spec fn entity_slot(layout: crate::layout::LayoutView, key: Seq<char>) -> Result<
    u32,
    PublishFault,
> {
    match crate::names::symbol_of(key) {
        Err(fault) => Err(PublishFault::Slice(fault)),
        Ok(symbol) => match crate::layout::slot_of(layout.symbols, symbol) {
            None => Err(PublishFault::UnknownEntity(key)),
            Some(slot) => Ok(slot),
        },
    }
}

/// Why a cell cannot be projected.
pub open spec fn cell_fault(
    layout: crate::layout::LayoutView,
    nodes: Seq<Seq<char>>,
    cell: crate::cube::CellView,
) -> Option<PublishFault> {
    match entity_slot(layout, cell.key) {
        Err(fault) => Some(fault),
        Ok(slot) => if !nodes.contains(cell.node) {
            Some(PublishFault::UnconfiguredNode(cell.node))
        } else if slot >= width(layout) {
            Some(PublishFault::OutsideLayout(cell.key))
        } else {
            None
        },
    }
}

/// The first fault among the first `n` cells.
pub open spec fn cells_fault(
    layout: crate::layout::LayoutView,
    nodes: Seq<Seq<char>>,
    cells: Seq<crate::cube::CellView>,
    n: int,
) -> Option<PublishFault>
    decreases n,
{
    if n <= 0 {
        None
    } else {
        match cells_fault(layout, nodes, cells, n - 1) {
            Some(fault) => Some(fault),
            None => cell_fault(layout, nodes, cells[n - 1]),
        }
    }
}

/// The vector of a node after the first `n` cells: each value of the node at
/// the slot of its entity, the last one where there are several, and absent
/// values elsewhere.
pub open spec fn filled(
    layout: crate::layout::LayoutView,
    node: Seq<char>,
    cells: Seq<crate::cube::CellView>,
    n: int,
) -> Seq<Double>
    decreases n,
{
    if n <= 0 {
        empty_vector(layout)
    } else if cells[n - 1].node == node {
        filled(layout, node, cells, n - 1).update(
            entity_slot(layout, cells[n - 1].key)->Ok_0 as int,
            cells[n - 1].value,
        )
    } else {
        filled(layout, node, cells, n - 1)
    }
}

/// The vectors of some nodes after the first `n` cells.
pub open spec fn all_filled(
    layout: crate::layout::LayoutView,
    nodes: Seq<Seq<char>>,
    cells: Seq<crate::cube::CellView>,
    n: int,
) -> Seq<Seq<Double>> {
    Seq::new(nodes.len(), |i: int| filled(layout, nodes[i], cells, n))
}

/// A node's name as a part of a file name.
pub open spec fn file_stem(node: Seq<char>) -> Seq<char> {
    Seq::new(
        node.len(),
        |i: int|
            if crate::text::ascii_alphanumeric(node[i]) || node[i] == '.' || node[i] == '_'
                || node[i] == '-' {
                node[i]
            } else {
                '_'
            },
    )
}

/// Replace every character of a node's name that does not suit a file name.
pub fn safe_filename(node: &str) -> (name: String)
    ensures
        name@ == file_stem(node@),
{
    let chars: Vec<char> = letters(node);
    let mut name: String = String::new();
    let mut i: usize = 0;
    assert(name@ =~= file_stem(node@).take(0));
    while i < chars.len()
        invariant
            0 <= i <= chars@.len(),
            chars@ == node@,
            name@ == file_stem(node@).take(i as int),
        decreases chars@.len() - i,
    {
        let c: char = chars[i];
        if is_ascii_alphanumeric(c) || c == '.' || c == '_' || c == '-' {
            name.push(c);
        } else {
            name.push('_');
        }
        assert(name@ =~= file_stem(node@).take(i + 1));
        i = i + 1;
    }
    assert(file_stem(node@).take(i as int) =~= file_stem(node@));
    name
}

proof fn lemma_nodes_fault_stays(ids: Seq<Seq<char>>, i: int, n: int)
    requires
        0 <= i <= n,
        nodes_fault(ids, i) is Some,
    ensures
        nodes_fault(ids, n) == nodes_fault(ids, i),
    decreases n,
{
    if i < n {
        lemma_nodes_fault_stays(ids, i, n - 1);
    }
}

proof fn lemma_cells_fault_stays(
    layout: crate::layout::LayoutView,
    nodes: Seq<Seq<char>>,
    cells: Seq<crate::cube::CellView>,
    i: int,
    n: int,
)
    requires
        0 <= i <= n,
        cells_fault(layout, nodes, cells, i) is Some,
    ensures
        cells_fault(layout, nodes, cells, n) == cells_fault(layout, nodes, cells, i),
    decreases n,
{
    if i < n {
        lemma_cells_fault_stays(layout, nodes, cells, i, n - 1);
    }
}

/// A name is in the table of some nodes exactly where one of them has it.
proof fn lemma_node_table(ids: Seq<Seq<char>>, n: int, id: Seq<char>)
    requires
        0 <= n <= ids.len(),
    ensures
        crate::table::found(node_table(ids, n), id) is Some <==> node_taken(ids, n, id),
    decreases n,
{
    if n > 0 {
        lemma_node_table(ids, n - 1, id);
        crate::table::lemma_entered(node_table(ids, n - 1), ids[n - 1], (n - 1) as usize, id);
        if node_taken(ids, n - 1, id) {
            let j = choose|j: int| 0 <= j < n - 1 && #[trigger] ids[j] == id;
            assert(ids[j] == id);
        }
    }
}

/// What the rows of a layout of some keys are.
proof fn lemma_rows_for(
    asset_class: Seq<char>,
    keys: Seq<Seq<char>>,
    n: int,
    i: int,
)
    requires
        crate::layout::rows_for(asset_class, keys, None, n) is Ok,
        0 <= i < n <= keys.len(),
        keys.len() <= u32::MAX,
    ensures
        ({
            let rows = crate::layout::rows_for(asset_class, keys, None, n)->Ok_0;
            &&& rows.len() == n
            &&& rows[i].slot_id == i
            &&& rows[i].enabled
            &&& crate::names::symbol_of(keys[i]) == Ok::<
                Seq<char>,
                crate::slice_error::SliceFault,
            >(rows[i].symbol)
        }),
    decreases n,
{
    if i < n - 1 {
        lemma_rows_for(asset_class, keys, n - 1, i);
    } else {
        lemma_rows_for_len(asset_class, keys, n);
        lemma_rows_for_len(asset_class, keys, n - 1);
    }
}

proof fn lemma_rows_for_len(asset_class: Seq<char>, keys: Seq<Seq<char>>, n: int)
    requires
        crate::layout::rows_for(asset_class, keys, None, n) is Ok,
        0 <= n,
    ensures
        crate::layout::rows_for(asset_class, keys, None, n)->Ok_0.len() == n,
    decreases n,
{
    if n > 0 {
        lemma_rows_for_len(asset_class, keys, n - 1);
    }
}

/// In the layout of a publisher every entity that it was made for has the slot
/// of its position, in the active part.
pub proof fn lemma_entities_keep_positions(
    layout_id: Seq<char>,
    keys: Seq<Seq<char>>,
    ids: Seq<Seq<char>>,
    i: int,
)
    requires
        publisher_layout(layout_id, keys, ids) is Ok,
        0 <= i < keys.len(),
    ensures
        ({
            let layout = publisher_layout(layout_id, keys, ids)->Ok_0;
            &&& entity_slot(layout, keys[i]) == Ok::<u32, PublishFault>(i as u32)
            &&& i < width(layout)
        }),
{
    let layout = publisher_layout(layout_id, keys, ids)->Ok_0;
    lemma_rows_for(layout.asset_class, keys, keys.len() as int, i);
    crate::layout::lemma_lookups_agree(layout, i);
    crate::layout::lemma_active_prefix_covers(layout, i);
}

fn blank_vector(width: usize) -> (buffer: Vec<Double>)
    ensures
        buffer@ == Seq::new(width as nat, |i: int| Double { bits: NOT_A_NUMBER }),
{
    let mut buffer: Vec<Double> = Vec::new();
    let mut i: usize = 0;
    while i < width
        invariant
            0 <= i <= width,
            buffer@.len() == i,
            forall|k: int| 0 <= k < i ==> buffer@[k] == (Double { bits: NOT_A_NUMBER }),
        decreases width - i,
    {
        buffer.push(Double { bits: NOT_A_NUMBER });
        i = i + 1;
    }
    assert(buffer@ =~= Seq::new(width as nat, |i: int| Double { bits: NOT_A_NUMBER }));
    buffer
}

fn clear(buffer: &mut Vec<Double>)
    ensures
        final(buffer)@ == Seq::new(old(buffer)@.len(), |i: int| Double { bits: NOT_A_NUMBER }),
{
    let mut i: usize = 0;
    let ghost n = buffer@.len();
    while i < buffer.len()
        invariant
            0 <= i <= n,
            buffer@.len() == n,
            forall|k: int| 0 <= k < i ==> buffer@[k] == (Double { bits: NOT_A_NUMBER }),
        decreases n - i,
    {
        buffer.set(i, Double { bits: NOT_A_NUMBER });
        i = i + 1;
    }
    assert(buffer@ =~= Seq::new(n, |i: int| Double { bits: NOT_A_NUMBER }));
}

/// Whether the slots that are kept are those of the layout.
spec fn kept(layout: crate::layout::LayoutView, slots: Seq<(Seq<char>, u32)>) -> bool {
    forall|key: Seq<char>|
        (#[trigger] crate::table::found(slots, key)) is Some ==> entity_slot(layout, key) == Ok::<
            u32,
            PublishFault,
        >(crate::table::found(slots, key)->0)
}

/// Whether a table numbers its keys in order.
spec fn numbered(entries: Seq<(Seq<char>, usize)>) -> bool {
    forall|i: int| 0 <= i < entries.len() ==> (#[trigger] entries[i]).1 == i
}

proof fn lemma_kept_entered(
    layout: crate::layout::LayoutView,
    slots: Seq<(Seq<char>, u32)>,
    key: Seq<char>,
    slot: u32,
)
    requires
        kept(layout, slots),
        entity_slot(layout, key) == Ok::<u32, PublishFault>(slot),
    ensures
        kept(layout, crate::table::entered(slots, key, slot)),
{
    assert forall|other: Seq<char>|
        (#[trigger] crate::table::found(
            crate::table::entered(slots, key, slot),
            other,
        )) is Some implies entity_slot(layout, other) == Ok::<u32, PublishFault>(
        crate::table::found(crate::table::entered(slots, key, slot), other)->0,
    ) by {
        crate::table::lemma_entered(slots, key, slot, other);
    }
}

/// Number the names of a table in order.
fn in_order(names: &Table<usize>) -> (nodes: Table<usize>)
    ensures
        keys_of(nodes@) == keys_of(names@),
        numbered(nodes@),
{
    let n: usize = names.len();
    let mut nodes: Table<usize> = Table::new();
    let mut i: usize = 0;
    while i < n
        invariant
            0 <= i <= n,
            n == names@.len(),
            crate::table::ascending(names@),
            nodes@.len() == i,
            forall|k: int| 0 <= k < i ==> #[trigger] nodes@[k] == (names@[k].0, k as usize),
        decreases n - i,
    {
        let ghost before = nodes@;
        nodes.insert(names.key_at(i).clone(), i);
        proof {
            if i > 0 {
                assert(before.last() == before[i - 1]);
                assert(crate::text::precedes(names@[i - 1].0, names@[i as int].0));
                if names@[i - 1].0 == names@[i as int].0 {
                    crate::text::lemma_precedes_irreflexive(names@[i as int].0);
                }
            }
            assert(nodes@ =~= before.push((names@[i as int].0, i)));
        }
        i = i + 1;
    }
    assert(keys_of(nodes@) =~= keys_of(names@));
    nodes
}

/// Store the value of a cell in one of the vectors.
fn store(buffers: &mut Vec<Vec<Double>>, at: usize, slot: usize, value: Double)
    requires
        at < old(buffers)@.len(),
        slot < old(buffers)@[at as int]@.len(),
    ensures
        crate::text::views(final(buffers)@) == crate::text::views(old(buffers)@).update(
            at as int,
            old(buffers)@[at as int]@.update(slot as int, value),
        ),
{
    let ghost before = buffers@;
    let mut buffer: Vec<Double> = Vec::new();
    std::mem::swap(&mut buffer, &mut buffers[at]);
    buffer.set(slot, value);
    buffers.set(at, buffer);
    assert(crate::text::views(buffers@) =~= crate::text::views(before).update(
        at as int,
        before[at as int]@.update(slot as int, value),
    ));
}

impl SlicePublisher {
    #[verifier::type_invariant]
    spec fn well_formed(self) -> bool {
        &&& numbered(self.nodes@)
        &&& self.buffers@.len() == self.nodes@.len()
        &&& width(self.layout@) <= usize::MAX
        &&& forall|i: int|
            0 <= i < self.buffers@.len() ==> (#[trigger] self.buffers@[i])@.len() == width(
                self.layout@,
            )
        &&& kept(self.layout@, self.slots@)
    }

    /// Decide the layout and the nodes of a publisher.
    pub fn create(layout_id: &str, entity_keys: &Vec<String>, node_ids: &Vec<String>) -> (result:
        Result<Self, PublishError>)
        ensures
            match publisher_layout(
                layout_id@,
                crate::text::views(entity_keys@),
                crate::text::views(node_ids@),
            ) {
                Ok(layout) => result matches Ok(publisher) && publisher@ == (PublisherView {
                    layout,
                    nodes: keys_of(
                        node_table(crate::text::views(node_ids@), node_ids@.len() as int),
                    ),
                    buffers: all_filled(
                        layout,
                        keys_of(node_table(crate::text::views(node_ids@), node_ids@.len() as int)),
                        Seq::empty(),
                        0,
                    ),
                }),
                Err(fault) => result matches Err(e) && e@ == fault,
            },
    {
        let ghost keys = crate::text::views(entity_keys@);
        let ghost ids = crate::text::views(node_ids@);
        if entity_keys.len() > u32::MAX as usize {
            return Err(PublishError::TooManyEntities(entity_keys.len()));
        }
        let capacity: u32 = entity_keys.len() as u32;
        let layout: LayoutRegistry = match LayoutRegistry::from_entities(
            layout_id,
            "synthetic",
            capacity,
            entity_keys,
        ) {
            Ok(layout) => layout,
            Err(fault) => {
                return Err(PublishError::Slice(fault));
            },
        };
        let mut names: Table<usize> = Table::new();
        let mut i: usize = 0;
        assert(names@ =~= node_table(ids, 0));
        while i < node_ids.len()
            invariant
                0 <= i <= node_ids@.len(),
                keys == crate::text::views(entity_keys@),
                ids == crate::text::views(node_ids@),
                nodes_fault(ids, i as int) is None,
                names@ == node_table(ids, i as int),
                ids.len() == node_ids@.len(),
                keys.len() <= u32::MAX,
                crate::layout::layout_for(
                    layout_id@,
                    "synthetic"@,
                    keys.len() as u32,
                    keys,
                    None,
                ) == Ok::<crate::layout::LayoutView, crate::slice_error::SliceFault>(layout@),
            ensures
                nodes_fault(ids, ids.len() as int) is None,
                names@ == node_table(ids, ids.len() as int),
            decreases node_ids@.len() - i,
        {
            assert(ids[i as int] == node_ids@[i as int]@);
            let node: &str = node_ids[i].as_str();
            match validate_slice_name(node) {
                Ok(()) => {},
                Err(fault) => {
                    proof {
                        lemma_nodes_fault_stays(ids, i + 1, ids.len() as int);
                    }
                    return Err(PublishError::Slice(fault));
                },
            }
            proof {
                lemma_node_table(ids, i as int, node@);
            }
            if names.get(node).is_some() {
                proof {
                    lemma_nodes_fault_stays(ids, i + 1, ids.len() as int);
                }
                return Err(PublishError::DuplicateNode(node_ids[i].clone()));
            }
            names.insert(node_ids[i].clone(), i);
            i = i + 1;
        }
        let nodes: Table<usize> = in_order(&names);
        let active: u64 = layout.active_len();
        proof {
            assert(publisher_layout(layout_id@, keys, ids) == Ok::<
                crate::layout::LayoutView,
                PublishFault,
            >(layout@));
            crate::layout::lemma_active_prefix_bounded(layout@);
        }
        let mut buffers: Vec<Vec<Double>> = Vec::new();
        let mut k: usize = 0;
        while k < nodes.len()
            invariant
                0 <= k <= nodes@.len(),
                active as usize as nat == width(layout@),
                buffers@.len() == k,
                forall|j: int|
                    0 <= j < k ==> (#[trigger] buffers@[j])@ == empty_vector(layout@),
            decreases nodes@.len() - k,
        {
            buffers.push(blank_vector(active as usize));
            k = k + 1;
        }
        let mut slots: Table<u32> = Table::new();
        let mut s: usize = 0;
        while s < entity_keys.len()
            invariant
                0 <= s <= entity_keys@.len(),
                entity_keys@.len() <= u32::MAX,
                keys == crate::text::views(entity_keys@),
                publisher_layout(layout_id@, keys, ids) == Ok::<
                    crate::layout::LayoutView,
                    PublishFault,
                >(layout@),
                kept(layout@, slots@),
            decreases entity_keys@.len() - s,
        {
            proof {
                lemma_entities_keep_positions(layout_id@, keys, ids, s as int);
                assert(keys[s as int] == entity_keys@[s as int]@);
                lemma_kept_entered(layout@, slots@, keys[s as int], s as u32);
            }
            slots.insert(entity_keys[s].clone(), s as u32);
            s = s + 1;
        }
        assert(crate::text::views(buffers@) =~= all_filled(
            layout@,
            keys_of(nodes@),
            Seq::empty(),
            0,
        ));
        Ok(SlicePublisher { layout, nodes, buffers, slots })
    }

    /// Return the entity layout shared by every configured output slice.
    pub fn layout(&self) -> (layout: &LayoutRegistry)
        ensures
            layout@ == self@.layout,
    {
        &self.layout
    }

    /// Return the number of nodes that have a slice.
    pub fn node_count(&self) -> (count: usize)
        ensures
            count == self@.nodes.len(),
            self@.buffers.len() == self@.nodes.len(),
    {
        proof {
            use_type_invariant(self);
        }
        self.nodes.len()
    }

    /// Return a node that has a slice, by its place in dictionary order.
    pub fn node_at(&self, i: usize) -> (node: &String)
        requires
            i < self@.nodes.len(),
        ensures
            node@ == self@.nodes[i as int],
    {
        self.nodes.key_at(i)
    }

    /// Return the vector of a node, by the node's place in dictionary order.
    pub fn buffer_at(&self, i: usize) -> (buffer: &Vec<Double>)
        requires
            i < self@.nodes.len(),
        ensures
            buffer@ == self@.buffers[i as int],
            buffer@.len() == width(self@.layout),
    {
        proof {
            use_type_invariant(self);
        }
        &self.buffers[i]
    }

    /// Return the file name of a node's slice.
    pub fn file_name_at(&self, i: usize) -> (name: String)
        requires
            i < self@.nodes.len(),
        ensures
            name@ == file_stem(self@.nodes[i as int]) + ".slice"@,
    {
        let mut name: String = safe_filename(self.nodes.key_at(i).as_str());
        name.append(".slice");
        name
    }

    /// Return the catalog entry of a node's slice at a path.
    pub fn entry_at(&self, i: usize, layout_hash: u64, path: &str) -> (entry: SliceCatalogEntry)
        requires
            i < self@.nodes.len(),
        ensures
            entry@ == (crate::catalog::EntryView {
                name: self@.nodes[i as int],
                asset_class: self@.layout.asset_class,
                layout_id: self@.layout.layout_id,
                layout_hash,
                value_type: ValueType::F64,
                path: path@,
                role: "node_output"@,
                description: Some("Hypercube output for node "@ + self@.nodes[i as int]),
            }),
    {
        let node: &String = self.nodes.key_at(i);
        SliceCatalogEntry {
            name: node.clone(),
            asset_class: self.layout.asset_class.clone(),
            layout_id: self.layout.layout_id.clone(),
            layout_hash,
            value_type: ValueType::F64,
            path: path.to_owned(),
            role: "node_output".to_owned(),
            description: Some("Hypercube output for node ".to_owned().concat(node.as_str())),
        }
    }

    /// A publisher of no node over a layout without slots.
    fn blank() -> (publisher: Self)
        ensures
            publisher@ == (PublisherView {
                layout: crate::layout::LayoutView {
                    layout_id: Seq::empty(),
                    asset_class: Seq::empty(),
                    capacity: 0,
                    symbols: Seq::empty(),
                },
                nodes: Seq::empty(),
                buffers: Seq::empty(),
            }),
            publisher.slots@ == Seq::<(Seq<char>, u32)>::empty(),
    {
        let layout = LayoutRegistry {
            layout_id: String::new(),
            asset_class: String::new(),
            capacity: 0,
            symbols: Vec::new(),
        };
        let nodes: Table<usize> = Table::new();
        let slots: Table<u32> = Table::new();
        SlicePublisher { layout, nodes, buffers: Vec::new(), slots }
    }

    /// Project one coherent engine snapshot into the vectors of the configured
    /// nodes.
    ///
    /// Projection is performed in one pass over the snapshot into buffers
    /// allocated when the publisher is created. A snapshot that cannot be
    /// projected is reported; the vectors then hold the cells before the one
    /// that was refused, and no slice should be updated from them.
    pub fn project(&mut self, snapshot: &Snapshot) -> (result: Result<(), PublishError>)
        ensures
            final(self)@.layout == old(self)@.layout,
            final(self)@.nodes == old(self)@.nodes,
            ({
                let layout = old(self)@.layout;
                let nodes = old(self)@.nodes;
                let cells = snapshot@.values;
                match result {
                    Ok(()) => cells_fault(layout, nodes, cells, cells.len() as int) is None
                        && final(self)@.buffers == all_filled(
                        layout,
                        nodes,
                        cells,
                        cells.len() as int,
                    ),
                    Err(e) => cells_fault(layout, nodes, cells, cells.len() as int) == Some(e@)
                        && exists|n: int|
                        {
                            &&& 0 <= n < cells.len()
                            &&& cell_fault(layout, nodes, #[trigger] cells[n]) == Some(e@)
                            &&& cells_fault(layout, nodes, cells, n) is None
                            &&& final(self)@.buffers == all_filled(layout, nodes, cells, n)
                        },
                }
            }),
    {
        proof {
            use_type_invariant(&*self);
        }
        let ghost start = self@;
        let mut work = SlicePublisher::blank();
        std::mem::swap(self, &mut work);
        let SlicePublisher { layout, nodes, mut buffers, mut slots } = work;
        let ghost cells = snapshot@.values;
        let ghost names = keys_of(nodes@);
        let count: usize = nodes.len();
        let mut b: usize = 0;
        while b < count
            invariant
                0 <= b <= count,
                count == buffers@.len(),
                count == nodes@.len(),
                forall|i: int|
                    0 <= i < buffers@.len() ==> (#[trigger] buffers@[i])@.len() == width(layout@),
                forall|i: int|
                    0 <= i < b ==> (#[trigger] buffers@[i])@ == empty_vector(layout@),
            decreases count - b,
        {
            let mut buffer: Vec<Double> = Vec::new();
            std::mem::swap(&mut buffer, &mut buffers[b]);
            clear(&mut buffer);
            buffers.set(b, buffer);
            b = b + 1;
        }
        assert(crate::text::views(buffers@) =~= all_filled(layout@, names, cells, 0));
        let mut refused: Option<PublishError> = None;
        let mut i: usize = 0;
        while i < snapshot.values.len()
            invariant_except_break
                refused is None,
                cells_fault(layout@, names, cells, i as int) is None,
                crate::text::views(buffers@) == all_filled(layout@, names, cells, i as int),
            invariant
                0 <= i <= snapshot.values@.len(),
                cells == crate::text::views(snapshot.values@),
                names == keys_of(nodes@),
                numbered(nodes@),
                crate::table::ascending(nodes@),
                buffers@.len() == nodes@.len(),
                width(layout@) <= usize::MAX,
                forall|k: int|
                    0 <= k < buffers@.len() ==> (#[trigger] buffers@[k])@.len() == width(layout@),
                kept(layout@, slots@),
            ensures
                cells_fault(layout@, names, cells, i as int) is None,
                crate::text::views(buffers@) == all_filled(layout@, names, cells, i as int),
                match refused {
                    None => i == cells.len(),
                    Some(e) => i < cells.len() && cell_fault(layout@, names, cells[i as int])
                        == Some(e@),
                },
            decreases snapshot.values@.len() - i,
        {
            assert(cells[i as int] == snapshot.values@[i as int]@);
            let cell: &CellValue = &snapshot.values[i];
            let kept_slot: Option<u32> = match slots.get(cell.key.as_str()) {
                Some(slot) => Some(*slot),
                None => None,
            };
            let slot: u32 = match kept_slot {
                Some(slot) => slot,
                None => match layout.slot_for_entity(cell.key.as_str()) {
                    Err(fault) => {
                        refused = Some(PublishError::Slice(fault));
                        break;
                    },
                    Ok(None) => {
                        refused = Some(PublishError::UnknownEntity(cell.key.clone()));
                        break;
                    },
                    Ok(Some(slot)) => {
                        proof {
                            lemma_kept_entered(layout@, slots@, cell.key@, slot);
                        }
                        slots.insert(cell.key.clone(), slot);
                        slot
                    },
                },
            };
            assert(entity_slot(layout@, cell.key@) == Ok::<u32, PublishFault>(slot));
            let found_at: Option<usize> = match nodes.get(cell.node.as_str()) {
                Some(at) => Some(*at),
                None => None,
            };
            let at: usize = match found_at {
                Some(at) => at,
                None => {
                    proof {
                        if names.contains(cell.node@) {
                            let p = choose|p: int|
                                0 <= p < names.len() && names[p] == cell.node@;
                            crate::table::lemma_found_at(nodes@, p);
                        }
                    }
                    refused = Some(PublishError::UnconfiguredNode(cell.node.clone()));
                    break;
                },
            };
            proof {
                let p = crate::table::lemma_found_where(nodes@, cell.node@);
                assert(nodes@[p].1 == p);
                assert(names[p] == cell.node@);
            }
            if slot as usize >= buffers[at].len() {
                refused = Some(PublishError::OutsideLayout(cell.key.clone()));
                break;
            }
            let ghost before = buffers@;
            store(&mut buffers, at, slot as usize, cell.value);
            proof {
                let now = crate::text::views(buffers@);
                let was = crate::text::views(before);
                assert forall|k: int| 0 <= k < names.len() implies #[trigger] now[k] == filled(
                    layout@,
                    names[k],
                    cells,
                    i + 1,
                ) by {
                    assert(was[k] == filled(layout@, names[k], cells, i as int));
                    if k != at && names[k] == cell.node@ {
                        crate::table::lemma_found_at(nodes@, k);
                    }
                }
                assert(now =~= all_filled(layout@, names, cells, i + 1));
                assert forall|k: int| 0 <= k < buffers@.len() implies (#[trigger] buffers@[k])@.len()
                    == width(layout@) by {
                    assert(now[k] == buffers@[k]@);
                    assert(was[k] == before[k]@);
                }
            }
            i = i + 1;
        }
        *self = SlicePublisher { layout, nodes, buffers, slots };
        match refused {
            None => Ok(()),
            Some(error) => {
                proof {
                    assert(cell_fault(start.layout, start.nodes, cells[i as int]) == Some(error@));
                    lemma_cells_fault_stays(
                        start.layout,
                        start.nodes,
                        cells,
                        i + 1,
                        cells.len() as int,
                    );
                }
                Err(error)
            },
        }
    }
}

/// A publisher has a vector for exactly the nodes that it was made for.
pub proof fn lemma_nodes_are_ids(ids: Seq<Seq<char>>, id: Seq<char>)
    ensures
        keys_of(node_table(ids, ids.len() as int)).contains(id) <==> ids.contains(id),
{
    let entries = node_table(ids, ids.len() as int);
    let names = keys_of(entries);
    let n = ids.len() as int;
    lemma_node_table(ids, n, id);
    if names.contains(id) {
        let i = choose|i: int| 0 <= i < names.len() && names[i] == id;
        lemma_found_anywhere(entries, i);
        assert(node_taken(ids, n, id));
        let j = choose|j: int| 0 <= j < n && #[trigger] ids[j] == id;
        assert(ids[j] == id);
    }
    if ids.contains(id) {
        let j = choose|j: int| 0 <= j < ids.len() && ids[j] == id;
        assert(ids[j] == id);
        assert(node_taken(ids, n, id));
        let i = crate::table::lemma_found_where(entries, id);
        assert(names[i] == id);
    }
}

proof fn lemma_found_anywhere<V>(entries: Seq<(Seq<char>, V)>, i: int)
    requires
        0 <= i < entries.len(),
    ensures
        crate::table::found(entries, entries[i].0) is Some,
    decreases entries.len(),
{
    if i < entries.len() - 1 && entries.last().0 != entries[i].0 {
        lemma_found_anywhere(entries.drop_last(), i);
    }
}

/// Whether a cell holds a value of a node for a slot.
pub open spec fn lands(
    layout: crate::layout::LayoutView,
    cell: crate::cube::CellView,
    node: Seq<char>,
    slot: int,
) -> bool {
    cell.node == node && (entity_slot(layout, cell.key) matches Ok(s) && s == slot)
}

#[verifier::spinoff_prover]
proof fn lemma_filled(
    layout: crate::layout::LayoutView,
    nodes: Seq<Seq<char>>,
    node: Seq<char>,
    cells: Seq<crate::cube::CellView>,
    n: int,
    slot: int,
)
    requires
        0 <= n <= cells.len(),
        cells_fault(layout, nodes, cells, n) is None,
        0 <= slot < width(layout),
    ensures
        filled(layout, node, cells, n).len() == width(layout),
        (forall|k: int| 0 <= k < n ==> !lands(layout, #[trigger] cells[k], node, slot)) ==> filled(
            layout,
            node,
            cells,
            n,
        )[slot] == (Double { bits: NOT_A_NUMBER }),
        forall|c: int|
            0 <= c < n && lands(layout, #[trigger] cells[c], node, slot) && (forall|k: int|
                c < k < n ==> !lands(layout, #[trigger] cells[k], node, slot)) ==> filled(
                layout,
                node,
                cells,
                n,
            )[slot] == cells[c].value,
    decreases n,
{
    if n > 0 {
        lemma_filled(layout, nodes, node, cells, n - 1, slot);
        let last = cells[n - 1];
        assert(cell_fault(layout, nodes, last) is None);
        let before = filled(layout, node, cells, n - 1);
        let after = filled(layout, node, cells, n);
        if lands(layout, last, node, slot) {
            assert(after[slot] == last.value);
        } else {
            assert(after[slot] == before[slot]);
        }
    }
}

/// The vectors of a projection are aligned: a slot of a node's vector holds
/// the value of the last cell of that node and the slot's entity, and the
/// absent value where there is none.
pub proof fn lemma_projection_is_aligned(
    layout: crate::layout::LayoutView,
    nodes: Seq<Seq<char>>,
    cells: Seq<crate::cube::CellView>,
    i: int,
    slot: int,
)
    requires
        cells_fault(layout, nodes, cells, cells.len() as int) is None,
        0 <= i < nodes.len(),
        0 <= slot < width(layout),
    ensures
        ({
            let vector = all_filled(layout, nodes, cells, cells.len() as int)[i];
            &&& vector.len() == width(layout)
            &&& (forall|k: int|
                0 <= k < cells.len() ==> !lands(layout, #[trigger] cells[k], nodes[i], slot))
                ==> vector[slot] == (Double { bits: NOT_A_NUMBER })
            &&& forall|c: int|
                0 <= c < cells.len() && lands(layout, #[trigger] cells[c], nodes[i], slot) && (
                forall|k: int|
                    c < k < cells.len() ==> !lands(layout, #[trigger] cells[k], nodes[i], slot))
                    ==> vector[slot] == cells[c].value
        }),
{
    lemma_filled(layout, nodes, nodes[i], cells, cells.len() as int, slot);
}

/// A publisher that was made has one vector for each of its nodes, gives the
/// entity at every position the slot of that position, and holds nothing yet.
pub proof fn lemma_publisher_starts_empty(
    layout_id: &str,
    entity_keys: &Vec<String>,
    node_ids: &Vec<String>,
    result: Result<SlicePublisher, PublishError>,
)
    requires
        call_ensures(SlicePublisher::create, (layout_id, entity_keys, node_ids), result),
    ensures
        result matches Ok(publisher) ==> {
            let layout = publisher@.layout;
            &&& layout.layout_id == layout_id@
            &&& crate::names::namespace_of("synthetic"@) == Ok::<
                Seq<char>,
                crate::slice_error::SliceFault,
            >(layout.asset_class)
            &&& layout.capacity == entity_keys@.len()
            &&& forall|id: Seq<char>|
                publisher@.nodes.contains(id) <==> #[trigger] crate::text::views(
                    node_ids@,
                ).contains(id)
            &&& forall|i: int|
                0 <= i < entity_keys@.len() ==> entity_slot(
                    layout,
                    (#[trigger] entity_keys@[i])@,
                ) == Ok::<u32, PublishFault>(i as u32)
            &&& publisher@.buffers.len() == publisher@.nodes.len()
            &&& forall|n: int, i: int|
                0 <= n < publisher@.nodes.len() && 0 <= i < publisher@.buffers[n].len()
                    ==> #[trigger] publisher@.buffers[n][i] == (Double { bits: NOT_A_NUMBER })
        },
{
    if let Ok(publisher) = result {
        let layout = publisher@.layout;
        let keys = crate::text::views(entity_keys@);
        let ids = crate::text::views(node_ids@);
        assert forall|id: Seq<char>|
            publisher@.nodes.contains(id) <==> #[trigger] ids.contains(id) by {
            lemma_nodes_are_ids(ids, id);
        }
        assert forall|i: int| 0 <= i < entity_keys@.len() implies entity_slot(
            layout,
            (#[trigger] entity_keys@[i])@,
        ) == Ok::<u32, PublishFault>(i as u32) by {
            lemma_entities_keep_positions(layout_id@, keys, ids, i);
            assert(keys[i] == entity_keys@[i]@);
        }
    }
}

/// A projection that is accepted puts into every slot of a node's vector the
/// value of the last cell of that node and that entity, and the absent value
/// where there is none; it keeps the layout and the nodes.
pub proof fn lemma_projection_shows_snapshot(
    publisher: &mut SlicePublisher,
    snapshot: &Snapshot,
    result: Result<(), PublishError>,
    i: int,
    slot: int,
)
    requires
        call_ensures(SlicePublisher::project, (publisher, snapshot), result),
        0 <= i < old(publisher)@.nodes.len(),
        0 <= slot < width(old(publisher)@.layout),
    ensures
        final(publisher)@.layout == old(publisher)@.layout,
        final(publisher)@.nodes == old(publisher)@.nodes,
        result is Ok ==> {
            let layout = old(publisher)@.layout;
            let node = old(publisher)@.nodes[i];
            let cells = snapshot@.values;
            let vector = final(publisher)@.buffers[i];
            &&& vector.len() == width(layout)
            &&& (forall|k: int|
                0 <= k < cells.len() ==> !lands(layout, #[trigger] cells[k], node, slot))
                ==> vector[slot] == (Double { bits: NOT_A_NUMBER })
            &&& forall|c: int|
                0 <= c < cells.len() && lands(layout, #[trigger] cells[c], node, slot) && (forall|
                    k: int,
                |
                    c < k < cells.len() ==> !lands(layout, #[trigger] cells[k], node, slot))
                    ==> vector[slot] == cells[c].value
        },
{
    if result is Ok {
        lemma_projection_is_aligned(
            old(publisher)@.layout,
            old(publisher)@.nodes,
            snapshot@.values,
            i,
            slot,
        );
    }
}

/// The name of a file keeps the length of the node's name, its letters and
/// digits, full stops, underscores and hyphens, and has an underscore for
/// everything else.
pub proof fn lemma_file_names_are_plain(node: &str, name: String)
    requires
        call_ensures(safe_filename, (node,), name),
    ensures
        name@.len() == node@.len(),
        forall|i: int|
            0 <= i < node@.len() ==> {
                let kept = 'a' <= node@[i] <= 'z' || 'A' <= node@[i] <= 'Z' || '0' <= node@[i]
                    <= '9' || node@[i] == '.' || node@[i] == '_' || node@[i] == '-';
                &&& kept ==> #[trigger] name@[i] == node@[i]
                &&& !kept ==> name@[i] == '_'
            },
{
}

/// The file and the entry of a node are named after it; the entry tells the
/// layout and its namespace, the hash and the path that it was given.
pub proof fn lemma_entries_describe_vectors(
    publisher: &SlicePublisher,
    i: usize,
    layout_hash: u64,
    path: &str,
    node: &String,
    title: &str,
    stem: String,
    name: String,
    layout: &LayoutRegistry,
    entry: SliceCatalogEntry,
)
    requires
        i < publisher@.nodes.len(),
        call_ensures(SlicePublisher::node_at, (publisher, i), node),
        title@ == node@,
        call_ensures(safe_filename, (title,), stem),
        call_ensures(SlicePublisher::file_name_at, (publisher, i), name),
        call_ensures(SlicePublisher::layout, (publisher,), layout),
        call_ensures(SlicePublisher::entry_at, (publisher, i, layout_hash, path), entry),
    ensures
        name@ == stem@ + ".slice"@,
        entry.name@ == node@,
        entry.asset_class@ == layout.asset_class@,
        entry.layout_id@ == layout.layout_id@,
        entry.layout_hash == layout_hash,
        entry.value_type == ValueType::F64,
        entry.path@ == path@,
        entry.role@ == "node_output"@,
{
    assert(layout@.asset_class == layout.asset_class@);
    assert(entry@.name == entry.name@);
}

} // verus!
