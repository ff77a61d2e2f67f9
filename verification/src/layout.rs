//! Stable assignments of entities to dense slots.

use crate::header::{SliceHeaderInfo, ValueType, FLAG_WRITABLE_OWNER, HEADER_SIZE, VERSION};
use crate::names::{default_instrument_id, normalize_asset_class, normalize_symbol};
use crate::slice_error::SliceError;
use crate::table::Table;
use crate::text::{is_blank, push_decimal, same_text};
use std::collections::HashSet;
use vstd::prelude::*;
use xxhash_rust::xxh64::xxh64;

verus! {

broadcast use vstd::std_specs::hash::group_hash_axioms;

/// A failure of the JSON encoder.
#[verifier::external_type_specification]
#[verifier::external_body]
pub struct ExJsonError(serde_json::Error);

/// The JSON form of a text as bytes.
pub uninterp spec fn json_of(text: Seq<char>) -> Seq<u8>;

/// `serde_json::to_vec` on a text gives its JSON form, quoted and escaped, in a
/// buffer that grows as needed, and does not fail. The bytes are named, not
/// spelled out: they depend on the text alone.
#[verifier::external_body]
fn json_text(text: &str) -> (result: Result<Vec<u8>, serde_json::Error>)
    ensures
        result is Ok,
        result->Ok_0@ == json_of(text@),
{
    serde_json::to_vec(text)
}

/// One stable entity-to-slot assignment in a layout.
#[derive(Debug, PartialEq, Eq)]
pub struct LayoutSymbol {
    /// Dense zero-based payload index.
    pub slot_id: u32,
    /// Normalized display or lookup key.
    pub symbol: String,
    /// Stable namespaced entity or instrument identifier.
    pub instrument_id: String,
    /// Whether lookups should currently resolve this row.
    pub enabled: bool,
}

/// What a [`LayoutSymbol`] holds.
#[verifier::ext_equal]
pub struct SymbolView {
    /// Slot.
    pub slot_id: u32,
    /// Symbol.
    pub symbol: Seq<char>,
    /// Identifier.
    pub instrument_id: Seq<char>,
    /// Whether lookups resolve it.
    pub enabled: bool,
}

impl View for LayoutSymbol {
    type V = SymbolView;

    open spec fn view(&self) -> SymbolView {
        SymbolView {
            slot_id: self.slot_id,
            symbol: self.symbol@,
            instrument_id: self.instrument_id@,
            enabled: self.enabled,
        }
    }
}

impl Clone for LayoutSymbol {
    fn clone(&self) -> (copy: Self)
        ensures
            copy@ == self@,
    {
        LayoutSymbol {
            slot_id: self.slot_id,
            symbol: self.symbol.clone(),
            instrument_id: self.instrument_id.clone(),
            enabled: self.enabled,
        }
    }
}

/// Versioned mapping from stable entity keys to dense slice slots.
#[derive(Debug, PartialEq, Eq)]
pub struct LayoutRegistry {
    /// Caller-defined identity for this immutable slot assignment.
    pub layout_id: String,
    /// Normalized namespace; retained as `asset_class` in the version-1 JSON.
    pub asset_class: String,
    /// Allocated payload slots, including unused or disabled slots.
    pub capacity: u32,
    /// Declared slot assignments.
    pub symbols: Vec<LayoutSymbol>,
}

/// What a [`LayoutRegistry`] holds.
#[verifier::ext_equal]
pub struct LayoutView {
    /// Identity.
    pub layout_id: Seq<char>,
    /// Namespace.
    pub asset_class: Seq<char>,
    /// Number of slots.
    pub capacity: u32,
    /// Rows.
    pub symbols: Seq<SymbolView>,
}

impl View for LayoutRegistry {
    type V = LayoutView;

    open spec fn view(&self) -> LayoutView {
        LayoutView {
            layout_id: self.layout_id@,
            asset_class: self.asset_class@,
            capacity: self.capacity,
            symbols: crate::text::views(self.symbols@),
        }
    }
}

impl Clone for LayoutRegistry {
    fn clone(&self) -> (copy: Self)
        ensures
            copy@ == self@,
    {
        let mut symbols: Vec<LayoutSymbol> = Vec::new();
        let mut i: usize = 0;
        while i < self.symbols.len()
            invariant
                0 <= i <= self.symbols@.len(),
                symbols@.len() == i,
                forall|k: int| 0 <= k < i ==> (#[trigger] symbols@[k])@ == self.symbols@[k]@,
            decreases self.symbols@.len() - i,
        {
            symbols.push(self.symbols[i].clone());
            i = i + 1;
        }
        let copy = LayoutRegistry {
            layout_id: self.layout_id.clone(),
            asset_class: self.asset_class.clone(),
            capacity: self.capacity,
            symbols,
        };
        assert(copy@.symbols =~= self@.symbols);
        copy
    }
}

/// Whether a slot was taken by one of the first `n` rows.
pub open spec fn slot_taken(rows: Seq<SymbolView>, n: int, slot_id: u32) -> bool {
    exists|j: int| 0 <= j < n && (#[trigger] rows[j]).slot_id == slot_id
}

/// Whether a symbol was used by one of the first `n` rows.
pub open spec fn symbol_taken(rows: Seq<SymbolView>, n: int, symbol: Seq<char>) -> bool {
    exists|j: int| 0 <= j < n && (#[trigger] rows[j]).symbol == symbol
}

/// Whether an identifier was used by one of the first `n` rows.
pub open spec fn instrument_taken(rows: Seq<SymbolView>, n: int, id: Seq<char>) -> bool {
    exists|j: int| 0 <= j < n && (#[trigger] rows[j]).instrument_id == id
}

/// What is wrong with row `i`, given the rows before it.
pub open spec fn row_fault(layout: LayoutView, i: int) -> Option<crate::slice_error::SliceFault> {
    let rows = layout.symbols;
    let row = rows[i];
    if row.slot_id >= layout.capacity {
        Some(
            crate::slice_error::SliceFault::SlotOutsideLayout {
                slot_id: row.slot_id,
                symbol: row.symbol,
                capacity: layout.capacity,
            },
        )
    } else if slot_taken(rows, i, row.slot_id) {
        Some(crate::slice_error::SliceFault::DuplicateSlot(row.slot_id))
    } else {
        match crate::names::symbol_of(row.symbol) {
            Err(fault) => Some(fault),
            Ok(symbol) => if symbol != row.symbol {
                Some(
                    crate::slice_error::SliceFault::SymbolNotNormalized {
                        given: row.symbol,
                        normalized: symbol,
                    },
                )
            } else if symbol_taken(rows, i, row.symbol) {
                Some(crate::slice_error::SliceFault::DuplicateSymbol(row.symbol))
            } else if crate::text::blank(row.instrument_id) {
                Some(crate::slice_error::SliceFault::EmptyInstrument(row.symbol))
            } else if instrument_taken(rows, i, row.instrument_id) {
                Some(crate::slice_error::SliceFault::DuplicateInstrument(row.instrument_id))
            } else {
                None
            },
        }
    }
}

/// The first fault among the first `n` rows.
pub open spec fn rows_fault(layout: LayoutView, n: int) -> Option<crate::slice_error::SliceFault>
    decreases n,
{
    if n <= 0 {
        None
    } else {
        match rows_fault(layout, n - 1) {
            Some(fault) => Some(fault),
            None => row_fault(layout, n - 1),
        }
    }
}

/// What is wrong with a layout.
pub open spec fn layout_fault(layout: LayoutView) -> Option<crate::slice_error::SliceFault> {
    if crate::text::blank(layout.layout_id) {
        Some(crate::slice_error::SliceFault::EmptyLayoutId)
    } else if crate::text::blank(layout.asset_class) {
        Some(crate::slice_error::SliceFault::EmptyAssetClass)
    } else {
        match crate::names::namespace_of(layout.asset_class) {
            Err(fault) => Some(fault),
            Ok(namespace) => if namespace != layout.asset_class {
                Some(
                    crate::slice_error::SliceFault::AssetClassNotNormalized {
                        given: layout.asset_class,
                        normalized: namespace,
                    },
                )
            } else {
                rows_fault(layout, layout.symbols.len() as int)
            },
        }
    }
}

/// The rows of the first `n` keys, each at its own position.
pub open spec fn rows_for(
    asset_class: Seq<char>,
    keys: Seq<Seq<char>>,
    prefix: Option<Seq<char>>,
    n: int,
) -> Result<Seq<SymbolView>, crate::slice_error::SliceFault>
    decreases n,
{
    if n <= 0 {
        Ok(Seq::empty())
    } else {
        match rows_for(asset_class, keys, prefix, n - 1) {
            Err(fault) => Err(fault),
            Ok(rows) => match crate::names::symbol_of(keys[n - 1]) {
                Err(fault) => Err(fault),
                Ok(symbol) => match crate::names::instrument_of(asset_class, symbol, prefix) {
                    Err(fault) => Err(fault),
                    Ok(instrument_id) => Ok(
                        rows.push(
                            SymbolView {
                                slot_id: (n - 1) as u32,
                                symbol,
                                instrument_id,
                                enabled: true,
                            },
                        ),
                    ),
                },
            },
        }
    }
}

/// The layout of some keys, or what is wrong with them.
pub open spec fn layout_for(
    layout_id: Seq<char>,
    asset_class: Seq<char>,
    capacity: u32,
    keys: Seq<Seq<char>>,
    prefix: Option<Seq<char>>,
) -> Result<LayoutView, crate::slice_error::SliceFault> {
    if keys.len() > capacity {
        Err(
            crate::slice_error::SliceFault::SymbolCount { count: keys.len() as usize, capacity },
        )
    } else {
        match crate::names::namespace_of(asset_class) {
            Err(fault) => Err(fault),
            Ok(namespace) => match rows_for(namespace, keys, prefix, keys.len() as int) {
                Err(fault) => Err(fault),
                Ok(symbols) => {
                    let layout = LayoutView {
                        layout_id,
                        asset_class: namespace,
                        capacity,
                        symbols,
                    };
                    match layout_fault(layout) {
                        Some(fault) => Err(fault),
                        None => Ok(layout),
                    }
                },
            },
        }
    }
}

/// One more than the highest enabled slot of the first `n` rows.
pub open spec fn active_prefix(rows: Seq<SymbolView>, n: int) -> u64
    decreases n,
{
    if n <= 0 {
        0
    } else if rows[n - 1].enabled && rows[n - 1].slot_id + 1 > active_prefix(rows, n - 1) {
        (rows[n - 1].slot_id + 1) as u64
    } else {
        active_prefix(rows, n - 1)
    }
}

/// The symbol of the first row at a slot.
pub open spec fn symbol_at(rows: Seq<SymbolView>, slot_id: u32) -> Option<Seq<char>>
    decreases rows.len(),
{
    if rows.len() == 0 {
        None
    } else if rows[0].slot_id == slot_id {
        Some(rows[0].symbol)
    } else {
        symbol_at(rows.drop_first(), slot_id)
    }
}

/// The slot of the first enabled row with a symbol.
pub open spec fn slot_of(rows: Seq<SymbolView>, symbol: Seq<char>) -> Option<u32>
    decreases rows.len(),
{
    if rows.len() == 0 {
        None
    } else if rows[0].symbol == symbol && rows[0].enabled {
        Some(rows[0].slot_id)
    } else {
        slot_of(rows.drop_first(), symbol)
    }
}

/// The enabled symbols of the first `n` rows with their slots.
pub open spec fn slots_by_symbol(rows: Seq<SymbolView>, n: int) -> Seq<(Seq<char>, u32)>
    decreases n,
{
    if n <= 0 {
        Seq::empty()
    } else if rows[n - 1].enabled {
        crate::table::entered(
            slots_by_symbol(rows, n - 1),
            rows[n - 1].symbol,
            rows[n - 1].slot_id,
        )
    } else {
        slots_by_symbol(rows, n - 1)
    }
}

/// A text as bytes.
pub open spec fn plain(text: Seq<char>) -> Seq<u8> {
    vstd::utf8::encode_utf8(text)
}

/// The JSON form of a row.
pub open spec fn row_json(row: SymbolView) -> Seq<u8> {
    plain("{\"slot_id\":"@) + plain(crate::text::decimal(row.slot_id as nat)) + plain(
        ",\"symbol\":"@,
    ) + json_of(row.symbol) + plain(",\"instrument_id\":"@) + json_of(row.instrument_id) + plain(
        ",\"enabled\":"@,
    ) + plain(
        if row.enabled {
            "true"@
        } else {
            "false"@
        },
    ) + plain("}"@)
}

/// The JSON form of the first `n` rows, separated by commas.
pub open spec fn rows_json(rows: Seq<SymbolView>, n: int) -> Seq<u8>
    decreases n,
{
    if n <= 0 {
        Seq::empty()
    } else if n == 1 {
        row_json(rows[0])
    } else {
        rows_json(rows, n - 1) + plain(","@) + row_json(rows[n - 1])
    }
}

/// The canonical JSON form of a layout.
pub open spec fn layout_json(layout: LayoutView) -> Seq<u8> {
    plain("{\"layout_id\":"@) + json_of(layout.layout_id) + plain(",\"asset_class\":"@) + json_of(
        layout.asset_class,
    ) + plain(",\"capacity\":"@) + plain(crate::text::decimal(layout.capacity as nat)) + plain(
        ",\"symbols\":["@,
    ) + rows_json(layout.symbols, layout.symbols.len() as int) + plain("]}"@)
}

/// The hash of a layout, or why it has none.
pub open spec fn hash_of(layout: LayoutView) -> Result<u64, crate::slice_error::SliceFault> {
    match layout_fault(layout) {
        Some(fault) => Err(fault),
        None => Ok(crate::hash::xxh64_of(layout_json(layout), 0)),
    }
}

proof fn lemma_rows_fault_stays(layout: LayoutView, i: int, n: int)
    requires
        0 <= i <= n,
        rows_fault(layout, i) is Some,
    ensures
        rows_fault(layout, n) == rows_fault(layout, i),
    decreases n,
{
    if i < n {
        lemma_rows_fault_stays(layout, i, n - 1);
    }
}

proof fn lemma_rows_for_stays(
    asset_class: Seq<char>,
    keys: Seq<Seq<char>>,
    prefix: Option<Seq<char>>,
    i: int,
    n: int,
)
    requires
        0 <= i <= n,
        rows_for(asset_class, keys, prefix, i) is Err,
    ensures
        rows_for(asset_class, keys, prefix, n) == rows_for(asset_class, keys, prefix, i),
    decreases n,
{
    if i < n {
        lemma_rows_for_stays(asset_class, keys, prefix, i, n - 1);
    }
}

fn push_plain(out: &mut Vec<u8>, text: &str)
    ensures
        final(out)@ == old(out)@ + plain(text@),
{
    out.extend_from_slice(text.as_bytes());
}

fn push_json(out: &mut Vec<u8>, text: &str)
    ensures
        final(out)@ == old(out)@ + json_of(text@),
{
    match json_text(text) {
        Ok(bytes) => {
            out.extend_from_slice(bytes.as_slice());
        },
        Err(_) => {
            assert(false);
        },
    }
}

fn push_count(out: &mut Vec<u8>, n: u32)
    ensures
        final(out)@ == old(out)@ + plain(crate::text::decimal(n as nat)),
{
    let mut text: String = String::new();
    push_decimal(&mut text, n as u64);
    assert(text@ =~= crate::text::decimal(n as nat));
    push_plain(out, text.as_str());
}

fn push_row(out: &mut Vec<u8>, row: &LayoutSymbol)
    ensures
        final(out)@ == old(out)@ + row_json(row@),
{
    let ghost start = out@;
    push_plain(out, "{\"slot_id\":");
    push_count(out, row.slot_id);
    push_plain(out, ",\"symbol\":");
    push_json(out, row.symbol.as_str());
    push_plain(out, ",\"instrument_id\":");
    push_json(out, row.instrument_id.as_str());
    push_plain(out, ",\"enabled\":");
    if row.enabled {
        push_plain(out, "true");
    } else {
        push_plain(out, "false");
    }
    push_plain(out, "}");
    assert(out@ =~= start + row_json(row@));
}

fn push_rows(out: &mut Vec<u8>, rows: &Vec<LayoutSymbol>)
    ensures
        final(out)@ == old(out)@ + rows_json(crate::text::views(rows@), rows@.len() as int),
{
    let ghost all = crate::text::views(rows@);
    let ghost start = out@;
    let mut i: usize = 0;
    assert(out@ =~= start + Seq::<u8>::empty());
    while i < rows.len()
        invariant
            0 <= i <= rows@.len(),
            all == crate::text::views(rows@),
            out@ == start + rows_json(all, i as int),
        decreases rows@.len() - i,
    {
        if i > 0 {
            push_plain(out, ",");
        }
        assert(all[i as int] == rows@[i as int]@);
        push_row(out, &rows[i]);
        assert(out@ =~= start + rows_json(all, i + 1));
        i = i + 1;
    }
}

/// Return the canonical JSON form of a layout.
pub fn canonical_json(layout: &LayoutRegistry) -> (bytes: Vec<u8>)
    ensures
        bytes@ == layout_json(layout@),
{
    let mut out: Vec<u8> = Vec::new();
    push_plain(&mut out, "{\"layout_id\":");
    push_json(&mut out, layout.layout_id.as_str());
    push_plain(&mut out, ",\"asset_class\":");
    push_json(&mut out, layout.asset_class.as_str());
    push_plain(&mut out, ",\"capacity\":");
    push_count(&mut out, layout.capacity);
    push_plain(&mut out, ",\"symbols\":[");
    push_rows(&mut out, &layout.symbols);
    push_plain(&mut out, "]}");
    assert(out@ =~= layout_json(layout@));
    out
}

impl LayoutRegistry {
    /// Construct an unchecked layout value; call [`Self::validate`] before use.
    pub fn new(
        layout_id: &str,
        asset_class: &str,
        capacity: u32,
        symbols: Vec<LayoutSymbol>,
    ) -> (layout: Self)
        ensures
            layout@ == (LayoutView {
                layout_id: layout_id@,
                asset_class: asset_class@,
                capacity,
                symbols: crate::text::views(symbols@),
            }),
    {
        LayoutRegistry {
            layout_id: layout_id.to_owned(),
            asset_class: asset_class.to_owned(),
            capacity,
            symbols,
        }
    }

    /// Build and validate a layout from financial-symbol-style keys.
    pub fn from_symbols(
        layout_id: &str,
        asset_class: &str,
        capacity: u32,
        symbols: &Vec<String>,
    ) -> (result: Result<Self, SliceError>)
        ensures
            crate::slice_error::gives(
                result,
                layout_for(
                    layout_id@,
                    asset_class@,
                    capacity,
                    crate::text::views(symbols@),
                    None,
                ),
            ),
    {
        LayoutRegistry::from_symbols_with_instrument_prefix(
            layout_id,
            asset_class,
            capacity,
            symbols,
            None,
        )
    }

    /// Domain-neutral spelling of [`Self::from_symbols`].
    pub fn from_entities(
        layout_id: &str,
        namespace: &str,
        capacity: u32,
        entity_keys: &Vec<String>,
    ) -> (result: Result<Self, SliceError>)
        ensures
            crate::slice_error::gives(
                result,
                layout_for(
                    layout_id@,
                    namespace@,
                    capacity,
                    crate::text::views(entity_keys@),
                    None,
                ),
            ),
    {
        LayoutRegistry::from_symbols(layout_id, namespace, capacity, entity_keys)
    }

    /// Build a symbol layout with a caller-supplied identifier prefix.
    pub fn from_symbols_with_instrument_prefix(
        layout_id: &str,
        asset_class: &str,
        capacity: u32,
        symbols: &Vec<String>,
        instrument_prefix: Option<&str>,
    ) -> (result: Result<Self, SliceError>)
        ensures
            crate::slice_error::gives(
                result,
                layout_for(
                    layout_id@,
                    asset_class@,
                    capacity,
                    crate::text::views(symbols@),
                    crate::names::text_view(instrument_prefix),
                ),
            ),
    {
        if symbols.len() as u64 > capacity as u64 {
            return Err(SliceError::SymbolCount { count: symbols.len(), capacity });
        }
        let namespace: String = match normalize_asset_class(asset_class) {
            Ok(namespace) => namespace,
            Err(fault) => {
                return Err(fault);
            },
        };
        let ghost keys = crate::text::views(symbols@);
        let ghost prefix = crate::names::text_view(instrument_prefix);
        let mut rows: Vec<LayoutSymbol> = Vec::new();
        let mut i: usize = 0;
        assert(crate::text::views(rows@) =~= Seq::<SymbolView>::empty());
        while i < symbols.len()
            invariant
                0 <= i <= symbols@.len(),
                symbols@.len() <= capacity,
                keys == crate::text::views(symbols@),
                prefix == crate::names::text_view(instrument_prefix),
                crate::names::namespace_of(asset_class@) == Ok::<
                    Seq<char>,
                    crate::slice_error::SliceFault,
                >(namespace@),
                rows_for(namespace@, keys, prefix, i as int) == Ok::<
                    Seq<SymbolView>,
                    crate::slice_error::SliceFault,
                >(crate::text::views(rows@)),
            decreases symbols@.len() - i,
        {
            assert(keys[i as int] == symbols@[i as int]@);
            let symbol: String = match normalize_symbol(symbols[i].as_str()) {
                Ok(symbol) => symbol,
                Err(fault) => {
                    proof {
                        lemma_rows_for_stays(namespace@, keys, prefix, i + 1, keys.len() as int);
                    }
                    return Err(fault);
                },
            };
            let instrument_id: String = match default_instrument_id(
                namespace.as_str(),
                symbol.as_str(),
                instrument_prefix,
            ) {
                Ok(id) => id,
                Err(fault) => {
                    proof {
                        lemma_rows_for_stays(namespace@, keys, prefix, i + 1, keys.len() as int);
                    }
                    return Err(fault);
                },
            };
            let row = LayoutSymbol { slot_id: i as u32, symbol, instrument_id, enabled: true };
            let ghost before = rows@;
            let ghost view = row@;
            rows.push(row);
            assert(crate::text::views(rows@) =~= crate::text::views(before).push(view));
            i = i + 1;
        }
        let layout = LayoutRegistry {
            layout_id: layout_id.to_owned(),
            asset_class: namespace,
            capacity,
            symbols: rows,
        };
        match layout.validate() {
            Ok(()) => Ok(layout),
            Err(fault) => Err(fault),
        }
    }

    /// Check normalization, capacity, uniqueness, and slot bounds.
    #[verifier::loop_isolation(false)]
    pub fn validate(&self) -> (result: Result<(), SliceError>)
        ensures
            crate::slice_error::reports(result, layout_fault(self@)),
    {
        if is_blank(self.layout_id.as_str()) {
            return Err(SliceError::EmptyLayoutId);
        }
        if is_blank(self.asset_class.as_str()) {
            return Err(SliceError::EmptyAssetClass);
        }
        let namespace: String = match normalize_asset_class(self.asset_class.as_str()) {
            Ok(namespace) => namespace,
            Err(fault) => {
                return Err(fault);
            },
        };
        if !same_text(namespace.as_str(), self.asset_class.as_str()) {
            return Err(
                SliceError::AssetClassNotNormalized {
                    given: self.asset_class.clone(),
                    normalized: namespace,
                },
            );
        }
        let ghost layout = self@;
        let ghost rows = layout.symbols;
        let ghost n = rows.len() as int;
        let mut slots: HashSet<u32> = HashSet::new();
        let mut symbols: Table<()> = Table::new();
        let mut instruments: Table<()> = Table::new();
        let mut i: usize = 0;
        while i < self.symbols.len()
            invariant
                0 <= i <= self.symbols@.len(),
                rows_fault(layout, i as int) is None,
                forall|slot: u32| #[trigger]
                    slots@.contains(slot) == slot_taken(rows, i as int, slot),
                forall|text: Seq<char>|
                    (#[trigger] crate::table::found(symbols@, text) is Some) == symbol_taken(
                        rows,
                        i as int,
                        text,
                    ),
                forall|text: Seq<char>|
                    (#[trigger] crate::table::found(instruments@, text) is Some)
                        == instrument_taken(rows, i as int, text),
            decreases self.symbols@.len() - i,
        {
            let row = &self.symbols[i];
            assert(rows[i as int] == row@);
            match self.validate_row(i, &slots, &symbols, &instruments) {
                Ok(()) => {},
                Err(fault) => {
                    proof {
                        lemma_rows_fault_stays(layout, i + 1, n);
                    }
                    return Err(fault);
                },
            }
            let ghost slots_before = slots@;
            let ghost symbols_before = symbols@;
            let ghost instruments_before = instruments@;
            slots.insert(row.slot_id);
            symbols.insert(row.symbol.clone(), ());
            instruments.insert(row.instrument_id.clone(), ());
            proof {
                assert forall|slot: u32| #[trigger]
                    slots@.contains(slot) == slot_taken(rows, i + 1, slot) by {
                    assert(slots_before.contains(slot) == slot_taken(rows, i as int, slot));
                    if slot_taken(rows, i as int, slot) {
                        let j = choose|j: int| 0 <= j < i && (#[trigger] rows[j]).slot_id == slot;
                        assert(rows[j].slot_id == slot);
                    }
                    if slot == row.slot_id {
                        assert(rows[i as int].slot_id == slot);
                    }
                }
                assert forall|text: Seq<char>|
                    (#[trigger] crate::table::found(symbols@, text) is Some) == symbol_taken(
                        rows,
                        i + 1,
                        text,
                    ) by {
                    crate::table::lemma_entered(symbols_before, row.symbol@, (), text);
                    assert(crate::table::found(symbols_before, text) is Some == symbol_taken(
                        rows,
                        i as int,
                        text,
                    ));
                    if symbol_taken(rows, i as int, text) {
                        let j = choose|j: int| 0 <= j < i && (#[trigger] rows[j]).symbol == text;
                        assert(rows[j].symbol == text);
                    }
                    if text == row.symbol@ {
                        assert(rows[i as int].symbol == text);
                    }
                }
                assert forall|text: Seq<char>|
                    (#[trigger] crate::table::found(instruments@, text) is Some)
                        == instrument_taken(rows, i + 1, text) by {
                    crate::table::lemma_entered(instruments_before, row.instrument_id@, (), text);
                    assert(crate::table::found(instruments_before, text) is Some
                        == instrument_taken(rows, i as int, text));
                    if instrument_taken(rows, i as int, text) {
                        let j = choose|j: int|
                            0 <= j < i && (#[trigger] rows[j]).instrument_id == text;
                        assert(rows[j].instrument_id == text);
                    }
                    if text == row.instrument_id@ {
                        assert(rows[i as int].instrument_id == text);
                    }
                }
            }
            i = i + 1;
        }
        Ok(())
    }

    fn validate_row(
        &self,
        i: usize,
        slots: &HashSet<u32>,
        symbols: &Table<()>,
        instruments: &Table<()>,
    ) -> (result: Result<(), SliceError>)
        requires
            i < self.symbols@.len(),
            forall|slot: u32| #[trigger]
                slots@.contains(slot) == slot_taken(self@.symbols, i as int, slot),
            forall|text: Seq<char>|
                (#[trigger] crate::table::found(symbols@, text) is Some) == symbol_taken(
                    self@.symbols,
                    i as int,
                    text,
                ),
            forall|text: Seq<char>|
                (#[trigger] crate::table::found(instruments@, text) is Some) == instrument_taken(
                    self@.symbols,
                    i as int,
                    text,
                ),
        ensures
            crate::slice_error::reports(result, row_fault(self@, i as int)),
    {
        let row = &self.symbols[i];
        assert(self@.symbols[i as int] == row@);
        if row.slot_id >= self.capacity {
            return Err(
                SliceError::SlotOutsideLayout {
                    slot_id: row.slot_id,
                    symbol: row.symbol.clone(),
                    capacity: self.capacity,
                },
            );
        }
        if slots.contains(&row.slot_id) {
            return Err(SliceError::DuplicateSlot(row.slot_id));
        }
        let symbol: String = match normalize_symbol(row.symbol.as_str()) {
            Ok(symbol) => symbol,
            Err(fault) => {
                return Err(fault);
            },
        };
        if !same_text(symbol.as_str(), row.symbol.as_str()) {
            return Err(
                SliceError::SymbolNotNormalized { given: row.symbol.clone(), normalized: symbol },
            );
        }
        let known: bool = symbols.get(row.symbol.as_str()).is_some();
        if known {
            return Err(SliceError::DuplicateSymbol(symbol));
        }
        if is_blank(row.instrument_id.as_str()) {
            return Err(SliceError::EmptyInstrument(symbol));
        }
        let listed: bool = instruments.get(row.instrument_id.as_str()).is_some();
        if listed {
            return Err(SliceError::DuplicateInstrument(row.instrument_id.clone()));
        }
        Ok(())
    }

    /// Hash the validated canonical JSON layout.
    pub fn layout_hash(&self) -> (result: Result<u64, SliceError>)
        ensures
            match hash_of(self@) {
                Ok(hash) => result matches Ok(h) && h == hash,
                Err(fault) => result matches Err(e) && e@ == fault,
            },
    {
        match self.validate() {
            Ok(()) => {},
            Err(fault) => {
                return Err(fault);
            },
        }
        let bytes = canonical_json(self);
        Ok(xxh64(bytes.as_slice(), 0))
    }

    /// Return one plus the highest enabled slot, or zero for an empty layout.
    pub fn active_len(&self) -> (len: u64)
        ensures
            len == active_prefix(self@.symbols, self@.symbols.len() as int),
    {
        let ghost rows = self@.symbols;
        let mut len: u64 = 0;
        let mut i: usize = 0;
        while i < self.symbols.len()
            invariant
                0 <= i <= self.symbols@.len(),
                rows == crate::text::views(self.symbols@),
                len == active_prefix(rows, i as int),
            decreases self.symbols@.len() - i,
        {
            assert(rows[i as int] == self.symbols@[i as int]@);
            let end: u64 = self.symbols[i].slot_id as u64 + 1;
            if self.symbols[i].enabled && end > len {
                len = end;
            }
            i = i + 1;
        }
        len
    }

    /// Resolve a dense slot to its declared symbol, including disabled rows.
    pub fn symbol_for_slot(&self, slot_id: u32) -> (symbol: Option<&str>)
        ensures
            crate::names::text_view(symbol) == symbol_at(self@.symbols, slot_id),
    {
        let ghost rows = self@.symbols;
        let mut i: usize = 0;
        assert(rows.skip(0) =~= rows);
        while i < self.symbols.len()
            invariant
                0 <= i <= self.symbols@.len(),
                rows == crate::text::views(self.symbols@),
                symbol_at(rows, slot_id) == symbol_at(rows.skip(i as int), slot_id),
            decreases self.symbols@.len() - i,
        {
            assert(rows.skip(i as int)[0] == self.symbols@[i as int]@);
            if self.symbols[i].slot_id == slot_id {
                return Some(self.symbols[i].symbol.as_str());
            }
            assert(rows.skip(i as int).drop_first() =~= rows.skip(i + 1));
            i = i + 1;
        }
        None
    }

    /// Domain-neutral spelling of [`Self::symbol_for_slot`].
    pub fn entity_for_slot(&self, slot_id: u32) -> (entity: Option<&str>)
        ensures
            crate::names::text_view(entity) == symbol_at(self@.symbols, slot_id),
    {
        self.symbol_for_slot(slot_id)
    }

    /// Resolve a normalized enabled symbol to a dense slot.
    pub fn slot_for_symbol(&self, symbol: &str) -> (result: Result<Option<u32>, SliceError>)
        ensures
            match crate::names::symbol_of(symbol@) {
                Ok(normalized) => result matches Ok(slot) && slot == slot_of(
                    self@.symbols,
                    normalized,
                ),
                Err(fault) => result matches Err(e) && e@ == fault,
            },
    {
        let normalized: String = match normalize_symbol(symbol) {
            Ok(normalized) => normalized,
            Err(fault) => {
                return Err(fault);
            },
        };
        let ghost rows = self@.symbols;
        let mut i: usize = 0;
        assert(rows.skip(0) =~= rows);
        while i < self.symbols.len()
            invariant
                0 <= i <= self.symbols@.len(),
                rows == crate::text::views(self.symbols@),
                crate::names::symbol_of(symbol@) == Ok::<
                    Seq<char>,
                    crate::slice_error::SliceFault,
                >(normalized@),
                slot_of(rows, normalized@) == slot_of(rows.skip(i as int), normalized@),
            decreases self.symbols@.len() - i,
        {
            assert(rows.skip(i as int)[0] == self.symbols@[i as int]@);
            if same_text(self.symbols[i].symbol.as_str(), normalized.as_str())
                && self.symbols[i].enabled {
                return Ok(Some(self.symbols[i].slot_id));
            }
            assert(rows.skip(i as int).drop_first() =~= rows.skip(i + 1));
            i = i + 1;
        }
        Ok(None)
    }

    /// Domain-neutral spelling of [`Self::slot_for_symbol`].
    pub fn slot_for_entity(&self, entity_key: &str) -> (result: Result<Option<u32>, SliceError>)
        ensures
            match crate::names::symbol_of(entity_key@) {
                Ok(normalized) => result matches Ok(slot) && slot == slot_of(
                    self@.symbols,
                    normalized,
                ),
                Err(fault) => result matches Err(e) && e@ == fault,
            },
    {
        self.slot_for_symbol(entity_key)
    }

    /// Return enabled normalized symbols keyed to their dense slots.
    pub fn slot_map(&self) -> (map: Table<u32>)
        ensures
            map@ == slots_by_symbol(self@.symbols, self@.symbols.len() as int),
    {
        let ghost rows = self@.symbols;
        let mut map: Table<u32> = Table::new();
        let mut i: usize = 0;
        while i < self.symbols.len()
            invariant
                0 <= i <= self.symbols@.len(),
                rows == crate::text::views(self.symbols@),
                map@ == slots_by_symbol(rows, i as int),
            decreases self.symbols@.len() - i,
        {
            assert(rows[i as int] == self.symbols@[i as int]@);
            if self.symbols[i].enabled {
                map.insert(self.symbols[i].symbol.clone(), self.symbols[i].slot_id);
            }
            i = i + 1;
        }
        map
    }
}

/// Domain-neutral name for a stable slice layout.
pub type EntityLayout = LayoutRegistry;

/// Domain-neutral name for one row in a stable slice layout.
pub type LayoutEntity = LayoutSymbol;

/// What is wrong with a layout and an active prefix for a new slice.
pub open spec fn creation_fault(layout: LayoutView, active_len: u64) -> Option<
    crate::slice_error::SliceFault,
> {
    match layout_fault(layout) {
        Some(fault) => Some(fault),
        None => if active_len > layout.capacity {
            Some(
                crate::slice_error::SliceFault::ActiveBeyondLayout {
                    active_len,
                    capacity: layout.capacity,
                },
            )
        } else {
            None
        },
    }
}

/// Check a layout and an active prefix for a new slice.
pub fn check_creation(layout: &LayoutRegistry, active_len: u64) -> (result: Result<(), SliceError>)
    ensures
        crate::slice_error::reports(result, creation_fault(layout@, active_len)),
{
    match layout.validate() {
        Ok(()) => {},
        Err(fault) => {
            return Err(fault);
        },
    }
    if active_len > layout.capacity as u64 {
        return Err(
            SliceError::ActiveBeyondLayout { active_len, capacity: layout.capacity },
        );
    }
    Ok(())
}

/// The header of a new slice, or why it has none.
pub open spec fn header_for(
    layout: LayoutView,
    value_type: ValueType,
    active_len: u64,
    heartbeat_ns: u64,
    created_ns: u64,
    updated_ns: u64,
) -> Result<SliceHeaderInfo, crate::slice_error::SliceFault> {
    match creation_fault(layout, active_len) {
        Some(fault) => Err(fault),
        None => match hash_of(layout) {
            Err(fault) => Err(fault),
            Ok(layout_hash) => Ok(
                SliceHeaderInfo {
                    version: VERSION,
                    header_len: HEADER_SIZE as u32,
                    value_type,
                    flags: FLAG_WRITABLE_OWNER,
                    capacity: layout.capacity as u64,
                    active_len,
                    slot_size: value_type.width(),
                    layout_hash,
                    schema_hash: value_type.schema(),
                    writer_epoch: 2,
                    heartbeat_ns,
                    created_ns,
                    updated_ns,
                },
            ),
        },
    }
}

/// Make the header of a new slice. It can be read back, it is of its payload
/// schema, and its file has a length.
pub fn new_header(
    layout: &LayoutRegistry,
    value_type: ValueType,
    active_len: u64,
    heartbeat_ns: u64,
    created_ns: u64,
    updated_ns: u64,
) -> (result: Result<SliceHeaderInfo, SliceError>)
    ensures
        match header_for(
            layout@,
            value_type,
            active_len,
            heartbeat_ns,
            created_ns,
            updated_ns,
        ) {
            Ok(header) => result matches Ok(h) && h == header,
            Err(fault) => result matches Err(e) && e@ == fault,
        },
        result matches Ok(h) ==> {
            &&& h.readable()
            &&& crate::header::schema_fault(h, value_type) is None
            &&& h.total() is Ok
        },
{
    match check_creation(layout, active_len) {
        Ok(()) => {},
        Err(fault) => {
            return Err(fault);
        },
    }
    let layout_hash: u64 = match layout.layout_hash() {
        Ok(hash) => hash,
        Err(fault) => {
            return Err(fault);
        },
    };
    let header = SliceHeaderInfo {
        version: VERSION,
        header_len: HEADER_SIZE as u32,
        value_type,
        flags: FLAG_WRITABLE_OWNER,
        capacity: layout.capacity as u64,
        active_len,
        slot_size: value_type.slot_size(),
        layout_hash,
        schema_hash: value_type.schema_hash(),
        writer_epoch: 2,
        heartbeat_ns,
        created_ns,
        updated_ns,
    };
    proof {
        assert(header.capacity * header.slot_size <= 0xffff_ffff * 136) by (nonlinear_arith)
            requires
                header.capacity <= 0xffff_ffff,
                header.slot_size <= 136,
        ;
    }
    Ok(header)
}

/// What is wrong with a layout for a slice.
pub open spec fn match_fault(header: SliceHeaderInfo, layout: LayoutView) -> Option<
    crate::slice_error::SliceFault,
> {
    match hash_of(layout) {
        Err(fault) => Some(fault),
        Ok(hash) => if header.layout_hash != hash {
            Some(
                crate::slice_error::SliceFault::LayoutHashMismatch {
                    slice: header.layout_hash,
                    layout: hash,
                },
            )
        } else if header.capacity != layout.capacity {
            Some(
                crate::slice_error::SliceFault::CapacityMismatch {
                    slice: header.capacity,
                    layout: layout.capacity,
                },
            )
        } else {
            None
        },
    }
}

/// Reject a layout whose hash or capacity differs from a slice.
pub fn ensure_layout(header: &SliceHeaderInfo, layout: &LayoutRegistry) -> (result: Result<
    (),
    SliceError,
>)
    ensures
        crate::slice_error::reports(result, match_fault(*header, layout@)),
{
    let hash: u64 = match layout.layout_hash() {
        Ok(hash) => hash,
        Err(fault) => {
            return Err(fault);
        },
    };
    if header.layout_hash != hash {
        return Err(SliceError::LayoutHashMismatch { slice: header.layout_hash, layout: hash });
    }
    if header.capacity != layout.capacity as u64 {
        return Err(
            SliceError::CapacityMismatch { slice: header.capacity, layout: layout.capacity },
        );
    }
    Ok(())
}

/// A slice that was made for a layout matches it.
pub proof fn lemma_new_slice_matches(
    layout: LayoutView,
    value_type: ValueType,
    active_len: u64,
    heartbeat_ns: u64,
    created_ns: u64,
    updated_ns: u64,
)
    requires
        header_for(
            layout,
            value_type,
            active_len,
            heartbeat_ns,
            created_ns,
            updated_ns,
        ) is Ok,
    ensures
        match_fault(
            header_for(
                layout,
                value_type,
                active_len,
                heartbeat_ns,
                created_ns,
                updated_ns,
            )->Ok_0,
            layout,
        ) is None,
{
}

proof fn lemma_sound_row(layout: LayoutView, n: int, i: int)
    requires
        rows_fault(layout, n) is None,
        0 <= i < n <= layout.symbols.len(),
    ensures
        row_fault(layout, i) is None,
    decreases n,
{
    if i < n - 1 {
        lemma_sound_row(layout, n - 1, i);
    }
}

proof fn lemma_symbol_at(rows: Seq<SymbolView>, i: int)
    requires
        0 <= i < rows.len(),
        forall|j: int| 0 <= j < i ==> (#[trigger] rows[j]).slot_id != rows[i].slot_id,
    ensures
        symbol_at(rows, rows[i].slot_id) == Some(rows[i].symbol),
    decreases rows.len(),
{
    if i > 0 {
        assert(rows[0].slot_id != rows[i].slot_id);
        let rest = rows.drop_first();
        assert(rest[i - 1] == rows[i]);
        assert forall|j: int| 0 <= j < i - 1 implies (#[trigger] rest[j]).slot_id
            != rest[i - 1].slot_id by {
            assert(rest[j] == rows[j + 1]);
        }
        lemma_symbol_at(rest, i - 1);
    }
}

proof fn lemma_slot_of(rows: Seq<SymbolView>, i: int)
    requires
        0 <= i < rows.len(),
        rows[i].enabled,
        forall|j: int| 0 <= j < i ==> (#[trigger] rows[j]).symbol != rows[i].symbol,
    ensures
        slot_of(rows, rows[i].symbol) == Some(rows[i].slot_id),
    decreases rows.len(),
{
    if i > 0 {
        assert(rows[0].symbol != rows[i].symbol);
        let rest = rows.drop_first();
        assert(rest[i - 1] == rows[i]);
        assert forall|j: int| 0 <= j < i - 1 implies (#[trigger] rest[j]).symbol
            != rest[i - 1].symbol by {
            assert(rest[j] == rows[j + 1]);
        }
        lemma_slot_of(rest, i - 1);
    }
}

/// In a valid layout the slot of every row leads to its symbol, and the symbol
/// of every enabled row leads to its slot.
pub proof fn lemma_lookups_agree(layout: LayoutView, i: int)
    requires
        layout_fault(layout) is None,
        0 <= i < layout.symbols.len(),
    ensures
        symbol_at(layout.symbols, layout.symbols[i].slot_id) == Some(layout.symbols[i].symbol),
        layout.symbols[i].enabled ==> slot_of(layout.symbols, layout.symbols[i].symbol) == Some(
            layout.symbols[i].slot_id,
        ),
        layout.symbols[i].slot_id < layout.capacity,
{
    let rows = layout.symbols;
    lemma_sound_row(layout, rows.len() as int, i);
    assert(!slot_taken(rows, i, rows[i].slot_id));
    assert(!symbol_taken(rows, i, rows[i].symbol));
    lemma_symbol_at(rows, i);
    if rows[i].enabled {
        lemma_slot_of(rows, i);
    }
}

proof fn lemma_active_prefix(layout: LayoutView, n: int)
    requires
        layout_fault(layout) is None,
        0 <= n <= layout.symbols.len(),
    ensures
        active_prefix(layout.symbols, n) <= layout.capacity,
        forall|i: int|
            0 <= i < n && (#[trigger] layout.symbols[i]).enabled ==> layout.symbols[i].slot_id
                < active_prefix(layout.symbols, n),
    decreases n,
{
    if n > 0 {
        lemma_active_prefix(layout, n - 1);
        lemma_sound_row(layout, layout.symbols.len() as int, n - 1);
    }
}

/// The active prefix of a valid layout lies in its capacity.
pub proof fn lemma_active_prefix_bounded(layout: LayoutView)
    requires
        layout_fault(layout) is None,
    ensures
        active_prefix(layout.symbols, layout.symbols.len() as int) <= layout.capacity,
{
    lemma_active_prefix(layout, layout.symbols.len() as int);
}

/// In a valid layout every enabled slot lies in the active prefix, which lies
/// in the capacity: a slice can be made with it.
pub proof fn lemma_active_prefix_covers(layout: LayoutView, i: int)
    requires
        layout_fault(layout) is None,
        0 <= i < layout.symbols.len(),
        layout.symbols[i].enabled,
    ensures
        layout.symbols[i].slot_id < active_prefix(
            layout.symbols,
            layout.symbols.len() as int,
        ) <= layout.capacity,
        creation_fault(
            layout,
            active_prefix(layout.symbols, layout.symbols.len() as int),
        ) is None,
{
    lemma_active_prefix(layout, layout.symbols.len() as int);
}

proof fn lemma_rows_are_sound(layout: LayoutView, n: int)
    requires
        0 <= n <= layout.symbols.len(),
        forall|i: int| 0 <= i < n ==> #[trigger] row_fault(layout, i) is None,
    ensures
        rows_fault(layout, n) is None,
    decreases n,
{
    if n > 0 {
        lemma_rows_are_sound(layout, n - 1);
        assert(row_fault(layout, n - 1) is None);
    }
}

/// A layout is accepted exactly where it has an identity, a normalized
/// namespace, and rows whose slots lie in the capacity, whose symbols are
/// normalized and whose identifiers are not blank, no two of them with the same
/// slot, symbol or identifier.
pub proof fn lemma_layouts_are_accepted(
    layout: &LayoutRegistry,
    result: Result<(), SliceError>,
)
    requires
        call_ensures(LayoutRegistry::validate, (layout,), result),
    ensures
        ({
            let rows = layout.symbols@;
            result is Ok <==> {
                &&& crate::text::trimmed(layout.layout_id@).len() > 0
                &&& crate::text::trimmed(layout.asset_class@).len() > 0
                &&& crate::names::namespace_of(layout.asset_class@) == Ok::<
                    Seq<char>,
                    crate::slice_error::SliceFault,
                >(layout.asset_class@)
                &&& forall|i: int|
                    0 <= i < rows.len() ==> {
                        &&& (#[trigger] rows[i]).slot_id < layout.capacity
                        &&& crate::names::symbol_of(rows[i].symbol@) == Ok::<
                            Seq<char>,
                            crate::slice_error::SliceFault,
                        >(rows[i].symbol@)
                        &&& crate::text::trimmed(rows[i].instrument_id@).len() > 0
                    }
                &&& forall|i: int, j: int|
                    0 <= i < j < rows.len() ==> {
                        &&& (#[trigger] rows[i]).slot_id != (#[trigger] rows[j]).slot_id
                        &&& rows[i].symbol@ != rows[j].symbol@
                        &&& rows[i].instrument_id@ != rows[j].instrument_id@
                    }
            }
        }),
{
    let view = layout@;
    let rows = layout.symbols@;
    let n = rows.len() as int;
    if result is Ok {
        assert forall|i: int| 0 <= i < n implies ({
            &&& (#[trigger] rows[i]).slot_id < layout.capacity
            &&& crate::names::symbol_of(rows[i].symbol@) == Ok::<
                Seq<char>,
                crate::slice_error::SliceFault,
            >(rows[i].symbol@)
            &&& crate::text::trimmed(rows[i].instrument_id@).len() > 0
        }) by {
            lemma_sound_row(view, n, i);
            assert(view.symbols[i] == rows[i]@);
        }
        assert forall|i: int, j: int| 0 <= i < j < n implies ({
            &&& (#[trigger] rows[i]).slot_id != (#[trigger] rows[j]).slot_id
            &&& rows[i].symbol@ != rows[j].symbol@
            &&& rows[i].instrument_id@ != rows[j].instrument_id@
        }) by {
            lemma_sound_row(view, n, j);
            assert(view.symbols[i] == rows[i]@);
            assert(view.symbols[j] == rows[j]@);
            assert(!slot_taken(view.symbols, j, view.symbols[j].slot_id));
            assert(!symbol_taken(view.symbols, j, view.symbols[j].symbol));
            assert(!instrument_taken(view.symbols, j, view.symbols[j].instrument_id));
        }
    } else if crate::text::trimmed(layout.layout_id@).len() > 0 && crate::text::trimmed(
        layout.asset_class@,
    ).len() > 0 && crate::names::namespace_of(layout.asset_class@) == Ok::<
        Seq<char>,
        crate::slice_error::SliceFault,
    >(layout.asset_class@) {
        assert(rows_fault(view, n) is Some);
        if forall|i: int| 0 <= i < n ==> #[trigger] row_fault(view, i) is None {
            lemma_rows_are_sound(view, n);
        }
        let i = choose|i: int| 0 <= i < n && #[trigger] row_fault(view, i) is Some;
        assert(view.symbols[i] == rows[i]@);
        if slot_taken(view.symbols, i, view.symbols[i].slot_id) {
            let j = choose|j: int|
                0 <= j < i && (#[trigger] view.symbols[j]).slot_id == view.symbols[i].slot_id;
            assert(view.symbols[j] == rows[j]@);
        }
        if symbol_taken(view.symbols, i, view.symbols[i].symbol) {
            let j = choose|j: int|
                0 <= j < i && (#[trigger] view.symbols[j]).symbol == view.symbols[i].symbol;
            assert(view.symbols[j] == rows[j]@);
        }
        if instrument_taken(view.symbols, i, view.symbols[i].instrument_id) {
            let j = choose|j: int|
                0 <= j < i && (#[trigger] view.symbols[j]).instrument_id
                    == view.symbols[i].instrument_id;
            assert(view.symbols[j] == rows[j]@);
        }
    }
}

proof fn lemma_row_for(
    asset_class: Seq<char>,
    keys: Seq<Seq<char>>,
    prefix: Option<Seq<char>>,
    n: int,
)
    requires
        rows_for(asset_class, keys, prefix, n) is Ok,
        0 <= n <= keys.len(),
        keys.len() <= u32::MAX,
    ensures
        ({
            let rows = rows_for(asset_class, keys, prefix, n)->Ok_0;
            &&& rows.len() == n
            &&& forall|i: int|
                0 <= i < n ==> {
                    &&& (#[trigger] rows[i]).slot_id == i
                    &&& rows[i].enabled
                    &&& crate::names::symbol_of(keys[i]) == Ok::<
                        Seq<char>,
                        crate::slice_error::SliceFault,
                    >(rows[i].symbol)
                    &&& crate::names::instrument_of(asset_class, rows[i].symbol, prefix) == Ok::<
                        Seq<char>,
                        crate::slice_error::SliceFault,
                    >(rows[i].instrument_id)
                }
        }),
    decreases n,
{
    if n > 0 {
        lemma_row_for(asset_class, keys, prefix, n - 1);
    }
}

/// A layout that is made of symbols keeps its identity and capacity, and gives
/// the symbol at every position the slot of that position, enabled, in its
/// normal form and with the identifier that the namespace and the prefix give
/// it. More symbols than the capacity are refused.
pub proof fn lemma_layout_follows_symbols(
    layout_id: &str,
    asset_class: &str,
    capacity: u32,
    symbols: &Vec<String>,
    instrument_prefix: Option<&str>,
    result: Result<LayoutRegistry, SliceError>,
)
    requires
        call_ensures(
            LayoutRegistry::from_symbols_with_instrument_prefix,
            (layout_id, asset_class, capacity, symbols, instrument_prefix),
            result,
        ),
    ensures
        symbols@.len() > capacity ==> result is Err,
        result matches Ok(layout) ==> {
            &&& layout.layout_id@ == layout_id@
            &&& crate::names::namespace_of(asset_class@) == Ok::<
                Seq<char>,
                crate::slice_error::SliceFault,
            >(layout.asset_class@)
            &&& layout.capacity == capacity
            &&& layout.symbols@.len() == symbols@.len()
            &&& forall|i: int|
                0 <= i < symbols@.len() ==> {
                    let row = #[trigger] layout.symbols@[i];
                    &&& row.slot_id == i
                    &&& row.enabled
                    &&& crate::names::symbol_of(symbols@[i]@) == Ok::<
                        Seq<char>,
                        crate::slice_error::SliceFault,
                    >(row.symbol@)
                    &&& crate::names::instrument_of(
                        layout.asset_class@,
                        row.symbol@,
                        crate::names::text_view(instrument_prefix),
                    ) == Ok::<Seq<char>, crate::slice_error::SliceFault>(row.instrument_id@)
                }
        },
{
    if let Ok(layout) = result {
        let keys = crate::text::views(symbols@);
        lemma_row_for(
            layout.asset_class@,
            keys,
            crate::names::text_view(instrument_prefix),
            keys.len() as int,
        );
        assert forall|i: int| 0 <= i < symbols@.len() implies ({
            let row = #[trigger] layout.symbols@[i];
            &&& row.slot_id == i
            &&& row.enabled
            &&& crate::names::symbol_of(symbols@[i]@) == Ok::<
                Seq<char>,
                crate::slice_error::SliceFault,
            >(row.symbol@)
            &&& crate::names::instrument_of(
                layout.asset_class@,
                row.symbol@,
                crate::names::text_view(instrument_prefix),
            ) == Ok::<Seq<char>, crate::slice_error::SliceFault>(row.instrument_id@)
        }) by {
            assert(layout@.symbols[i] == layout.symbols@[i]@);
            assert(keys[i] == symbols@[i]@);
        }
    }
}

/// Symbols and entities make the layout that they make without a prefix.
pub proof fn lemma_plain_layouts(
    layout_id: &str,
    asset_class: &str,
    capacity: u32,
    keys: &Vec<String>,
    symbols: Result<LayoutRegistry, SliceError>,
    entities: Result<LayoutRegistry, SliceError>,
    bare: Result<LayoutRegistry, SliceError>,
)
    requires
        call_ensures(
            LayoutRegistry::from_symbols,
            (layout_id, asset_class, capacity, keys),
            symbols,
        ),
        call_ensures(
            LayoutRegistry::from_entities,
            (layout_id, asset_class, capacity, keys),
            entities,
        ),
        call_ensures(
            LayoutRegistry::from_symbols_with_instrument_prefix,
            (layout_id, asset_class, capacity, keys, None),
            bare,
        ),
    ensures
        bare is Ok ==> symbols is Ok && entities is Ok && symbols->Ok_0@ == bare->Ok_0@
            && entities->Ok_0@ == bare->Ok_0@,
        bare is Err ==> symbols is Err && entities is Err && symbols->Err_0@ == bare->Err_0@
            && entities->Err_0@ == bare->Err_0@,
{
}

proof fn lemma_symbol_at_exists(rows: Seq<SymbolView>, slot_id: u32)
    ensures
        match symbol_at(rows, slot_id) {
            Some(symbol) => exists|i: int|
                0 <= i < rows.len() && (#[trigger] rows[i]).slot_id == slot_id && rows[i].symbol
                    == symbol,
            None => forall|i: int| 0 <= i < rows.len() ==> (#[trigger] rows[i]).slot_id != slot_id,
        },
    decreases rows.len(),
{
    if rows.len() > 0 && rows[0].slot_id != slot_id {
        let rest = rows.drop_first();
        lemma_symbol_at_exists(rest, slot_id);
        match symbol_at(rest, slot_id) {
            Some(symbol) => {
                let i = choose|i: int|
                    0 <= i < rest.len() && (#[trigger] rest[i]).slot_id == slot_id && rest[i].symbol
                        == symbol;
                assert(rows[i + 1] == rest[i]);
            },
            None => {
                assert forall|i: int| 0 <= i < rows.len() implies (#[trigger] rows[i]).slot_id
                    != slot_id by {
                    if i > 0 {
                        assert(rest[i - 1] == rows[i]);
                    }
                }
            },
        }
    }
}

proof fn lemma_slot_of_exists(rows: Seq<SymbolView>, symbol: Seq<char>)
    ensures
        match slot_of(rows, symbol) {
            Some(slot_id) => exists|i: int|
                0 <= i < rows.len() && (#[trigger] rows[i]).symbol == symbol && rows[i].enabled
                    && rows[i].slot_id == slot_id,
            None => forall|i: int|
                0 <= i < rows.len() && (#[trigger] rows[i]).enabled ==> rows[i].symbol != symbol,
        },
    decreases rows.len(),
{
    if rows.len() > 0 && !(rows[0].symbol == symbol && rows[0].enabled) {
        let rest = rows.drop_first();
        lemma_slot_of_exists(rest, symbol);
        match slot_of(rest, symbol) {
            Some(slot_id) => {
                let i = choose|i: int|
                    0 <= i < rest.len() && (#[trigger] rest[i]).symbol == symbol && rest[i].enabled
                        && rest[i].slot_id == slot_id;
                assert(rows[i + 1] == rest[i]);
            },
            None => {
                assert forall|i: int|
                    0 <= i < rows.len() && (#[trigger] rows[i]).enabled implies rows[i].symbol
                    != symbol by {
                    if i > 0 {
                        assert(rest[i - 1] == rows[i]);
                    }
                }
            },
        }
    }
}

/// Whether a row of a layout pairs a slot with a symbol.
pub open spec fn pairs(layout: LayoutRegistry, slot_id: u32, symbol: Seq<char>) -> bool {
    exists|i: int|
        0 <= i < layout.symbols@.len() && (#[trigger] layout.symbols@[i]).slot_id == slot_id
            && layout.symbols@[i].symbol@ == symbol
}

/// Whether an enabled row of a layout pairs a slot with a symbol.
pub open spec fn resolves(layout: LayoutRegistry, symbol: Seq<char>, slot_id: u32) -> bool {
    exists|i: int|
        0 <= i < layout.symbols@.len() && (#[trigger] layout.symbols@[i]).enabled
            && layout.symbols@[i].symbol@ == symbol && layout.symbols@[i].slot_id == slot_id
}

/// A slot leads to the symbol of a row with that slot, whether the row is
/// enabled or not, and to nothing only where no row has the slot.
pub proof fn lemma_slots_lead_to_symbols(
    layout: &LayoutRegistry,
    slot_id: u32,
    symbol: Option<&str>,
    entity: Option<&str>,
)
    requires
        call_ensures(LayoutRegistry::symbol_for_slot, (layout, slot_id), symbol),
        call_ensures(LayoutRegistry::entity_for_slot, (layout, slot_id), entity),
    ensures
        symbol matches Some(found) ==> pairs(*layout, slot_id, found@),
        symbol is None ==> forall|i: int|
            0 <= i < layout.symbols@.len() ==> (#[trigger] layout.symbols@[i]).slot_id != slot_id,
        entity is Some <==> symbol is Some,
        entity is Some ==> entity->0@ == symbol->0@,
{
    let rows = layout@.symbols;
    lemma_symbol_at_exists(rows, slot_id);
    match symbol {
        Some(found) => {
            let i = choose|i: int|
                0 <= i < rows.len() && (#[trigger] rows[i]).slot_id == slot_id && rows[i].symbol
                    == found@;
            assert(rows[i] == layout.symbols@[i]@);
        },
        None => {
            assert forall|i: int| 0 <= i < layout.symbols@.len() implies (
            #[trigger] layout.symbols@[i]).slot_id != slot_id by {
                assert(rows[i] == layout.symbols@[i]@);
            }
        },
    }
}

/// A symbol, once normalized, leads to the slot of an enabled row with that
/// symbol, and to nothing only where no enabled row has it; a symbol that
/// cannot be normalized is refused.
pub proof fn lemma_symbols_lead_to_slots(
    layout: &LayoutRegistry,
    symbol: &str,
    name: Result<String, SliceError>,
    slot: Result<Option<u32>, SliceError>,
    entity: Result<Option<u32>, SliceError>,
)
    requires
        call_ensures(crate::names::normalize_symbol, (symbol,), name),
        call_ensures(LayoutRegistry::slot_for_symbol, (layout, symbol), slot),
        call_ensures(LayoutRegistry::slot_for_entity, (layout, symbol), entity),
    ensures
        name is Err ==> slot is Err && slot->Err_0@ == name->Err_0@,
        name is Ok ==> slot is Ok,
        name is Ok && slot->Ok_0 is Some ==> resolves(*layout, name->Ok_0@, slot->Ok_0->0),
        name is Ok && slot->Ok_0 is None ==> forall|i: int|
            0 <= i < layout.symbols@.len() && (#[trigger] layout.symbols@[i]).enabled
                ==> layout.symbols@[i].symbol@ != name->Ok_0@,
        name is Err ==> entity is Err && entity->Err_0@ == name->Err_0@,
        name is Ok ==> entity is Ok && entity->Ok_0 == slot->Ok_0,
{
    let rows = layout@.symbols;
    if name is Ok {
        lemma_slot_of_exists(rows, name->Ok_0@);
        match slot->Ok_0 {
            Some(slot_id) => {
                let i = choose|i: int|
                    0 <= i < rows.len() && (#[trigger] rows[i]).symbol == name->Ok_0@
                        && rows[i].enabled && rows[i].slot_id == slot_id;
                assert(rows[i] == layout.symbols@[i]@);
            },
            None => {
                assert forall|i: int|
                    0 <= i < layout.symbols@.len() && (
                    #[trigger] layout.symbols@[i]).enabled implies layout.symbols@[i].symbol@
                    != name->Ok_0@ by {
                    assert(rows[i] == layout.symbols@[i]@);
                }
            },
        }
    }
}

proof fn lemma_active_prefix_ends(rows: Seq<SymbolView>, n: int)
    requires
        0 <= n <= rows.len(),
    ensures
        forall|i: int|
            0 <= i < n && (#[trigger] rows[i]).enabled ==> rows[i].slot_id < active_prefix(rows, n),
        active_prefix(rows, n) > 0 ==> exists|i: int|
            0 <= i < n && (#[trigger] rows[i]).enabled && rows[i].slot_id + 1 == active_prefix(
                rows,
                n,
            ),
    decreases n,
{
    if n > 0 {
        lemma_active_prefix_ends(rows, n - 1);
        if active_prefix(rows, n) == active_prefix(rows, n - 1) {
            if active_prefix(rows, n) > 0 {
                let i = choose|i: int|
                    0 <= i < n - 1 && (#[trigger] rows[i]).enabled && rows[i].slot_id + 1
                        == active_prefix(rows, n - 1);
                assert(rows[i].enabled);
            }
        } else {
            assert(rows[n - 1].enabled);
        }
    }
}

/// The active part of a layout ends right behind the last enabled slot.
pub proof fn lemma_active_part_ends_behind_last(layout: &LayoutRegistry, len: u64)
    requires
        call_ensures(LayoutRegistry::active_len, (layout,), len),
    ensures
        forall|i: int|
            0 <= i < layout.symbols@.len() && (#[trigger] layout.symbols@[i]).enabled
                ==> layout.symbols@[i].slot_id < len,
        len > 0 ==> exists|i: int|
            0 <= i < layout.symbols@.len() && (#[trigger] layout.symbols@[i]).enabled
                && layout.symbols@[i].slot_id + 1 == len,
{
    let rows = layout@.symbols;
    let n = rows.len() as int;
    lemma_active_prefix_ends(rows, n);
    assert forall|i: int|
        0 <= i < layout.symbols@.len() && (
        #[trigger] layout.symbols@[i]).enabled implies layout.symbols@[i].slot_id < len by {
        assert(rows[i] == layout.symbols@[i]@);
    }
    if len > 0 {
        let i = choose|i: int|
            0 <= i < n && (#[trigger] rows[i]).enabled && rows[i].slot_id + 1 == len;
        assert(rows[i] == layout.symbols@[i]@);
        assert(layout.symbols@[i].enabled);
    }
}

/// The hash of a layout is that of its canonical text, and is refused exactly
/// where the layout is.
pub proof fn lemma_layout_hash_is_of_text(
    layout: &LayoutRegistry,
    checked: Result<(), SliceError>,
    bytes: Vec<u8>,
    result: Result<u64, SliceError>,
)
    requires
        call_ensures(LayoutRegistry::validate, (layout,), checked),
        call_ensures(canonical_json, (layout,), bytes),
        call_ensures(LayoutRegistry::layout_hash, (layout,), result),
    ensures
        checked is Err ==> result is Err && result->Err_0@ == checked->Err_0@,
        checked is Ok ==> result is Ok && result->Ok_0 == crate::hash::xxh64_of(bytes@, 0),
{
}

/// The header of a new slice describes it: the version and size of headers, the
/// type of values with its size and schema, the capacity and hash of the
/// layout, the active part and the times that it was given. It is refused
/// exactly where the layout is or the active part is longer than the capacity.
pub proof fn lemma_new_header_describes_slice(
    layout: &LayoutRegistry,
    value_type: ValueType,
    active_len: u64,
    heartbeat_ns: u64,
    created_ns: u64,
    updated_ns: u64,
    hash: Result<u64, SliceError>,
    size: u64,
    schema: u64,
    checked: Result<(), SliceError>,
    result: Result<SliceHeaderInfo, SliceError>,
)
    requires
        call_ensures(LayoutRegistry::layout_hash, (layout,), hash),
        call_ensures(ValueType::slot_size, (value_type,), size),
        call_ensures(ValueType::schema_hash, (value_type,), schema),
        call_ensures(check_creation, (layout, active_len), checked),
        call_ensures(
            new_header,
            (layout, value_type, active_len, heartbeat_ns, created_ns, updated_ns),
            result,
        ),
    ensures
        result is Ok <==> checked is Ok,
        checked is Ok <==> hash is Ok && active_len <= layout.capacity,
        hash is Err ==> result is Err && result->Err_0@ == hash->Err_0@,
        result matches Ok(header) ==> {
            &&& header.version == 1
            &&& header.header_len == 256
            &&& header.flags == 1
            &&& header.value_type == value_type
            &&& header.capacity == layout.capacity
            &&& header.active_len == active_len
            &&& header.slot_size == size
            &&& header.schema_hash == schema
            &&& header.layout_hash == hash->Ok_0
            &&& header.heartbeat_ns == heartbeat_ns
            &&& header.created_ns == created_ns
            &&& header.updated_ns == updated_ns
            &&& header.writer_epoch % 2 == 0
        },
{
}

/// A slice matches a layout exactly where the layout is valid and the slice
/// has its hash and its capacity.
pub proof fn lemma_slices_match_layouts(
    header: &SliceHeaderInfo,
    layout: &LayoutRegistry,
    hash: Result<u64, SliceError>,
    result: Result<(), SliceError>,
)
    requires
        call_ensures(LayoutRegistry::layout_hash, (layout,), hash),
        call_ensures(ensure_layout, (header, layout), result),
    ensures
        result is Ok <==> hash is Ok && header.layout_hash == hash->Ok_0 && header.capacity
            == layout.capacity,
        hash is Err ==> result->Err_0@ == hash->Err_0@,
{
}

proof fn lemma_slots_by_symbol(rows: Seq<SymbolView>, n: int, symbol: Seq<char>)
    requires
        0 <= n <= rows.len(),
    ensures
        match crate::table::found(slots_by_symbol(rows, n), symbol) {
            Some(slot_id) => exists|i: int|
                0 <= i < n && (#[trigger] rows[i]).enabled && rows[i].symbol == symbol
                    && rows[i].slot_id == slot_id,
            None => forall|i: int|
                0 <= i < n && (#[trigger] rows[i]).enabled ==> rows[i].symbol != symbol,
        },
    decreases n,
{
    if n > 0 {
        lemma_slots_by_symbol(rows, n - 1, symbol);
        let before = slots_by_symbol(rows, n - 1);
        if rows[n - 1].enabled {
            crate::table::lemma_entered(before, rows[n - 1].symbol, rows[n - 1].slot_id, symbol);
        }
        if rows[n - 1].enabled && rows[n - 1].symbol == symbol {
            assert(rows[n - 1].enabled);
        } else if let Some(slot_id) = crate::table::found(before, symbol) {
            let i = choose|i: int|
                0 <= i < n - 1 && (#[trigger] rows[i]).enabled && rows[i].symbol == symbol
                    && rows[i].slot_id == slot_id;
            assert(rows[i].enabled);
        }
    }
}

/// The map of a layout holds the symbols of its enabled rows, each with the
/// slot of such a row.
pub proof fn lemma_map_holds_enabled(
    layout: &LayoutRegistry,
    map: Table<u32>,
    symbol: &str,
    slot: Option<&u32>,
)
    requires
        call_ensures(LayoutRegistry::slot_map, (layout,), map),
        call_ensures(Table::<u32>::get, (&map, symbol), slot),
    ensures
        slot is Some ==> resolves(*layout, symbol@, *slot->0),
        slot is None ==> forall|i: int|
            0 <= i < layout.symbols@.len() && (#[trigger] layout.symbols@[i]).enabled
                ==> layout.symbols@[i].symbol@ != symbol@,
{
    let rows = layout@.symbols;
    lemma_slots_by_symbol(rows, rows.len() as int, symbol@);
    match slot {
        Some(slot_id) => {
            let i = choose|i: int|
                0 <= i < rows.len() && (#[trigger] rows[i]).enabled && rows[i].symbol == symbol@
                    && rows[i].slot_id == *slot_id;
            assert(rows[i] == layout.symbols@[i]@);
            assert(layout.symbols@[i].enabled);
        },
        None => {
            assert forall|i: int|
                0 <= i < layout.symbols@.len() && (
                #[trigger] layout.symbols@[i]).enabled implies layout.symbols@[i].symbol@
                != symbol@ by {
                assert(rows[i] == layout.symbols@[i]@);
            }
        },
    }
}

} // verus!
