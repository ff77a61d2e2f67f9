//! Failures of layouts, catalogs and slice files.

use crate::header::ValueType;
use crate::text::{push_decimal, push_prefixed_hexadecimal, quoted};
use vstd::prelude::*;
use vstd::string::*;

verus! {

/// Why a layout, a catalog, a header or a read was refused.
#[derive(Debug, PartialEq, Eq)]
#[allow(inconsistent_fields)]
pub enum SliceError {
    /// A header names no known payload schema.
    UnsupportedValueType(u32),
    /// There are more symbols than slots.
    SymbolCount {
        /// Number of symbols.
        count: usize,
        /// Number of slots.
        capacity: u32,
    },
    /// A layout has no identity.
    EmptyLayoutId,
    /// A namespace is empty.
    EmptyAssetClass,
    /// A namespace holds a character that is not admitted.
    UnsupportedAssetClass(String),
    /// The namespace of a layout is not in normal form.
    AssetClassNotNormalized {
        /// Namespace as given.
        given: String,
        /// Namespace in normal form.
        normalized: String,
    },
    /// A row lies beyond the capacity of its layout.
    SlotOutsideLayout {
        /// Slot of the row.
        slot_id: u32,
        /// Symbol of the row.
        symbol: String,
        /// Number of slots.
        capacity: u32,
    },
    /// Two rows share a slot.
    DuplicateSlot(u32),
    /// A symbol is empty.
    EmptySymbol,
    /// A symbol holds white space or control characters.
    UnsupportedSymbol(String),
    /// The symbol of a row is not in normal form.
    SymbolNotNormalized {
        /// Symbol as given.
        given: String,
        /// Symbol in normal form.
        normalized: String,
    },
    /// Two rows share a symbol.
    DuplicateSymbol(String),
    /// A row has no instrument identifier.
    EmptyInstrument(String),
    /// Two rows share an instrument identifier.
    DuplicateInstrument(String),
    /// An instrument prefix is empty.
    EmptyPrefix,
    /// A slice name is empty or has white space around it.
    PaddedSliceName,
    /// A slice name holds a character that is not admitted.
    UnsupportedSliceName(String),
    /// The namespace of a catalog entry is not in normal form.
    EntryNotNormalized {
        /// Namespace as given.
        given: String,
        /// Namespace in normal form.
        normalized: String,
    },
    /// A catalog entry has no layout identity.
    EntryWithoutLayout(String),
    /// A catalog entry has no layout hash.
    EntryWithoutHash(String),
    /// A catalog entry has no path.
    EntryWithoutPath(String),
    /// A catalog entry has no role.
    EntryWithoutRole(String),
    /// A catalog is of another version.
    CatalogVersion(u32),
    /// Two catalog entries share a name.
    DuplicateEntry(String),
    /// The byte length of a payload does not fit in 64 bits.
    PayloadOverflow,
    /// The byte length of a payload does not fit in a machine integer.
    PayloadTooLarge,
    /// The byte length of a file does not fit in 64 bits.
    FileOverflow,
    /// A slice was made for another layout.
    LayoutHashMismatch {
        /// Hash in the slice.
        slice: u64,
        /// Hash of the layout.
        layout: u64,
    },
    /// A slice has another number of slots than a layout.
    CapacityMismatch {
        /// Slots of the slice.
        slice: u64,
        /// Slots of the layout.
        layout: u32,
    },
    /// An active prefix is longer than the layout.
    ActiveBeyondLayout {
        /// Length of the prefix.
        active_len: u64,
        /// Number of slots.
        capacity: u32,
    },
    /// A slot lies beyond the capacity of its slice.
    SlotBeyondCapacity {
        /// The slot.
        slot_id: usize,
        /// Number of slots.
        capacity: u64,
    },
    /// A file is shorter than a header.
    TooSmall(usize),
    /// A file does not start as a slice does.
    InvalidMagic,
    /// A slice is of another version.
    UnsupportedVersion(u32),
    /// A header has another length.
    HeaderLength(u32),
    /// The active prefix in a header is longer than its capacity.
    ActiveBeyondCapacity {
        /// Length of the prefix.
        active_len: u64,
        /// Number of slots.
        capacity: u64,
    },
    /// A buffer is too short for a header.
    TargetTooSmall,
    /// A slice has another payload schema.
    WrongValueType {
        /// Schema that was asked for.
        expected: ValueType,
        /// Schema of the slice.
        actual: ValueType,
    },
    /// A slice has another slot size.
    WrongSlotSize {
        /// Payload schema.
        value_type: ValueType,
        /// Slot size of the slice.
        actual: u64,
    },
    /// A slice has another schema hash.
    SchemaHashMismatch {
        /// Hash in the slice.
        slice: u64,
        /// Hash of the schema.
        expected: u64,
    },
    /// A file has another length than its header says.
    FileLength {
        /// Length of the file.
        actual: usize,
        /// Length by the header.
        expected: u64,
    },
    /// Two vectors have different payload schemas.
    VectorValueTypes {
        /// Schema of the first.
        lhs: ValueType,
        /// Schema of the second.
        rhs: ValueType,
    },
    /// Two vectors have different layouts.
    VectorLayouts {
        /// Layout hash of the first.
        lhs: u64,
        /// Layout hash of the second.
        rhs: u64,
    },
    /// Two vectors have different schema hashes.
    VectorSchemas {
        /// Schema hash of the first.
        lhs: u64,
        /// Schema hash of the second.
        rhs: u64,
    },
    /// Two vectors have different active lengths.
    VectorLengths {
        /// Active length of the first.
        lhs: u64,
        /// Active length of the second.
        rhs: u64,
    },
    /// Two vectors in memory have different lengths.
    DotLength {
        /// Length of the first.
        lhs: usize,
        /// Length of the second.
        rhs: usize,
    },
    /// A record has another number of words.
    RecordLength {
        /// Words of the record.
        expected: usize,
        /// Words given.
        actual: usize,
    },
    /// No stable snapshot was seen within the budget of attempts.
    Unstable,
}

/// What a [`SliceError`] holds.
#[verifier::ext_equal]
#[allow(inconsistent_fields)]
pub enum SliceFault {
    /// See [`SliceError::UnsupportedValueType`].
    UnsupportedValueType(u32),
    /// See [`SliceError::SymbolCount`].
    SymbolCount {
        /// Number of symbols.
        count: usize,
        /// Number of slots.
        capacity: u32,
    },
    /// See [`SliceError::EmptyLayoutId`].
    EmptyLayoutId,
    /// See [`SliceError::EmptyAssetClass`].
    EmptyAssetClass,
    /// See [`SliceError::UnsupportedAssetClass`].
    UnsupportedAssetClass(Seq<char>),
    /// See [`SliceError::AssetClassNotNormalized`].
    AssetClassNotNormalized {
        /// Namespace as given.
        given: Seq<char>,
        /// Namespace in normal form.
        normalized: Seq<char>,
    },
    /// See [`SliceError::SlotOutsideLayout`].
    SlotOutsideLayout {
        /// Slot of the row.
        slot_id: u32,
        /// Symbol of the row.
        symbol: Seq<char>,
        /// Number of slots.
        capacity: u32,
    },
    /// See [`SliceError::DuplicateSlot`].
    DuplicateSlot(u32),
    /// See [`SliceError::EmptySymbol`].
    EmptySymbol,
    /// See [`SliceError::UnsupportedSymbol`].
    UnsupportedSymbol(Seq<char>),
    /// See [`SliceError::SymbolNotNormalized`].
    SymbolNotNormalized {
        /// Symbol as given.
        given: Seq<char>,
        /// Symbol in normal form.
        normalized: Seq<char>,
    },
    /// See [`SliceError::DuplicateSymbol`].
    DuplicateSymbol(Seq<char>),
    /// See [`SliceError::EmptyInstrument`].
    EmptyInstrument(Seq<char>),
    /// See [`SliceError::DuplicateInstrument`].
    DuplicateInstrument(Seq<char>),
    /// See [`SliceError::EmptyPrefix`].
    EmptyPrefix,
    /// See [`SliceError::PaddedSliceName`].
    PaddedSliceName,
    /// See [`SliceError::UnsupportedSliceName`].
    UnsupportedSliceName(Seq<char>),
    /// See [`SliceError::EntryNotNormalized`].
    EntryNotNormalized {
        /// Namespace as given.
        given: Seq<char>,
        /// Namespace in normal form.
        normalized: Seq<char>,
    },
    /// See [`SliceError::EntryWithoutLayout`].
    EntryWithoutLayout(Seq<char>),
    /// See [`SliceError::EntryWithoutHash`].
    EntryWithoutHash(Seq<char>),
    /// See [`SliceError::EntryWithoutPath`].
    EntryWithoutPath(Seq<char>),
    /// See [`SliceError::EntryWithoutRole`].
    EntryWithoutRole(Seq<char>),
    /// See [`SliceError::CatalogVersion`].
    CatalogVersion(u32),
    /// See [`SliceError::DuplicateEntry`].
    DuplicateEntry(Seq<char>),
    /// See [`SliceError::PayloadOverflow`].
    PayloadOverflow,
    /// See [`SliceError::PayloadTooLarge`].
    PayloadTooLarge,
    /// See [`SliceError::FileOverflow`].
    FileOverflow,
    /// See [`SliceError::LayoutHashMismatch`].
    LayoutHashMismatch {
        /// Hash in the slice.
        slice: u64,
        /// Hash of the layout.
        layout: u64,
    },
    /// See [`SliceError::CapacityMismatch`].
    CapacityMismatch {
        /// Slots of the slice.
        slice: u64,
        /// Slots of the layout.
        layout: u32,
    },
    /// See [`SliceError::ActiveBeyondLayout`].
    ActiveBeyondLayout {
        /// Length of the prefix.
        active_len: u64,
        /// Number of slots.
        capacity: u32,
    },
    /// See [`SliceError::SlotBeyondCapacity`].
    SlotBeyondCapacity {
        /// The slot.
        slot_id: usize,
        /// Number of slots.
        capacity: u64,
    },
    /// See [`SliceError::TooSmall`].
    TooSmall(usize),
    /// See [`SliceError::InvalidMagic`].
    InvalidMagic,
    /// See [`SliceError::UnsupportedVersion`].
    UnsupportedVersion(u32),
    /// See [`SliceError::HeaderLength`].
    HeaderLength(u32),
    /// See [`SliceError::ActiveBeyondCapacity`].
    ActiveBeyondCapacity {
        /// Length of the prefix.
        active_len: u64,
        /// Number of slots.
        capacity: u64,
    },
    /// See [`SliceError::TargetTooSmall`].
    TargetTooSmall,
    /// See [`SliceError::WrongValueType`].
    WrongValueType {
        /// Schema that was asked for.
        expected: ValueType,
        /// Schema of the slice.
        actual: ValueType,
    },
    /// See [`SliceError::WrongSlotSize`].
    WrongSlotSize {
        /// Payload schema.
        value_type: ValueType,
        /// Slot size of the slice.
        actual: u64,
    },
    /// See [`SliceError::SchemaHashMismatch`].
    SchemaHashMismatch {
        /// Hash in the slice.
        slice: u64,
        /// Hash of the schema.
        expected: u64,
    },
    /// See [`SliceError::FileLength`].
    FileLength {
        /// Length of the file.
        actual: usize,
        /// Length by the header.
        expected: u64,
    },
    /// See [`SliceError::VectorValueTypes`].
    VectorValueTypes {
        /// Schema of the first.
        lhs: ValueType,
        /// Schema of the second.
        rhs: ValueType,
    },
    /// See [`SliceError::VectorLayouts`].
    VectorLayouts {
        /// Layout hash of the first.
        lhs: u64,
        /// Layout hash of the second.
        rhs: u64,
    },
    /// See [`SliceError::VectorSchemas`].
    VectorSchemas {
        /// Schema hash of the first.
        lhs: u64,
        /// Schema hash of the second.
        rhs: u64,
    },
    /// See [`SliceError::VectorLengths`].
    VectorLengths {
        /// Active length of the first.
        lhs: u64,
        /// Active length of the second.
        rhs: u64,
    },
    /// See [`SliceError::DotLength`].
    DotLength {
        /// Length of the first.
        lhs: usize,
        /// Length of the second.
        rhs: usize,
    },
    /// See [`SliceError::RecordLength`].
    RecordLength {
        /// Words of the record.
        expected: usize,
        /// Words given.
        actual: usize,
    },
    /// See [`SliceError::Unstable`].
    Unstable,
}

impl View for SliceError {
    type V = SliceFault;

    open spec fn view(&self) -> SliceFault {
        match self {
            SliceError::UnsupportedValueType(code) => SliceFault::UnsupportedValueType(*code),
            SliceError::SymbolCount { count, capacity } => SliceFault::SymbolCount {
                count: *count,
                capacity: *capacity,
            },
            SliceError::EmptyLayoutId => SliceFault::EmptyLayoutId,
            SliceError::EmptyAssetClass => SliceFault::EmptyAssetClass,
            SliceError::UnsupportedAssetClass(raw) => SliceFault::UnsupportedAssetClass(raw@),
            SliceError::AssetClassNotNormalized {
                given,
                normalized,
            } => SliceFault::AssetClassNotNormalized { given: given@, normalized: normalized@ },
            SliceError::SlotOutsideLayout {
                slot_id,
                symbol,
                capacity,
            } => SliceFault::SlotOutsideLayout {
                slot_id: *slot_id,
                symbol: symbol@,
                capacity: *capacity,
            },
            SliceError::DuplicateSlot(slot_id) => SliceFault::DuplicateSlot(*slot_id),
            SliceError::EmptySymbol => SliceFault::EmptySymbol,
            SliceError::UnsupportedSymbol(raw) => SliceFault::UnsupportedSymbol(raw@),
            SliceError::SymbolNotNormalized {
                given,
                normalized,
            } => SliceFault::SymbolNotNormalized { given: given@, normalized: normalized@ },
            SliceError::DuplicateSymbol(symbol) => SliceFault::DuplicateSymbol(symbol@),
            SliceError::EmptyInstrument(symbol) => SliceFault::EmptyInstrument(symbol@),
            SliceError::DuplicateInstrument(id) => SliceFault::DuplicateInstrument(id@),
            SliceError::EmptyPrefix => SliceFault::EmptyPrefix,
            SliceError::PaddedSliceName => SliceFault::PaddedSliceName,
            SliceError::UnsupportedSliceName(name) => SliceFault::UnsupportedSliceName(name@),
            SliceError::EntryNotNormalized {
                given,
                normalized,
            } => SliceFault::EntryNotNormalized { given: given@, normalized: normalized@ },
            SliceError::EntryWithoutLayout(name) => SliceFault::EntryWithoutLayout(name@),
            SliceError::EntryWithoutHash(name) => SliceFault::EntryWithoutHash(name@),
            SliceError::EntryWithoutPath(name) => SliceFault::EntryWithoutPath(name@),
            SliceError::EntryWithoutRole(name) => SliceFault::EntryWithoutRole(name@),
            SliceError::CatalogVersion(version) => SliceFault::CatalogVersion(*version),
            SliceError::DuplicateEntry(name) => SliceFault::DuplicateEntry(name@),
            SliceError::PayloadOverflow => SliceFault::PayloadOverflow,
            SliceError::PayloadTooLarge => SliceFault::PayloadTooLarge,
            SliceError::FileOverflow => SliceFault::FileOverflow,
            SliceError::LayoutHashMismatch { slice, layout } => SliceFault::LayoutHashMismatch {
                slice: *slice,
                layout: *layout,
            },
            SliceError::CapacityMismatch { slice, layout } => SliceFault::CapacityMismatch {
                slice: *slice,
                layout: *layout,
            },
            SliceError::ActiveBeyondLayout {
                active_len,
                capacity,
            } => SliceFault::ActiveBeyondLayout { active_len: *active_len, capacity: *capacity },
            SliceError::SlotBeyondCapacity {
                slot_id,
                capacity,
            } => SliceFault::SlotBeyondCapacity { slot_id: *slot_id, capacity: *capacity },
            SliceError::TooSmall(len) => SliceFault::TooSmall(*len),
            SliceError::InvalidMagic => SliceFault::InvalidMagic,
            SliceError::UnsupportedVersion(version) => SliceFault::UnsupportedVersion(*version),
            SliceError::HeaderLength(len) => SliceFault::HeaderLength(*len),
            SliceError::ActiveBeyondCapacity {
                active_len,
                capacity,
            } => SliceFault::ActiveBeyondCapacity { active_len: *active_len, capacity: *capacity },
            SliceError::TargetTooSmall => SliceFault::TargetTooSmall,
            SliceError::WrongValueType { expected, actual } => SliceFault::WrongValueType {
                expected: *expected,
                actual: *actual,
            },
            SliceError::WrongSlotSize { value_type, actual } => SliceFault::WrongSlotSize {
                value_type: *value_type,
                actual: *actual,
            },
            SliceError::SchemaHashMismatch { slice, expected } => SliceFault::SchemaHashMismatch {
                slice: *slice,
                expected: *expected,
            },
            SliceError::FileLength { actual, expected } => SliceFault::FileLength {
                actual: *actual,
                expected: *expected,
            },
            SliceError::VectorValueTypes { lhs, rhs } => SliceFault::VectorValueTypes {
                lhs: *lhs,
                rhs: *rhs,
            },
            SliceError::VectorLayouts { lhs, rhs } => SliceFault::VectorLayouts {
                lhs: *lhs,
                rhs: *rhs,
            },
            SliceError::VectorSchemas { lhs, rhs } => SliceFault::VectorSchemas {
                lhs: *lhs,
                rhs: *rhs,
            },
            SliceError::VectorLengths { lhs, rhs } => SliceFault::VectorLengths {
                lhs: *lhs,
                rhs: *rhs,
            },
            SliceError::DotLength { lhs, rhs } => SliceFault::DotLength { lhs: *lhs, rhs: *rhs },
            SliceError::RecordLength { expected, actual } => SliceFault::RecordLength {
                expected: *expected,
                actual: *actual,
            },
            SliceError::Unstable => SliceFault::Unstable,
        }
    }
}

/// Whether a result is what a fault, or its absence, calls for.
pub open spec fn reports<T>(result: Result<T, SliceError>, fault: Option<SliceFault>) -> bool {
    match fault {
        Some(f) => result matches Err(e) && e@ == f,
        None => result is Ok,
    }
}

/// Whether a result is the one that a calculation on views calls for.
pub open spec fn gives<T: View>(
    result: Result<T, SliceError>,
    expected: Result<T::V, SliceFault>,
) -> bool {
    match expected {
        Ok(value) => result matches Ok(v) && v@ == value,
        Err(fault) => result matches Err(e) && e@ == fault,
    }
}

impl SliceFault {
    /// The fault in words.
    pub open spec fn message(self) -> Seq<char> {
        match self {
            SliceFault::UnsupportedValueType(value) => "unsupported slice value type: "@
                + crate::text::decimal(value as nat),
            SliceFault::SymbolCount { count, capacity } => "symbol count "@
                + crate::text::decimal(count as nat) + " exceeds layout capacity "@
                + crate::text::decimal(capacity as nat),
            SliceFault::EmptyLayoutId => "layout_id cannot be empty"@,
            SliceFault::EmptyAssetClass => "asset_class cannot be empty"@,
            SliceFault::UnsupportedAssetClass(raw) => "asset_class contains unsupported characters: "@
                + crate::text::quoted_of(raw),
            SliceFault::AssetClassNotNormalized { given, normalized } => "asset_class '"@ + given
                + "' should be normalized as '"@ + normalized + "'"@,
            SliceFault::SlotOutsideLayout { slot_id, symbol, capacity } => "slot_id "@
                + crate::text::decimal(slot_id as nat) + " for "@ + symbol
                + " exceeds capacity "@ + crate::text::decimal(capacity as nat),
            SliceFault::DuplicateSlot(slot_id) => "duplicate slot_id "@
                + crate::text::decimal(slot_id as nat),
            SliceFault::EmptySymbol => "symbol cannot be empty"@,
            SliceFault::UnsupportedSymbol(raw) => "symbol contains unsupported whitespace/control characters: "@
                + crate::text::quoted_of(raw),
            SliceFault::SymbolNotNormalized { given, normalized } => "symbol '"@ + given
                + "' should be normalized as '"@ + normalized + "'"@,
            SliceFault::DuplicateSymbol(symbol) => "duplicate symbol "@ + symbol,
            SliceFault::EmptyInstrument(symbol) => "instrument_id cannot be empty for "@ + symbol,
            SliceFault::DuplicateInstrument(id) => "duplicate instrument_id "@ + id,
            SliceFault::EmptyPrefix => "instrument prefix cannot be empty"@,
            SliceFault::PaddedSliceName => "slice name cannot be empty or padded"@,
            SliceFault::UnsupportedSliceName(name) => "slice name contains unsupported characters: "@
                + crate::text::quoted_of(name),
            SliceFault::EntryNotNormalized { given, normalized } => "catalog entry asset_class '"@
                + given + "' should be normalized as '"@ + normalized + "'"@,
            SliceFault::EntryWithoutLayout(name) => "catalog entry "@ + name
                + " has empty layout_id"@,
            SliceFault::EntryWithoutHash(name) => "catalog entry "@ + name
                + " has zero layout_hash"@,
            SliceFault::EntryWithoutPath(name) => "catalog entry "@ + name + " has empty path"@,
            SliceFault::EntryWithoutRole(name) => "catalog entry "@ + name + " has empty role"@,
            SliceFault::CatalogVersion(version) => "unsupported catalog version "@
                + crate::text::decimal(version as nat),
            SliceFault::DuplicateEntry(name) => "duplicate catalog entry "@ + name,
            SliceFault::PayloadOverflow => "slice payload size overflow"@,
            SliceFault::PayloadTooLarge => "slice payload is too large for this platform"@,
            SliceFault::FileOverflow => "slice file size overflow"@,
            SliceFault::LayoutHashMismatch { slice, layout } => "layout hash mismatch: slice="@
                + ("0x"@ + crate::text::hexadecimal(slice as nat)) + " layout="@
                + ("0x"@ + crate::text::hexadecimal(layout as nat)),
            SliceFault::CapacityMismatch { slice, layout } => "capacity mismatch: slice="@
                + crate::text::decimal(slice as nat) + " layout="@
                + crate::text::decimal(layout as nat),
            SliceFault::ActiveBeyondLayout { active_len, capacity } => "active_len "@
                + crate::text::decimal(active_len as nat) + " exceeds layout capacity "@
                + crate::text::decimal(capacity as nat),
            SliceFault::SlotBeyondCapacity { slot_id, capacity } => "slot_id "@
                + crate::text::decimal(slot_id as nat) + " exceeds capacity "@
                + crate::text::decimal(capacity as nat),
            SliceFault::TooSmall(len) => "slice is too small: "@
                + crate::text::decimal(len as nat) + " bytes"@,
            SliceFault::InvalidMagic => "invalid slice magic"@,
            SliceFault::UnsupportedVersion(version) => "unsupported slice version "@
                + crate::text::decimal(version as nat) + "; expected 1"@,
            SliceFault::HeaderLength(len) => "unsupported header length "@
                + crate::text::decimal(len as nat) + "; expected 256"@,
            SliceFault::ActiveBeyondCapacity { active_len, capacity } => "active_len "@
                + crate::text::decimal(active_len as nat) + " exceeds capacity "@
                + crate::text::decimal(capacity as nat),
            SliceFault::TargetTooSmall => "target buffer too small for slice header"@,
            SliceFault::WrongValueType { expected, actual } => if expected is F64 {
                "expected f64 slice, got "@ + actual.title()
            } else {
                "expected "@ + expected.title() + " slice, got "@ + actual.title()
            },
            SliceFault::WrongSlotSize { value_type, actual } => if value_type is F64 {
                "invalid f64 slot size "@ + crate::text::decimal(actual as nat)
            } else {
                "invalid "@ + value_type.title() + " slot size "@ + crate::text::decimal(
                    actual as nat,
                ) + "; expected "@ + crate::text::decimal(value_type.width() as nat)
            },
            SliceFault::SchemaHashMismatch { slice, expected } => "schema hash mismatch: slice="@
                + ("0x"@ + crate::text::hexadecimal(slice as nat)) + " expected="@
                + ("0x"@ + crate::text::hexadecimal(expected as nat)),
            SliceFault::FileLength { actual, expected } => "slice file length mismatch: actual="@
                + crate::text::decimal(actual as nat) + " expected="@
                + crate::text::decimal(expected as nat),
            SliceFault::VectorValueTypes { lhs, rhs } => "value type mismatch: lhs="@
                + lhs.title() + " rhs="@ + rhs.title(),
            SliceFault::VectorLayouts { lhs, rhs } => "layout hash mismatch: lhs="@
                + ("0x"@ + crate::text::hexadecimal(lhs as nat)) + " rhs="@
                + ("0x"@ + crate::text::hexadecimal(rhs as nat)),
            SliceFault::VectorSchemas { lhs, rhs } => "schema hash mismatch: lhs="@
                + ("0x"@ + crate::text::hexadecimal(lhs as nat)) + " rhs="@
                + ("0x"@ + crate::text::hexadecimal(rhs as nat)),
            SliceFault::VectorLengths { lhs, rhs } => "active_len mismatch: lhs="@
                + crate::text::decimal(lhs as nat) + " rhs="@ + crate::text::decimal(rhs as nat),
            SliceFault::DotLength { lhs, rhs } => "dot length mismatch: lhs="@
                + crate::text::decimal(lhs as nat) + " rhs="@ + crate::text::decimal(rhs as nat),
            SliceFault::RecordLength { expected, actual } => "record of "@
                + crate::text::decimal(actual as nat) + " words; expected "@
                + crate::text::decimal(expected as nat),
            SliceFault::Unstable => "could not read a stable slice snapshot after 1000 attempts"@,
        }
    }
}

impl SliceError {
    /// Say what was refused.
    pub fn message(&self) -> (text: String)
        ensures
            text@ == self@.message(),
    {
        match self {
            SliceError::UnsupportedValueType(value) => {
                let mut text: String = "unsupported slice value type: ".to_owned();
                push_decimal(&mut text, *value as u64);
                text
            },
            SliceError::SymbolCount { count, capacity } => {
                let mut text: String = "symbol count ".to_owned();
                push_decimal(&mut text, *count as u64);
                text.append(" exceeds layout capacity ");
                push_decimal(&mut text, *capacity as u64);
                text
            },
            SliceError::EmptyLayoutId => "layout_id cannot be empty".to_owned(),
            SliceError::EmptyAssetClass => "asset_class cannot be empty".to_owned(),
            SliceError::UnsupportedAssetClass(raw) => {
                let mut text: String = "asset_class contains unsupported characters: ".to_owned();
                text.append(quoted(raw.as_str()).as_str());
                text
            },
            SliceError::AssetClassNotNormalized { given, normalized } => {
                let mut text: String = "asset_class '".to_owned();
                text.append(given.as_str());
                text.append("' should be normalized as '");
                text.append(normalized.as_str());
                text.append("'");
                text
            },
            SliceError::SlotOutsideLayout { slot_id, symbol, capacity } => {
                let mut text: String = "slot_id ".to_owned();
                push_decimal(&mut text, *slot_id as u64);
                text.append(" for ");
                text.append(symbol.as_str());
                text.append(" exceeds capacity ");
                push_decimal(&mut text, *capacity as u64);
                text
            },
            SliceError::DuplicateSlot(slot_id) => {
                let mut text: String = "duplicate slot_id ".to_owned();
                push_decimal(&mut text, *slot_id as u64);
                text
            },
            SliceError::EmptySymbol => "symbol cannot be empty".to_owned(),
            SliceError::UnsupportedSymbol(raw) => {
                let mut text: String = "symbol contains unsupported whitespace/control characters: ".to_owned();
                text.append(quoted(raw.as_str()).as_str());
                text
            },
            SliceError::SymbolNotNormalized { given, normalized } => {
                let mut text: String = "symbol '".to_owned();
                text.append(given.as_str());
                text.append("' should be normalized as '");
                text.append(normalized.as_str());
                text.append("'");
                text
            },
            SliceError::DuplicateSymbol(symbol) => {
                let mut text: String = "duplicate symbol ".to_owned();
                text.append(symbol.as_str());
                text
            },
            SliceError::EmptyInstrument(symbol) => {
                let mut text: String = "instrument_id cannot be empty for ".to_owned();
                text.append(symbol.as_str());
                text
            },
            SliceError::DuplicateInstrument(id) => {
                let mut text: String = "duplicate instrument_id ".to_owned();
                text.append(id.as_str());
                text
            },
            SliceError::EmptyPrefix => "instrument prefix cannot be empty".to_owned(),
            SliceError::PaddedSliceName => "slice name cannot be empty or padded".to_owned(),
            SliceError::UnsupportedSliceName(name) => {
                let mut text: String = "slice name contains unsupported characters: ".to_owned();
                text.append(quoted(name.as_str()).as_str());
                text
            },
            SliceError::EntryNotNormalized { given, normalized } => {
                let mut text: String = "catalog entry asset_class '".to_owned();
                text.append(given.as_str());
                text.append("' should be normalized as '");
                text.append(normalized.as_str());
                text.append("'");
                text
            },
            SliceError::EntryWithoutLayout(name) => {
                let mut text: String = "catalog entry ".to_owned();
                text.append(name.as_str());
                text.append(" has empty layout_id");
                text
            },
            SliceError::EntryWithoutHash(name) => {
                let mut text: String = "catalog entry ".to_owned();
                text.append(name.as_str());
                text.append(" has zero layout_hash");
                text
            },
            SliceError::EntryWithoutPath(name) => {
                let mut text: String = "catalog entry ".to_owned();
                text.append(name.as_str());
                text.append(" has empty path");
                text
            },
            SliceError::EntryWithoutRole(name) => {
                let mut text: String = "catalog entry ".to_owned();
                text.append(name.as_str());
                text.append(" has empty role");
                text
            },
            SliceError::CatalogVersion(version) => {
                let mut text: String = "unsupported catalog version ".to_owned();
                push_decimal(&mut text, *version as u64);
                text
            },
            SliceError::DuplicateEntry(name) => {
                let mut text: String = "duplicate catalog entry ".to_owned();
                text.append(name.as_str());
                text
            },
            SliceError::PayloadOverflow => "slice payload size overflow".to_owned(),
            SliceError::PayloadTooLarge => "slice payload is too large for this platform".to_owned(),
            SliceError::FileOverflow => "slice file size overflow".to_owned(),
            SliceError::LayoutHashMismatch { slice, layout } => {
                let mut text: String = "layout hash mismatch: slice=".to_owned();
                push_prefixed_hexadecimal(&mut text, *slice);
                text.append(" layout=");
                push_prefixed_hexadecimal(&mut text, *layout);
                text
            },
            SliceError::CapacityMismatch { slice, layout } => {
                let mut text: String = "capacity mismatch: slice=".to_owned();
                push_decimal(&mut text, *slice as u64);
                text.append(" layout=");
                push_decimal(&mut text, *layout as u64);
                text
            },
            SliceError::ActiveBeyondLayout { active_len, capacity } => {
                let mut text: String = "active_len ".to_owned();
                push_decimal(&mut text, *active_len as u64);
                text.append(" exceeds layout capacity ");
                push_decimal(&mut text, *capacity as u64);
                text
            },
            SliceError::SlotBeyondCapacity { slot_id, capacity } => {
                let mut text: String = "slot_id ".to_owned();
                push_decimal(&mut text, *slot_id as u64);
                text.append(" exceeds capacity ");
                push_decimal(&mut text, *capacity as u64);
                text
            },
            SliceError::TooSmall(len) => {
                let mut text: String = "slice is too small: ".to_owned();
                push_decimal(&mut text, *len as u64);
                text.append(" bytes");
                text
            },
            SliceError::InvalidMagic => "invalid slice magic".to_owned(),
            SliceError::UnsupportedVersion(version) => {
                let mut text: String = "unsupported slice version ".to_owned();
                push_decimal(&mut text, *version as u64);
                text.append("; expected 1");
                text
            },
            SliceError::HeaderLength(len) => {
                let mut text: String = "unsupported header length ".to_owned();
                push_decimal(&mut text, *len as u64);
                text.append("; expected 256");
                text
            },
            SliceError::ActiveBeyondCapacity { active_len, capacity } => {
                let mut text: String = "active_len ".to_owned();
                push_decimal(&mut text, *active_len as u64);
                text.append(" exceeds capacity ");
                push_decimal(&mut text, *capacity as u64);
                text
            },
            SliceError::TargetTooSmall => "target buffer too small for slice header".to_owned(),
            SliceError::WrongValueType { expected, actual } => {
                let mut text: String = "expected ".to_owned();
                if matches!(*expected, ValueType::F64) {
                    text = "expected f64 slice, got ".to_owned();
                } else {
                    text.append(expected.name());
                    text.append(" slice, got ");
                }
                text.append(actual.name());
                text
            },
            SliceError::WrongSlotSize { value_type, actual } => {
                if matches!(*value_type, ValueType::F64) {
                    let mut text: String = "invalid f64 slot size ".to_owned();
                    push_decimal(&mut text, *actual);
                    return text;
                }
                let mut text: String = "invalid ".to_owned();
                text.append(value_type.name());
                text.append(" slot size ");
                push_decimal(&mut text, *actual);
                text.append("; expected ");
                push_decimal(&mut text, value_type.slot_size());
                text
            },
            SliceError::SchemaHashMismatch { slice, expected } => {
                let mut text: String = "schema hash mismatch: slice=".to_owned();
                push_prefixed_hexadecimal(&mut text, *slice);
                text.append(" expected=");
                push_prefixed_hexadecimal(&mut text, *expected);
                text
            },
            SliceError::FileLength { actual, expected } => {
                let mut text: String = "slice file length mismatch: actual=".to_owned();
                push_decimal(&mut text, *actual as u64);
                text.append(" expected=");
                push_decimal(&mut text, *expected as u64);
                text
            },
            SliceError::VectorValueTypes { lhs, rhs } => {
                let mut text: String = "value type mismatch: lhs=".to_owned();
                text.append(lhs.name());
                text.append(" rhs=");
                text.append(rhs.name());
                text
            },
            SliceError::VectorLayouts { lhs, rhs } => {
                let mut text: String = "layout hash mismatch: lhs=".to_owned();
                push_prefixed_hexadecimal(&mut text, *lhs);
                text.append(" rhs=");
                push_prefixed_hexadecimal(&mut text, *rhs);
                text
            },
            SliceError::VectorSchemas { lhs, rhs } => {
                let mut text: String = "schema hash mismatch: lhs=".to_owned();
                push_prefixed_hexadecimal(&mut text, *lhs);
                text.append(" rhs=");
                push_prefixed_hexadecimal(&mut text, *rhs);
                text
            },
            SliceError::VectorLengths { lhs, rhs } => {
                let mut text: String = "active_len mismatch: lhs=".to_owned();
                push_decimal(&mut text, *lhs as u64);
                text.append(" rhs=");
                push_decimal(&mut text, *rhs as u64);
                text
            },
            SliceError::DotLength { lhs, rhs } => {
                let mut text: String = "dot length mismatch: lhs=".to_owned();
                push_decimal(&mut text, *lhs as u64);
                text.append(" rhs=");
                push_decimal(&mut text, *rhs as u64);
                text
            },
            SliceError::RecordLength { expected, actual } => {
                let mut text: String = "record of ".to_owned();
                push_decimal(&mut text, *actual as u64);
                text.append(" words; expected ");
                push_decimal(&mut text, *expected as u64);
                text
            },
            SliceError::Unstable => "could not read a stable slice snapshot after 1000 attempts".to_owned(),
        }
    }
}

} // verus!
