//! Slice files: what to store for a write, and where to load for a read.
//!
//! A slice file is a header of [`HEADER_SIZE`] bytes and a payload of slots.
//! Nothing here touches a file: a writer gets the stores of a publication in
//! the order in which they must become visible, and a reader gets the places
//! to load between two looks at a counter.

use crate::epoch::{begin_write, end_write};
use crate::header::{
    check_slot, encode_header, read_header, slot_offset, validate_file_len,
    validate_struct_header, SliceHeaderInfo, ValueType, HEADER_SIZE, OFF_HEARTBEAT_NS,
    OFF_UPDATED_NS, OFF_WRITER_EPOCH,
};
use crate::layout::{ensure_layout, new_header, LayoutRegistry};
use crate::number::{Arithmetic, Double};
use crate::records::SliceRecord;
use crate::slice_error::SliceError;
use crate::vector::dot;
use std::marker::PhantomData;
use vstd::prelude::*;

verus! {

/// What a store is for, and so how it must be ordered against others.
#[derive(Debug, Clone, Copy, PartialEq, Eq, Structural)]
pub enum StoreRole {
    /// A counter that guards data: no later data store may become visible
    /// before it, and it before no earlier one.
    Guard,
    /// Data under a guard.
    Data,
    /// A time in the header.
    Clock,
}

/// One 64-bit store into a slice file.
#[derive(Debug, Clone, Copy, PartialEq, Eq, Structural)]
pub struct Store {
    /// Byte offset in the file, a multiple of eight.
    pub offset: usize,
    /// Word to store.
    pub word: u64,
    /// What the store is for.
    pub role: StoreRole,
}

/// A new slice file before it is made.
#[derive(Debug)]
pub struct NewSlice {
    /// Header of the slice.
    pub header: SliceHeaderInfo,
    /// Byte length of the file.
    pub file_len: u64,
    /// First bytes of the file; the rest is zero.
    pub image: Vec<u8>,
}

/// Decide the header, the length and the first bytes of a new slice file.
pub fn plan_slice(
    layout: &LayoutRegistry,
    value_type: ValueType,
    active_len: u64,
    heartbeat_ns: u64,
    created_ns: u64,
    updated_ns: u64,
) -> (result: Result<NewSlice, SliceError>)
    ensures
        match crate::layout::header_for(
            layout@,
            value_type,
            active_len,
            heartbeat_ns,
            created_ns,
            updated_ns,
        ) {
            Ok(header) => {
                &&& result matches Ok(new)
                &&& new.header == header
                &&& header.total() == Ok::<u64, crate::slice_error::SliceFault>(new.file_len)
                &&& new.image@ == header.image()
            },
            Err(fault) => result matches Err(e) && e@ == fault,
        },
{
    let header: SliceHeaderInfo = match new_header(
        layout,
        value_type,
        active_len,
        heartbeat_ns,
        created_ns,
        updated_ns,
    ) {
        Ok(header) => header,
        Err(fault) => {
            return Err(fault);
        },
    };
    let file_len: u64 = match header.file_len() {
        Ok(len) => len,
        Err(fault) => {
            return Err(fault);
        },
    };
    let image: Vec<u8> = encode_header(&header);
    Ok(NewSlice { header, file_len, image })
}

/// The header of a slice file of a payload schema, or why it cannot be opened.
pub open spec fn opened_slice(bytes: Seq<u8>, value_type: ValueType) -> Result<
    SliceHeaderInfo,
    crate::slice_error::SliceFault,
> {
    match crate::header::header_in(bytes) {
        Err(fault) => Err(fault),
        Ok(header) => match crate::header::schema_fault(header, value_type) {
            Some(fault) => Err(fault),
            None => match crate::header::length_fault(bytes.len() as usize, header) {
                Some(fault) => Err(fault),
                None => Ok(header),
            },
        },
    }
}

/// Read and check the header of a slice file.
pub fn open_slice(bytes: &[u8], value_type: ValueType) -> (result: Result<
    SliceHeaderInfo,
    SliceError,
>)
    ensures
        match opened_slice(bytes@, value_type) {
            Ok(header) => result matches Ok(h) && h == header,
            Err(fault) => result matches Err(e) && e@ == fault,
        },
{
    let header: SliceHeaderInfo = match read_header(bytes) {
        Ok(header) => header,
        Err(fault) => {
            return Err(fault);
        },
    };
    match validate_struct_header(&header, value_type) {
        Ok(()) => {},
        Err(fault) => {
            return Err(fault);
        },
    }
    match validate_file_len(bytes.len(), &header) {
        Ok(()) => {},
        Err(fault) => {
            return Err(fault);
        },
    }
    Ok(header)
}

/// Whether a header is that of a slice file of some length and schema.
pub open spec fn fits(header: SliceHeaderInfo, file_len: usize, value_type: ValueType) -> bool {
    &&& header.readable()
    &&& crate::header::schema_fault(header, value_type) is None
    &&& crate::header::length_fault(file_len, header) is None
}

/// A store of a guard.
pub open spec fn guard_store(offset: int, word: u64) -> Store {
    Store { offset: offset as usize, word, role: StoreRole::Guard }
}

/// A store of a time.
pub open spec fn clock_store(offset: int, word: u64) -> Store {
    Store { offset: offset as usize, word, role: StoreRole::Clock }
}

/// Stores of words in a row.
pub open spec fn data_stores(offset: int, words: Seq<u64>) -> Seq<Store> {
    Seq::new(
        words.len(),
        |i: int|
            Store { offset: (offset + 8 * i) as usize, word: words[i], role: StoreRole::Data },
    )
}

/// The stores that publish words of a vector from a slot on: the counter is
/// odd from before the first word until after the last.
pub open spec fn vector_stores(epoch: u64, slot: int, words: Seq<u64>, now: u64) -> Seq<Store> {
    seq![guard_store(OFF_WRITER_EPOCH as int, crate::epoch::opened(epoch))] + data_stores(
        HEADER_SIZE + 8 * slot,
        words,
    ) + seq![
        clock_store(OFF_HEARTBEAT_NS as int, now),
        clock_store(OFF_UPDATED_NS as int, now),
        guard_store(
            OFF_WRITER_EPOCH as int,
            crate::epoch::closed(crate::epoch::opened(epoch)),
        ),
    ]
}

/// The stores that publish a record at an offset: the slot's own counter is
/// odd from before the first word until after the last.
pub open spec fn record_stores(epoch: u64, offset: int, words: Seq<u64>, now: u64) -> Seq<Store> {
    seq![guard_store(offset, crate::epoch::opened(epoch))] + data_stores(offset + 8, words) + seq![
        guard_store(offset, crate::epoch::closed(crate::epoch::opened(epoch))),
        clock_store(OFF_HEARTBEAT_NS as int, now),
        clock_store(OFF_UPDATED_NS as int, now),
    ]
}

/// A header with the times of a publication.
pub open spec fn touched(header: SliceHeaderInfo, now: u64) -> SliceHeaderInfo {
    SliceHeaderInfo { heartbeat_ns: now, updated_ns: now, ..header }
}

/// A header after a vector was published.
pub open spec fn advanced(header: SliceHeaderInfo, epoch: u64, now: u64) -> SliceHeaderInfo {
    SliceHeaderInfo {
        writer_epoch: crate::epoch::closed(crate::epoch::opened(epoch)),
        ..touched(header, now)
    }
}

fn push_data(stores: &mut Vec<Store>, offset: usize, words: &Vec<u64>)
    requires
        offset + 8 * words@.len() <= usize::MAX,
    ensures
        final(stores)@ == old(stores)@ + data_stores(offset as int, words@),
{
    let ghost before = stores@;
    let ghost all = data_stores(offset as int, words@);
    let mut i: usize = 0;
    assert(stores@ =~= before + all.take(0));
    while i < words.len()
        invariant
            0 <= i <= words@.len(),
            offset + 8 * words@.len() <= usize::MAX,
            all == data_stores(offset as int, words@),
            stores@ == before + all.take(i as int),
        decreases words@.len() - i,
    {
        stores.push(Store { offset: offset + 8 * i, word: words[i], role: StoreRole::Data });
        assert(stores@ =~= before + all.take(i + 1));
        i = i + 1;
    }
    assert(all.take(i as int) =~= all);
}

/// The words of some numbers.
pub open spec fn words_of(values: Seq<Double>) -> Seq<u64> {
    Seq::new(values.len(), |i: int| values[i].bits)
}

/// Decisions of the only writer of a dense slice of numbers.
///
/// The writer owns the publication epoch. Opening the same file through more
/// than one writer is outside the version-1 consistency contract.
#[derive(Debug)]
pub struct F64SliceWriter {
    header: SliceHeaderInfo,
    file_len: usize,
}

impl F64SliceWriter {
    #[verifier::type_invariant]
    spec fn well_formed(self) -> bool {
        fits(self.header, self.file_len, ValueType::F64)
    }

    /// The header as the writer knows it.
    pub closed spec fn head(self) -> SliceHeaderInfo {
        self.header
    }

    /// The byte length of the file.
    pub closed spec fn size(self) -> usize {
        self.file_len
    }

    /// Open the bytes of an existing slice of numbers.
    pub fn open(bytes: &[u8]) -> (result: Result<Self, SliceError>)
        ensures
            match opened_slice(bytes@, ValueType::F64) {
                Ok(header) => result matches Ok(w) && w.head() == header && w.size()
                    == bytes@.len() && fits(header, w.size(), ValueType::F64),
                Err(fault) => result matches Err(e) && e@ == fault,
            },
    {
        match open_slice(bytes, ValueType::F64) {
            Ok(header) => Ok(F64SliceWriter { header, file_len: bytes.len() }),
            Err(fault) => Err(fault),
        }
    }

    /// Return the header, refreshed with the live epoch and timestamps.
    pub fn header(&self, epoch: u64, heartbeat_ns: u64, updated_ns: u64) -> (header: SliceHeaderInfo)
        ensures
            header == (SliceHeaderInfo {
                writer_epoch: epoch,
                heartbeat_ns,
                updated_ns,
                ..self.head()
            }),
    {
        let mut header: SliceHeaderInfo = self.header;
        header.writer_epoch = epoch;
        header.heartbeat_ns = heartbeat_ns;
        header.updated_ns = updated_ns;
        header
    }

    /// Return the stores that replace one slot inside its own publication
    /// epoch.
    pub fn write_slot(&mut self, epoch: u64, slot_id: usize, value: Double, now: u64) -> (result:
        Result<Vec<Store>, SliceError>)
        ensures
            final(self).size() == old(self).size(),
            match result {
                Ok(stores) => slot_id < old(self).head().capacity && stores@ == vector_stores(
                    epoch,
                    slot_id as int,
                    seq![value.bits],
                    now,
                ) && final(self).head() == advanced(old(self).head(), epoch, now),
                Err(e) => crate::header::slot_fault(slot_id, old(self).head().capacity) == Some(e@)
                    && final(self).head() == old(self).head(),
            },
    {
        proof {
            use_type_invariant(&*self);
        }
        match check_slot(slot_id, &self.header) {
            Ok(()) => {},
            Err(fault) => {
                return Err(fault);
            },
        }
        let offset: usize = slot_offset(slot_id, &self.header, self.file_len);
        let words: Vec<u64> = vec![value.bits];
        assert(words@ =~= seq![value.bits]);
        Ok(self.publish(epoch, offset, &words, now, Ghost(slot_id as int)))
    }

    /// Return the stores that replace the active vector inside one publication
    /// epoch.
    pub fn update_vector(&mut self, epoch: u64, values: &Vec<Double>, now: u64) -> (stores: Vec<
        Store,
    >)
        requires
            values@.len() == old(self).head().active_len,
        ensures
            final(self).size() == old(self).size(),
            stores@ == vector_stores(epoch, 0, words_of(values@), now),
            final(self).head() == advanced(old(self).head(), epoch, now),
    {
        proof {
            use_type_invariant(&*self);
        }
        let mut words: Vec<u64> = Vec::new();
        let mut i: usize = 0;
        while i < values.len()
            invariant
                0 <= i <= values@.len(),
                words@ == words_of(values@).take(i as int),
            decreases values@.len() - i,
        {
            words.push(values[i].bits);
            assert(words@ =~= words_of(values@).take(i + 1));
            i = i + 1;
        }
        assert(words@ =~= words_of(values@));
        self.publish(epoch, HEADER_SIZE, &words, now, Ghost(0))
    }

    fn publish(
        &mut self,
        epoch: u64,
        offset: usize,
        words: &Vec<u64>,
        now: u64,
        Ghost(slot): Ghost<int>,
    ) -> (stores: Vec<Store>)
        requires
            slot >= 0,
            fits(old(self).head(), old(self).size(), ValueType::F64),
            offset == HEADER_SIZE + 8 * slot,
            slot + words@.len() <= old(self).head().capacity,
        ensures
            final(self).size() == old(self).size(),
            stores@ == vector_stores(epoch, slot, words@, now),
            final(self).head() == advanced(old(self).head(), epoch, now),
    {
        let odd: u64 = begin_write(epoch);
        let even: u64 = end_write(odd);
        let mut stores: Vec<Store> = vec![
            Store { offset: OFF_WRITER_EPOCH, word: odd, role: StoreRole::Guard },
        ];
        assert(offset + 8 * words@.len() <= self.file_len);
        push_data(&mut stores, offset, words);
        stores.push(Store { offset: OFF_HEARTBEAT_NS, word: now, role: StoreRole::Clock });
        stores.push(Store { offset: OFF_UPDATED_NS, word: now, role: StoreRole::Clock });
        stores.push(Store { offset: OFF_WRITER_EPOCH, word: even, role: StoreRole::Guard });
        assert(stores@ =~= vector_stores(epoch, slot, words@, now));
        let mut header: SliceHeaderInfo = self.header;
        header.writer_epoch = even;
        header.heartbeat_ns = now;
        header.updated_ns = now;
        *self = F64SliceWriter { header, file_len: self.file_len };
        stores
    }

    /// Return the store that refreshes writer liveness without changing the
    /// data timestamp.
    pub fn heartbeat(&mut self, now: u64) -> (store: Store)
        ensures
            store == clock_store(OFF_HEARTBEAT_NS as int, now),
            final(self).size() == old(self).size(),
            final(self).head() == (SliceHeaderInfo { heartbeat_ns: now, ..old(self).head() }),
    {
        proof {
            use_type_invariant(&*self);
        }
        let mut header: SliceHeaderInfo = self.header;
        header.heartbeat_ns = now;
        *self = F64SliceWriter { header, file_len: self.file_len };
        Store { offset: OFF_HEARTBEAT_NS, word: now, role: StoreRole::Clock }
    }
}

/// Decisions of a reader of a dense slice of numbers.
#[derive(Debug)]
pub struct F64SliceReader {
    header: SliceHeaderInfo,
    file_len: usize,
}

impl F64SliceReader {
    #[verifier::type_invariant]
    spec fn well_formed(self) -> bool {
        fits(self.header, self.file_len, ValueType::F64)
    }

    /// The header as it was when the slice was opened.
    pub closed spec fn head(self) -> SliceHeaderInfo {
        self.header
    }

    /// The byte length of the file.
    pub closed spec fn size(self) -> usize {
        self.file_len
    }

    /// Open the bytes of an existing slice of numbers.
    pub fn open(bytes: &[u8]) -> (result: Result<Self, SliceError>)
        ensures
            match opened_slice(bytes@, ValueType::F64) {
                Ok(header) => result matches Ok(r) && r.head() == header && r.size()
                    == bytes@.len() && fits(header, r.size(), ValueType::F64),
                Err(fault) => result matches Err(e) && e@ == fault,
            },
    {
        match open_slice(bytes, ValueType::F64) {
            Ok(header) => Ok(F64SliceReader { header, file_len: bytes.len() }),
            Err(fault) => Err(fault),
        }
    }

    /// Return the header, refreshed with the live epoch and timestamps.
    pub fn header(&self, epoch: u64, heartbeat_ns: u64, updated_ns: u64) -> (header: SliceHeaderInfo)
        ensures
            header == (SliceHeaderInfo {
                writer_epoch: epoch,
                heartbeat_ns,
                updated_ns,
                ..self.head()
            }),
    {
        let mut header: SliceHeaderInfo = self.header;
        header.writer_epoch = epoch;
        header.heartbeat_ns = heartbeat_ns;
        header.updated_ns = updated_ns;
        header
    }

    /// Reject a layout whose hash or capacity differs from this slice.
    pub fn ensure_layout(&self, layout: &LayoutRegistry) -> (result: Result<(), SliceError>)
        ensures
            crate::slice_error::reports(
                result,
                crate::layout::match_fault(self.head(), layout@),
            ),
    {
        ensure_layout(&self.header, layout)
    }

    /// Return the logical vector length used by guarded operations.
    pub fn active_len(&self) -> (len: usize)
        ensures
            len == self.head().active_len,
            HEADER_SIZE + 8 * len <= self.size(),
    {
        proof {
            use_type_invariant(self);
        }
        self.header.active_len as usize
    }

    /// Return where the number of a slot stands in the file.
    pub fn value_at(&self, slot_id: usize) -> (result: Result<usize, SliceError>)
        ensures
            match result {
                Ok(offset) => {
                    &&& slot_id < self.head().capacity
                    &&& offset == HEADER_SIZE + 8 * slot_id
                    &&& offset + 8 <= self.size()
                },
                Err(e) => crate::header::slot_fault(slot_id, self.head().capacity) == Some(e@),
            },
    {
        proof {
            use_type_invariant(self);
        }
        match check_slot(slot_id, &self.header) {
            Ok(()) => Ok(slot_offset(slot_id, &self.header, self.file_len)),
            Err(fault) => Err(fault),
        }
    }

    /// Reject a vector that does not line up with this one slot by slot.
    pub fn ensure_compatible(&self, other: &F64SliceReader) -> (result: Result<(), SliceError>)
        ensures
            crate::slice_error::reports(
                result,
                crate::header::vectors_fault(self.head(), other.head()),
            ),
    {
        crate::header::ensure_compatible_vectors(&self.header, &other.header)
    }

    /// Compute the dot product of what was read from this slice with what was
    /// read from another. Only slices that line up slot by slot are
    /// multiplied.
    pub fn dot<A: Arithmetic>(
        &self,
        other: &F64SliceReader,
        math: &A,
        mine: &[Double],
        theirs: &[Double],
    ) -> (result: Result<Double, SliceError>)
        ensures
            match crate::header::vectors_fault(self.head(), other.head()) {
                Some(fault) => result matches Err(e) && e@ == fault,
                None => crate::vector::multiplies(math, mine@, theirs@, result),
            },
    {
        match self.ensure_compatible(other) {
            Ok(()) => dot(math, mine, theirs),
            Err(fault) => Err(fault),
        }
    }
}

/// Decisions of the only writer of a slice of fixed records.
#[derive(Debug)]
pub struct StructSliceWriter<T: SliceRecord> {
    header: SliceHeaderInfo,
    file_len: usize,
    record: PhantomData<T>,
}

impl<T: SliceRecord> StructSliceWriter<T> {
    #[verifier::type_invariant]
    spec fn well_formed(self) -> bool {
        fits(self.header, self.file_len, T::schema())
    }

    /// The header as the writer knows it.
    pub closed spec fn head(self) -> SliceHeaderInfo {
        self.header
    }

    /// The byte length of the file.
    pub closed spec fn size(self) -> usize {
        self.file_len
    }

    /// Open the bytes of an existing slice of records.
    pub fn open(bytes: &[u8]) -> (result: Result<Self, SliceError>)
        ensures
            match opened_slice(bytes@, T::schema()) {
                Ok(header) => result matches Ok(w) && w.head() == header && w.size()
                    == bytes@.len() && fits(header, w.size(), T::schema()),
                Err(fault) => result matches Err(e) && e@ == fault,
            },
    {
        match open_slice(bytes, T::value_type()) {
            Ok(header) => Ok(
                StructSliceWriter { header, file_len: bytes.len(), record: PhantomData },
            ),
            Err(fault) => Err(fault),
        }
    }

    /// Return the writer's current header metadata.
    pub fn header(&self) -> (header: SliceHeaderInfo)
        ensures
            header == self.head(),
    {
        self.header
    }

    /// Return where the counter of a slot stands in the file.
    pub fn counter_at(&self, slot_id: usize) -> (result: Result<usize, SliceError>)
        ensures
            match result {
                Ok(offset) => {
                    &&& slot_id < self.head().capacity
                    &&& offset == HEADER_SIZE + slot_id * T::schema().width()
                    &&& offset + T::schema().width() <= self.size()
                },
                Err(e) => crate::header::slot_fault(slot_id, self.head().capacity) == Some(e@),
            },
    {
        proof {
            use_type_invariant(self);
        }
        match check_slot(slot_id, &self.header) {
            Ok(()) => Ok(slot_offset(slot_id, &self.header, self.file_len)),
            Err(fault) => Err(fault),
        }
    }

    /// Return the stores that publish one coherent fixed record through its
    /// sequence counter.
    pub fn write_slot(&mut self, epoch: u64, slot_id: usize, value: T, now: u64) -> (result: Result<
        Vec<Store>,
        SliceError,
    >)
        ensures
            final(self).size() == old(self).size(),
            match result {
                Ok(stores) => slot_id < old(self).head().capacity && stores@ == record_stores(
                    epoch,
                    HEADER_SIZE + slot_id * T::schema().width(),
                    value.words(),
                    now,
                ) && final(self).head() == touched(old(self).head(), now),
                Err(e) => crate::header::slot_fault(slot_id, old(self).head().capacity) == Some(e@)
                    && final(self).head() == old(self).head(),
            },
    {
        proof {
            use_type_invariant(&*self);
        }
        let offset: usize = match self.counter_at(slot_id) {
            Ok(offset) => offset,
            Err(fault) => {
                return Err(fault);
            },
        };
        let odd: u64 = begin_write(epoch);
        let even: u64 = end_write(odd);
        let words: Vec<u64> = value.to_words();
        let mut stores: Vec<Store> = vec![
            Store { offset, word: odd, role: StoreRole::Guard },
        ];
        push_data(&mut stores, offset + 8, &words);
        stores.push(Store { offset, word: even, role: StoreRole::Guard });
        stores.push(Store { offset: OFF_HEARTBEAT_NS, word: now, role: StoreRole::Clock });
        stores.push(Store { offset: OFF_UPDATED_NS, word: now, role: StoreRole::Clock });
        assert(stores@ =~= record_stores(epoch, offset as int, words@, now));
        let mut header: SliceHeaderInfo = self.header;
        header.heartbeat_ns = now;
        header.updated_ns = now;
        *self = StructSliceWriter { header, file_len: self.file_len, record: PhantomData };
        Ok(stores)
    }

    /// Return the store that refreshes writer liveness without changing the
    /// data timestamp.
    pub fn heartbeat(&mut self, now: u64) -> (store: Store)
        ensures
            store == clock_store(OFF_HEARTBEAT_NS as int, now),
            final(self).size() == old(self).size(),
            final(self).head() == (SliceHeaderInfo { heartbeat_ns: now, ..old(self).head() }),
    {
        proof {
            use_type_invariant(&*self);
        }
        let mut header: SliceHeaderInfo = self.header;
        header.heartbeat_ns = now;
        *self = StructSliceWriter { header, file_len: self.file_len, record: PhantomData };
        Store { offset: OFF_HEARTBEAT_NS, word: now, role: StoreRole::Clock }
    }
}

/// Decisions of a reader of a slice of fixed records.
#[derive(Debug)]
pub struct StructSliceReader<T: SliceRecord> {
    header: SliceHeaderInfo,
    file_len: usize,
    record: PhantomData<T>,
}

impl<T: SliceRecord> StructSliceReader<T> {
    #[verifier::type_invariant]
    spec fn well_formed(self) -> bool {
        fits(self.header, self.file_len, T::schema())
    }

    /// The header as it was when the slice was opened.
    pub closed spec fn head(self) -> SliceHeaderInfo {
        self.header
    }

    /// The byte length of the file.
    pub closed spec fn size(self) -> usize {
        self.file_len
    }

    /// Open the bytes of an existing slice of records.
    pub fn open(bytes: &[u8]) -> (result: Result<Self, SliceError>)
        ensures
            match opened_slice(bytes@, T::schema()) {
                Ok(header) => result matches Ok(r) && r.head() == header && r.size()
                    == bytes@.len() && fits(header, r.size(), T::schema()),
                Err(fault) => result matches Err(e) && e@ == fault,
            },
    {
        match open_slice(bytes, T::value_type()) {
            Ok(header) => Ok(
                StructSliceReader { header, file_len: bytes.len(), record: PhantomData },
            ),
            Err(fault) => Err(fault),
        }
    }

    /// Return the header, refreshed with live timestamps.
    pub fn header(&self, heartbeat_ns: u64, updated_ns: u64) -> (header: SliceHeaderInfo)
        ensures
            header == (SliceHeaderInfo { heartbeat_ns, updated_ns, ..self.head() }),
    {
        let mut header: SliceHeaderInfo = self.header;
        header.heartbeat_ns = heartbeat_ns;
        header.updated_ns = updated_ns;
        header
    }

    /// Reject a layout whose hash or capacity differs from this slice.
    pub fn ensure_layout(&self, layout: &LayoutRegistry) -> (result: Result<(), SliceError>)
        ensures
            crate::slice_error::reports(
                result,
                crate::layout::match_fault(self.head(), layout@),
            ),
    {
        ensure_layout(&self.header, layout)
    }

    /// Return the number of slots that a snapshot copies.
    pub fn active_len(&self) -> (len: usize)
        ensures
            len == self.head().active_len,
    {
        proof {
            use_type_invariant(self);
            let w = self.header.slot_size;
            assert(self.header.capacity <= self.header.capacity * w) by (nonlinear_arith)
                requires
                    w >= 1,
            ;
        }
        self.header.active_len as usize
    }

    /// Return where the counter of a slot stands in the file; the words of the
    /// slot's record follow it.
    pub fn value_at(&self, slot_id: usize) -> (result: Result<usize, SliceError>)
        ensures
            match result {
                Ok(offset) => {
                    &&& slot_id < self.head().capacity
                    &&& offset == HEADER_SIZE + slot_id * T::schema().width()
                    &&& offset + T::schema().width() <= self.size()
                },
                Err(e) => crate::header::slot_fault(slot_id, self.head().capacity) == Some(e@),
            },
    {
        proof {
            use_type_invariant(self);
        }
        match check_slot(slot_id, &self.header) {
            Ok(()) => Ok(slot_offset(slot_id, &self.header, self.file_len)),
            Err(fault) => Err(fault),
        }
    }
}

/// A new slice file can be opened for its schema, and gives its header back.
pub proof fn lemma_new_slice_opens(
    layout: crate::layout::LayoutView,
    value_type: ValueType,
    active_len: u64,
    heartbeat_ns: u64,
    created_ns: u64,
    updated_ns: u64,
    rest: Seq<u8>,
)
    requires
        crate::layout::header_for(
            layout,
            value_type,
            active_len,
            heartbeat_ns,
            created_ns,
            updated_ns,
        ) is Ok,
        ({
            let header = crate::layout::header_for(
                layout,
                value_type,
                active_len,
                heartbeat_ns,
                created_ns,
                updated_ns,
            )->Ok_0;
            &&& header.total() == Ok::<u64, crate::slice_error::SliceFault>(
                (HEADER_SIZE + rest.len()) as u64,
            )
            &&& HEADER_SIZE + rest.len() <= usize::MAX
        }),
    ensures
        ({
            let header = crate::layout::header_for(
                layout,
                value_type,
                active_len,
                heartbeat_ns,
                created_ns,
                updated_ns,
            )->Ok_0;
            opened_slice(header.image() + rest, value_type) == Ok::<
                SliceHeaderInfo,
                crate::slice_error::SliceFault,
            >(header)
        }),
{
    let header = crate::layout::header_for(
        layout,
        value_type,
        active_len,
        heartbeat_ns,
        created_ns,
        updated_ns,
    )->Ok_0;
    crate::header::lemma_header_round_trip(header, rest);
    crate::header::lemma_image_len(header);
}

/// The words of a file after the first `n` stores.
pub open spec fn memory_after(memory: Seq<u64>, stores: Seq<Store>, n: int) -> Seq<u64>
    decreases n,
{
    if n <= 0 {
        memory
    } else {
        memory_after(memory, stores, n - 1).update(
            stores[n - 1].offset as int / 8,
            stores[n - 1].word,
        )
    }
}

/// What a reader sees of `len` words from a position on, guarded by a counter
/// at another.
pub open spec fn shared_vector(
    memory: Seq<u64>,
    counter: int,
    first: int,
    len: int,
    writing: bool,
) -> crate::epoch::SharedVector {
    crate::epoch::SharedVector {
        epoch: memory[counter],
        words: memory.subrange(first, first + len),
        writing,
    }
}

/// The states through which stores take a guarded vector; a write is under way
/// from after the first store until before store `end`.
pub open spec fn store_trace(
    memory: Seq<u64>,
    stores: Seq<Store>,
    counter: int,
    first: int,
    len: int,
    end: int,
) -> Seq<crate::epoch::SharedVector> {
    Seq::new(
        stores.len() + 1,
        |k: int|
            shared_vector(
                memory_after(memory, stores, k),
                counter,
                first,
                len,
                0 < k < end,
            ),
    )
}

/// Whether every store lies in the file.
spec fn inside(memory: Seq<u64>, stores: Seq<Store>) -> bool {
    forall|k: int|
        0 <= k < stores.len() ==> (#[trigger] stores[k]).offset as int / 8 < memory.len()
}

proof fn lemma_memory_len(memory: Seq<u64>, stores: Seq<Store>, n: int)
    requires
        inside(memory, stores),
        n <= stores.len(),
    ensures
        memory_after(memory, stores, n).len() == memory.len(),
    decreases n,
{
    if n > 0 {
        lemma_memory_len(memory, stores, n - 1);
        assert(stores[n - 1].offset as int / 8 < memory.len());
    }
}

/// What stores leave alone stays as it was.
proof fn lemma_memory_kept(memory: Seq<u64>, stores: Seq<Store>, a: int, n: int, i: int)
    requires
        inside(memory, stores),
        0 <= a <= n <= stores.len(),
        0 <= i < memory.len(),
        forall|k: int| a <= k < n ==> (#[trigger] stores[k]).offset as int / 8 != i,
    ensures
        memory_after(memory, stores, n)[i] == memory_after(memory, stores, a)[i],
    decreases n,
{
    if a < n {
        lemma_memory_kept(memory, stores, a, n - 1, i);
        lemma_memory_len(memory, stores, n - 1);
        assert(stores[n - 1].offset as int / 8 != i);
    }
}

/// What a store leaves stays until another store to the same word.
proof fn lemma_memory_stored(memory: Seq<u64>, stores: Seq<Store>, k: int, n: int)
    requires
        inside(memory, stores),
        0 <= k < n <= stores.len(),
        forall|j: int|
            k < j < n ==> (#[trigger] stores[j]).offset as int / 8 != stores[k].offset as int / 8,
    ensures
        memory_after(memory, stores, n)[stores[k].offset as int / 8] == stores[k].word,
{
    lemma_memory_len(memory, stores, k);
    lemma_memory_kept(memory, stores, k + 1, n, stores[k].offset as int / 8);
}

/// Publishing words of a vector keeps to the rule of the counter at every
/// store, so that no reader can take a part of a write for a whole vector; and
/// it leaves the words where a reader looks for them, every other slot as it
/// was, and the counter settled while it has room.
pub proof fn lemma_vector_write_is_guarded(
    memory: Seq<u64>,
    capacity: int,
    slot: int,
    words: Seq<u64>,
    now: u64,
)
    requires
        0 <= slot,
        slot + words.len() <= capacity,
        memory.len() == 32 + capacity,
        HEADER_SIZE + 8 * capacity <= usize::MAX,
    ensures
        ({
            let stores = vector_stores(memory[8], slot, words, now);
            let n = stores.len() as int;
            let after = memory_after(memory, stores, n);
            &&& crate::epoch::written(store_trace(memory, stores, 8, 32, capacity, n))
            &&& after.len() == memory.len()
            &&& after[8] == crate::epoch::closed(crate::epoch::opened(memory[8]))
            &&& after[9] == now
            &&& after[11] == now
            &&& forall|i: int|
                0 <= i < words.len() ==> #[trigger] after[32 + slot + i] == words[i]
            &&& forall|i: int|
                0 <= i < memory.len() && i != 8 && i != 9 && i != 11 && !(32 + slot <= i < 32 + slot
                    + words.len()) ==> #[trigger] after[i] == memory[i]
        }),
{
    let stores = vector_stores(memory[8], slot, words, now);
    let m = words.len() as int;
    let n = stores.len() as int;
    let after = memory_after(memory, stores, n);
    let trace = store_trace(memory, stores, 8, 32, capacity, n);
    assert(n == m + 4);
    assert(stores[0].offset as int / 8 == 8);
    assert forall|k: int| 1 <= k <= m implies (#[trigger] stores[k]).offset as int / 8 == 32 + slot
        + (k - 1) && stores[k].word == words[k - 1] by {
        assert(stores[k] == data_stores(HEADER_SIZE + 8 * slot, words)[k - 1]);
    }
    assert(stores[m + 1].offset as int / 8 == 9);
    assert(stores[m + 2].offset as int / 8 == 11);
    assert(stores[m + 3].offset as int / 8 == 8);
    assert(inside(memory, stores));
    assert forall|k: int| 0 <= k <= n implies #[trigger] memory_after(memory, stores, k).len()
        == memory.len() by {
        lemma_memory_len(memory, stores, k);
    }
    assert forall|k: int, j: int|
        0 <= k && j == k + 1 && j < trace.len() implies crate::epoch::writer_step(
        #[trigger] trace[k],
        #[trigger] trace[j],
    ) by {
        let before = memory_after(memory, stores, k);
        let next = memory_after(memory, stores, k + 1);
        assert(next == before.update(stores[k].offset as int / 8, stores[k].word));
        let a = shared_vector(before, 8, 32, capacity, 0 < k < n);
        let b = shared_vector(next, 8, 32, capacity, 0 < j < n);
        assert(trace[k] == a);
        assert(trace[j] == b);
        if 1 <= k <= m {
            assert(stores[k].offset as int / 8 != 8);
        } else {
            assert(b.words =~= a.words);
        }
        if k == m + 3 {
            lemma_memory_stored(memory, stores, 0, k);
        }
    }
    assert(crate::epoch::written(trace));
    lemma_memory_stored(memory, stores, m + 3, n);
    lemma_memory_stored(memory, stores, m + 1, n);
    lemma_memory_stored(memory, stores, m + 2, n);
    assert forall|i: int| 0 <= i < words.len() implies #[trigger] after[32 + slot + i]
        == words[i] by {
        assert(stores[i + 1].word == words[i]);
        lemma_memory_stored(memory, stores, i + 1, n);
    }
    assert forall|i: int|
        0 <= i < memory.len() && i != 8 && i != 9 && i != 11 && !(32 + slot <= i < 32 + slot
            + words.len()) implies #[trigger] after[i] == memory[i] by {
        lemma_memory_kept(memory, stores, 0, n, i);
    }
}

/// Publishing a record keeps to the rule of the slot's counter at every store,
/// and leaves the record behind the counter and every other word but the two
/// times of the header as it was.
pub proof fn lemma_record_write_is_guarded(
    memory: Seq<u64>,
    counter: int,
    words: Seq<u64>,
    now: u64,
)
    requires
        32 <= counter,
        counter + 1 + words.len() <= memory.len(),
        8 * memory.len() <= usize::MAX,
    ensures
        ({
            let stores = record_stores(memory[counter], 8 * counter, words, now);
            let n = stores.len() as int;
            let m = words.len() as int;
            let after = memory_after(memory, stores, n);
            &&& crate::epoch::written(
                store_trace(memory, stores, counter, counter + 1, m, m + 2),
            )
            &&& after.len() == memory.len()
            &&& after[counter] == crate::epoch::closed(crate::epoch::opened(memory[counter]))
            &&& after[9] == now
            &&& after[11] == now
            &&& after.subrange(counter + 1, counter + 1 + m) == words
            &&& forall|i: int|
                0 <= i < memory.len() && i != 9 && i != 11 && !(counter <= i <= counter + m)
                    ==> #[trigger] after[i] == memory[i]
        }),
{
    let stores = record_stores(memory[counter], 8 * counter, words, now);
    let m = words.len() as int;
    let n = stores.len() as int;
    let after = memory_after(memory, stores, n);
    let first = counter + 1;
    let trace = store_trace(memory, stores, counter, first, m, m + 2);
    assert(n == m + 4);
    assert(stores[0].offset as int / 8 == counter);
    assert forall|k: int| 1 <= k <= m implies (#[trigger] stores[k]).offset as int / 8 == counter + k
        && stores[k].word == words[k - 1] by {
        assert(stores[k] == data_stores(8 * counter + 8, words)[k - 1]);
    }
    assert(stores[m + 1].offset as int / 8 == counter);
    assert(stores[m + 2].offset as int / 8 == 9);
    assert(stores[m + 3].offset as int / 8 == 11);
    assert(inside(memory, stores));
    assert forall|k: int| 0 <= k <= n implies #[trigger] memory_after(memory, stores, k).len()
        == memory.len() by {
        lemma_memory_len(memory, stores, k);
    }
    assert forall|k: int, j: int|
        0 <= k && j == k + 1 && j < trace.len() implies crate::epoch::writer_step(
        #[trigger] trace[k],
        #[trigger] trace[j],
    ) by {
        let before = memory_after(memory, stores, k);
        let next = memory_after(memory, stores, k + 1);
        assert(next == before.update(stores[k].offset as int / 8, stores[k].word));
        let a = shared_vector(before, counter, first, m, 0 < k < m + 2);
        let b = shared_vector(next, counter, first, m, 0 < j < m + 2);
        assert(trace[k] == a);
        assert(trace[j] == b);
        if 1 <= k <= m {
            assert(stores[k].offset as int / 8 != counter);
        } else {
            assert(b.words =~= a.words);
        }
        if k == m + 1 {
            lemma_memory_stored(memory, stores, 0, k);
        }
    }
    assert(crate::epoch::written(trace));
    lemma_memory_stored(memory, stores, m + 1, n);
    lemma_memory_stored(memory, stores, m + 2, n);
    lemma_memory_stored(memory, stores, m + 3, n);
    assert forall|i: int| 0 <= i < m implies #[trigger] after.subrange(first, first + m)[i]
        == words[i] by {
        assert(stores[i + 1].word == words[i]);
        lemma_memory_stored(memory, stores, i + 1, n);
    }
    assert(after.subrange(first, first + m) =~= words);
    assert forall|i: int|
        0 <= i < memory.len() && i != 9 && i != 11 && !(counter <= i <= counter
            + m) implies #[trigger] after[i] == memory[i] by {
        lemma_memory_kept(memory, stores, 0, n, i);
    }
}

/// Whether a read that begins now and is not disturbed accepts what it copies.
pub open spec fn reads_undisturbed(epoch: u64) -> bool {
    let begun = crate::epoch::ReadView { failures: 0, start: None };
    let (copying, first) = crate::epoch::observed(begun, seq![epoch]);
    let (_, second) = crate::epoch::observed(copying, seq![epoch]);
    first == crate::epoch::ReadAction::Copy && second == crate::epoch::ReadAction::Accept
}

/// A read gives back what a write wrote: once a number is published at a slot,
/// an undisturbed guarded read is accepted and finds that number there, and in
/// every other slot what was there before.
pub proof fn lemma_number_is_read_back(
    memory: Seq<u64>,
    capacity: int,
    slot: int,
    value: Double,
    now: u64,
    other: int,
)
    requires
        0 <= slot < capacity,
        0 <= other < capacity,
        memory.len() == 32 + capacity,
        HEADER_SIZE + 8 * capacity <= usize::MAX,
        crate::epoch::settled(memory[8]),
        memory[8] < u64::MAX - 1,
    ensures
        ({
            let stores = vector_stores(memory[8], slot, seq![value.bits], now);
            let after = memory_after(memory, stores, stores.len() as int);
            &&& reads_undisturbed(after[8])
            &&& after[(HEADER_SIZE + 8 * slot) / 8] == value.bits
            &&& other != slot ==> after[(HEADER_SIZE + 8 * other) / 8] == memory[(HEADER_SIZE + 8
                * other) / 8]
        }),
{
    let words = seq![value.bits];
    lemma_vector_write_is_guarded(memory, capacity, slot, words, now);
    crate::epoch::lemma_publication_advances(memory[8]);
    let stores = vector_stores(memory[8], slot, words, now);
    let after = memory_after(memory, stores, stores.len() as int);
    assert(after[32 + slot + 0] == words[0]);
    assert((HEADER_SIZE + 8 * slot) / 8 == 32 + slot);
    assert((HEADER_SIZE + 8 * other) / 8 == 32 + other);
    lemma_reads_undisturbed(after[8]);
}

proof fn lemma_reads_undisturbed(epoch: u64)
    requires
        crate::epoch::settled(epoch),
    ensures
        reads_undisturbed(epoch),
{
    let loads = seq![epoch];
    assert(crate::epoch::all_settled(loads));
}

/// A read gives back what a write wrote: once a record is published behind a
/// counter, an undisturbed guarded read is accepted, and the words it copies
/// are those of that record and of no other.
pub proof fn lemma_record_is_read_back<T: SliceRecord>(
    memory: Seq<u64>,
    counter: int,
    value: T,
    now: u64,
    read: T,
)
    requires
        32 <= counter,
        counter + 1 + value.words().len() <= memory.len(),
        8 * memory.len() <= usize::MAX,
        crate::epoch::settled(memory[counter]),
        memory[counter] < u64::MAX - 1,
    ensures
        ({
            let words = value.words();
            let stores = record_stores(memory[counter], 8 * counter, words, now);
            let after = memory_after(memory, stores, stores.len() as int);
            let copied = after.subrange(counter + 1, counter + 1 + words.len());
            &&& reads_undisturbed(after[counter])
            &&& copied == words
            &&& read.words() == copied ==> read == value
        }),
{
    lemma_record_write_is_guarded(memory, counter, value.words(), now);
    crate::epoch::lemma_publication_advances(memory[counter]);
    lemma_reads_undisturbed(crate::epoch::closed(crate::epoch::opened(memory[counter])));
    if read.words() == value.words() {
        T::words_determine(read, value);
    }
}

/// Writing a slot of a vector is refused exactly where the vector has no such
/// slot. Else the counter is taken to an odd value before the bits of the value
/// are stored in the place of the slot, and on from it after the times are set.
pub proof fn lemma_slot_write_stores_value(
    writer: &mut F64SliceWriter,
    epoch: u64,
    slot_id: usize,
    value: Double,
    now: u64,
    odd: u64,
    even: u64,
    result: Result<Vec<Store>, SliceError>,
)
    requires
        call_ensures(crate::epoch::begin_write, (epoch,), odd),
        call_ensures(crate::epoch::end_write, (odd,), even),
        call_ensures(F64SliceWriter::write_slot, (writer, epoch, slot_id, value, now), result),
    ensures
        result is Ok <==> slot_id < old(writer).head().capacity,
        result is Err ==> final(writer).head() == old(writer).head(),
        result matches Ok(stores) ==> {
            &&& stores@.len() == 5
            &&& stores@[0] == (Store { offset: 64, word: odd, role: StoreRole::Guard })
            &&& stores@[1] == (Store {
                offset: (256 + 8 * slot_id) as usize,
                word: value.bits,
                role: StoreRole::Data,
            })
            &&& stores@[2] == (Store { offset: 72, word: now, role: StoreRole::Clock })
            &&& stores@[3] == (Store { offset: 88, word: now, role: StoreRole::Clock })
            &&& stores@[4] == (Store { offset: 64, word: even, role: StoreRole::Guard })
            &&& final(writer).head().writer_epoch == even
            &&& final(writer).head().heartbeat_ns == now
            &&& final(writer).head().updated_ns == now
            &&& final(writer).head().created_ns == old(writer).head().created_ns
            &&& final(writer).head().capacity == old(writer).head().capacity
            &&& final(writer).head().active_len == old(writer).head().active_len
            &&& final(writer).head().layout_hash == old(writer).head().layout_hash
        },
{
}

/// Writing a vector stores the bits of every value in the place of its slot,
/// between the two changes of the counter, and sets the times.
pub proof fn lemma_vector_write_stores_values(
    writer: &mut F64SliceWriter,
    epoch: u64,
    values: &Vec<Double>,
    now: u64,
    odd: u64,
    even: u64,
    stores: Vec<Store>,
)
    requires
        values@.len() == old(writer).head().active_len,
        call_ensures(crate::epoch::begin_write, (epoch,), odd),
        call_ensures(crate::epoch::end_write, (odd,), even),
        call_ensures(F64SliceWriter::update_vector, (writer, epoch, values, now), stores),
    ensures
        ({
            let n = values@.len() as int;
            &&& stores@.len() == n + 4
            &&& stores@[0] == (Store { offset: 64, word: odd, role: StoreRole::Guard })
            &&& forall|i: int|
                #![trigger values@[i]]
                0 <= i < n ==> stores@[i + 1] == (Store {
                    offset: (256 + 8 * i) as usize,
                    word: values@[i].bits,
                    role: StoreRole::Data,
                })
            &&& stores@[n + 1] == (Store { offset: 72, word: now, role: StoreRole::Clock })
            &&& stores@[n + 2] == (Store { offset: 88, word: now, role: StoreRole::Clock })
            &&& stores@[n + 3] == (Store { offset: 64, word: even, role: StoreRole::Guard })
            &&& final(writer).head().writer_epoch == even
            &&& final(writer).head().heartbeat_ns == now
            &&& final(writer).head().updated_ns == now
        }),
{
}

/// Writing a slot of records is refused exactly where there is no such slot.
/// Else the counter of the slot, which stands before its words, is taken to an
/// odd value before the words are stored and on from it after them.
pub proof fn lemma_record_write_stores_words<T: SliceRecord>(
    writer: &mut StructSliceWriter<T>,
    epoch: u64,
    slot_id: usize,
    value: T,
    now: u64,
    odd: u64,
    even: u64,
    words: Vec<u64>,
    result: Result<Vec<Store>, SliceError>,
)
    requires
        call_ensures(crate::epoch::begin_write, (epoch,), odd),
        call_ensures(crate::epoch::end_write, (odd,), even),
        words@ == value.words(),
        call_ensures(
            StructSliceWriter::<T>::write_slot,
            (writer, epoch, slot_id, value, now),
            result,
        ),
    ensures
        result is Ok <==> slot_id < old(writer).head().capacity,
        result is Err ==> final(writer).head() == old(writer).head(),
        result matches Ok(stores) ==> {
            let n = words@.len() as int;
            let place = 256 + slot_id * T::schema().width();
            &&& stores@.len() == n + 4
            &&& stores@[0] == (Store {
                offset: place as usize,
                word: odd,
                role: StoreRole::Guard,
            })
            &&& forall|i: int|
                #![trigger words@[i]]
                0 <= i < n ==> stores@[i + 1] == (Store {
                    offset: (place + 8 + 8 * i) as usize,
                    word: words@[i],
                    role: StoreRole::Data,
                })
            &&& stores@[n + 1] == (Store {
                offset: place as usize,
                word: even,
                role: StoreRole::Guard,
            })
            &&& stores@[n + 2] == (Store { offset: 72, word: now, role: StoreRole::Clock })
            &&& stores@[n + 3] == (Store { offset: 88, word: now, role: StoreRole::Clock })
            &&& final(writer).head().writer_epoch == old(writer).head().writer_epoch
            &&& final(writer).head().heartbeat_ns == now
            &&& final(writer).head().updated_ns == now
        },
{
}

/// A heartbeat sets the time of the heartbeat and nothing else.
pub proof fn lemma_heartbeat_sets_one_time(
    writer: &mut F64SliceWriter,
    now: u64,
    store: Store,
)
    requires
        call_ensures(F64SliceWriter::heartbeat, (writer, now), store),
    ensures
        store == (Store { offset: 72, word: now, role: StoreRole::Clock }),
        final(writer).head().heartbeat_ns == now,
        final(writer).head().updated_ns == old(writer).head().updated_ns,
        final(writer).head().writer_epoch == old(writer).head().writer_epoch,
        final(writer).head().active_len == old(writer).head().active_len,
{
}

/// A file opens exactly where its header can be read, is of the type asked for
/// and calls for a file of that length; what is opened has that header.
pub proof fn lemma_files_open(
    bytes: &[u8],
    value_type: ValueType,
    parsed: Result<SliceHeaderInfo, SliceError>,
    schema: Result<(), SliceError>,
    length: Result<(), SliceError>,
    result: Result<SliceHeaderInfo, SliceError>,
)
    requires
        bytes@.len() <= usize::MAX,
        call_ensures(crate::header::read_header, (bytes,), parsed),
        parsed is Ok ==> call_ensures(
            crate::header::validate_struct_header,
            (&parsed->Ok_0, value_type),
            schema,
        ),
        parsed is Ok ==> call_ensures(
            crate::header::validate_file_len,
            (bytes@.len() as usize, &parsed->Ok_0),
            length,
        ),
        call_ensures(open_slice, (bytes, value_type), result),
    ensures
        parsed is Err ==> result is Err && result->Err_0@ == parsed->Err_0@,
        parsed is Ok && schema is Err ==> result is Err && result->Err_0@ == schema->Err_0@,
        parsed is Ok && schema is Ok && length is Err ==> result is Err && result->Err_0@
            == length->Err_0@,
        parsed is Ok && schema is Ok && length is Ok ==> result is Ok && result->Ok_0
            == parsed->Ok_0,
{
}

/// A value is read from the place where its slot is written, and a slot is
/// refused exactly where it lies outside the capacity.
pub proof fn lemma_values_are_read_where_written(
    reader: &F64SliceReader,
    slot_id: usize,
    result: Result<usize, SliceError>,
    len: usize,
)
    requires
        call_ensures(F64SliceReader::value_at, (reader, slot_id), result),
        call_ensures(F64SliceReader::active_len, (reader,), len),
    ensures
        result is Ok <==> slot_id < reader.head().capacity,
        result is Ok ==> result->Ok_0 == 256 + 8 * slot_id && result->Ok_0 + 8 <= reader.size(),
        len == reader.head().active_len,
{
}

/// A reader shows the header that it was opened with, with the counter and
/// times that it was given.
pub proof fn lemma_reader_shows_header(
    reader: &F64SliceReader,
    epoch: u64,
    heartbeat_ns: u64,
    updated_ns: u64,
    header: SliceHeaderInfo,
)
    requires
        call_ensures(F64SliceReader::header, (reader, epoch, heartbeat_ns, updated_ns), header),
    ensures
        header.writer_epoch == epoch,
        header.heartbeat_ns == heartbeat_ns,
        header.updated_ns == updated_ns,
        header.created_ns == reader.head().created_ns,
        header.value_type == reader.head().value_type,
        header.capacity == reader.head().capacity,
        header.active_len == reader.head().active_len,
        header.layout_hash == reader.head().layout_hash,
        header.schema_hash == reader.head().schema_hash,
        header.slot_size == reader.head().slot_size,
{
}

} // verus!
