//! The physical format of slice files.

use crate::slice_error::SliceError;
use vstd::bytes::{u32_from_le_bytes, u32_to_le_bytes, u64_from_le_bytes, u64_to_le_bytes};
use vstd::prelude::*;
use vstd::slice::slice_subrange;
use xxhash_rust::xxh64::xxh64;

verus! {

/// Version of the physical format.
pub const VERSION: u32 = 1;

/// Byte length reserved for the version-1 file header.
pub const HEADER_SIZE: usize = 256;

/// Flag of a slice that its creator writes.
pub const FLAG_WRITABLE_OWNER: u32 = 1;

/// Offset of the epoch of the writer.
pub const OFF_WRITER_EPOCH: usize = 64;

/// Offset of the last sign of life of the writer.
pub const OFF_HEARTBEAT_NS: usize = 72;

/// Offset of the last update of the payload.
pub const OFF_UPDATED_NS: usize = 88;

/// Physical payload schema stored in a slice file.
#[derive(Debug, Clone, Copy, PartialEq, Eq, Structural)]
pub enum ValueType {
    /// Dense IEEE-754 double-precision vector.
    F64,
    /// Per-slot [`crate::records::QuoteV1`] wrapped in a sequence counter.
    QuoteV1,
    /// Per-slot [`crate::records::TradeV1`] wrapped in a sequence counter.
    TradeV1,
    /// Per-slot [`crate::records::TaqV1`] wrapped in a sequence counter.
    TaqV1,
}

impl ValueType {
    /// The name of the schema.
    pub open spec fn title(self) -> Seq<char> {
        match self {
            ValueType::F64 => "F64"@,
            ValueType::QuoteV1 => "QuoteV1"@,
            ValueType::TradeV1 => "TradeV1"@,
            ValueType::TaqV1 => "TaqV1"@,
        }
    }

    /// Return the name of the schema.
    pub fn name(self) -> (name: &'static str)
        ensures
            name@ == self.title(),
    {
        match self {
            ValueType::F64 => "F64",
            ValueType::QuoteV1 => "QuoteV1",
            ValueType::TradeV1 => "TradeV1",
            ValueType::TaqV1 => "TaqV1",
        }
    }

    /// The stable integer discriminator stored in a file header.
    pub open spec fn number(self) -> u32 {
        match self {
            ValueType::F64 => 1,
            ValueType::QuoteV1 => 100,
            ValueType::TradeV1 => 101,
            ValueType::TaqV1 => 102,
        }
    }

    /// The value type with a discriminator.
    pub open spec fn numbered(value: u32) -> Result<ValueType, crate::slice_error::SliceFault> {
        if value == 1 {
            Ok(ValueType::F64)
        } else if value == 100 {
            Ok(ValueType::QuoteV1)
        } else if value == 101 {
            Ok(ValueType::TradeV1)
        } else if value == 102 {
            Ok(ValueType::TaqV1)
        } else {
            Err(crate::slice_error::SliceFault::UnsupportedValueType(value))
        }
    }

    /// The byte width of one slot: a number, or a counter and the numbers of a
    /// record.
    pub open spec fn width(self) -> u64 {
        match self {
            ValueType::F64 => 8,
            ValueType::QuoteV1 => 80,
            ValueType::TradeV1 => 64,
            ValueType::TaqV1 => 136,
        }
    }

    /// The name whose hash identifies the schema.
    pub open spec fn schema_name(self) -> Seq<char> {
        match self {
            ValueType::F64 => "hypercube.slice.value.f64.v1"@,
            ValueType::QuoteV1 => "hypercube.slice.value.quote.v1"@,
            ValueType::TradeV1 => "hypercube.slice.value.trade.v1"@,
            ValueType::TaqV1 => "hypercube.slice.value.taq.v1"@,
        }
    }

    /// The hash of the schema.
    pub open spec fn schema(self) -> u64 {
        crate::hash::xxh64_of(vstd::utf8::encode_utf8(self.schema_name()), 0)
    }

    /// Decode the stable integer discriminator stored in a file header.
    pub fn from_u32(value: u32) -> (result: Result<Self, SliceError>)
        ensures
            match ValueType::numbered(value) {
                Ok(value_type) => result matches Ok(v) && v == value_type,
                Err(fault) => result matches Err(e) && e@ == fault,
            },
    {
        if value == 1 {
            Ok(ValueType::F64)
        } else if value == 100 {
            Ok(ValueType::QuoteV1)
        } else if value == 101 {
            Ok(ValueType::TradeV1)
        } else if value == 102 {
            Ok(ValueType::TaqV1)
        } else {
            Err(SliceError::UnsupportedValueType(value))
        }
    }

    /// Return the stable integer discriminator stored in a file header.
    pub fn to_u32(self) -> (value: u32)
        ensures
            value == self.number(),
            ValueType::numbered(value) == Ok::<ValueType, crate::slice_error::SliceFault>(self),
    {
        match self {
            ValueType::F64 => 1,
            ValueType::QuoteV1 => 100,
            ValueType::TradeV1 => 101,
            ValueType::TaqV1 => 102,
        }
    }

    /// Return the byte width of one physical slot.
    pub fn slot_size(self) -> (size: u64)
        ensures
            size == self.width(),
    {
        match self {
            ValueType::F64 => 8,
            ValueType::QuoteV1 => 80,
            ValueType::TradeV1 => 64,
            ValueType::TaqV1 => 136,
        }
    }

    /// Return the stable versioned hash for this payload schema.
    pub fn schema_hash(self) -> (hash: u64)
        ensures
            hash == self.schema(),
    {
        let name: &str = match self {
            ValueType::F64 => "hypercube.slice.value.f64.v1",
            ValueType::QuoteV1 => "hypercube.slice.value.quote.v1",
            ValueType::TradeV1 => "hypercube.slice.value.trade.v1",
            ValueType::TaqV1 => "hypercube.slice.value.taq.v1",
        };
        xxh64(name.as_bytes(), 0)
    }
}

/// Decoded metadata from a version-1 slice file header.
#[derive(Debug, Clone, Copy, PartialEq, Eq, Structural)]
pub struct SliceHeaderInfo {
    /// Physical format version.
    pub version: u32,
    /// Header byte length.
    pub header_len: u32,
    /// Payload schema.
    pub value_type: ValueType,
    /// File-level capability flags.
    pub flags: u32,
    /// Total allocated slots.
    pub capacity: u64,
    /// Logical payload prefix used by vector operations.
    pub active_len: u64,
    /// Physical bytes occupied by one slot.
    pub slot_size: u64,
    /// Hash of the associated entity layout.
    pub layout_hash: u64,
    /// Hash of the versioned payload schema.
    pub schema_hash: u64,
    /// Even/odd whole-vector publication epoch.
    pub writer_epoch: u64,
    /// Last writer liveness update in Unix-epoch nanoseconds.
    pub heartbeat_ns: u64,
    /// File creation time in Unix-epoch nanoseconds.
    pub created_ns: u64,
    /// Last payload update in Unix-epoch nanoseconds.
    pub updated_ns: u64,
}

/// The eight bytes at the start of every slice file.
pub open spec fn magic() -> Seq<u8> {
    seq![72u8, 67u8, 85u8, 66u8, 83u8, 76u8, 67u8, 69u8]
}

/// A 32-bit number as four bytes, the lowest first.
pub open spec fn word_bytes(n: u32) -> Seq<u8> {
    vstd::bytes::spec_u32_to_le_bytes(n)
}

/// The 32-bit number at an offset.
pub open spec fn word_at(bytes: Seq<u8>, offset: int) -> u32 {
    vstd::bytes::spec_u32_from_le_bytes(bytes.subrange(offset, offset + 4))
}

/// The 64-bit number at an offset.
pub open spec fn number_at(bytes: Seq<u8>, offset: int) -> u64 {
    vstd::bytes::spec_u64_from_le_bytes(bytes.subrange(offset, offset + 8))
}

impl SliceHeaderInfo {
    /// The header as it stands in a file, without the unused rest.
    pub open spec fn encoded(self) -> Seq<u8> {
        magic() + word_bytes(self.version) + word_bytes(self.header_len) + word_bytes(
            self.value_type.number(),
        ) + word_bytes(self.flags) + crate::hash::number_bytes(self.capacity)
            + crate::hash::number_bytes(self.active_len) + crate::hash::number_bytes(self.slot_size)
            + crate::hash::number_bytes(self.layout_hash) + crate::hash::number_bytes(
            self.schema_hash,
        ) + crate::hash::number_bytes(self.writer_epoch) + crate::hash::number_bytes(
            self.heartbeat_ns,
        ) + crate::hash::number_bytes(self.created_ns) + crate::hash::number_bytes(self.updated_ns)
    }

    /// The header as it stands in a file: zeros fill it up.
    pub open spec fn image(self) -> Seq<u8> {
        self.encoded() + Seq::new(160, |i: int| 0u8)
    }

    /// Whether a header can be read back: its version, its length and its
    /// active prefix are as they must be.
    pub open spec fn readable(self) -> bool {
        &&& self.version == VERSION
        &&& self.header_len == HEADER_SIZE
        &&& self.active_len <= self.capacity
    }

    /// The byte length of the payload, or why it has none.
    pub open spec fn payload(self) -> Result<usize, crate::slice_error::SliceFault> {
        if self.capacity * self.slot_size > u64::MAX {
            Err(crate::slice_error::SliceFault::PayloadOverflow)
        } else if self.capacity * self.slot_size > usize::MAX {
            Err(crate::slice_error::SliceFault::PayloadTooLarge)
        } else {
            Ok((self.capacity * self.slot_size) as usize)
        }
    }

    /// The byte length of the file, or why it has none.
    pub open spec fn total(self) -> Result<u64, crate::slice_error::SliceFault> {
        if self.capacity * self.slot_size + HEADER_SIZE > u64::MAX {
            Err(crate::slice_error::SliceFault::FileOverflow)
        } else {
            Ok((self.capacity * self.slot_size + HEADER_SIZE) as u64)
        }
    }

    /// Return the checked payload byte length for this platform.
    pub fn payload_len(&self) -> (result: Result<usize, SliceError>)
        ensures
            match self.payload() {
                Ok(len) => result matches Ok(n) && n == len,
                Err(fault) => result matches Err(e) && e@ == fault,
            },
    {
        match self.capacity.checked_mul(self.slot_size) {
            Some(bytes) => {
                if bytes <= usize::MAX as u64 {
                    Ok(bytes as usize)
                } else {
                    Err(SliceError::PayloadTooLarge)
                }
            },
            None => Err(SliceError::PayloadOverflow),
        }
    }

    /// Return the checked total file length.
    pub fn file_len(&self) -> (result: Result<u64, SliceError>)
        ensures
            match self.total() {
                Ok(len) => result matches Ok(n) && n == len,
                Err(fault) => result matches Err(e) && e@ == fault,
            },
    {
        match self.capacity.checked_mul(self.slot_size) {
            Some(payload) => match payload.checked_add(HEADER_SIZE as u64) {
                Some(len) => Ok(len),
                None => Err(SliceError::FileOverflow),
            },
            None => Err(SliceError::FileOverflow),
        }
    }
}

/// The header that some bytes hold, or what is wrong with them.
pub open spec fn header_in(bytes: Seq<u8>) -> Result<
    SliceHeaderInfo,
    crate::slice_error::SliceFault,
> {
    if bytes.len() < HEADER_SIZE {
        Err(crate::slice_error::SliceFault::TooSmall(bytes.len() as usize))
    } else if bytes.subrange(0, 8) != magic() {
        Err(crate::slice_error::SliceFault::InvalidMagic)
    } else if word_at(bytes, 8) != VERSION {
        Err(crate::slice_error::SliceFault::UnsupportedVersion(word_at(bytes, 8)))
    } else {
        match ValueType::numbered(word_at(bytes, 16)) {
            Err(fault) => Err(fault),
            Ok(value_type) => {
                let header = SliceHeaderInfo {
                    version: word_at(bytes, 8),
                    header_len: word_at(bytes, 12),
                    value_type,
                    flags: word_at(bytes, 20),
                    capacity: number_at(bytes, 24),
                    active_len: number_at(bytes, 32),
                    slot_size: number_at(bytes, 40),
                    layout_hash: number_at(bytes, 48),
                    schema_hash: number_at(bytes, 56),
                    writer_epoch: number_at(bytes, 64),
                    heartbeat_ns: number_at(bytes, 72),
                    created_ns: number_at(bytes, 80),
                    updated_ns: number_at(bytes, 88),
                };
                if header.header_len != HEADER_SIZE {
                    Err(crate::slice_error::SliceFault::HeaderLength(header.header_len))
                } else if header.active_len > header.capacity {
                    Err(
                        crate::slice_error::SliceFault::ActiveBeyondCapacity {
                            active_len: header.active_len,
                            capacity: header.capacity,
                        },
                    )
                } else {
                    Ok(header)
                }
            },
        }
    }
}

fn read_u32(bytes: &[u8], offset: usize) -> (n: u32)
    requires
        offset + 4 <= HEADER_SIZE <= bytes@.len(),
    ensures
        n == word_at(bytes@, offset as int),
{
    u32_from_le_bytes(slice_subrange(bytes, offset, offset + 4))
}

fn read_u64(bytes: &[u8], offset: usize) -> (n: u64)
    requires
        offset + 8 <= HEADER_SIZE <= bytes@.len(),
    ensures
        n == number_at(bytes@, offset as int),
{
    u64_from_le_bytes(slice_subrange(bytes, offset, offset + 8))
}

fn starts_with_magic(bytes: &[u8]) -> (starts: bool)
    requires
        bytes@.len() >= 8,
    ensures
        starts == (bytes@.subrange(0, 8) == magic()),
{
    let starts: bool = bytes[0] == 72 && bytes[1] == 67 && bytes[2] == 85 && bytes[3] == 66
        && bytes[4] == 83 && bytes[5] == 76 && bytes[6] == 67 && bytes[7] == 69;
    proof {
        let head = bytes@.subrange(0, 8);
        if starts {
            assert(head =~= magic());
        } else if head == magic() {
            assert(head[0] == magic()[0] && head[1] == magic()[1] && head[2] == magic()[2]
                && head[3] == magic()[3]);
            assert(head[4] == magic()[4] && head[5] == magic()[5] && head[6] == magic()[6]
                && head[7] == magic()[7]);
        }
    }
    starts
}

/// Decode and validate a header.
pub fn read_header(bytes: &[u8]) -> (result: Result<SliceHeaderInfo, SliceError>)
    ensures
        match header_in(bytes@) {
            Ok(header) => result matches Ok(h) && h == header,
            Err(fault) => result matches Err(e) && e@ == fault,
        },
{
    if bytes.len() < HEADER_SIZE {
        return Err(SliceError::TooSmall(bytes.len()));
    }
    if !starts_with_magic(bytes) {
        return Err(SliceError::InvalidMagic);
    }
    let version: u32 = read_u32(bytes, 8);
    if version != VERSION {
        return Err(SliceError::UnsupportedVersion(version));
    }
    let value_type: ValueType = match ValueType::from_u32(read_u32(bytes, 16)) {
        Ok(value_type) => value_type,
        Err(fault) => {
            return Err(fault);
        },
    };
    let header = SliceHeaderInfo {
        version,
        header_len: read_u32(bytes, 12),
        value_type,
        flags: read_u32(bytes, 20),
        capacity: read_u64(bytes, 24),
        active_len: read_u64(bytes, 32),
        slot_size: read_u64(bytes, 40),
        layout_hash: read_u64(bytes, 48),
        schema_hash: read_u64(bytes, 56),
        writer_epoch: read_u64(bytes, 64),
        heartbeat_ns: read_u64(bytes, 72),
        created_ns: read_u64(bytes, 80),
        updated_ns: read_u64(bytes, 88),
    };
    if header.header_len != HEADER_SIZE as u32 {
        return Err(SliceError::HeaderLength(header.header_len));
    }
    if header.active_len > header.capacity {
        return Err(
            SliceError::ActiveBeyondCapacity {
                active_len: header.active_len,
                capacity: header.capacity,
            },
        );
    }
    Ok(header)
}

fn push_word(out: &mut Vec<u8>, n: u32)
    ensures
        final(out)@ == old(out)@ + word_bytes(n),
        final(out)@.len() == old(out)@.len() + 4,
{
    let bytes = u32_to_le_bytes(n);
    out.extend_from_slice(bytes.as_slice());
}

fn push_number(out: &mut Vec<u8>, n: u64)
    ensures
        final(out)@ == old(out)@ + crate::hash::number_bytes(n),
        final(out)@.len() == old(out)@.len() + 8,
{
    let bytes = u64_to_le_bytes(n);
    out.extend_from_slice(bytes.as_slice());
}

/// Encode a header.
pub fn encode_header(header: &SliceHeaderInfo) -> (bytes: Vec<u8>)
    ensures
        bytes@ == header.image(),
        bytes@.len() == HEADER_SIZE,
{
    let mut bytes: Vec<u8> = Vec::new();
    bytes.push(72);
    bytes.push(67);
    bytes.push(85);
    bytes.push(66);
    bytes.push(83);
    bytes.push(76);
    bytes.push(67);
    bytes.push(69);
    assert(bytes@ =~= magic());
    push_word(&mut bytes, header.version);
    push_word(&mut bytes, header.header_len);
    push_word(&mut bytes, header.value_type.to_u32());
    push_word(&mut bytes, header.flags);
    push_number(&mut bytes, header.capacity);
    push_number(&mut bytes, header.active_len);
    push_number(&mut bytes, header.slot_size);
    push_number(&mut bytes, header.layout_hash);
    push_number(&mut bytes, header.schema_hash);
    push_number(&mut bytes, header.writer_epoch);
    push_number(&mut bytes, header.heartbeat_ns);
    push_number(&mut bytes, header.created_ns);
    push_number(&mut bytes, header.updated_ns);
    let ghost encoded = bytes@;
    assert(encoded == header.encoded());
    assert(encoded.len() == 96);
    let mut i: usize = 0;
    while i < 160
        invariant
            0 <= i <= 160,
            encoded.len() == 96,
            bytes@ =~= encoded + Seq::new(i as nat, |k: int| 0u8),
        decreases 160 - i,
    {
        bytes.push(0);
        i = i + 1;
    }
    bytes
}

/// Write a header over the start of a buffer.
pub fn write_header(bytes: &mut Vec<u8>, header: &SliceHeaderInfo) -> (result: Result<
    (),
    SliceError,
>)
    ensures
        if old(bytes)@.len() < HEADER_SIZE {
            &&& result matches Err(e) && e is TargetTooSmall
            &&& final(bytes)@ == old(bytes)@
        } else {
            &&& result is Ok
            &&& final(bytes)@ == header.image() + old(bytes)@.skip(HEADER_SIZE as int)
        },
{
    if bytes.len() < HEADER_SIZE {
        return Err(SliceError::TargetTooSmall);
    }
    let encoded = encode_header(header);
    let ghost was = bytes@;
    let mut i: usize = 0;
    while i < HEADER_SIZE
        invariant
            0 <= i <= HEADER_SIZE,
            encoded@.len() == HEADER_SIZE,
            bytes@.len() == was.len(),
            was.len() >= HEADER_SIZE,
            forall|k: int| 0 <= k < i ==> (#[trigger] bytes@[k]) == encoded@[k],
            forall|k: int| i <= k < was.len() ==> (#[trigger] bytes@[k]) == was[k],
        decreases HEADER_SIZE - i,
    {
        bytes[i] = encoded[i];
        i = i + 1;
    }
    assert(bytes@ =~= header.image() + was.skip(HEADER_SIZE as int));
    Ok(())
}

proof fn lemma_part(whole: Seq<u8>, before: Seq<u8>, part: Seq<u8>, after: Seq<u8>)
    requires
        whole == (before + part) + after,
    ensures
        whole == before + (part + after),
        whole.subrange(before.len() as int, (before.len() + part.len()) as int) == part,
{
    assert(whole =~= before + (part + after));
    assert(whole.subrange(before.len() as int, (before.len() + part.len()) as int) =~= part);
}

/// A header fills its part of a file.
pub proof fn lemma_image_len(header: SliceHeaderInfo)
    ensures
        header.image().len() == HEADER_SIZE,
{
    vstd::bytes::lemma_auto_spec_u32_to_from_le_bytes();
    vstd::bytes::lemma_auto_spec_u64_to_from_le_bytes();
}

/// What is written as a header is read back as the same header, whatever
/// follows it, if and only if it is readable.
pub proof fn lemma_header_round_trip(header: SliceHeaderInfo, rest: Seq<u8>)
    ensures
        header.readable() == (header_in(header.image() + rest) is Ok),
        header.readable() ==> header_in(header.image() + rest) == Ok::<
            SliceHeaderInfo,
            crate::slice_error::SliceFault,
        >(header),
{
    vstd::bytes::lemma_auto_spec_u32_to_from_le_bytes();
    vstd::bytes::lemma_auto_spec_u64_to_from_le_bytes();
    let whole = header.image() + rest;
    let zeros = Seq::new(160, |i: int| 0u8);
    let p0 = magic();
    let w1 = word_bytes(header.version);
    let p1 = p0 + w1;
    let w2 = word_bytes(header.header_len);
    let p2 = p1 + w2;
    let w3 = word_bytes(header.value_type.number());
    let p3 = p2 + w3;
    let w4 = word_bytes(header.flags);
    let p4 = p3 + w4;
    let n5 = crate::hash::number_bytes(header.capacity);
    let p5 = p4 + n5;
    let n6 = crate::hash::number_bytes(header.active_len);
    let p6 = p5 + n6;
    let n7 = crate::hash::number_bytes(header.slot_size);
    let p7 = p6 + n7;
    let n8 = crate::hash::number_bytes(header.layout_hash);
    let p8 = p7 + n8;
    let n9 = crate::hash::number_bytes(header.schema_hash);
    let p9 = p8 + n9;
    let n10 = crate::hash::number_bytes(header.writer_epoch);
    let p10 = p9 + n10;
    let n11 = crate::hash::number_bytes(header.heartbeat_ns);
    let p11 = p10 + n11;
    let n12 = crate::hash::number_bytes(header.created_ns);
    let p12 = p11 + n12;
    let n13 = crate::hash::number_bytes(header.updated_ns);
    let t = zeros + rest;
    assert(whole == (p12 + n13) + t) by {
        assert(header.encoded() == p12 + n13);
        assert(whole =~= (p12 + n13) + t);
    }
    lemma_part(whole, p12, n13, t);
    let t = n13 + t;
    lemma_part(whole, p11, n12, t);
    let t = n12 + t;
    lemma_part(whole, p10, n11, t);
    let t = n11 + t;
    lemma_part(whole, p9, n10, t);
    let t = n10 + t;
    lemma_part(whole, p8, n9, t);
    let t = n9 + t;
    lemma_part(whole, p7, n8, t);
    let t = n8 + t;
    lemma_part(whole, p6, n7, t);
    let t = n7 + t;
    lemma_part(whole, p5, n6, t);
    let t = n6 + t;
    lemma_part(whole, p4, n5, t);
    let t = n5 + t;
    lemma_part(whole, p3, w4, t);
    let t = w4 + t;
    lemma_part(whole, p2, w3, t);
    let t = w3 + t;
    lemma_part(whole, p1, w2, t);
    let t = w2 + t;
    lemma_part(whole, p0, w1, t);
    assert(whole.subrange(0, 8) =~= magic());
    assert(p0.len() == 8 && p1.len() == 12 && p2.len() == 16 && p3.len() == 20 && p4.len() == 24);
    assert(p5.len() == 32 && p6.len() == 40 && p7.len() == 48 && p8.len() == 56 && p9.len() == 64);
    assert(p10.len() == 72 && p11.len() == 80 && p12.len() == 88);
    assert(whole.len() == 256 + rest.len());
    assert(word_at(whole, 8) == header.version);
    assert(word_at(whole, 12) == header.header_len);
    assert(word_at(whole, 16) == header.value_type.number());
    assert(word_at(whole, 20) == header.flags);
    assert(number_at(whole, 24) == header.capacity);
    assert(number_at(whole, 32) == header.active_len);
    assert(number_at(whole, 40) == header.slot_size);
    assert(number_at(whole, 48) == header.layout_hash);
    assert(number_at(whole, 56) == header.schema_hash);
    assert(number_at(whole, 64) == header.writer_epoch);
    assert(number_at(whole, 72) == header.heartbeat_ns);
    assert(number_at(whole, 80) == header.created_ns);
    assert(number_at(whole, 88) == header.updated_ns);
}

/// What is wrong with a header for a payload schema.
pub open spec fn schema_fault(header: SliceHeaderInfo, expected: ValueType) -> Option<
    crate::slice_error::SliceFault,
> {
    if header.value_type != expected {
        Some(
            crate::slice_error::SliceFault::WrongValueType { expected, actual: header.value_type },
        )
    } else if header.slot_size != expected.width() {
        Some(
            crate::slice_error::SliceFault::WrongSlotSize {
                value_type: expected,
                actual: header.slot_size,
            },
        )
    } else if header.schema_hash != expected.schema() {
        Some(
            crate::slice_error::SliceFault::SchemaHashMismatch {
                slice: header.schema_hash,
                expected: expected.schema(),
            },
        )
    } else {
        None
    }
}

/// Check that a header is of a payload schema.
pub fn validate_struct_header(header: &SliceHeaderInfo, expected: ValueType) -> (result: Result<
    (),
    SliceError,
>)
    ensures
        crate::slice_error::reports(result, schema_fault(*header, expected)),
{
    if header.value_type != expected {
        return Err(SliceError::WrongValueType { expected, actual: header.value_type });
    }
    if header.slot_size != expected.slot_size() {
        return Err(SliceError::WrongSlotSize { value_type: expected, actual: header.slot_size });
    }
    let hash: u64 = expected.schema_hash();
    if header.schema_hash != hash {
        return Err(SliceError::SchemaHashMismatch { slice: header.schema_hash, expected: hash });
    }
    Ok(())
}

/// Check that a header is of a vector of numbers.
pub fn validate_f64_header(header: &SliceHeaderInfo) -> (result: Result<(), SliceError>)
    ensures
        crate::slice_error::reports(result, schema_fault(*header, ValueType::F64)),
{
    validate_struct_header(header, ValueType::F64)
}

/// What is wrong with the length of a file for its header.
pub open spec fn length_fault(actual: usize, header: SliceHeaderInfo) -> Option<
    crate::slice_error::SliceFault,
> {
    match header.total() {
        Err(fault) => Some(fault),
        Ok(expected) => if actual != expected {
            Some(crate::slice_error::SliceFault::FileLength { actual, expected })
        } else {
            None
        },
    }
}

/// Check the length of a file against its header.
pub fn validate_file_len(actual: usize, header: &SliceHeaderInfo) -> (result: Result<
    (),
    SliceError,
>)
    ensures
        crate::slice_error::reports(result, length_fault(actual, *header)),
{
    match header.file_len() {
        Ok(expected) => {
            if actual as u64 != expected {
                Err(SliceError::FileLength { actual, expected })
            } else {
                Ok(())
            }
        },
        Err(fault) => Err(fault),
    }
}

/// What is wrong with a slot of a slice.
pub open spec fn slot_fault(slot_id: usize, capacity: u64) -> Option<
    crate::slice_error::SliceFault,
> {
    if slot_id >= capacity {
        Some(crate::slice_error::SliceFault::SlotBeyondCapacity { slot_id, capacity })
    } else {
        None
    }
}

/// Check that a slice has a slot.
pub fn check_slot(slot_id: usize, header: &SliceHeaderInfo) -> (result: Result<(), SliceError>)
    ensures
        crate::slice_error::reports(result, slot_fault(slot_id, header.capacity)),
{
    if slot_id as u64 >= header.capacity {
        Err(SliceError::SlotBeyondCapacity { slot_id, capacity: header.capacity })
    } else {
        Ok(())
    }
}

/// Return where a slot starts in a file whose length its header fits.
pub fn slot_offset(slot_id: usize, header: &SliceHeaderInfo, file_len: usize) -> (offset: usize)
    requires
        length_fault(file_len, *header) is None,
        slot_fault(slot_id, header.capacity) is None,
    ensures
        offset == HEADER_SIZE + slot_id * header.slot_size,
        offset + header.slot_size <= file_len,
{
    proof {
        assert((slot_id + 1) * header.slot_size <= header.capacity * header.slot_size)
            by (nonlinear_arith)
            requires
                slot_id + 1 <= header.capacity,
        ;
        assert((slot_id + 1) * header.slot_size == slot_id * header.slot_size + header.slot_size)
            by (nonlinear_arith);
        assert(slot_id * header.slot_size >= 0) by (nonlinear_arith);
        if slot_id > 0 {
            assert(header.slot_size <= slot_id * header.slot_size) by (nonlinear_arith)
                requires
                    slot_id >= 1,
            ;
        }
    }
    if slot_id == 0 {
        assert(0 * header.slot_size == 0);
        return HEADER_SIZE;
    }
    HEADER_SIZE + slot_id * (header.slot_size as usize)
}

/// What is wrong with two vectors for one operation.
pub open spec fn vectors_fault(lhs: SliceHeaderInfo, rhs: SliceHeaderInfo) -> Option<
    crate::slice_error::SliceFault,
> {
    if lhs.value_type != rhs.value_type {
        Some(
            crate::slice_error::SliceFault::VectorValueTypes {
                lhs: lhs.value_type,
                rhs: rhs.value_type,
            },
        )
    } else if lhs.layout_hash != rhs.layout_hash {
        Some(
            crate::slice_error::SliceFault::VectorLayouts {
                lhs: lhs.layout_hash,
                rhs: rhs.layout_hash,
            },
        )
    } else if lhs.schema_hash != rhs.schema_hash {
        Some(
            crate::slice_error::SliceFault::VectorSchemas {
                lhs: lhs.schema_hash,
                rhs: rhs.schema_hash,
            },
        )
    } else if lhs.active_len != rhs.active_len {
        Some(
            crate::slice_error::SliceFault::VectorLengths {
                lhs: lhs.active_len,
                rhs: rhs.active_len,
            },
        )
    } else {
        None
    }
}

/// Check that two vectors can be combined slot by slot.
pub fn ensure_compatible_vectors(lhs: &SliceHeaderInfo, rhs: &SliceHeaderInfo) -> (result: Result<
    (),
    SliceError,
>)
    ensures
        crate::slice_error::reports(result, vectors_fault(*lhs, *rhs)),
{
    if lhs.value_type != rhs.value_type {
        return Err(SliceError::VectorValueTypes { lhs: lhs.value_type, rhs: rhs.value_type });
    }
    if lhs.layout_hash != rhs.layout_hash {
        return Err(SliceError::VectorLayouts { lhs: lhs.layout_hash, rhs: rhs.layout_hash });
    }
    if lhs.schema_hash != rhs.schema_hash {
        return Err(SliceError::VectorSchemas { lhs: lhs.schema_hash, rhs: rhs.schema_hash });
    }
    if lhs.active_len != rhs.active_len {
        return Err(SliceError::VectorLengths { lhs: lhs.active_len, rhs: rhs.active_len });
    }
    Ok(())
}

/// A header stands in a file at fixed places: the magic bytes, the version and
/// the length of the header, the payload type, the flags, and then one number
/// of eight bytes after the other; the rest of its bytes are zero.
pub proof fn lemma_header_places(header: &SliceHeaderInfo, bytes: Vec<u8>)
    requires
        call_ensures(encode_header, (header,), bytes),
    ensures
        bytes@.len() == 256,
        bytes@[0] == 72 && bytes@[1] == 67 && bytes@[2] == 85 && bytes@[3] == 66,
        bytes@[4] == 83 && bytes@[5] == 76 && bytes@[6] == 67 && bytes@[7] == 69,
        bytes@.subrange(8, 12) == vstd::bytes::spec_u32_to_le_bytes(header.version),
        bytes@.subrange(12, 16) == vstd::bytes::spec_u32_to_le_bytes(header.header_len),
        bytes@.subrange(16, 20) == vstd::bytes::spec_u32_to_le_bytes(
            header.value_type.number(),
        ),
        bytes@.subrange(20, 24) == vstd::bytes::spec_u32_to_le_bytes(header.flags),
        bytes@.subrange(24, 32) == vstd::bytes::spec_u64_to_le_bytes(header.capacity),
        bytes@.subrange(32, 40) == vstd::bytes::spec_u64_to_le_bytes(header.active_len),
        bytes@.subrange(40, 48) == vstd::bytes::spec_u64_to_le_bytes(header.slot_size),
        bytes@.subrange(48, 56) == vstd::bytes::spec_u64_to_le_bytes(header.layout_hash),
        bytes@.subrange(56, 64) == vstd::bytes::spec_u64_to_le_bytes(header.schema_hash),
        bytes@.subrange(64, 72) == vstd::bytes::spec_u64_to_le_bytes(header.writer_epoch),
        bytes@.subrange(72, 80) == vstd::bytes::spec_u64_to_le_bytes(header.heartbeat_ns),
        bytes@.subrange(80, 88) == vstd::bytes::spec_u64_to_le_bytes(header.created_ns),
        bytes@.subrange(88, 96) == vstd::bytes::spec_u64_to_le_bytes(header.updated_ns),
        forall|i: int| 96 <= i < 256 ==> #[trigger] bytes@[i] == 0,
{
    let h = *header;
    let b = bytes@;
    vstd::bytes::lemma_auto_spec_u32_to_from_le_bytes();
    vstd::bytes::lemma_auto_spec_u64_to_from_le_bytes();
    let w0 = word_bytes(h.version);
    let w1 = word_bytes(h.header_len);
    let w2 = word_bytes(h.value_type.number());
    let w3 = word_bytes(h.flags);
    let n0 = crate::hash::number_bytes(h.capacity);
    let n1 = crate::hash::number_bytes(h.active_len);
    let n2 = crate::hash::number_bytes(h.slot_size);
    let n3 = crate::hash::number_bytes(h.layout_hash);
    let n4 = crate::hash::number_bytes(h.schema_hash);
    let n5 = crate::hash::number_bytes(h.writer_epoch);
    let n6 = crate::hash::number_bytes(h.heartbeat_ns);
    let n7 = crate::hash::number_bytes(h.created_ns);
    let n8 = crate::hash::number_bytes(h.updated_ns);
    assert(w0.len() == 4 && w1.len() == 4 && w2.len() == 4 && w3.len() == 4);
    assert(n0.len() == 8 && n1.len() == 8 && n2.len() == 8 && n3.len() == 8 && n4.len() == 8);
    assert(n5.len() == 8 && n6.len() == 8 && n7.len() == 8 && n8.len() == 8);
    assert(b.subrange(8, 12) =~= w0);
    assert(b.subrange(12, 16) =~= w1);
    assert(b.subrange(16, 20) =~= w2);
    assert(b.subrange(20, 24) =~= w3);
    assert(b.subrange(24, 32) =~= n0);
    assert(b.subrange(32, 40) =~= n1);
    assert(b.subrange(40, 48) =~= n2);
    assert(b.subrange(48, 56) =~= n3);
    assert(b.subrange(56, 64) =~= n4);
    assert(b.subrange(64, 72) =~= n5);
    assert(b.subrange(72, 80) =~= n6);
    assert(b.subrange(80, 88) =~= n7);
    assert(b.subrange(88, 96) =~= n8);
}

/// Payload types are told apart by their numbers, which are taken back as what
/// they stand for; no other number is.
pub proof fn lemma_payload_types_are_numbered(
    value_type: ValueType,
    number: u32,
    value: u32,
    result: Result<ValueType, SliceError>,
    size: u64,
)
    requires
        call_ensures(ValueType::to_u32, (value_type,), number),
        call_ensures(ValueType::from_u32, (value,), result),
        call_ensures(ValueType::slot_size, (value_type,), size),
    ensures
        number == match value_type {
            ValueType::F64 => 1u32,
            ValueType::QuoteV1 => 100,
            ValueType::TradeV1 => 101,
            ValueType::TaqV1 => 102,
        },
        value == number ==> result is Ok && result->Ok_0 == value_type,
        result is Ok <==> value == 1 || value == 100 || value == 101 || value == 102,
        result is Err ==> result->Err_0@ == crate::slice_error::SliceFault::UnsupportedValueType(
            value,
        ),
        size == match value_type {
            ValueType::F64 => 8int,
            ValueType::QuoteV1 => 8 * (1 + 9int),
            ValueType::TradeV1 => 8 * (1 + 7int),
            ValueType::TaqV1 => 8 * (1 + 16int),
        },
{
}

/// The payload holds every slot, and the file the header before it: their
/// lengths are products that fit, or an error says that they do not.
pub proof fn lemma_lengths_hold_every_slot(
    header: &SliceHeaderInfo,
    payload: Result<usize, SliceError>,
    file: Result<u64, SliceError>,
    actual: usize,
    length: Result<(), SliceError>,
)
    requires
        call_ensures(SliceHeaderInfo::payload_len, (header,), payload),
        call_ensures(SliceHeaderInfo::file_len, (header,), file),
        call_ensures(validate_file_len, (actual, header), length),
    ensures
        payload is Ok <==> header.capacity * header.slot_size <= u64::MAX && header.capacity
            * header.slot_size <= usize::MAX,
        payload is Ok ==> payload->Ok_0 == header.capacity * header.slot_size,
        file is Ok <==> 256 + header.capacity * header.slot_size <= u64::MAX,
        file is Ok ==> file->Ok_0 == 256 + header.capacity * header.slot_size,
        length is Ok <==> file is Ok && actual == file->Ok_0,
{
}

/// A slot can be reached exactly where it is below the capacity. Its bytes
/// follow those of the slots before it, after the header, and two slots share
/// none.
pub proof fn lemma_slots_lie_apart(
    header: &SliceHeaderInfo,
    file_len: usize,
    a: usize,
    b: usize,
    reach: Result<(), SliceError>,
    x: usize,
    y: usize,
)
    requires
        call_ensures(check_slot, (a, header), reach),
        call_ensures(slot_offset, (a, header, file_len), x),
        call_ensures(slot_offset, (b, header, file_len), y),
        a < header.capacity,
        a < b,
        b < header.capacity,
        length_fault(file_len, *header) is None,
    ensures
        reach is Ok,
        x >= 256,
        x + header.slot_size <= y,
        y + header.slot_size <= file_len,
{
    let s = header.slot_size as int;
    assert(a * s + s <= b * s) by (nonlinear_arith)
        requires
            a < b,
            s >= 0,
    ;
}

/// A header is of a payload type exactly where its type, the size of its slots
/// and the hash of its schema are those of the type.
pub proof fn lemma_schemas_are_checked(
    header: &SliceHeaderInfo,
    expected: ValueType,
    hash: u64,
    size: u64,
    result: Result<(), SliceError>,
    numbers: Result<(), SliceError>,
)
    requires
        call_ensures(ValueType::schema_hash, (expected,), hash),
        call_ensures(ValueType::slot_size, (expected,), size),
        call_ensures(validate_struct_header, (header, expected), result),
        call_ensures(validate_f64_header, (header,), numbers),
    ensures
        result is Ok <==> header.value_type == expected && header.slot_size == size
            && header.schema_hash == hash,
        expected is F64 ==> (numbers is Ok <==> result is Ok),
        numbers is Ok ==> header.value_type is F64 && header.slot_size == 8,
{
}

/// Two vectors can be combined exactly where their types, layouts, schemas and
/// lengths agree.
pub proof fn lemma_vectors_agree(
    lhs: &SliceHeaderInfo,
    rhs: &SliceHeaderInfo,
    result: Result<(), SliceError>,
)
    requires
        call_ensures(ensure_compatible_vectors, (lhs, rhs), result),
    ensures
        result is Ok <==> {
            &&& lhs.value_type == rhs.value_type
            &&& lhs.layout_hash == rhs.layout_hash
            &&& lhs.schema_hash == rhs.schema_hash
            &&& lhs.active_len == rhs.active_len
        },
{
}

} // verus!
