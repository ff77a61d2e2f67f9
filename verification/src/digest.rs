//! Stable digests of snapshots.

use crate::cube::{CellValue, NodeStatus, Snapshot};
use crate::hash::{push_number, push_signed, push_text};
use crate::text::{push_decimal, push_hex, same_text};
use vstd::prelude::*;
use vstd::string::*;
use xxhash_rust::xxh64::xxh64;

verus! {

/// Versioned algorithm name used by [`snapshot_digest`].
pub const SNAPSHOT_DIGEST_ALGORITHM: &'static str = "xxh64-hypercube-semantic-v1";

/// Stable digest of the semantic fields in one Hypercube snapshot.
///
/// Operational fields such as execution mode and per-node compute duration are
/// deliberately excluded. This lets a live snapshot and its replay compare
/// equally while retaining strict, bitwise comparison of calculated values.
#[derive(Debug, PartialEq, Eq)]
pub struct SnapshotDigest {
    /// Name and version of the canonical hashing algorithm.
    pub algorithm: String,
    /// Unsigned xxHash64 value over the canonical snapshot representation.
    pub hash: u64,
    /// Number of calculated cell values represented by the digest.
    pub values: usize,
    /// Sum of per-node missing-value counts.
    pub missing: usize,
}

/// What a [`SnapshotDigest`] holds.
#[verifier::ext_equal]
pub struct DigestView {
    /// Algorithm.
    pub algorithm: Seq<char>,
    /// Hash.
    pub hash: u64,
    /// Number of values.
    pub values: usize,
    /// Number of missing values.
    pub missing: usize,
}

impl View for SnapshotDigest {
    type V = DigestView;

    open spec fn view(&self) -> DigestView {
        DigestView {
            algorithm: self.algorithm@,
            hash: self.hash,
            values: self.values,
            missing: self.missing,
        }
    }
}

impl DigestView {
    /// The digest for a reader.
    pub open spec fn shown(self) -> Seq<char> {
        self.algorithm + ":"@ + crate::text::hex(self.hash as nat, 16) + " values="@
            + crate::text::decimal(self.values as nat) + " missing="@ + crate::text::decimal(
            self.missing as nat,
        )
    }
}

impl SnapshotDigest {
    /// Return the digest for a reader.
    pub fn shown(&self) -> (text: String)
        ensures
            text@ == self@.shown(),
    {
        let mut text: String = self.algorithm.clone();
        text.append(":");
        push_hex(&mut text, self.hash, 16);
        text.append(" values=");
        push_decimal(&mut text, self.values as u64);
        text.append(" missing=");
        push_decimal(&mut text, self.missing as u64);
        text
    }

    /// Return whether two digests are the same.
    pub fn matches(&self, other: &SnapshotDigest) -> (same: bool)
        ensures
            same == (self@ == other@),
    {
        same_text(self.algorithm.as_str(), other.algorithm.as_str()) && self.hash == other.hash
            && self.values == other.values && self.missing == other.missing
    }
}

impl Clone for SnapshotDigest {
    fn clone(&self) -> (copy: Self)
        ensures
            copy@ == self@,
    {
        SnapshotDigest {
            algorithm: self.algorithm.clone(),
            hash: self.hash,
            values: self.values,
            missing: self.missing,
        }
    }
}

/// The bytes of one cell.
pub open spec fn cell_bytes(cell: crate::cube::CellView) -> Seq<u8> {
    crate::hash::text_bytes(cell.node) + crate::hash::text_bytes(cell.key)
        + crate::hash::number_bytes(cell.value.bits) + crate::hash::signed_bytes(
        cell.observed_at_ms,
    )
}

/// The bytes of the first `n` cells.
pub open spec fn cells_bytes(cells: Seq<crate::cube::CellView>, n: int) -> Seq<u8>
    decreases n,
{
    if n <= 0 {
        Seq::empty()
    } else {
        cells_bytes(cells, n - 1) + cell_bytes(cells[n - 1])
    }
}

/// The bytes of one status row, without its duration.
pub open spec fn status_bytes(status: crate::cube::StatusView) -> Seq<u8> {
    crate::hash::text_bytes(status.node) + crate::hash::number_bytes(status.values as u64)
        + crate::hash::number_bytes(status.missing as u64)
}

/// The bytes of the first `n` status rows.
pub open spec fn statuses_bytes(statuses: Seq<crate::cube::StatusView>, n: int) -> Seq<u8>
    decreases n,
{
    if n <= 0 {
        Seq::empty()
    } else {
        statuses_bytes(statuses, n - 1) + status_bytes(statuses[n - 1])
    }
}

/// The canonical representation of a snapshot.
pub open spec fn canonical(snapshot: crate::cube::SnapshotView) -> Seq<u8> {
    crate::hash::text_bytes(SNAPSHOT_DIGEST_ALGORITHM@) + crate::hash::number_bytes(
        snapshot.generation,
    ) + crate::hash::signed_bytes(snapshot.observed_at_ms) + crate::hash::number_bytes(
        snapshot.entity_count as u64,
    ) + crate::hash::number_bytes(snapshot.values.len() as u64) + cells_bytes(
        snapshot.values,
        snapshot.values.len() as int,
    ) + crate::hash::number_bytes(snapshot.statuses.len() as u64) + statuses_bytes(
        snapshot.statuses,
        snapshot.statuses.len() as int,
    )
}

/// The sum of the missing values of the first `n` status rows, at most the
/// largest machine integer.
pub open spec fn missing_total(statuses: Seq<crate::cube::StatusView>, n: int) -> usize
    decreases n,
{
    if n <= 0 {
        0
    } else if missing_total(statuses, n - 1) + statuses[n - 1].missing <= usize::MAX {
        (missing_total(statuses, n - 1) + statuses[n - 1].missing) as usize
    } else {
        usize::MAX
    }
}

/// The digest of a snapshot.
pub open spec fn digest_of(snapshot: crate::cube::SnapshotView) -> DigestView {
    DigestView {
        algorithm: SNAPSHOT_DIGEST_ALGORITHM@,
        hash: crate::hash::xxh64_of(canonical(snapshot), 0),
        values: snapshot.values.len() as usize,
        missing: missing_total(snapshot.statuses, snapshot.statuses.len() as int),
    }
}

fn push_cells(out: &mut Vec<u8>, cells: &Vec<CellValue>)
    ensures
        final(out)@ == old(out)@ + cells_bytes(crate::text::views(cells@), cells@.len() as int),
{
    let ghost all = crate::text::views(cells@);
    let mut i: usize = 0;
    assert(out@ =~= old(out)@ + cells_bytes(all, 0));
    while i < cells.len()
        invariant
            0 <= i <= cells@.len(),
            all == crate::text::views(cells@),
            out@ == old(out)@ + cells_bytes(all, i as int),
        decreases cells@.len() - i,
    {
        let cell = &cells[i];
        let ghost before = out@;
        assert(all[i as int] == cell@);
        push_text(out, cell.node.as_str());
        push_text(out, cell.key.as_str());
        push_number(out, cell.value.to_bits());
        push_signed(out, cell.observed_at_ms);
        assert(out@ =~= before + cell_bytes(cell@));
        assert(out@ =~= old(out)@ + cells_bytes(all, i + 1));
        i = i + 1;
    }
}

fn push_statuses(out: &mut Vec<u8>, statuses: &Vec<NodeStatus>)
    ensures
        final(out)@ == old(out)@ + statuses_bytes(
            crate::text::views(statuses@),
            statuses@.len() as int,
        ),
{
    let ghost all = crate::text::views(statuses@);
    let mut i: usize = 0;
    assert(out@ =~= old(out)@ + statuses_bytes(all, 0));
    while i < statuses.len()
        invariant
            0 <= i <= statuses@.len(),
            all == crate::text::views(statuses@),
            out@ == old(out)@ + statuses_bytes(all, i as int),
        decreases statuses@.len() - i,
    {
        let status = &statuses[i];
        let ghost before = out@;
        assert(all[i as int] == status@);
        push_text(out, status.node.as_str());
        push_number(out, status.values as u64);
        push_number(out, status.missing as u64);
        assert(out@ =~= before + status_bytes(status@));
        assert(out@ =~= old(out)@ + statuses_bytes(all, i + 1));
        i = i + 1;
    }
}

/// Return the canonical representation of a snapshot.
pub fn canonical_bytes(snapshot: &Snapshot) -> (bytes: Vec<u8>)
    ensures
        bytes@ == canonical(snapshot@),
{
    let mut bytes: Vec<u8> = Vec::new();
    push_text(&mut bytes, SNAPSHOT_DIGEST_ALGORITHM);
    push_number(&mut bytes, snapshot.generation);
    push_signed(&mut bytes, snapshot.observed_at_ms);
    push_number(&mut bytes, snapshot.entity_count as u64);
    push_number(&mut bytes, snapshot.values.len() as u64);
    push_cells(&mut bytes, &snapshot.values);
    push_number(&mut bytes, snapshot.statuses.len() as u64);
    push_statuses(&mut bytes, &snapshot.statuses);
    assert(bytes@ =~= canonical(snapshot@));
    bytes
}

/// Calculate a stable semantic digest for `snapshot`.
///
/// The digest includes generation, observation time, entity count, ordered
/// cell coordinates and bitwise values, plus value/missing status counts. It
/// excludes [`crate::cube::ExecutionMode`] and `NodeStatus::compute_micros`.
pub fn snapshot_digest(snapshot: &Snapshot) -> (digest: SnapshotDigest)
    ensures
        digest@ == digest_of(snapshot@),
{
    let bytes = canonical_bytes(snapshot);
    let hash: u64 = xxh64(bytes.as_slice(), 0);
    digest_with_hash(snapshot, hash)
}

/// Put a hash together with the counts of a snapshot.
pub fn digest_with_hash(snapshot: &Snapshot, hash: u64) -> (digest: SnapshotDigest)
    ensures
        digest@ == (DigestView { hash, ..digest_of(snapshot@) }),
{
    let ghost all = snapshot@.statuses;
    let mut missing: usize = 0;
    let mut i: usize = 0;
    while i < snapshot.statuses.len()
        invariant
            0 <= i <= snapshot.statuses@.len(),
            all == crate::text::views(snapshot.statuses@),
            missing == missing_total(all, i as int),
        decreases snapshot.statuses@.len() - i,
    {
        assert(all[i as int] == snapshot.statuses@[i as int]@);
        missing = missing.saturating_add(snapshot.statuses[i].missing);
        i = i + 1;
    }
    SnapshotDigest {
        algorithm: SNAPSHOT_DIGEST_ALGORITHM.to_owned(),
        hash,
        values: snapshot.values.len(),
        missing,
    }
}

/// Whether two snapshots agree in everything but the mode and the durations.
pub open spec fn same_meaning(
    a: crate::cube::SnapshotView,
    b: crate::cube::SnapshotView,
) -> bool {
    &&& a.generation == b.generation
    &&& a.observed_at_ms == b.observed_at_ms
    &&& a.entity_count == b.entity_count
    &&& a.values == b.values
    &&& a.statuses.len() == b.statuses.len()
    &&& forall|i: int|
        0 <= i < a.statuses.len() ==> {
            &&& (#[trigger] a.statuses[i]).node == b.statuses[i].node
            &&& a.statuses[i].values == b.statuses[i].values
            &&& a.statuses[i].missing == b.statuses[i].missing
        }
}

proof fn lemma_statuses_bytes_agree(
    a: Seq<crate::cube::StatusView>,
    b: Seq<crate::cube::StatusView>,
    n: int,
)
    requires
        0 <= n <= a.len(),
        a.len() == b.len(),
        forall|i: int|
            0 <= i < a.len() ==> {
                &&& (#[trigger] a[i]).node == b[i].node
                &&& a[i].values == b[i].values
                &&& a[i].missing == b[i].missing
            },
    ensures
        statuses_bytes(a, n) == statuses_bytes(b, n),
        missing_total(a, n) == missing_total(b, n),
    decreases n,
{
    if n > 0 {
        lemma_statuses_bytes_agree(a, b, n - 1);
        assert(a[n - 1].node == b[n - 1].node);
    }
}

/// The digest does not depend on the mode of execution nor on how long the
/// nodes took.
pub proof fn lemma_digest_ignores_operation(
    a: crate::cube::SnapshotView,
    b: crate::cube::SnapshotView,
)
    requires
        same_meaning(a, b),
    ensures
        canonical(a) == canonical(b),
        digest_of(a) == digest_of(b),
{
    lemma_statuses_bytes_agree(a.statuses, b.statuses, a.statuses.len() as int);
}

/// Whether the texts of a snapshot are short enough for their lengths to be
/// written down, and its lists too: true of every snapshot in memory.
pub open spec fn measurable(snapshot: crate::cube::SnapshotView) -> bool {
    &&& snapshot.values.len() <= usize::MAX
    &&& snapshot.statuses.len() <= usize::MAX
    &&& forall|i: int|
        0 <= i < snapshot.values.len() ==> {
            &&& vstd::utf8::encode_utf8((#[trigger] snapshot.values[i]).node).len() <= u64::MAX
            &&& vstd::utf8::encode_utf8(snapshot.values[i].key).len() <= u64::MAX
        }
    &&& forall|i: int|
        0 <= i < snapshot.statuses.len() ==> vstd::utf8::encode_utf8(
            (#[trigger] snapshot.statuses[i]).node,
        ).len() <= u64::MAX
}

proof fn lemma_cell_bytes(
    a: crate::cube::CellView,
    b: crate::cube::CellView,
    x: Seq<u8>,
    y: Seq<u8>,
)
    requires
        cell_bytes(a) + x == cell_bytes(b) + y,
        vstd::utf8::encode_utf8(a.node).len() <= u64::MAX,
        vstd::utf8::encode_utf8(a.key).len() <= u64::MAX,
        vstd::utf8::encode_utf8(b.node).len() <= u64::MAX,
        vstd::utf8::encode_utf8(b.key).len() <= u64::MAX,
    ensures
        a == b,
        x == y,
{
    let a3 = crate::hash::signed_bytes(a.observed_at_ms) + x;
    let b3 = crate::hash::signed_bytes(b.observed_at_ms) + y;
    let a2 = crate::hash::number_bytes(a.value.bits) + a3;
    let b2 = crate::hash::number_bytes(b.value.bits) + b3;
    let a1 = crate::hash::text_bytes(a.key) + a2;
    let b1 = crate::hash::text_bytes(b.key) + b2;
    assert(cell_bytes(a) + x =~= crate::hash::text_bytes(a.node) + a1);
    assert(cell_bytes(b) + y =~= crate::hash::text_bytes(b.node) + b1);
    crate::hash::lemma_text_bytes(a.node, b.node, a1, b1);
    crate::hash::lemma_text_bytes(a.key, b.key, a2, b2);
    crate::hash::lemma_number_bytes(a.value.bits, b.value.bits, a3, b3);
    crate::hash::lemma_signed_bytes(a.observed_at_ms, b.observed_at_ms, x, y);
}

proof fn lemma_status_bytes(
    a: crate::cube::StatusView,
    b: crate::cube::StatusView,
    x: Seq<u8>,
    y: Seq<u8>,
)
    requires
        status_bytes(a) + x == status_bytes(b) + y,
        vstd::utf8::encode_utf8(a.node).len() <= u64::MAX,
        vstd::utf8::encode_utf8(b.node).len() <= u64::MAX,
    ensures
        a.node == b.node,
        a.values == b.values,
        a.missing == b.missing,
        x == y,
{
    let a2 = crate::hash::number_bytes(a.missing as u64) + x;
    let b2 = crate::hash::number_bytes(b.missing as u64) + y;
    let a1 = crate::hash::number_bytes(a.values as u64) + a2;
    let b1 = crate::hash::number_bytes(b.values as u64) + b2;
    assert(status_bytes(a) + x =~= crate::hash::text_bytes(a.node) + a1);
    assert(status_bytes(b) + y =~= crate::hash::text_bytes(b.node) + b1);
    crate::hash::lemma_text_bytes(a.node, b.node, a1, b1);
    crate::hash::lemma_number_bytes(a.values as u64, b.values as u64, a2, b2);
    crate::hash::lemma_number_bytes(a.missing as u64, b.missing as u64, x, y);
}

proof fn lemma_cells_bytes(
    a: crate::cube::SnapshotView,
    b: crate::cube::SnapshotView,
    n: int,
    x: Seq<u8>,
    y: Seq<u8>,
)
    requires
        measurable(a),
        measurable(b),
        0 <= n <= a.values.len(),
        n <= b.values.len(),
        cells_bytes(a.values, n) + x == cells_bytes(b.values, n) + y,
    ensures
        forall|i: int| 0 <= i < n ==> a.values[i] == b.values[i],
        x == y,
    decreases n,
{
    if n > 0 {
        let p = cell_bytes(a.values[n - 1]) + x;
        let q = cell_bytes(b.values[n - 1]) + y;
        assert(cells_bytes(a.values, n) + x =~= cells_bytes(a.values, n - 1) + p);
        assert(cells_bytes(b.values, n) + y =~= cells_bytes(b.values, n - 1) + q);
        lemma_cells_bytes(a, b, n - 1, p, q);
        lemma_cell_bytes(a.values[n - 1], b.values[n - 1], x, y);
    } else {
        assert(cells_bytes(a.values, n) + x =~= x);
        assert(cells_bytes(b.values, n) + y =~= y);
    }
}

proof fn lemma_statuses_bytes(
    a: crate::cube::SnapshotView,
    b: crate::cube::SnapshotView,
    n: int,
    x: Seq<u8>,
    y: Seq<u8>,
)
    requires
        measurable(a),
        measurable(b),
        0 <= n <= a.statuses.len(),
        n <= b.statuses.len(),
        statuses_bytes(a.statuses, n) + x == statuses_bytes(b.statuses, n) + y,
    ensures
        forall|i: int|
            0 <= i < n ==> {
                &&& (#[trigger] a.statuses[i]).node == b.statuses[i].node
                &&& a.statuses[i].values == b.statuses[i].values
                &&& a.statuses[i].missing == b.statuses[i].missing
            },
        x == y,
    decreases n,
{
    if n > 0 {
        let p = status_bytes(a.statuses[n - 1]) + x;
        let q = status_bytes(b.statuses[n - 1]) + y;
        assert(statuses_bytes(a.statuses, n) + x =~= statuses_bytes(a.statuses, n - 1) + p);
        assert(statuses_bytes(b.statuses, n) + y =~= statuses_bytes(b.statuses, n - 1) + q);
        lemma_statuses_bytes(a, b, n - 1, p, q);
        lemma_status_bytes(a.statuses[n - 1], b.statuses[n - 1], x, y);
    } else {
        assert(statuses_bytes(a.statuses, n) + x =~= x);
        assert(statuses_bytes(b.statuses, n) + y =~= y);
    }
}

proof fn lemma_shift_bracket(x: Seq<u8>, y: Seq<u8>, z: Seq<u8>)
    ensures
        (x + y) + z == x + (y + z),
{
    assert((x + y) + z =~= x + (y + z));
}

spec fn canonical_tail(snapshot: crate::cube::SnapshotView) -> Seq<u8> {
    crate::hash::number_bytes(snapshot.generation) + (crate::hash::signed_bytes(
        snapshot.observed_at_ms,
    ) + (crate::hash::number_bytes(snapshot.entity_count as u64) + (crate::hash::number_bytes(
        snapshot.values.len() as u64,
    ) + (cells_bytes(snapshot.values, snapshot.values.len() as int) + (crate::hash::number_bytes(
        snapshot.statuses.len() as u64,
    ) + statuses_bytes(snapshot.statuses, snapshot.statuses.len() as int))))))
}

proof fn lemma_canonical_tail(snapshot: crate::cube::SnapshotView)
    ensures
        canonical(snapshot) == crate::hash::text_bytes(SNAPSHOT_DIGEST_ALGORITHM@)
            + canonical_tail(snapshot),
{
    let p0 = crate::hash::text_bytes(SNAPSHOT_DIGEST_ALGORITHM@);
    let p1 = crate::hash::number_bytes(snapshot.generation);
    let p2 = crate::hash::signed_bytes(snapshot.observed_at_ms);
    let p3 = crate::hash::number_bytes(snapshot.entity_count as u64);
    let p4 = crate::hash::number_bytes(snapshot.values.len() as u64);
    let p5 = cells_bytes(snapshot.values, snapshot.values.len() as int);
    let p6 = crate::hash::number_bytes(snapshot.statuses.len() as u64);
    let p7 = statuses_bytes(snapshot.statuses, snapshot.statuses.len() as int);
    lemma_shift_bracket(p0 + p1 + p2 + p3 + p4 + p5, p6, p7);
    lemma_shift_bracket(p0 + p1 + p2 + p3 + p4, p5, p6 + p7);
    lemma_shift_bracket(p0 + p1 + p2 + p3, p4, p5 + (p6 + p7));
    lemma_shift_bracket(p0 + p1 + p2, p3, p4 + (p5 + (p6 + p7)));
    lemma_shift_bracket(p0 + p1, p2, p3 + (p4 + (p5 + (p6 + p7))));
    lemma_shift_bracket(p0, p1, p2 + (p3 + (p4 + (p5 + (p6 + p7)))));
}

/// The canonical representation leaves nothing out but the mode and the
/// durations: snapshots with the same bytes agree in everything else.
pub proof fn lemma_canonical_injective(
    a: crate::cube::SnapshotView,
    b: crate::cube::SnapshotView,
)
    requires
        measurable(a),
        measurable(b),
        canonical(a) == canonical(b),
    ensures
        same_meaning(a, b),
{
    let name = crate::hash::text_bytes(SNAPSHOT_DIGEST_ALGORITHM@);
    let a7 = statuses_bytes(a.statuses, a.statuses.len() as int);
    let b7 = statuses_bytes(b.statuses, b.statuses.len() as int);
    let a6 = crate::hash::number_bytes(a.statuses.len() as u64) + a7;
    let b6 = crate::hash::number_bytes(b.statuses.len() as u64) + b7;
    let a5 = cells_bytes(a.values, a.values.len() as int) + a6;
    let b5 = cells_bytes(b.values, b.values.len() as int) + b6;
    let a4 = crate::hash::number_bytes(a.values.len() as u64) + a5;
    let b4 = crate::hash::number_bytes(b.values.len() as u64) + b5;
    let a3 = crate::hash::number_bytes(a.entity_count as u64) + a4;
    let b3 = crate::hash::number_bytes(b.entity_count as u64) + b4;
    let a2 = crate::hash::signed_bytes(a.observed_at_ms) + a3;
    let b2 = crate::hash::signed_bytes(b.observed_at_ms) + b3;
    assert(canonical_tail(a) == canonical_tail(b)) by {
        lemma_canonical_tail(a);
        lemma_canonical_tail(b);
        assert((name + canonical_tail(a)).skip(name.len() as int) =~= canonical_tail(a));
        assert((name + canonical_tail(b)).skip(name.len() as int) =~= canonical_tail(b));
    }
    crate::hash::lemma_number_bytes(a.generation, b.generation, a2, b2);
    crate::hash::lemma_signed_bytes(a.observed_at_ms, b.observed_at_ms, a3, b3);
    crate::hash::lemma_number_bytes(a.entity_count as u64, b.entity_count as u64, a4, b4);
    crate::hash::lemma_number_bytes(a.values.len() as u64, b.values.len() as u64, a5, b5);
    lemma_cells_bytes(a, b, a.values.len() as int, a6, b6);
    crate::hash::lemma_number_bytes(a.statuses.len() as u64, b.statuses.len() as u64, a7, b7);
    let nothing = Seq::<u8>::empty();
    assert(a7 + nothing =~= a7);
    assert(b7 + nothing =~= b7);
    lemma_statuses_bytes(a, b, a.statuses.len() as int, nothing, nothing);
    assert(a.values =~= b.values);
}

/// The sum of the missing counts of the first `n` nodes.
pub open spec fn missing_sum(statuses: Seq<crate::cube::StatusView>, n: int) -> int
    decreases n,
{
    if n <= 0 {
        0
    } else {
        missing_sum(statuses, n - 1) + statuses[n - 1].missing
    }
}

proof fn lemma_missing_total(statuses: Seq<crate::cube::StatusView>, n: int)
    requires
        0 <= n <= statuses.len(),
    ensures
        0 <= missing_sum(statuses, n),
        missing_sum(statuses, n) <= usize::MAX ==> missing_total(statuses, n) == missing_sum(
            statuses,
            n,
        ),
        missing_sum(statuses, n) > usize::MAX ==> missing_total(statuses, n) == usize::MAX,
    decreases n,
{
    if n > 0 {
        lemma_missing_total(statuses, n - 1);
    }
}

/// A digest is the hash of the canonical bytes of its snapshot, under the name
/// of the algorithm, with the number of its cells and the number of its
/// missing values.
pub proof fn lemma_digest_is_hash_of_bytes(
    snapshot: &Snapshot,
    bytes: Vec<u8>,
    digest: SnapshotDigest,
)
    requires
        call_ensures(canonical_bytes, (snapshot,), bytes),
        call_ensures(snapshot_digest, (snapshot,), digest),
    ensures
        digest.hash == crate::hash::xxh64_of(bytes@, 0),
        digest.algorithm@ == "xxh64-hypercube-semantic-v1"@,
        snapshot.values@.len() <= usize::MAX ==> digest.values == snapshot.values@.len(),
        missing_sum(snapshot@.statuses, snapshot.statuses@.len() as int) <= usize::MAX
            ==> digest.missing == missing_sum(
            snapshot@.statuses,
            snapshot.statuses@.len() as int,
        ),
{
    lemma_missing_total(snapshot@.statuses, snapshot.statuses@.len() as int);
}

/// The canonical bytes of a snapshot say everything that it means: two
/// snapshots have the same bytes exactly where they agree in generation, time
/// and entities, in the node, entity, bits and time of every cell, and in the
/// node and the counts of every status.
pub proof fn lemma_bytes_say_what_snapshot_means(
    a: &Snapshot,
    b: &Snapshot,
    x: Vec<u8>,
    y: Vec<u8>,
)
    requires
        call_ensures(canonical_bytes, (a,), x),
        call_ensures(canonical_bytes, (b,), y),
        measurable(a@),
        measurable(b@),
    ensures
        x@ == y@ <==> {
            &&& a.generation == b.generation
            &&& a.observed_at_ms == b.observed_at_ms
            &&& a.entity_count == b.entity_count
            &&& a.values@.len() == b.values@.len()
            &&& forall|i: int|
                0 <= i < a.values@.len() ==> {
                    &&& (#[trigger] a.values@[i]).node@ == b.values@[i].node@
                    &&& a.values@[i].key@ == b.values@[i].key@
                    &&& a.values@[i].value.bits == b.values@[i].value.bits
                    &&& a.values@[i].observed_at_ms == b.values@[i].observed_at_ms
                }
            &&& a.statuses@.len() == b.statuses@.len()
            &&& forall|i: int|
                0 <= i < a.statuses@.len() ==> {
                    &&& (#[trigger] a.statuses@[i]).node@ == b.statuses@[i].node@
                    &&& a.statuses@[i].values == b.statuses@[i].values
                    &&& a.statuses@[i].missing == b.statuses@[i].missing
                }
        },
{
    let u = a@;
    let v = b@;
    assert(forall|i: int| 0 <= i < u.values.len() ==> (#[trigger] u.values[i]) == a.values@[i]@);
    assert(forall|i: int| 0 <= i < v.values.len() ==> (#[trigger] v.values[i]) == b.values@[i]@);
    assert(forall|i: int|
        0 <= i < u.statuses.len() ==> (#[trigger] u.statuses[i]) == a.statuses@[i]@);
    assert(forall|i: int|
        0 <= i < v.statuses.len() ==> (#[trigger] v.statuses[i]) == b.statuses@[i]@);
    if x@ == y@ {
        lemma_canonical_injective(u, v);
        assert forall|i: int| 0 <= i < a.values@.len() implies {
            &&& (#[trigger] a.values@[i]).node@ == b.values@[i].node@
            &&& a.values@[i].key@ == b.values@[i].key@
            &&& a.values@[i].value.bits == b.values@[i].value.bits
            &&& a.values@[i].observed_at_ms == b.values@[i].observed_at_ms
        } by {
            assert(u.values[i] == v.values[i]);
        }
        assert forall|i: int| 0 <= i < a.statuses@.len() implies {
            &&& (#[trigger] a.statuses@[i]).node@ == b.statuses@[i].node@
            &&& a.statuses@[i].values == b.statuses@[i].values
            &&& a.statuses@[i].missing == b.statuses@[i].missing
        } by {
            assert(u.statuses[i].node == v.statuses[i].node);
        }
    }
    if {
        &&& a.generation == b.generation
        &&& a.observed_at_ms == b.observed_at_ms
        &&& a.entity_count == b.entity_count
        &&& a.values@.len() == b.values@.len()
        &&& forall|i: int|
            0 <= i < a.values@.len() ==> {
                &&& (#[trigger] a.values@[i]).node@ == b.values@[i].node@
                &&& a.values@[i].key@ == b.values@[i].key@
                &&& a.values@[i].value.bits == b.values@[i].value.bits
                &&& a.values@[i].observed_at_ms == b.values@[i].observed_at_ms
            }
        &&& a.statuses@.len() == b.statuses@.len()
        &&& forall|i: int|
            0 <= i < a.statuses@.len() ==> {
                &&& (#[trigger] a.statuses@[i]).node@ == b.statuses@[i].node@
                &&& a.statuses@[i].values == b.statuses@[i].values
                &&& a.statuses@[i].missing == b.statuses@[i].missing
            }
    } {
        assert forall|i: int| 0 <= i < u.values.len() implies #[trigger] u.values[i]
            == v.values[i] by {
            assert(a.values@[i].node@ == b.values@[i].node@);
        }
        assert(u.values =~= v.values);
        assert forall|i: int| 0 <= i < u.statuses.len() implies {
            &&& (#[trigger] u.statuses[i]).node == v.statuses[i].node
            &&& u.statuses[i].values == v.statuses[i].values
            &&& u.statuses[i].missing == v.statuses[i].missing
        } by {
            assert(a.statuses@[i].node@ == b.statuses@[i].node@);
        }
        lemma_digest_ignores_operation(u, v);
    }
}

/// Two digests match exactly where they agree in everything that they tell.
pub proof fn lemma_digests_match(a: &SnapshotDigest, b: &SnapshotDigest, same: bool)
    requires
        call_ensures(SnapshotDigest::matches, (a, b), same),
    ensures
        same <==> a.algorithm@ == b.algorithm@ && a.hash == b.hash && a.values == b.values
            && a.missing == b.missing,
{
}

} // verus!
