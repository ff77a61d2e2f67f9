//! Manifests and generation records, and the order in which they are written
//! and read.
//!
//! A recording is a stream of lines: one manifest, then one generation after
//! the other. How a line is encoded is left to the caller; which lines may
//! follow each other, and what they must hold, is decided here.

use crate::cube::{InputRow, NodeKind, NodeSpec, Update, WeightedInput};
use crate::number::Rendering;
use crate::table::Table;
use crate::text::{is_blank, push_decimal, quoted};
use crate::trigger::{
    copied_triggers, validate_triggers, ThresholdTriggerSpec, TriggerConfigError, TriggerFrame,
    TriggerTransition,
};
use vstd::prelude::*;
use vstd::string::*;

verus! {

/// Current JSON Lines recording schema version.
pub const RECORDING_FORMAT_VERSION: u32 = 1;

/// Immutable metadata required to interpret and reproduce a recording.
#[derive(Debug, PartialEq)]
pub struct RecordingManifest {
    /// Recording schema version.
    pub format_version: u32,
    /// Stable identity of the original live or synthetic run.
    pub run_id: String,
    /// Application build or source revision that produced the recording.
    pub build_id: String,
    /// Identity of configuration outside the serialized Hypercube node graph.
    pub config_hash: String,
    /// Entity-layout identity used by published vectors.
    pub layout_hash: String,
    /// Stateful trigger configuration used to produce expected transitions.
    pub triggers: Vec<ThresholdTriggerSpec>,
    /// Transport or deployment provenance such as Aeron recording identities.
    pub metadata: Table<String>,
}

/// Named texts as plain pairs.
pub open spec fn pairs(entries: Seq<(Seq<char>, String)>) -> Seq<(Seq<char>, Seq<char>)> {
    Seq::new(entries.len(), |i: int| (entries[i].0, entries[i].1@))
}

/// What a [`RecordingManifest`] holds.
#[verifier::ext_equal]
pub struct ManifestView {
    /// Schema version.
    pub format_version: u32,
    /// Run.
    pub run_id: Seq<char>,
    /// Build.
    pub build_id: Seq<char>,
    /// Configuration.
    pub config_hash: Seq<char>,
    /// Layout.
    pub layout_hash: Seq<char>,
    /// Triggers.
    pub triggers: Seq<crate::trigger::ThresholdView>,
    /// Provenance.
    pub metadata: Seq<(Seq<char>, Seq<char>)>,
}

impl View for RecordingManifest {
    type V = ManifestView;

    open spec fn view(&self) -> ManifestView {
        ManifestView {
            format_version: self.format_version,
            run_id: self.run_id@,
            build_id: self.build_id@,
            config_hash: self.config_hash@,
            layout_hash: self.layout_hash@,
            triggers: crate::text::views(self.triggers@),
            metadata: pairs(self.metadata@),
        }
    }
}

impl Clone for RecordingManifest {
    fn clone(&self) -> (copy: Self)
        ensures
            copy@ == self@,
    {
        RecordingManifest {
            format_version: self.format_version,
            run_id: self.run_id.clone(),
            build_id: self.build_id.clone(),
            config_hash: self.config_hash.clone(),
            layout_hash: self.layout_hash.clone(),
            triggers: copied_triggers(&self.triggers),
            metadata: self.metadata.copied(),
        }
    }
}

/// Recording format or validation error.
#[derive(Debug, PartialEq)]
#[allow(inconsistent_fields)]
pub enum RecordingError {
    /// Recording format was newer or otherwise unsupported.
    UnsupportedFormat {
        /// Version read from the manifest.
        actual: u32,
        /// Version supported by this crate.
        supported: u32,
    },
    /// Required manifest metadata was blank.
    EmptyManifestField(&'static str),
    /// A provenance key or value was blank.
    InvalidMetadata {
        /// Invalid metadata key, which may itself be blank.
        key: String,
    },
    /// JSON cannot preserve a NaN or infinite numeric input.
    NonFiniteValue {
        /// Coordinate containing the unsupported value.
        location: String,
    },
    /// Stateful trigger configuration was invalid.
    Trigger(TriggerConfigError),
    /// The first nonempty JSON line was not a manifest.
    MissingManifest,
    /// A second manifest appeared after generation data began.
    DuplicateManifest,
    /// Generation records were not contiguous in circuit order.
    SequenceMismatch {
        /// Required next sequence.
        expected: u64,
        /// Sequence found in the recording.
        actual: u64,
    },
    /// Hypercube generations did not advance.
    NonIncreasingGeneration {
        /// Previously recorded generation.
        previous: u64,
        /// Invalid next generation.
        actual: u64,
    },
    /// Expected output named a different generation than its input.
    ExpectedGenerationMismatch {
        /// Generation carried by the update.
        update: u64,
        /// Generation carried by the expected output.
        expected: u64,
    },
    /// A blank recording contained no manifest.
    EmptyRecording,
}

/// What a [`RecordingError`] holds.
#[verifier::ext_equal]
#[allow(inconsistent_fields)]
pub enum RecordingFault {
    /// The format is not supported.
    UnsupportedFormat {
        /// Version found.
        actual: u32,
        /// Version supported.
        supported: u32,
    },
    /// A field of the manifest is blank.
    EmptyManifestField(Seq<char>),
    /// A provenance entry is blank.
    InvalidMetadata {
        /// Its key.
        key: Seq<char>,
    },
    /// A number is not finite.
    NonFiniteValue {
        /// Where.
        location: Seq<char>,
    },
    /// A trigger is invalid.
    Trigger(crate::trigger::TriggerFault),
    /// There is no manifest at the start.
    MissingManifest,
    /// There is a second manifest.
    DuplicateManifest,
    /// A sequence is out of order.
    SequenceMismatch {
        /// Required sequence.
        expected: u64,
        /// Sequence found.
        actual: u64,
    },
    /// A generation is not newer.
    NonIncreasingGeneration {
        /// Previous generation.
        previous: u64,
        /// Generation found.
        actual: u64,
    },
    /// Input and output are of different generations.
    ExpectedGenerationMismatch {
        /// Generation of the input.
        update: u64,
        /// Generation of the output.
        expected: u64,
    },
    /// There is nothing.
    EmptyRecording,
}

impl View for RecordingError {
    type V = RecordingFault;

    open spec fn view(&self) -> RecordingFault {
        match self {
            RecordingError::UnsupportedFormat {
                actual,
                supported,
            } => RecordingFault::UnsupportedFormat { actual: *actual, supported: *supported },
            RecordingError::EmptyManifestField(name) => RecordingFault::EmptyManifestField(name@),
            RecordingError::InvalidMetadata { key } => RecordingFault::InvalidMetadata {
                key: key@,
            },
            RecordingError::NonFiniteValue { location } => RecordingFault::NonFiniteValue {
                location: location@,
            },
            RecordingError::Trigger(fault) => RecordingFault::Trigger(fault@),
            RecordingError::MissingManifest => RecordingFault::MissingManifest,
            RecordingError::DuplicateManifest => RecordingFault::DuplicateManifest,
            RecordingError::SequenceMismatch {
                expected,
                actual,
            } => RecordingFault::SequenceMismatch { expected: *expected, actual: *actual },
            RecordingError::NonIncreasingGeneration {
                previous,
                actual,
            } => RecordingFault::NonIncreasingGeneration { previous: *previous, actual: *actual },
            RecordingError::ExpectedGenerationMismatch {
                update,
                expected,
            } => RecordingFault::ExpectedGenerationMismatch {
                update: *update,
                expected: *expected,
            },
            RecordingError::EmptyRecording => RecordingFault::EmptyRecording,
        }
    }
}

impl RecordingFault {
    /// Whether a text says what is wrong, with the thresholds of a trigger as
    /// a rendering may write them.
    pub open spec fn said<R: Rendering>(self, rendering: &R, text: Seq<char>) -> bool {
        match self {
            RecordingFault::EmptyManifestField(name) => text == "recording manifest field "@ + name
                + " cannot be empty"@,
            RecordingFault::Trigger(fault) => fault.said(rendering, text),
            RecordingFault::UnsupportedFormat { actual, supported } => text == "unsupported recording format "@
                + crate::text::decimal(actual as nat) + "; supported version is "@
                + crate::text::decimal(supported as nat),
            RecordingFault::InvalidMetadata { key } => text == "recording metadata key and value must be nonempty: "@
                + crate::text::quoted_of(key),
            RecordingFault::NonFiniteValue { location } => text == "recording value at "@
                + location + " must be finite; omit missing primitive fields"@,
            RecordingFault::MissingManifest => text == "recording must begin with exactly one manifest"@,
            RecordingFault::DuplicateManifest => text == "recording contains more than one manifest"@,
            RecordingFault::SequenceMismatch { expected, actual } => text == "expected circuit sequence "@
                + crate::text::decimal(expected as nat) + ", found "@
                + crate::text::decimal(actual as nat),
            RecordingFault::NonIncreasingGeneration { previous, actual } => text == "generation "@
                + crate::text::decimal(actual as nat) + " is not newer than "@
                + crate::text::decimal(previous as nat),
            RecordingFault::ExpectedGenerationMismatch { update, expected } => text == "recorded update generation "@
                + crate::text::decimal(update as nat) + " differs from expected output "@
                + crate::text::decimal(expected as nat),
            RecordingFault::EmptyRecording => text == "recording is empty"@,
        }
    }
}

impl RecordingError {
    /// Say what is wrong with a recording.
    pub fn message<R: Rendering>(&self, rendering: &R) -> (text: String)
        ensures
            self@.said(rendering, text@),
    {
        match self {
            RecordingError::EmptyManifestField(name) => "recording manifest field ".to_owned().concat(
                name,
            ).concat(" cannot be empty"),
            RecordingError::Trigger(fault) => fault.message(rendering),
            RecordingError::UnsupportedFormat { actual, supported } => {
                let mut text: String = "unsupported recording format ".to_owned();
                push_decimal(&mut text, *actual as u64);
                text.append("; supported version is ");
                push_decimal(&mut text, *supported as u64);
                text
            },
            RecordingError::InvalidMetadata { key } => {
                let mut text: String = "recording metadata key and value must be nonempty: ".to_owned();
                text.append(quoted(key.as_str()).as_str());
                text
            },
            RecordingError::NonFiniteValue { location } => {
                let mut text: String = "recording value at ".to_owned();
                text.append(location.as_str());
                text.append(" must be finite; omit missing primitive fields");
                text
            },
            RecordingError::MissingManifest => "recording must begin with exactly one manifest".to_owned(),
            RecordingError::DuplicateManifest => "recording contains more than one manifest".to_owned(),
            RecordingError::SequenceMismatch { expected, actual } => {
                let mut text: String = "expected circuit sequence ".to_owned();
                push_decimal(&mut text, *expected as u64);
                text.append(", found ");
                push_decimal(&mut text, *actual as u64);
                text
            },
            RecordingError::NonIncreasingGeneration { previous, actual } => {
                let mut text: String = "generation ".to_owned();
                push_decimal(&mut text, *actual as u64);
                text.append(" is not newer than ");
                push_decimal(&mut text, *previous as u64);
                text
            },
            RecordingError::ExpectedGenerationMismatch { update, expected } => {
                let mut text: String = "recorded update generation ".to_owned();
                push_decimal(&mut text, *update as u64);
                text.append(" differs from expected output ");
                push_decimal(&mut text, *expected as u64);
                text
            },
            RecordingError::EmptyRecording => "recording is empty".to_owned(),
        }
    }
}

/// Whether a result is what a fault, or its absence, calls for.
pub open spec fn reports<T>(
    result: Result<T, RecordingError>,
    fault: Option<RecordingFault>,
) -> bool {
    match fault {
        Some(f) => result matches Err(e) && e@ == f,
        None => result is Ok,
    }
}

/// The first of the first `n` provenance entries that has a blank side.
pub open spec fn metadata_fault(metadata: Seq<(Seq<char>, Seq<char>)>, n: int) -> Option<
    RecordingFault,
>
    decreases n,
{
    if n <= 0 {
        None
    } else {
        match metadata_fault(metadata, n - 1) {
            Some(fault) => Some(fault),
            None => if crate::text::blank(metadata[n - 1].0) || crate::text::blank(
                metadata[n - 1].1,
            ) {
                Some(RecordingFault::InvalidMetadata { key: metadata[n - 1].0 })
            } else {
                None
            },
        }
    }
}

/// What is wrong with a manifest.
pub open spec fn manifest_fault(manifest: ManifestView) -> Option<RecordingFault> {
    if manifest.format_version != RECORDING_FORMAT_VERSION {
        Some(
            RecordingFault::UnsupportedFormat {
                actual: manifest.format_version,
                supported: RECORDING_FORMAT_VERSION,
            },
        )
    } else if crate::text::blank(manifest.run_id) {
        Some(RecordingFault::EmptyManifestField("run_id"@))
    } else if crate::text::blank(manifest.build_id) {
        Some(RecordingFault::EmptyManifestField("build_id"@))
    } else if crate::text::blank(manifest.config_hash) {
        Some(RecordingFault::EmptyManifestField("config_hash"@))
    } else if crate::text::blank(manifest.layout_hash) {
        Some(RecordingFault::EmptyManifestField("layout_hash"@))
    } else {
        match metadata_fault(manifest.metadata, manifest.metadata.len() as int) {
            Some(fault) => Some(fault),
            None => match crate::trigger::triggers_fault(
                manifest.triggers,
                manifest.triggers.len() as int,
            ) {
                Some(fault) => Some(RecordingFault::Trigger(fault)),
                None => None,
            },
        }
    }
}

proof fn lemma_metadata_fault_stays(metadata: Seq<(Seq<char>, Seq<char>)>, i: int, n: int)
    requires
        0 <= i <= n,
        metadata_fault(metadata, i) is Some,
    ensures
        metadata_fault(metadata, n) == metadata_fault(metadata, i),
    decreases n,
{
    if i < n {
        lemma_metadata_fault_stays(metadata, i, n - 1);
    }
}

proof fn lemma_pairs_entered(
    entries: Seq<(Seq<char>, String)>,
    key: Seq<char>,
    value: String,
)
    ensures
        pairs(crate::table::entered(entries, key, value)) == crate::table::entered(
            pairs(entries),
            key,
            value@,
        ),
    decreases entries.len(),
{
    let plain = pairs(entries);
    if entries.len() == 0 {
        assert(pairs(crate::table::entered(entries, key, value)) =~= seq![(key, value@)]);
    } else {
        assert(plain.last().0 == entries.last().0);
        assert(pairs(entries.drop_last()) =~= plain.drop_last());
        if entries.last().0 == key {
            assert(pairs(entries.drop_last().push((key, value))) =~= plain.drop_last().push(
                (key, value@),
            ));
        } else if crate::text::precedes(entries.last().0, key) {
            assert(pairs(entries.push((key, value))) =~= plain.push((key, value@)));
        } else {
            lemma_pairs_entered(entries.drop_last(), key, value);
            let inner = crate::table::entered(entries.drop_last(), key, value);
            assert(pairs(inner.push(entries.last())) =~= pairs(inner).push(plain.last()));
        }
    }
}

impl RecordingManifest {
    /// Construct and validate a version-1 recording manifest.
    pub fn new(
        run_id: &str,
        build_id: &str,
        config_hash: &str,
        layout_hash: &str,
        triggers: Vec<ThresholdTriggerSpec>,
    ) -> (result: Result<Self, RecordingError>)
        ensures
            ({
                let made = ManifestView {
                    format_version: RECORDING_FORMAT_VERSION,
                    run_id: run_id@,
                    build_id: build_id@,
                    config_hash: config_hash@,
                    layout_hash: layout_hash@,
                    triggers: crate::text::views(triggers@),
                    metadata: Seq::empty(),
                };
                &&& reports(result, manifest_fault(made))
                &&& result matches Ok(manifest) ==> manifest@ == made
            }),
    {
        let manifest = RecordingManifest {
            format_version: RECORDING_FORMAT_VERSION,
            run_id: run_id.to_owned(),
            build_id: build_id.to_owned(),
            config_hash: config_hash.to_owned(),
            layout_hash: layout_hash.to_owned(),
            triggers,
            metadata: Table::new(),
        };
        assert(manifest@.metadata =~= Seq::empty());
        match manifest.validate() {
            Ok(()) => Ok(manifest),
            Err(fault) => Err(fault),
        }
    }

    /// Add one nonempty provenance entry and return the updated manifest.
    pub fn with_metadata(self, key: &str, value: &str) -> (result: Result<Self, RecordingError>)
        ensures
            ({
                let made = ManifestView {
                    metadata: crate::table::entered(self@.metadata, key@, value@),
                    ..self@
                };
                &&& reports(result, manifest_fault(made))
                &&& result matches Ok(manifest) ==> manifest@ == made
            }),
    {
        let mut manifest = self;
        let text: String = value.to_owned();
        proof {
            lemma_pairs_entered(manifest.metadata@, key@, text);
        }
        manifest.metadata.insert(key.to_owned(), text);
        match manifest.validate() {
            Ok(()) => Ok(manifest),
            Err(fault) => Err(fault),
        }
    }

    /// Reject an unsupported format, blank identities or provenance, and
    /// invalid triggers.
    #[verifier::loop_isolation(false)]
    pub fn validate(&self) -> (result: Result<(), RecordingError>)
        ensures
            reports(result, manifest_fault(self@)),
    {
        if self.format_version != RECORDING_FORMAT_VERSION {
            return Err(
                RecordingError::UnsupportedFormat {
                    actual: self.format_version,
                    supported: RECORDING_FORMAT_VERSION,
                },
            );
        }
        if is_blank(self.run_id.as_str()) {
            return Err(RecordingError::EmptyManifestField("run_id"));
        }
        if is_blank(self.build_id.as_str()) {
            return Err(RecordingError::EmptyManifestField("build_id"));
        }
        if is_blank(self.config_hash.as_str()) {
            return Err(RecordingError::EmptyManifestField("config_hash"));
        }
        if is_blank(self.layout_hash.as_str()) {
            return Err(RecordingError::EmptyManifestField("layout_hash"));
        }
        let ghost all = pairs(self.metadata@);
        let mut i: usize = 0;
        while i < self.metadata.len()
            invariant
                0 <= i <= self.metadata@.len(),
                all == pairs(self.metadata@),
                metadata_fault(all, i as int) is None,
            decreases self.metadata@.len() - i,
        {
            assert(all[i as int] == (self.metadata@[i as int].0, self.metadata@[i as int].1@));
            let key = self.metadata.key_at(i);
            if is_blank(key.as_str()) || is_blank(self.metadata.value_at(i).as_str()) {
                proof {
                    lemma_metadata_fault_stays(all, i + 1, all.len() as int);
                }
                return Err(RecordingError::InvalidMetadata { key: key.clone() });
            }
            i = i + 1;
        }
        match validate_triggers(&self.triggers) {
            Ok(()) => Ok(()),
            Err(fault) => Err(RecordingError::Trigger(fault)),
        }
    }
}

/// One accepted Hypercube update and its expected stateful output.
#[derive(Debug, PartialEq)]
pub struct GenerationRecord {
    /// Zero-based sequence assigned by the generation circuit.
    pub circuit_sequence: u64,
    /// Complete input generation accepted by the Hypercube engine.
    pub update: Update,
    /// Last accepted position for each upstream stream at this generation.
    pub source_positions: Table<i64>,
    /// Semantic snapshot digest and transitions produced in the original run.
    pub expected: TriggerFrame,
}

/// What a [`GenerationRecord`] holds.
#[verifier::ext_equal]
pub struct RecordView {
    /// Sequence.
    pub circuit_sequence: u64,
    /// Input.
    pub update: crate::cube::UpdateView,
    /// Positions of the upstream streams.
    pub source_positions: Seq<(Seq<char>, i64)>,
    /// Output.
    pub expected: crate::trigger::FrameView,
}

impl View for GenerationRecord {
    type V = RecordView;

    open spec fn view(&self) -> RecordView {
        RecordView {
            circuit_sequence: self.circuit_sequence,
            update: self.update@,
            source_positions: self.source_positions@,
            expected: self.expected@,
        }
    }
}

impl Clone for GenerationRecord {
    fn clone(&self) -> (copy: Self)
        ensures
            copy@ == self@,
    {
        GenerationRecord {
            circuit_sequence: self.circuit_sequence,
            update: self.update.clone(),
            source_positions: self.source_positions.clone(),
            expected: self.expected.clone(),
        }
    }
}

/// The first of the first `n` fields of a row that is not finite.
pub open spec fn fields_fault(
    key: Seq<char>,
    fields: Seq<(Seq<char>, crate::number::Double)>,
    n: int,
) -> Option<RecordingFault>
    decreases n,
{
    if n <= 0 {
        None
    } else {
        match fields_fault(key, fields, n - 1) {
            Some(fault) => Some(fault),
            None => if !fields[n - 1].1.finite() {
                Some(
                    RecordingFault::NonFiniteValue {
                        location: "row "@ + key + " field "@ + fields[n - 1].0,
                    },
                )
            } else {
                None
            },
        }
    }
}

/// The first value in the first `n` rows that is not finite.
pub open spec fn values_fault(rows: Seq<crate::cube::RowView>, n: int) -> Option<RecordingFault>
    decreases n,
{
    if n <= 0 {
        None
    } else {
        match values_fault(rows, n - 1) {
            Some(fault) => Some(fault),
            None => fields_fault(
                rows[n - 1].key,
                rows[n - 1].fields,
                rows[n - 1].fields.len() as int,
            ),
        }
    }
}

/// The first of the first `n` weights of a node that is not finite.
pub open spec fn weights_fault(
    id: Seq<char>,
    edges: Seq<crate::cube::EdgeView>,
    n: int,
) -> Option<RecordingFault>
    decreases n,
{
    if n <= 0 {
        None
    } else {
        match weights_fault(id, edges, n - 1) {
            Some(fault) => Some(fault),
            None => if !edges[n - 1].weight.finite() {
                Some(
                    RecordingFault::NonFiniteValue {
                        location: "node "@ + id + " input "@ + edges[n - 1].node + " weight"@,
                    },
                )
            } else {
                None
            },
        }
    }
}

/// The first weight in the first `n` nodes that is not finite.
pub open spec fn graph_weights_fault(nodes: Seq<crate::cube::NodeView>, n: int) -> Option<
    RecordingFault,
>
    decreases n,
{
    if n <= 0 {
        None
    } else {
        match graph_weights_fault(nodes, n - 1) {
            Some(fault) => Some(fault),
            None => weights_fault(
                nodes[n - 1].id,
                nodes[n - 1].edges(),
                nodes[n - 1].edges().len() as int,
            ),
        }
    }
}

/// The first number of an update that is not finite.
pub open spec fn recordable_fault(update: crate::cube::UpdateView) -> Option<RecordingFault> {
    match values_fault(update.rows, update.rows.len() as int) {
        Some(fault) => Some(fault),
        None => graph_weights_fault(update.nodes, update.nodes.len() as int),
    }
}

/// The first of the first `n` transitions with a value that is not finite.
pub open spec fn transitions_fault(
    transitions: Seq<crate::trigger::TransitionView>,
    n: int,
) -> Option<RecordingFault>
    decreases n,
{
    if n <= 0 {
        None
    } else {
        match transitions_fault(transitions, n - 1) {
            Some(fault) => Some(fault),
            None => if transitions[n - 1].value matches Some(value) && !value.finite() {
                Some(
                    RecordingFault::NonFiniteValue {
                        location: "transition "@ + transitions[n - 1].trigger + " entity "@
                            + transitions[n - 1].key + " generation "@ + crate::text::decimal(
                            transitions[n - 1].generation as nat,
                        ),
                    },
                )
            } else {
                None
            },
        }
    }
}

/// What is wrong with a record by itself.
pub open spec fn record_fault(record: RecordView) -> Option<RecordingFault> {
    match recordable_fault(record.update) {
        Some(fault) => Some(fault),
        None => if record.update.generation != record.expected.generation {
            Some(
                RecordingFault::ExpectedGenerationMismatch {
                    update: record.update.generation,
                    expected: record.expected.generation,
                },
            )
        } else {
            transitions_fault(
                record.expected.transitions,
                record.expected.transitions.len() as int,
            )
        },
    }
}

fn field_location(key: &String, field: &String) -> (text: String)
    ensures
        text@ == "row "@ + key@ + " field "@ + field@,
{
    "row ".to_owned().concat(key.as_str()).concat(" field ").concat(field.as_str())
}

fn weight_location(id: &String, input: &String) -> (text: String)
    ensures
        text@ == "node "@ + id@ + " input "@ + input@ + " weight"@,
{
    "node ".to_owned().concat(id.as_str()).concat(" input ").concat(input.as_str()).concat(
        " weight",
    )
}

fn transition_location(transition: &TriggerTransition) -> (text: String)
    ensures
        text@ == "transition "@ + transition.trigger@ + " entity "@ + transition.key@
            + " generation "@ + crate::text::decimal(transition.generation as nat),
{
    let mut text: String = "transition ".to_owned().concat(transition.trigger.as_str()).concat(
        " entity ",
    ).concat(transition.key.as_str()).concat(" generation ");
    push_decimal(&mut text, transition.generation);
    text
}

proof fn lemma_fields_fault_stays(
    key: Seq<char>,
    fields: Seq<(Seq<char>, crate::number::Double)>,
    i: int,
    n: int,
)
    requires
        0 <= i <= n,
        fields_fault(key, fields, i) is Some,
    ensures
        fields_fault(key, fields, n) == fields_fault(key, fields, i),
    decreases n,
{
    if i < n {
        lemma_fields_fault_stays(key, fields, i, n - 1);
    }
}

proof fn lemma_values_fault_stays(rows: Seq<crate::cube::RowView>, i: int, n: int)
    requires
        0 <= i <= n,
        values_fault(rows, i) is Some,
    ensures
        values_fault(rows, n) == values_fault(rows, i),
    decreases n,
{
    if i < n {
        lemma_values_fault_stays(rows, i, n - 1);
    }
}

proof fn lemma_weights_fault_stays(
    id: Seq<char>,
    edges: Seq<crate::cube::EdgeView>,
    i: int,
    n: int,
)
    requires
        0 <= i <= n,
        weights_fault(id, edges, i) is Some,
    ensures
        weights_fault(id, edges, n) == weights_fault(id, edges, i),
    decreases n,
{
    if i < n {
        lemma_weights_fault_stays(id, edges, i, n - 1);
    }
}

proof fn lemma_graph_weights_fault_stays(nodes: Seq<crate::cube::NodeView>, i: int, n: int)
    requires
        0 <= i <= n,
        graph_weights_fault(nodes, i) is Some,
    ensures
        graph_weights_fault(nodes, n) == graph_weights_fault(nodes, i),
    decreases n,
{
    if i < n {
        lemma_graph_weights_fault_stays(nodes, i, n - 1);
    }
}

proof fn lemma_transitions_fault_stays(
    transitions: Seq<crate::trigger::TransitionView>,
    i: int,
    n: int,
)
    requires
        0 <= i <= n,
        transitions_fault(transitions, i) is Some,
    ensures
        transitions_fault(transitions, n) == transitions_fault(transitions, i),
    decreases n,
{
    if i < n {
        lemma_transitions_fault_stays(transitions, i, n - 1);
    }
}

fn validate_fields(row: &InputRow) -> (result: Result<(), RecordingError>)
    ensures
        reports(result, fields_fault(row.key@, row.fields@, row.fields@.len() as int)),
{
    let mut i: usize = 0;
    while i < row.fields.len()
        invariant
            0 <= i <= row.fields@.len(),
            fields_fault(row.key@, row.fields@, i as int) is None,
        decreases row.fields@.len() - i,
    {
        if !row.fields.value_at(i).is_finite() {
            proof {
                lemma_fields_fault_stays(row.key@, row.fields@, i + 1, row.fields@.len() as int);
            }
            return Err(
                RecordingError::NonFiniteValue {
                    location: field_location(&row.key, row.fields.key_at(i)),
                },
            );
        }
        i = i + 1;
    }
    Ok(())
}

fn validate_weights(id: &String, inputs: &Vec<WeightedInput>) -> (result: Result<
    (),
    RecordingError,
>)
    ensures
        reports(result, weights_fault(id@, crate::text::views(inputs@), inputs@.len() as int)),
{
    let ghost edges = crate::text::views(inputs@);
    let mut i: usize = 0;
    while i < inputs.len()
        invariant
            0 <= i <= inputs@.len(),
            edges == crate::text::views(inputs@),
            weights_fault(id@, edges, i as int) is None,
        decreases inputs@.len() - i,
    {
        assert(edges[i as int] == inputs@[i as int]@);
        if !inputs[i].weight.is_finite() {
            proof {
                lemma_weights_fault_stays(id@, edges, i + 1, edges.len() as int);
            }
            return Err(
                RecordingError::NonFiniteValue { location: weight_location(id, &inputs[i].node) },
            );
        }
        i = i + 1;
    }
    Ok(())
}

fn validate_node_weights(node: &NodeSpec) -> (result: Result<(), RecordingError>)
    ensures
        reports(result, weights_fault(node.id@, node@.edges(), node@.edges().len() as int)),
{
    match &node.kind {
        NodeKind::Field { .. } => Ok(()),
        NodeKind::Linear { inputs, .. } => validate_weights(&node.id, inputs),
    }
}

/// Reject an update with a number that is not finite.
#[verifier::loop_isolation(false)]
pub fn validate_recordable_update(update: &Update) -> (result: Result<(), RecordingError>)
    ensures
        reports(result, recordable_fault(update@)),
{
    let ghost rows = update@.rows;
    let ghost nodes = update@.nodes;
    let mut r: usize = 0;
    while r < update.rows.len()
        invariant
            0 <= r <= update.rows@.len(),
            rows == crate::text::views(update.rows@),
            values_fault(rows, r as int) is None,
        decreases update.rows@.len() - r,
    {
        assert(rows[r as int] == update.rows@[r as int]@);
        match validate_fields(&update.rows[r]) {
            Ok(()) => {},
            Err(fault) => {
                proof {
                    lemma_values_fault_stays(rows, r + 1, rows.len() as int);
                }
                return Err(fault);
            },
        }
        r = r + 1;
    }
    let mut i: usize = 0;
    while i < update.nodes.len()
        invariant
            0 <= i <= update.nodes@.len(),
            nodes == crate::text::views(update.nodes@),
            graph_weights_fault(nodes, i as int) is None,
        decreases update.nodes@.len() - i,
    {
        assert(nodes[i as int] == update.nodes@[i as int]@);
        match validate_node_weights(&update.nodes[i]) {
            Ok(()) => {},
            Err(fault) => {
                proof {
                    lemma_graph_weights_fault_stays(nodes, i + 1, nodes.len() as int);
                }
                return Err(fault);
            },
        }
        i = i + 1;
    }
    Ok(())
}

impl GenerationRecord {
    /// Reject numbers that are not finite and an output of another generation.
    #[verifier::loop_isolation(false)]
    pub fn validate(&self) -> (result: Result<(), RecordingError>)
        ensures
            reports(result, record_fault(self@)),
    {
        match validate_recordable_update(&self.update) {
            Ok(()) => {},
            Err(fault) => {
                return Err(fault);
            },
        }
        if self.update.generation != self.expected.generation {
            return Err(
                RecordingError::ExpectedGenerationMismatch {
                    update: self.update.generation,
                    expected: self.expected.generation,
                },
            );
        }
        let ghost all = self@.expected.transitions;
        let mut i: usize = 0;
        while i < self.expected.transitions.len()
            invariant
                0 <= i <= self.expected.transitions@.len(),
                all == crate::text::views(self.expected.transitions@),
                transitions_fault(all, i as int) is None,
            decreases self.expected.transitions@.len() - i,
        {
            let transition = &self.expected.transitions[i];
            assert(all[i as int] == transition@);
            let finite: bool = match transition.value {
                Some(value) => value.is_finite(),
                None => true,
            };
            if !finite {
                proof {
                    lemma_transitions_fault_stays(all, i + 1, all.len() as int);
                }
                return Err(
                    RecordingError::NonFiniteValue { location: transition_location(transition) },
                );
            }
            i = i + 1;
        }
        Ok(())
    }
}

/// What is wrong with a record at its place in a recording.
pub open spec fn order_fault(
    next_sequence: u64,
    last_generation: Option<u64>,
    record: RecordView,
) -> Option<RecordingFault> {
    match record_fault(record) {
        Some(fault) => Some(fault),
        None => if record.circuit_sequence != next_sequence {
            Some(
                RecordingFault::SequenceMismatch {
                    expected: next_sequence,
                    actual: record.circuit_sequence,
                },
            )
        } else if last_generation matches Some(previous) && record.update.generation <= previous {
            Some(
                RecordingFault::NonIncreasingGeneration {
                    previous: last_generation->0,
                    actual: record.update.generation,
                },
            )
        } else {
            None
        },
    }
}

/// The place in a recording that comes next.
#[derive(Debug, Clone, Copy, PartialEq, Eq, Structural)]
pub struct RecordOrder {
    /// Sequence of the next record.
    pub next_sequence: u64,
    /// Generation of the last record.
    pub last_generation: Option<u64>,
}

impl RecordOrder {
    /// What is wrong with a record at this place.
    pub open spec fn fault(self, record: RecordView) -> Option<RecordingFault> {
        order_fault(self.next_sequence, self.last_generation, record)
    }

    /// The place after a record.
    pub open spec fn after(self, record: RecordView) -> RecordOrder {
        RecordOrder {
            next_sequence: (self.next_sequence + 1) as u64,
            last_generation: Some(record.update.generation),
        }
    }

    /// The place of the first record.
    pub fn start() -> (order: RecordOrder)
        ensures
            order == (RecordOrder { next_sequence: 0, last_generation: None }),
    {
        RecordOrder { next_sequence: 0, last_generation: None }
    }

    /// Check a record for this place.
    pub fn permit(&self, record: &GenerationRecord) -> (result: Result<(), RecordingError>)
        ensures
            reports(result, self.fault(record@)),
    {
        match record.validate() {
            Ok(()) => {},
            Err(fault) => {
                return Err(fault);
            },
        }
        if record.circuit_sequence != self.next_sequence {
            return Err(
                RecordingError::SequenceMismatch {
                    expected: self.next_sequence,
                    actual: record.circuit_sequence,
                },
            );
        }
        match self.last_generation {
            Some(previous) => {
                if record.update.generation <= previous {
                    return Err(
                        RecordingError::NonIncreasingGeneration {
                            previous,
                            actual: record.update.generation,
                        },
                    );
                }
            },
            None => {},
        }
        Ok(())
    }

    /// Go to the place after a record.
    pub fn advance(&mut self, record: &GenerationRecord)
        requires
            old(self).next_sequence < u64::MAX,
        ensures
            *final(self) == old(self).after(record@),
    {
        self.next_sequence = self.next_sequence + 1;
        self.last_generation = Some(record.update.generation);
    }
}

/// Writer of a recording around some sink of bytes.
#[derive(Debug)]
pub struct RecordingWriter<W> {
    writer: W,
    order: RecordOrder,
}

impl<W> RecordingWriter<W> {
    /// The sink.
    pub closed spec fn sink(self) -> W {
        self.writer
    }

    /// The place of the next record.
    pub closed spec fn place(self) -> RecordOrder {
        self.order
    }

    /// Begin a recording around a sink. The caller writes the line of the
    /// manifest to the sink first, as [`RecordingWriter::begin`] does in
    /// memory.
    pub fn new(writer: W, manifest: &RecordingManifest) -> (result: Result<Self, RecordingError>)
        ensures
            reports(result, manifest_fault(manifest@)),
            result matches Ok(made) ==> made.sink() == writer && made.place() == (RecordOrder {
                next_sequence: 0,
                last_generation: None,
            }),
    {
        match manifest.validate() {
            Ok(()) => Ok(RecordingWriter { writer, order: RecordOrder::start() }),
            Err(fault) => Err(fault),
        }
    }

    /// Return the sequence of the next record.
    pub fn next_sequence(&self) -> (sequence: u64)
        ensures
            sequence == self.place().next_sequence,
    {
        self.order.next_sequence
    }

    /// Check a record before it is written.
    pub fn permit(&self, record: &GenerationRecord) -> (result: Result<(), RecordingError>)
        ensures
            reports(result, self.place().fault(record@)),
    {
        self.order.permit(record)
    }

    /// Take note of a record that was written.
    pub fn commit(&mut self, record: &GenerationRecord)
        requires
            old(self).place().next_sequence < u64::MAX,
        ensures
            final(self).place() == old(self).place().after(record@),
            final(self).sink() == old(self).sink(),
    {
        self.order.advance(record);
    }

    /// Give access to the sink.
    pub fn sink_mut(&mut self) -> (sink: &mut W)
        ensures
            *sink == old(self).sink(),
            final(self).sink() == *final(sink),
            final(self).place() == old(self).place(),
    {
        &mut self.writer
    }

    /// Return the sink.
    pub fn into_inner(self) -> (writer: W)
        ensures
            writer == self.sink(),
    {
        self.writer
    }
}

/// A line of a recording as bytes.
pub open spec fn line_bytes(line: Seq<char>) -> Seq<u8> {
    vstd::utf8::encode_utf8(line).push(10u8)
}

impl RecordingWriter<Vec<u8>> {
    /// Begin a recording in memory by appending its manifest, given how it is
    /// encoded.
    pub fn begin(writer: Vec<u8>, manifest: &RecordingManifest, line: &str) -> (result: Result<
        Self,
        RecordingError,
    >)
        ensures
            reports(result, manifest_fault(manifest@)),
            result matches Ok(made) ==> made.sink()@ == writer@ + line_bytes(line@)
                && made.place() == (RecordOrder { next_sequence: 0, last_generation: None }),
    {
        match manifest.validate() {
            Ok(()) => {},
            Err(fault) => {
                return Err(fault);
            },
        }
        let mut writer = writer;
        let ghost before = writer@;
        writer.extend_from_slice(line.as_bytes());
        writer.push(10);
        assert(writer@ =~= before + line_bytes(line@));
        Ok(RecordingWriter { writer, order: RecordOrder::start() })
    }

    /// Append one validated generation record, given how it is encoded. A
    /// record that is refused leaves the recording as it was.
    pub fn write_generation(&mut self, record: &GenerationRecord, line: &str) -> (result: Result<
        (),
        RecordingError,
    >)
        requires
            old(self).place().next_sequence < u64::MAX,
        ensures
            reports(result, old(self).place().fault(record@)),
            match result {
                Ok(()) => {
                    &&& final(self).sink()@ == old(self).sink()@ + line_bytes(line@)
                    &&& final(self).place() == old(self).place().after(record@)
                },
                Err(_) => {
                    &&& final(self).sink()@ == old(self).sink()@
                    &&& final(self).place() == old(self).place()
                },
            },
    {
        match self.order.permit(record) {
            Ok(()) => {},
            Err(fault) => {
                return Err(fault);
            },
        }
        self.writer.extend_from_slice(line.as_bytes());
        self.writer.push(10);
        assert(self.writer@ =~= old(self).writer@ + line_bytes(line@));
        self.order.advance(record);
        Ok(())
    }
}

/// One decoded line of a recording.
#[derive(Debug, PartialEq)]
pub enum RecordingLine {
    /// The manifest.
    Manifest {
        /// Its contents.
        manifest: RecordingManifest,
    },
    /// A generation.
    Generation {
        /// Its contents.
        record: Box<GenerationRecord>,
    },
}

/// Return whether a line holds anything; blank lines are skipped.
pub fn is_record_line(line: &str) -> (holds: bool)
    ensures
        holds == !crate::text::blank(line@),
{
    !is_blank(line)
}

/// What is wrong with the first line of a recording.
pub open spec fn opening_fault(line: Option<RecordingLine>) -> Option<RecordingFault> {
    match line {
        None => Some(RecordingFault::EmptyRecording),
        Some(RecordingLine::Generation { .. }) => Some(RecordingFault::MissingManifest),
        Some(RecordingLine::Manifest { manifest }) => manifest_fault(manifest@),
    }
}

/// Reader that validates recording order as generations are read, around some
/// source of lines.
#[derive(Debug)]
pub struct RecordingReader<R> {
    reader: R,
    manifest: RecordingManifest,
    order: RecordOrder,
    finished: bool,
}

impl<R> RecordingReader<R> {
    /// The source.
    pub closed spec fn source(self) -> R {
        self.reader
    }

    /// The manifest.
    pub closed spec fn heading(self) -> ManifestView {
        self.manifest@
    }

    /// The place of the next record.
    pub closed spec fn place(self) -> RecordOrder {
        self.order
    }

    /// Whether no more records are read.
    pub closed spec fn done(self) -> bool {
        self.finished
    }

    /// Validate the manifest at the start of a recording, given what the first
    /// line that holds anything was decoded to.
    pub fn new(reader: R, first: Option<RecordingLine>) -> (result: Result<Self, RecordingError>)
        ensures
            reports(result, opening_fault(first)),
            result matches Ok(made) ==> made.source() == reader && made.opened(first),
    {
        match first {
            None => Err(RecordingError::EmptyRecording),
            Some(RecordingLine::Generation { .. }) => Err(RecordingError::MissingManifest),
            Some(RecordingLine::Manifest { manifest }) => match manifest.validate() {
                Ok(()) => Ok(
                    RecordingReader {
                        reader,
                        manifest,
                        order: RecordOrder::start(),
                        finished: false,
                    },
                ),
                Err(fault) => Err(fault),
            },
        }
    }

    /// Return the immutable recording manifest.
    pub fn manifest(&self) -> (manifest: &RecordingManifest)
        ensures
            manifest@ == self.heading(),
    {
        &self.manifest
    }

    /// Give access to the source.
    pub fn source_mut(&mut self) -> (source: &mut R)
        ensures
            *source == old(self).source(),
            final(self).source() == *final(source),
            final(self).heading() == old(self).heading(),
            final(self).place() == old(self).place(),
            final(self).done() == old(self).done(),
    {
        &mut self.reader
    }

    /// Return whether no more records are read.
    pub fn is_finished(&self) -> (finished: bool)
        ensures
            finished == self.done(),
    {
        self.finished
    }

    /// Return the sequence of the next record.
    pub fn next_sequence(&self) -> (sequence: u64)
        ensures
            sequence == self.place().next_sequence,
    {
        self.order.next_sequence
    }

    /// Read no more records.
    pub fn finish(&mut self)
        ensures
            final(self).done(),
            final(self).source() == old(self).source(),
            final(self).heading() == old(self).heading(),
            final(self).place() == old(self).place(),
    {
        self.finished = true;
    }

    /// What is wrong with the next line.
    pub open spec fn line_fault(self, line: Option<RecordingLine>) -> Option<RecordingFault> {
        if self.done() {
            None
        } else {
            match line {
                None => None,
                Some(RecordingLine::Manifest { .. }) => Some(RecordingFault::DuplicateManifest),
                Some(RecordingLine::Generation { record }) => self.place().fault(record@),
            }
        }
    }

    /// What reading a line gives, and how it leaves the reader.
    pub open spec fn reads(
        self,
        line: Option<RecordingLine>,
        result: Result<Option<GenerationRecord>, RecordingError>,
        after: Self,
    ) -> bool {
        &&& reports(result, self.line_fault(line))
        &&& after.source() == self.source()
        &&& after.heading() == self.heading()
        &&& match result {
            Ok(Some(read)) => {
                &&& !self.done()
                &&& line matches Some(RecordingLine::Generation { record }) && read == *record
                &&& after.place() == self.place().after(read@)
                &&& !after.done()
            },
            Ok(None) => {
                &&& self.done() || line is None
                &&& after.place() == self.place()
                &&& after.done()
            },
            Err(_) => {
                &&& after.place() == self.place()
                &&& !after.done()
            },
        }
    }

    /// Whether a reader was opened on a first line.
    pub open spec fn opened(self, first: Option<RecordingLine>) -> bool {
        &&& opening_fault(first) is None
        &&& first matches Some(RecordingLine::Manifest { manifest }) && self.heading()
            == manifest@
        &&& self.place() == (RecordOrder { next_sequence: 0, last_generation: None })
        &&& !self.done()
    }

    /// Take the next generation, given what the next line that holds anything
    /// was decoded to: `None` at the end of the stream.
    pub fn read_generation(&mut self, line: Option<RecordingLine>) -> (result: Result<
        Option<GenerationRecord>,
        RecordingError,
    >)
        requires
            old(self).place().next_sequence < u64::MAX,
        ensures
            old(self).reads(line, result, *final(self)),
    {
        if self.finished {
            return Ok(None);
        }
        let record = match line {
            None => {
                self.finished = true;
                return Ok(None);
            },
            Some(RecordingLine::Manifest { .. }) => {
                return Err(RecordingError::DuplicateManifest);
            },
            Some(RecordingLine::Generation { record }) => *record,
        };
        match self.order.permit(&record) {
            Ok(()) => {},
            Err(fault) => {
                return Err(fault);
            },
        }
        self.order.advance(&record);
        Ok(Some(record))
    }
}

/// The place after the first `n` records.
pub open spec fn place_after(records: Seq<RecordView>, n: int) -> RecordOrder
    decreases n,
{
    if n <= 0 {
        RecordOrder { next_sequence: 0, last_generation: None }
    } else {
        place_after(records, n - 1).after(records[n - 1])
    }
}

/// Whether every record is in order at its place: what a writer writes, and
/// what a reader reads, from the start.
pub open spec fn well_ordered(records: Seq<RecordView>) -> bool {
    &&& records.len() <= u64::MAX
    &&& forall|i: int|
        0 <= i < records.len() ==> place_after(records, i).fault(#[trigger] records[i]) is None
}

/// The place after some records in order names their number and the last
/// generation.
pub proof fn lemma_place_after(records: Seq<RecordView>, n: int)
    requires
        well_ordered(records),
        0 <= n <= records.len(),
    ensures
        n < records.len() ==> place_after(records, n).next_sequence == n,
        n > 0 ==> place_after(records, n).last_generation == Some(records[n - 1].update.generation),
    decreases n,
{
    if n > 0 {
        lemma_place_after(records, n - 1);
    }
}

/// In a recording in order, the sequence of a record is its position, and each
/// generation is newer than those before it.
#[verifier::spinoff_prover]
pub proof fn lemma_recording_in_order(records: Seq<RecordView>, i: int, j: int)
    requires
        well_ordered(records),
        0 <= i < j < records.len(),
    ensures
        records[i].circuit_sequence == i,
        records[i].update.generation < records[j].update.generation,
        records[i].update.generation == records[i].expected.generation,
    decreases j - i,
{
    lemma_place_after(records, i);
    lemma_place_after(records, j);
    assert(place_after(records, i).fault(records[i]) is None);
    assert(place_after(records, j).fault(records[j]) is None);
    if i < j - 1 {
        lemma_recording_in_order(records, i, j - 1);
    }
}

/// Whether a writer, going through some places, accepted records one after
/// the other from the start.
pub open spec fn accepted(records: Seq<RecordView>, places: Seq<RecordOrder>) -> bool {
    &&& places.len() == records.len() + 1
    &&& places[0] == (RecordOrder { next_sequence: 0, last_generation: None })
    &&& forall|i: int|
        0 <= i < records.len() ==> {
            &&& places[i].next_sequence < u64::MAX
            &&& places[i].fault(#[trigger] records[i]) is None
            &&& places[i + 1] == places[i].after(records[i])
        }
}

proof fn lemma_accepted(records: Seq<RecordView>, places: Seq<RecordOrder>, n: int)
    requires
        accepted(records, places),
        0 <= n <= records.len(),
    ensures
        places[n] == place_after(records, n),
        places[n].next_sequence == n,
    decreases n,
{
    if n > 0 {
        lemma_accepted(records, places, n - 1);
        assert(places[n - 1].fault(records[n - 1]) is None);
    }
}

/// The records that a writer accepts are in order.
pub proof fn lemma_accepted_in_order(records: Seq<RecordView>, places: Seq<RecordOrder>)
    requires
        accepted(records, places),
    ensures
        well_ordered(records),
{
    lemma_accepted(records, places, records.len() as int);
    assert forall|i: int| 0 <= i < records.len() implies place_after(records, i).fault(
        #[trigger] records[i],
    ) is None by {
        lemma_accepted(records, places, i);
    }
}

/// Whether a decoded line is the generation of a record.
pub open spec fn decodes_to(line: Option<RecordingLine>, record: RecordView) -> bool {
    line matches Some(RecordingLine::Generation { record: held }) && held@ == record
}

proof fn lemma_reader_keeps_pace<R>(
    records: Seq<RecordView>,
    places: Seq<RecordOrder>,
    first: Option<RecordingLine>,
    lines: Seq<Option<RecordingLine>>,
    readers: Seq<RecordingReader<R>>,
    results: Seq<Result<Option<GenerationRecord>, RecordingError>>,
    k: int,
)
    requires
        accepted(records, places),
        lines.len() >= records.len(),
        results.len() == lines.len(),
        readers.len() == lines.len() + 1,
        readers[0].opened(first),
        forall|i: int|
            0 <= i < lines.len() ==> readers[i].reads(
                #[trigger] lines[i],
                results[i],
                readers[i + 1],
            ),
        forall|i: int|
            0 <= i < records.len() ==> decodes_to(#[trigger] lines[i], records[i]),
        forall|i: int| records.len() <= i < lines.len() ==> (#[trigger] lines[i]) is None,
        0 <= k <= lines.len(),
    ensures
        readers[k].heading() == readers[0].heading(),
        k <= records.len() ==> readers[k].place() == places[k] && !readers[k].done(),
        k > records.len() ==> readers[k].done(),
    decreases k,
{
    if k > 0 {
        lemma_reader_keeps_pace(records, places, first, lines, readers, results, k - 1);
        let i = k - 1;
        assert(readers[i].reads(lines[i], results[i], readers[i + 1]));
        if i < records.len() {
            assert(decodes_to(lines[i], records[i]));
            assert(places[i].fault(records[i]) is None);
        }
    }
}

/// What was written is read back: where a writer accepted records one after
/// the other, a reader that is given their lines in that order returns the
/// manifest, then each record, and after the last nothing, however often it is
/// asked.
pub proof fn lemma_recording_is_read_back<R>(
    manifest: ManifestView,
    records: Seq<RecordView>,
    places: Seq<RecordOrder>,
    first: Option<RecordingLine>,
    lines: Seq<Option<RecordingLine>>,
    readers: Seq<RecordingReader<R>>,
    results: Seq<Result<Option<GenerationRecord>, RecordingError>>,
    i: int,
)
    requires
        accepted(records, places),
        first matches Some(RecordingLine::Manifest { manifest: held }) && held@ == manifest,
        lines.len() >= records.len(),
        results.len() == lines.len(),
        readers.len() == lines.len() + 1,
        readers[0].opened(first),
        forall|k: int|
            0 <= k < lines.len() ==> readers[k].reads(
                #[trigger] lines[k],
                results[k],
                readers[k + 1],
            ),
        forall|k: int|
            0 <= k < records.len() ==> decodes_to(#[trigger] lines[k], records[k]),
        forall|k: int| records.len() <= k < lines.len() ==> (#[trigger] lines[k]) is None,
        0 <= i < lines.len(),
    ensures
        readers[i].heading() == manifest,
        if i < records.len() {
            results[i] matches Ok(Some(read)) && read@ == records[i]
        } else {
            results[i] matches Ok(None)
        },
{
    lemma_reader_keeps_pace(records, places, first, lines, readers, results, i);
    assert(readers[i].reads(lines[i], results[i], readers[i + 1]));
    if i < records.len() {
        assert(decodes_to(lines[i], records[i]));
        assert(places[i].fault(records[i]) is None);
    } else {
        assert(lines[i] is None);
    }
}

/// Whether every number of an update is finite: each field of each row, and
/// each weight of each node.
pub open spec fn numbers_finite(update: crate::cube::UpdateView) -> bool {
    &&& forall|r: int, k: int|
        0 <= r < update.rows.len() && 0 <= k < update.rows[r].fields.len() ==> (
        #[trigger] update.rows[r].fields[k]).1.finite()
    &&& forall|i: int, k: int|
        0 <= i < update.nodes.len() && 0 <= k < update.nodes[i].edges().len() ==> (
        #[trigger] update.nodes[i].edges()[k]).weight.finite()
}

proof fn lemma_fields_fault(
    key: Seq<char>,
    fields: Seq<(Seq<char>, crate::number::Double)>,
    n: int,
)
    requires
        0 <= n <= fields.len(),
    ensures
        fields_fault(key, fields, n) is None <==> forall|k: int|
            0 <= k < n ==> (#[trigger] fields[k]).1.finite(),
    decreases n,
{
    if n > 0 {
        lemma_fields_fault(key, fields, n - 1);
        if fields_fault(key, fields, n) is Some && fields_fault(key, fields, n - 1) is None {
            assert(!fields[n - 1].1.finite());
        }
    }
}

proof fn lemma_values_fault(rows: Seq<crate::cube::RowView>, n: int)
    requires
        0 <= n <= rows.len(),
    ensures
        values_fault(rows, n) is None <==> forall|r: int, k: int|
            0 <= r < n && 0 <= k < rows[r].fields.len() ==> (
            #[trigger] rows[r].fields[k]).1.finite(),
    decreases n,
{
    if n > 0 {
        lemma_values_fault(rows, n - 1);
        let last = rows[n - 1];
        lemma_fields_fault(last.key, last.fields, last.fields.len() as int);
        if values_fault(rows, n) is None {
            assert forall|r: int, k: int| 0 <= r < n && 0 <= k < rows[r].fields.len() implies (
            #[trigger] rows[r].fields[k]).1.finite() by {
                if r == n - 1 {
                    assert(last.fields[k].1.finite());
                }
            }
        } else if values_fault(rows, n - 1) is None {
            let k = choose|k: int| 0 <= k < last.fields.len() && !(#[trigger] last.fields[k]).1.finite();
            assert(!rows[n - 1].fields[k].1.finite());
        } else {
            let (r, k) = choose|r: int, k: int|
                0 <= r < n - 1 && 0 <= k < rows[r].fields.len() && !(
                #[trigger] rows[r].fields[k]).1.finite();
            assert(!rows[r].fields[k].1.finite());
        }
    }
}

proof fn lemma_weights_fault(id: Seq<char>, edges: Seq<crate::cube::EdgeView>, n: int)
    requires
        0 <= n <= edges.len(),
    ensures
        weights_fault(id, edges, n) is None <==> forall|k: int|
            0 <= k < n ==> (#[trigger] edges[k]).weight.finite(),
    decreases n,
{
    if n > 0 {
        lemma_weights_fault(id, edges, n - 1);
        if weights_fault(id, edges, n) is Some && weights_fault(id, edges, n - 1) is None {
            assert(!edges[n - 1].weight.finite());
        }
    }
}

proof fn lemma_graph_weights_fault(nodes: Seq<crate::cube::NodeView>, n: int)
    requires
        0 <= n <= nodes.len(),
    ensures
        graph_weights_fault(nodes, n) is None <==> forall|i: int, k: int|
            0 <= i < n && 0 <= k < nodes[i].edges().len() ==> (
            #[trigger] nodes[i].edges()[k]).weight.finite(),
    decreases n,
{
    if n > 0 {
        lemma_graph_weights_fault(nodes, n - 1);
        let edges = nodes[n - 1].edges();
        lemma_weights_fault(nodes[n - 1].id, edges, edges.len() as int);
        if graph_weights_fault(nodes, n) is None {
            assert forall|i: int, k: int| 0 <= i < n && 0 <= k < nodes[i].edges().len() implies (
            #[trigger] nodes[i].edges()[k]).weight.finite() by {
                if i == n - 1 {
                    assert(edges[k].weight.finite());
                }
            }
        } else if graph_weights_fault(nodes, n - 1) is None {
            let k = choose|k: int| 0 <= k < edges.len() && !(#[trigger] edges[k]).weight.finite();
            assert(!nodes[n - 1].edges()[k].weight.finite());
        } else {
            let (i, k) = choose|i: int, k: int|
                0 <= i < n - 1 && 0 <= k < nodes[i].edges().len() && !(
                #[trigger] nodes[i].edges()[k]).weight.finite();
            assert(!nodes[i].edges()[k].weight.finite());
        }
    }
}

proof fn lemma_transitions_fault(
    transitions: Seq<crate::trigger::TransitionView>,
    n: int,
)
    requires
        0 <= n <= transitions.len(),
    ensures
        transitions_fault(transitions, n) is None <==> forall|k: int|
            0 <= k < n && (#[trigger] transitions[k]).value is Some
                ==> transitions[k].value->0.finite(),
    decreases n,
{
    if n > 0 {
        lemma_transitions_fault(transitions, n - 1);
        if transitions_fault(transitions, n) is Some && transitions_fault(transitions, n - 1) is None {
            assert(transitions[n - 1].value is Some && !transitions[n - 1].value->0.finite());
        }
    }
}

proof fn lemma_recordable(update: crate::cube::UpdateView)
    ensures
        recordable_fault(update) is None <==> numbers_finite(update),
{
    lemma_values_fault(update.rows, update.rows.len() as int);
    lemma_graph_weights_fault(update.nodes, update.nodes.len() as int);
}

/// Whether a record is in order by itself: finite numbers going in and coming
/// out, and one generation.
pub open spec fn record_in_order(record: RecordView) -> bool {
    &&& numbers_finite(record.update)
    &&& record.update.generation == record.expected.generation
    &&& forall|k: int|
        0 <= k < record.expected.transitions.len() && (
        #[trigger] record.expected.transitions[k]).value is Some
            ==> record.expected.transitions[k].value->0.finite()
}

/// An update can be recorded, and a record is accepted, exactly where every
/// number in it is finite and it is of one generation.
pub proof fn lemma_records_are_accepted(
    record: &GenerationRecord,
    update: Result<(), RecordingError>,
    result: Result<(), RecordingError>,
)
    requires
        call_ensures(validate_recordable_update, (&record.update,), update),
        call_ensures(GenerationRecord::validate, (record,), result),
    ensures
        update is Ok <==> numbers_finite(record@.update),
        result is Ok <==> record_in_order(record@),
{
    lemma_recordable(record@.update);
    lemma_transitions_fault(
        record@.expected.transitions,
        record@.expected.transitions.len() as int,
    );
}

/// A record may follow exactly where it is in order, bears the sequence that
/// is next, and is of a newer generation than the last one. Once it was
/// written, the next sequence is one higher and its generation is the last.
pub proof fn lemma_records_follow_each_other(
    order: &mut RecordOrder,
    record: &GenerationRecord,
    result: Result<(), RecordingError>,
)
    requires
        call_ensures(RecordOrder::permit, (&*old(order), record), result),
        call_ensures(RecordOrder::advance, (order, record), ()),
        old(order).next_sequence < u64::MAX,
    ensures
        result is Ok <==> {
            &&& record_in_order(record@)
            &&& record.circuit_sequence == old(order).next_sequence
            &&& old(order).last_generation is Some ==> record.update.generation > old(
                order,
            ).last_generation->0
        },
        final(order).next_sequence == old(order).next_sequence + 1,
        final(order).last_generation == Some(record.update.generation),
        record_in_order(record@) && record.circuit_sequence != old(order).next_sequence
            ==> result->Err_0@ == (RecordingFault::SequenceMismatch {
            expected: old(order).next_sequence,
            actual: record.circuit_sequence,
        }),
        record_in_order(record@) && record.circuit_sequence == old(order).next_sequence
            && result is Err ==> result->Err_0@ == (RecordingFault::NonIncreasingGeneration {
            previous: old(order).last_generation->0,
            actual: record.update.generation,
        }),
{
    lemma_recordable(record@.update);
    lemma_transitions_fault(
        record@.expected.transitions,
        record@.expected.transitions.len() as int,
    );
}

proof fn lemma_metadata_fault(metadata: Seq<(Seq<char>, Seq<char>)>, n: int)
    requires
        0 <= n <= metadata.len(),
    ensures
        metadata_fault(metadata, n) is None <==> forall|k: int|
            0 <= k < n ==> !crate::text::blank((#[trigger] metadata[k]).0) && !crate::text::blank(
                metadata[k].1,
            ),
    decreases n,
{
    if n > 0 {
        lemma_metadata_fault(metadata, n - 1);
        if metadata_fault(metadata, n) is Some && metadata_fault(metadata, n - 1) is None {
            assert(crate::text::blank(metadata[n - 1].0) || crate::text::blank(metadata[n - 1].1));
        }
    }
}

/// A manifest is accepted exactly where it is of the first format, names its
/// run, build, configuration and layout, has no blank metadata, and its
/// triggers are in order under different names.
pub proof fn lemma_manifests_are_accepted(
    manifest: &RecordingManifest,
    result: Result<(), RecordingError>,
)
    requires
        call_ensures(RecordingManifest::validate, (manifest,), result),
    ensures
        ({
            let m = manifest@;
            result is Ok <==> {
                &&& manifest.format_version == 1
                &&& !crate::text::blank(manifest.run_id@)
                &&& !crate::text::blank(manifest.build_id@)
                &&& !crate::text::blank(manifest.config_hash@)
                &&& !crate::text::blank(manifest.layout_hash@)
                &&& forall|k: int|
                    0 <= k < m.metadata.len() ==> !crate::text::blank(
                        (#[trigger] m.metadata[k]).0,
                    ) && !crate::text::blank(m.metadata[k].1)
                &&& forall|i: int|
                    0 <= i < m.triggers.len() ==> crate::trigger::trigger_in_order(
                        #[trigger] m.triggers[i],
                    )
                &&& forall|i: int, j: int|
                    0 <= i < j < m.triggers.len() ==> (#[trigger] m.triggers[i]).id != (
                    #[trigger] m.triggers[j]).id
            }
        }),
{
    let m = manifest@;
    lemma_metadata_fault(m.metadata, m.metadata.len() as int);
    crate::trigger::lemma_triggers_in_order(m.triggers, m.triggers.len() as int);
}

/// A reader hands back what was recorded. After its manifest it gives each
/// record that may follow, as it is, and moves on; at the end it gives nothing
/// from then on; a second manifest and a record that may not follow are
/// refused, and the reader stays where it is.
pub proof fn lemma_reader_hands_back_records<R>(
    reader: &mut RecordingReader<R>,
    line: Option<RecordingLine>,
    result: Result<Option<GenerationRecord>, RecordingError>,
)
    requires
        call_ensures(RecordingReader::<R>::read_generation, (reader, line), result),
        old(reader).place().next_sequence < u64::MAX,
    ensures
        final(reader).heading() == old(reader).heading(),
        final(reader).source() == old(reader).source(),
        old(reader).done() ==> result is Ok && result->Ok_0 is None && final(reader).done(),
        line is None ==> result is Ok && result->Ok_0 is None && final(reader).done(),
        result is Ok && result->Ok_0 is None ==> old(reader).done() || line is None,
        !old(reader).done() && line is Some && line->0 is Manifest ==> result is Err
            && result->Err_0@ == RecordingFault::DuplicateManifest,
        !old(reader).done() && line is Some && line->0 is Generation ==> {
            let record = *line->0->record;
            let place = old(reader).place();
            let follows = record_in_order(record@) && record.circuit_sequence
                == place.next_sequence && (place.last_generation is Some
                ==> record.update.generation > place.last_generation->0);
            &&& result is Ok <==> follows
            &&& follows ==> result->Ok_0 == Some(record)
            &&& follows ==> final(reader).place().next_sequence == place.next_sequence + 1
            &&& follows ==> final(reader).place().last_generation == Some(record.update.generation)
        },
        result is Err ==> final(reader).place() == old(reader).place() && !final(reader).done(),
{
    if line is Some && line->0 is Generation {
        let record = (*line->0->record)@;
        lemma_recordable(record.update);
        lemma_transitions_fault(
            record.expected.transitions,
            record.expected.transitions.len() as int,
        );
    }
}

/// A recording opens with a manifest and nothing else.
pub proof fn lemma_recording_opens_with_manifest<R>(
    reader: R,
    first: Option<RecordingLine>,
    result: Result<RecordingReader<R>, RecordingError>,
)
    requires
        call_ensures(RecordingReader::<R>::new, (reader, first), result),
    ensures
        first is None ==> result is Err && result->Err_0@ == RecordingFault::EmptyRecording,
        first is Some && first->0 is Generation ==> result is Err && result->Err_0@
            == RecordingFault::MissingManifest,
        result is Ok ==> {
            &&& first is Some
            &&& first->0 is Manifest
            &&& result->Ok_0.heading() == first->0->manifest@
            &&& result->Ok_0.source() == reader
            &&& result->Ok_0.place().next_sequence == 0
            &&& result->Ok_0.place().last_generation is None
            &&& !result->Ok_0.done()
        },
{
}

/// A writer appends one line for each record that may follow, after whatever
/// it has written, and none for a record that may not.
pub proof fn lemma_writer_appends_lines(
    writer: &mut RecordingWriter<Vec<u8>>,
    record: &GenerationRecord,
    line: &str,
    result: Result<(), RecordingError>,
)
    requires
        call_ensures(
            RecordingWriter::<Vec<u8>>::write_generation,
            (writer, record, line),
            result,
        ),
        old(writer).place().next_sequence < u64::MAX,
    ensures
        ({
            let place = old(writer).place();
            result is Ok <==> record_in_order(record@) && record.circuit_sequence
                == place.next_sequence && (place.last_generation is Some
                ==> record.update.generation > place.last_generation->0)
        }),
        result is Ok ==> {
            let before = old(writer).sink()@;
            let after = final(writer).sink()@;
            let text = vstd::utf8::encode_utf8(line@);
            &&& after.len() == before.len() + text.len() + 1
            &&& after.take(before.len() as int) == before
            &&& after.subrange(before.len() as int, (before.len() + text.len()) as int) == text
            &&& after.last() == 10
            &&& final(writer).place().next_sequence == old(writer).place().next_sequence + 1
            &&& final(writer).place().last_generation == Some(record.update.generation)
        },
        result is Err ==> final(writer).sink()@ == old(writer).sink()@ && final(writer).place()
            == old(writer).place(),
{
    lemma_recordable(record@.update);
    lemma_transitions_fault(
        record@.expected.transitions,
        record@.expected.transitions.len() as int,
    );
    if result is Ok {
        let before = old(writer).sink()@;
        let after = final(writer).sink()@;
        let text = vstd::utf8::encode_utf8(line@);
        assert(after.take(before.len() as int) =~= before);
        assert(after.subrange(before.len() as int, (before.len() + text.len()) as int) =~= text);
    }
}

} // verus!
