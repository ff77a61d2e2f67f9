use std::collections::{BTreeMap, VecDeque};

use hypercube::capture::{residual_score_trigger, CaptureError, CaptureSession};
use hypercube::circuit::{
    frame_context, Arrival, CircuitConfig, CircuitError, Completion, FrameContext, FrameProcessor,
    PendingFrames, ProcessedFrame,
};
use hypercube::cube::{
    CellValue, CubeError, ExecutionMode, InputRow, NodeSpec, NodeStatus, Snapshot, Transform,
    Update,
};
use hypercube::digest::{canonical_bytes, snapshot_digest, SnapshotDigest};
use hypercube::engine::HypercubeEngine;
use hypercube::market::{market_demo_nodes, OuMarketInjector};
use hypercube::number::{Arithmetic, Double, Rendering};
use hypercube::recording::{
    is_record_line, GenerationRecord, RecordingError, RecordingLine, RecordingManifest,
    RecordingReader, RecordingWriter,
};
use hypercube::replay::{
    render_sequence_item, state_gap, transition_gap, DivergenceKind, ItemTexts, ReplayError,
    ReplayReport, ReplayRunner,
};
use hypercube::table::Table;
use hypercube::trigger::{
    ThresholdTriggerSpec, TriggerConfigError, TriggerFrame, TriggerProcessor,
    TriggerTransitionKind,
};
use xxhash_rust::xxh64::xxh64;

struct Native;

fn d(x: f64) -> Double {
    Double::from_bits(x.to_bits())
}

fn f(x: Double) -> f64 {
    f64::from_bits(x.to_bits())
}

impl Arithmetic for Native {
    fn plus(&self, x: Double, y: Double) -> Double {
        d(f(x) + f(y))
    }

    fn minus(&self, x: Double, y: Double) -> Double {
        d(f(x) - f(y))
    }

    fn times(&self, x: Double, y: Double) -> Double {
        d(f(x) * f(y))
    }

    fn over(&self, x: Double, y: Double) -> Double {
        d(f(x) / f(y))
    }

    fn root(&self, x: Double) -> Double {
        d(f(x).sqrt())
    }

    fn exponential(&self, x: Double) -> Double {
        d(f(x).exp())
    }

    fn logarithm(&self, x: Double) -> Double {
        d(f(x).ln())
    }

    fn sine(&self, x: Double) -> Double {
        d(f(x).sin())
    }

    fn cosine(&self, x: Double) -> Double {
        d(f(x).cos())
    }

    fn nearest(&self, n: u64) -> Double {
        d(n as f64)
    }
}
struct GenerationProcessor;

impl FrameProcessor for GenerationProcessor {
    type Output = (u64, i64);

    fn process(&mut self, context: FrameContext, _snapshot: &Snapshot) -> Self::Output {
        (context.generation, context.observed_at_ms)
    }
}

/// A ring on one thread: frames are processed when they are received.
struct Ring<P: FrameProcessor> {
    processor: P,
    slots: usize,
    next: i64,
    waiting: VecDeque<(i64, Snapshot)>,
    pending: PendingFrames,
}

impl<P: FrameProcessor> Ring<P> {
    fn with_processor(processor: P, config: CircuitConfig) -> Result<Self, CircuitError> {
        config.validate()?;
        Ok(Ring {
            processor,
            slots: config.ring_size,
            next: 0,
            waiting: VecDeque::new(),
            pending: PendingFrames::new(),
        })
    }

    fn try_submit(&mut self, snapshot: Snapshot) -> Result<i64, CircuitError> {
        let generation = snapshot.generation;
        if self.waiting.len() == self.slots {
            return self.pending.submitted(None, generation);
        }
        let sequence = self.next;
        self.next += 1;
        self.waiting.push_back((sequence, snapshot));
        self.pending.submitted(Some(sequence), generation)
    }

    fn receive(&mut self) -> Result<ProcessedFrame<P::Output>, CircuitError> {
        self.pending.awaited()?;
        let arrival = match self.waiting.pop_front() {
            None => Arrival::Disconnected,
            Some((sequence, snapshot)) => {
                let context = frame_context(sequence, &snapshot);
                let output = self.processor.process(context, &snapshot);
                Arrival::Completed(ProcessedFrame {
                    circuit_sequence: sequence,
                    generation: snapshot.generation,
                    output,
                })
            }
        };
        self.pending.settled(arrival)
    }

    fn process(&mut self, snapshot: Snapshot) -> Result<ProcessedFrame<P::Output>, CircuitError> {
        self.try_submit(snapshot)?;
        self.receive()
    }
}

fn empty_snapshot(generation: u64) -> Snapshot {
    Snapshot {
        generation,
        observed_at_ms: generation as i64 * 100,
        mode: ExecutionMode::Replay,
        entity_count: 0,
        values: Vec::new(),
        statuses: Vec::new(),
    }
}

#[test]
fn rejects_invalid_ring_size() {
    let result = Ring::with_processor(
        GenerationProcessor,
        CircuitConfig {
            ring_size: 3,
            ..CircuitConfig::default()
        },
    );
    assert!(matches!(result, Err(CircuitError::InvalidRingSize(3))));
}

#[test]
fn processes_frames_in_submission_order() {
    let mut circuit = Ring::with_processor(GenerationProcessor, CircuitConfig::default()).unwrap();
    circuit.try_submit(empty_snapshot(1)).unwrap();
    circuit.try_submit(empty_snapshot(2)).unwrap();

    let first = circuit.receive().unwrap();
    let second = circuit.receive().unwrap();
    assert_eq!(first.output, (1, 100));
    assert_eq!(second.output, (2, 200));
    assert_eq!(first.circuit_sequence, 0);
    assert_eq!(second.circuit_sequence, 1);
}

#[test]
fn full_ring_is_reported_without_overwriting_work() {
    let mut circuit = Ring::with_processor(
        GenerationProcessor,
        CircuitConfig {
            ring_size: 2,
            ..CircuitConfig::default()
        },
    )
    .unwrap();
    circuit.try_submit(empty_snapshot(1)).unwrap();
    circuit.try_submit(empty_snapshot(2)).unwrap();
    assert!(matches!(
        circuit.try_submit(empty_snapshot(3)),
        Err(CircuitError::RingFull { generation: 3 })
    ));
    assert_eq!(circuit.receive().unwrap().output.0, 1);
    assert_eq!(circuit.receive().unwrap().output.0, 2);
}

#[test]
fn completions_are_settled_in_order() {
    let frame = |circuit_sequence: i64, generation: u64| {
        Arrival::Completed(ProcessedFrame {
            circuit_sequence,
            generation,
            output: (),
        })
    };
    let mut pending = PendingFrames::new();
    assert_eq!(pending.awaited(), Err(CircuitError::NothingPending));
    assert_eq!(
        pending.settled(frame(0, 1)),
        Err(CircuitError::NothingPending)
    );
    pending.submitted(Some(0), 1).unwrap();
    pending.submitted(Some(1), 2).unwrap();
    let late: Arrival<()> = Arrival::Timeout;
    assert_eq!(
        pending.settled(late),
        Err(CircuitError::CompletionTimeout { generation: 1 })
    );
    let gone: Arrival<()> = Arrival::Disconnected;
    assert_eq!(
        pending.settled(gone),
        Err(CircuitError::ProcessorDisconnected)
    );
    let wrong = pending.settled(frame(1, 2)).unwrap_err();
    assert_eq!(
        wrong.message(),
        "circuit completion mismatch: expected sequence 0 generation 1, got sequence 1 generation 2"
    );
    assert_eq!(pending.pending_len(), 2);
    assert!(pending.settled(frame(0, 1)).is_ok());
    assert!(pending.settled(frame(1, 2)).is_ok());
    assert_eq!(pending.pending_len(), 0);
}

#[test]
fn circuit_messages_name_the_cause() {
    assert_eq!(
        CircuitError::InvalidRingSize(3).message(),
        "ring size 3 must be a power of two and at least 2"
    );
    assert_eq!(
        CircuitError::RingFull { generation: 4 }.message(),
        "circuit ring is full while submitting generation 4"
    );
    assert_eq!(
        CircuitError::CompletionTimeout { generation: 4 }.message(),
        "generation 4 did not complete before the circuit deadline"
    );
    for size in 0..70usize {
        let config = CircuitConfig {
            ring_size: size,
            ..CircuitConfig::default()
        };
        assert_eq!(
            config.validate().is_ok(),
            size >= 2 && size.is_power_of_two()
        );
    }
    let config = CircuitConfig::default();
    assert_eq!(config.ring_size, 16);
    assert_eq!(
        config.completion_timeout,
        std::time::Duration::from_secs(5)
    );
}

fn scored(mode: ExecutionMode, compute_micros: u64, value: f64) -> Snapshot {
    Snapshot {
        generation: 7,
        observed_at_ms: 1_234,
        mode,
        entity_count: 1,
        values: vec![CellValue {
            node: "score".to_owned(),
            key: "A".to_owned(),
            value: d(value),
            observed_at_ms: 1_200,
        }],
        statuses: vec![NodeStatus {
            node: "score".to_owned(),
            values: 1,
            missing: 0,
            compute_micros,
        }],
    }
}

#[test]
fn digest_ignores_mode_and_compute_duration() {
    let live = scored(ExecutionMode::Live, 10, 1.5);
    let replay = scored(ExecutionMode::Replay, 999, 1.5);

    assert_eq!(snapshot_digest(&live), snapshot_digest(&replay));
}

#[test]
fn digest_detects_bitwise_value_change() {
    let first = scored(ExecutionMode::Live, 10, 1.5);
    let changed = scored(ExecutionMode::Live, 10, 1.500_000_000_1);

    assert_eq!(snapshot_digest(&first).hash, 10_865_084_671_589_957_843);
    assert_ne!(snapshot_digest(&first), snapshot_digest(&changed));
}

#[test]
fn digest_is_the_hash_of_the_canonical_bytes() {
    let snapshot = scored(ExecutionMode::Live, 10, -0.0);
    let digest = snapshot_digest(&snapshot);
    assert_eq!(digest.hash, xxh64(&canonical_bytes(&snapshot), 0));
    assert_eq!(digest.algorithm, "xxh64-hypercube-semantic-v1");
    assert_eq!((digest.values, digest.missing), (1, 0));
    assert_ne!(
        canonical_bytes(&snapshot),
        canonical_bytes(&scored(ExecutionMode::Live, 10, 0.0))
    );
    assert!(digest.shown().starts_with("xxh64-hypercube-semantic-v1:"));
}

fn high(min_consecutive: u32) -> ThresholdTriggerSpec {
    ThresholdTriggerSpec::new("high", "score", d(1.0), d(0.5), min_consecutive).unwrap()
}

fn observed(generation: u64, values: &[(&str, f64)]) -> Snapshot {
    Snapshot {
        generation,
        observed_at_ms: generation as i64 * 100,
        mode: ExecutionMode::Live,
        entity_count: values.len(),
        values: values
            .iter()
            .map(|(key, value)| CellValue {
                node: "score".to_owned(),
                key: (*key).to_owned(),
                value: d(*value),
                observed_at_ms: generation as i64 * 100,
            })
            .collect(),
        statuses: vec![NodeStatus {
            node: "score".to_owned(),
            values: values.len(),
            missing: 0,
            compute_micros: 1,
        }],
    }
}

fn context(generation: u64) -> FrameContext {
    FrameContext {
        circuit_sequence: generation as i64 - 1,
        generation,
        observed_at_ms: generation as i64 * 100,
        mode: ExecutionMode::Live,
    }
}

#[test]
fn requires_persistence_and_uses_hysteresis() {
    let spec = high(2);
    let mut processor = TriggerProcessor::new(vec![spec]).unwrap();

    assert!(processor
        .process_snapshot(context(1), &observed(1, &[("A", 1.1)]))
        .transitions
        .is_empty());
    let entered = processor.process_snapshot(context(2), &observed(2, &[("A", 1.2)]));
    assert_eq!(entered.transitions.len(), 1);
    assert_eq!(entered.transitions[0].kind, TriggerTransitionKind::Entered);
    assert!(entered.states[0].active);
    assert_eq!(entered.states[0].qualifying_generations, 0);

    assert!(processor
        .process_snapshot(context(3), &observed(3, &[("A", 0.7)]))
        .transitions
        .is_empty());
    let exited = processor.process_snapshot(context(4), &observed(4, &[("A", 0.4)]));
    assert_eq!(exited.transitions[0].kind, TriggerTransitionKind::Exited);
}

#[test]
fn missing_active_entity_is_invalidated() {
    let spec = high(1);
    let mut processor = TriggerProcessor::new(vec![spec]).unwrap();
    processor.process_snapshot(context(1), &observed(1, &[("A", 1.1)]));

    let invalidated = processor.process_snapshot(context(2), &observed(2, &[]));
    assert_eq!(
        invalidated.transitions[0].kind,
        TriggerTransitionKind::Invalidated
    );
    assert_eq!(invalidated.transitions[0].value, None);
}

#[test]
fn missing_candidate_breaks_entry_persistence() {
    let spec = high(2);
    let mut processor = TriggerProcessor::new(vec![spec]).unwrap();

    assert!(processor
        .process_snapshot(context(1), &observed(1, &[("A", 1.1)]))
        .transitions
        .is_empty());
    assert!(processor
        .process_snapshot(context(2), &observed(2, &[]))
        .transitions
        .is_empty());
    assert!(processor
        .process_snapshot(context(3), &observed(3, &[("A", 1.2)]))
        .transitions
        .is_empty());
    let entered = processor.process_snapshot(context(4), &observed(4, &[("A", 1.3)]));
    assert_eq!(entered.transitions.len(), 1);
    assert_eq!(entered.transitions[0].kind, TriggerTransitionKind::Entered);
}

#[test]
fn entities_cross_thresholds_independently() {
    let mut processor = TriggerProcessor::new(vec![high(1)]).unwrap();
    let frame = processor.process_snapshot(context(1), &observed(1, &[("B", 1.0), ("A", 0.9)]));
    assert_eq!(frame.transitions.len(), 1);
    assert_eq!(frame.transitions[0].key, "B");
    let keys: Vec<&str> = frame.states.iter().map(|state| state.key.as_str()).collect();
    assert_eq!(keys, vec!["A", "B"]);
    assert!(!frame.states[0].active && frame.states[1].active);
    let next = processor.process_snapshot(context(2), &observed(2, &[("B", 0.5), ("A", 2.0)]));
    let kinds: Vec<(&str, TriggerTransitionKind)> = next
        .transitions
        .iter()
        .map(|transition| (transition.key.as_str(), transition.kind))
        .collect();
    assert_eq!(
        kinds,
        vec![
            ("A", TriggerTransitionKind::Entered),
            ("B", TriggerTransitionKind::Exited)
        ]
    );
}

#[test]
fn invalid_triggers_are_rejected() {
    let make = |id: &str, node: &str, enter: f64, exit: f64, count: u32| {
        ThresholdTriggerSpec::new(id, node, d(enter), d(exit), count).unwrap_err()
    };
    assert!(matches!(
        make(" ", "n", 1.0, 0.5, 1),
        TriggerConfigError::EmptyIdentifier(_)
    ));
    assert!(matches!(
        make("i", "", 1.0, 0.5, 1),
        TriggerConfigError::EmptyIdentifier(_)
    ));
    assert!(matches!(
        make("i", "n", f64::NAN, 0.5, 1),
        TriggerConfigError::NonFiniteThreshold { .. }
    ));
    assert!(matches!(
        make("i", "n", 0.5, 1.0, 1),
        TriggerConfigError::InvalidHysteresis { .. }
    ));
    assert!(matches!(
        make("i", "n", 1.0, 0.5, 0),
        TriggerConfigError::ZeroPersistence { .. }
    ));
    assert!(matches!(
        TriggerProcessor::new(vec![high(1), high(2)]).unwrap_err(),
        TriggerConfigError::DuplicateTrigger(_)
    ));
}

fn manifest() -> RecordingManifest {
    RecordingManifest::new(
        "run-1",
        "build-1",
        "config-1",
        "layout-1",
        vec![high(2)],
    )
    .unwrap()
    .with_metadata("aeron_recording_id", "17")
    .unwrap()
}

fn record(sequence: u64, generation: u64) -> GenerationRecord {
    let mut source_positions = Table::new();
    source_positions.insert("market-data".to_owned(), generation as i64 * 1_024);
    GenerationRecord {
        circuit_sequence: sequence,
        update: Update {
            generation,
            observed_at_ms: generation as i64 * 100,
            mode: ExecutionMode::Live,
            rows: vec![InputRow::new("A", generation as i64 * 100).with_field("score", d(1.0))],
            nodes: vec![NodeSpec::field("score", "score", Transform::Identity)],
        },
        source_positions,
        expected: TriggerFrame {
            generation,
            snapshot: SnapshotDigest {
                algorithm: "test".to_owned(),
                hash: generation,
                values: 1,
                missing: 0,
            },
            transitions: Vec::new(),
            states: Vec::new(),
        },
    }
}

fn decoded(line: &str) -> RecordingLine {
    match line {
        "manifest" => RecordingLine::Manifest {
            manifest: manifest(),
        },
        "0 1" => RecordingLine::Generation {
            record: Box::new(record(0, 1)),
        },
        "1 2" => RecordingLine::Generation {
            record: Box::new(record(1, 2)),
        },
        _ => unreachable!(),
    }
}

#[test]
fn recording_round_trips_as_a_stream() {
    let mut writer = RecordingWriter::begin(Vec::new(), &manifest(), "manifest").unwrap();
    writer.write_generation(&record(0, 1), "0 1").unwrap();
    writer.write_generation(&record(1, 2), "1 2").unwrap();
    let bytes = writer.into_inner();

    let text = String::from_utf8(bytes).unwrap();
    let mut lines = text.lines().filter(|line| is_record_line(line)).map(decoded);
    let first = lines.next();
    let mut reader = RecordingReader::new(lines, first).unwrap();
    assert_eq!(reader.manifest(), &manifest());
    let line = reader.source_mut().next();
    assert_eq!(reader.read_generation(line).unwrap(), Some(record(0, 1)));
    let line = reader.source_mut().next();
    assert_eq!(reader.read_generation(line).unwrap(), Some(record(1, 2)));
    let line = reader.source_mut().next();
    assert_eq!(reader.read_generation(line).unwrap(), None);
    assert!(reader.is_finished());
}

#[test]
fn writer_rejects_sequence_gaps() {
    let mut writer = RecordingWriter::new(Vec::new(), &manifest()).unwrap();
    let error = writer.write_generation(&record(1, 1), "1 1").unwrap_err();
    assert!(matches!(
        error,
        RecordingError::SequenceMismatch {
            expected: 0,
            actual: 1
        }
    ));
}

#[test]
fn writer_rejects_nonfinite_values_before_writing_a_generation() {
    let begun = || RecordingWriter::begin(Vec::new(), &manifest(), "manifest").unwrap();
    let manifest_len = begun().into_inner().len();
    let mut writer = begun();
    let mut invalid = record(0, 1);
    invalid.update.rows[0]
        .fields
        .insert("score".to_owned(), d(f64::NAN));

    let error = writer.write_generation(&invalid, "0 1").unwrap_err();
    assert!(matches!(error, RecordingError::NonFiniteValue { .. }));
    assert_eq!(writer.into_inner().len(), manifest_len);
}

#[test]
fn recordings_out_of_order_are_refused() {
    let mut writer = RecordingWriter::new(Vec::new(), &manifest()).unwrap();
    writer.write_generation(&record(0, 5), "0 5").unwrap();
    assert!(matches!(
        writer.write_generation(&record(1, 5), "1 5").unwrap_err(),
        RecordingError::NonIncreasingGeneration { .. }
    ));
    let mut mixed = record(1, 6);
    mixed.expected.generation = 7;
    assert!(matches!(
        writer.write_generation(&mixed, "1 6").unwrap_err(),
        RecordingError::ExpectedGenerationMismatch { .. }
    ));
    assert_eq!(writer.next_sequence(), 1);

    let none: Option<RecordingLine> = None;
    assert!(matches!(
        RecordingReader::new((), none).unwrap_err(),
        RecordingError::EmptyRecording
    ));
    assert!(matches!(
        RecordingReader::new((), Some(decoded("0 1"))).unwrap_err(),
        RecordingError::MissingManifest
    ));
    let mut reader = RecordingReader::new((), Some(decoded("manifest"))).unwrap();
    assert!(matches!(
        reader.read_generation(Some(decoded("manifest"))).unwrap_err(),
        RecordingError::DuplicateManifest
    ));
    let mut again = RecordingReader::new((), Some(decoded("manifest"))).unwrap();
    assert!(again.read_generation(Some(decoded("1 2"))).is_err());
}

#[test]
fn manifests_are_checked() {
    assert!(matches!(
        RecordingManifest::new(" ", "b", "c", "l", vec![]).unwrap_err(),
        RecordingError::EmptyManifestField("run_id")
    ));
    assert!(matches!(
        manifest().with_metadata(" ", "x").unwrap_err(),
        RecordingError::InvalidMetadata { .. }
    ));
    let mut newer = manifest();
    newer.format_version = 2;
    assert!(matches!(
        newer.validate().unwrap_err(),
        RecordingError::UnsupportedFormat {
            actual: 2,
            supported: 1
        }
    ));
    assert!(matches!(
        RecordingManifest::new("r", "b", "c", "l", vec![high(1), high(1)]).unwrap_err(),
        RecordingError::Trigger(_)
    ));
}

fn run_manifest() -> RecordingManifest {
    RecordingManifest::new(
        "synthetic-run",
        "test-build",
        "test-config",
        "test-layout",
        vec![residual_score_trigger().unwrap()],
    )
    .unwrap()
}

fn recorded(generations: usize) -> Vec<GenerationRecord> {
    let mut injector = OuMarketInjector::new(&Native, 12, 42);
    let config = CircuitConfig::default();
    let (mut session, processor) =
        CaptureSession::new(Vec::new(), &run_manifest(), &config).unwrap();
    let mut circuit = Ring::with_processor(processor, config).unwrap();
    for index in 0..generations {
        let update = injector
            .next_frame(&Native, 1_000 + index as i64 * 100)
            .into_update(market_demo_nodes());
        let snapshot = session.evaluate(&update, &Native).unwrap();
        let processed = circuit.process(snapshot);
        let record = session.process(update, processed).unwrap();
        session.written(&record);
        session.sink_mut().push(record);
    }
    session.finish().unwrap()
}

fn replay(records: Vec<GenerationRecord>) -> Result<ReplayReport, ReplayError> {
    let runner = ReplayRunner::default();
    let (mut session, processor) = runner.start(&run_manifest())?;
    let mut circuit =
        Ring::with_processor(processor, runner.circuit_config()).map_err(ReplayError::Circuit)?;
    let first = Some(RecordingLine::Manifest {
        manifest: run_manifest(),
    });
    let mut reader = RecordingReader::new((), first).map_err(ReplayError::Recording)?;
    for record in records {
        let line = RecordingLine::Generation {
            record: Box::new(record),
        };
        let record = reader
            .read_generation(Some(line))
            .map_err(ReplayError::Recording)?
            .unwrap();
        let snapshot = session.evaluate(record.update.clone(), &Native)?;
        let actual = circuit.process(snapshot).map_err(ReplayError::Circuit)?;
        let at = transition_gap(&record.expected.transitions, &actual.output.transitions);
        let transitions = ItemTexts {
            expected: record.expected.transitions.get(at).map(|item| item.key.clone()),
            actual: actual.output.transitions.get(at).map(|item| item.key.clone()),
        };
        let at = state_gap(&record.expected.states, &actual.output.states);
        let states = ItemTexts {
            expected: record.expected.states.get(at).map(|item| item.key.clone()),
            actual: actual.output.states.get(at).map(|item| item.key.clone()),
        };
        session.compare(&record, &actual, &transitions, &states);
    }
    Ok(session.finish())
}

#[test]
fn exact_replay_reproduces_snapshots_state_and_transitions() {
    let report = replay(recorded(20)).unwrap();

    assert!(report.is_exact(), "{report:#?}");
    assert_eq!(report.generations, 20);
    assert!(report.values > 0);
    assert!(report.actual_states > 0);
    assert_eq!(report.expected_states, report.actual_states);
    assert_eq!(report.first_divergence, None);
}

#[test]
fn replay_reports_changed_input() {
    let mut records = recorded(4);
    records[1].update.rows[0]
        .fields
        .insert("model_residual".to_owned(), d(99.0));
    let report = replay(records).unwrap();

    assert!(!report.is_exact());
    assert_eq!(
        report.first_divergence.as_ref().map(|item| item.kind),
        Some(DivergenceKind::SnapshotDigest)
    );
}

#[test]
fn replay_reports_changed_expectations() {
    let mut records = recorded(6);
    let at = records
        .iter()
        .position(|record| !record.expected.states.is_empty())
        .unwrap();
    records[at].expected.states[0].active = !records[at].expected.states[0].active;
    let report = replay(records).unwrap();
    let found = report.first_divergence.unwrap();
    assert_eq!(found.kind, DivergenceKind::TriggerStates);
    assert_eq!(report.divergent_generations, 1);
    assert!(found.expected.starts_with("count=12 first_difference[0]="));
    assert_eq!(report.generations, 6);

    let missing: Option<String> = None;
    assert_eq!(
        render_sequence_item(0, 0, &missing),
        "count=0 first_difference[0]=<missing>"
    );
}

/// Rows as plain values, which have a JSON form.
type PlainRows = Vec<(String, i64, BTreeMap<String, f64>)>;

#[test]
fn serialized_update_recalculates_bitwise_values() {
    let mut injector = OuMarketInjector::new(&Native, 12, 42);
    let update = injector
        .next_frame(&Native, 1_000)
        .into_update(market_demo_nodes());
    let plain: PlainRows = update
        .rows
        .iter()
        .map(|row| {
            let fields = (0..row.fields.len())
                .map(|i| (row.fields.key_at(i).clone(), f(*row.fields.value_at(i))))
                .collect();
            (row.key.clone(), row.observed_at_ms, fields)
        })
        .collect();
    let encoded = serde_json::to_vec(&plain).unwrap();
    let read = serde_json::from_slice::<PlainRows>(&encoded).unwrap();
    let mut decoded = update.clone();
    decoded.rows = read
        .into_iter()
        .map(|(key, observed_at_ms, fields)| {
            let mut row = InputRow::new(&key, observed_at_ms);
            for (name, value) in fields {
                row.fields.insert(name, d(value));
            }
            row
        })
        .collect();
    decoded.mode = ExecutionMode::Replay;

    let live = HypercubeEngine::new().update(update, &Native).unwrap();
    let replay = HypercubeEngine::new().update(decoded, &Native).unwrap();
    assert!(!live.values.is_empty());
    assert_eq!(live.values.len(), replay.values.len());
    for (left, right) in live.values.iter().zip(&replay.values) {
        assert_eq!(
            left.value.to_bits(),
            right.value.to_bits(),
            "{} {}: {} != {}",
            left.node,
            left.key,
            f(left.value),
            f(right.value)
        );
    }
}

#[test]
fn a_frame_out_of_order_is_reported() {
    let mut pending = PendingFrames::new();
    pending.submitted(Some(0), 1).unwrap();
    pending.submitted(Some(1), 2).unwrap();
    let settled = pending.settled(Arrival::Completed(ProcessedFrame {
        circuit_sequence: 1,
        generation: 2,
        output: (),
    }));
    assert_eq!(
        settled.unwrap_err(),
        CircuitError::CompletionMismatch {
            expected_sequence: 0,
            expected_generation: 1,
            actual_sequence: 1,
            actual_generation: 2,
        }
    );
}

#[test]
fn a_submission_knows_its_own_frame() {
    let mut ring = Ring::with_processor(GenerationProcessor, CircuitConfig::default()).unwrap();
    ring.try_submit(empty_snapshot(1)).unwrap();
    let sequence = ring.try_submit(empty_snapshot(2)).unwrap();
    let first = ring.receive().unwrap();
    let second = ring.receive().unwrap();
    assert_eq!(
        PendingFrames::completion(sequence, &first),
        Completion::PassedOver
    );
    assert_eq!(PendingFrames::completion(sequence, &second), Completion::Own);
    assert_eq!(second.generation, 2);
}

#[test]
fn session_errors_are_put_in_words() {
    let words = |error: CaptureError| error.message(&Shown);
    assert_eq!(
        words(CaptureError::Poisoned),
        "capture session is unusable after a post-compute failure"
    );
    assert_eq!(
        words(CaptureError::NegativeSequence(-3)),
        "negative circuit sequence -3 cannot be recorded"
    );
    assert_eq!(
        words(CaptureError::Unrecorded(2)),
        "generation 2 is evaluated but not recorded"
    );
    assert_eq!(
        words(CaptureError::NotEvaluated(3)),
        "generation 3 is not the one evaluated"
    );
    assert_eq!(
        words(CaptureError::Circuit(CircuitError::NothingPending)),
        "no circuit generation is pending"
    );
    assert_eq!(
        ReplayError::Recording(RecordingError::EmptyRecording).message(&Shown),
        "recording is empty"
    );
    assert_eq!(
        ReplayError::Engine(CubeError::DuplicateRow("A".to_owned())).message(&Shown),
        "duplicate row key: A"
    );
}

#[test]
fn sessions_report_what_refused_an_update() {
    let config = CircuitConfig::default();
    let mut doubled = run_manifest();
    doubled.triggers.push(residual_score_trigger().unwrap());
    assert!(matches!(
        CaptureSession::new((), &doubled, &config),
        Err(CaptureError::Trigger(TriggerConfigError::DuplicateTrigger(_)))
    ));
    assert!(matches!(
        ReplayRunner::new(config).start(&doubled),
        Err(ReplayError::Trigger(TriggerConfigError::DuplicateTrigger(_)))
    ));

    let update = |generation: u64| Update {
        generation,
        observed_at_ms: 1,
        mode: ExecutionMode::Live,
        rows: vec![],
        nodes: vec![],
    };
    let (mut session, _processor) =
        CaptureSession::new(Vec::<u8>::new(), &run_manifest(), &config).unwrap();
    let snapshot = session.evaluate(&update(2), &Native).unwrap();
    assert_eq!(session.pending_generation(), Some(2));
    assert_eq!(
        session.evaluate(&update(3), &Native).unwrap_err(),
        CaptureError::Unrecorded(2)
    );
    assert_eq!(
        session
            .process(update(3), Err(CircuitError::NothingPending))
            .unwrap_err(),
        CaptureError::NotEvaluated(3)
    );
    assert!(!session.is_poisoned());
    let mut processor = TriggerProcessor::new(vec![]).unwrap();
    let output = processor.process_snapshot(frame_context(-3, &snapshot), &snapshot);
    let failed = session.process(
        update(2),
        Ok(ProcessedFrame {
            circuit_sequence: -3,
            generation: 2,
            output,
        }),
    );
    assert_eq!(failed.unwrap_err(), CaptureError::NegativeSequence(-3));
    assert!(session.is_poisoned());

    let (mut replaying, _processor) = ReplayRunner::new(config).start(&run_manifest()).unwrap();
    replaying.evaluate(update(2), &Native).unwrap();
    assert!(matches!(
        replaying.evaluate(update(2), &Native),
        Err(ReplayError::Engine(CubeError::StaleGeneration { .. }))
    ));
}

#[test]
fn an_evaluated_generation_is_recorded_before_the_session_goes_on() {
    let config = CircuitConfig::default();
    let update = |generation: u64| Update {
        generation,
        observed_at_ms: 1,
        mode: ExecutionMode::Live,
        rows: vec![],
        nodes: vec![],
    };
    let begun = || {
        let (session, processor) =
            CaptureSession::new(Vec::<u8>::new(), &run_manifest(), &config).unwrap();
        (session, Ring::with_processor(processor, config).unwrap())
    };
    let (mut open, _circuit) = begun();
    open.evaluate(&update(2), &Native).unwrap();
    assert_eq!(open.finish().unwrap_err(), CaptureError::Unrecorded(2));

    let (mut session, mut circuit) = begun();
    let snapshot = session.evaluate(&update(2), &Native).unwrap();
    let record = session.process(update(2), circuit.process(snapshot)).unwrap();
    session.written(&record);
    assert_eq!(session.pending_generation(), None);
    assert!(matches!(
        session.evaluate(&update(1), &Native),
        Err(CaptureError::Engine(CubeError::StaleGeneration {
            generation: 1,
            previous: 2
        }))
    ));
    assert_eq!(session.next_sequence(), 1);
    assert_eq!(session.finish(), Ok(Vec::new()));
}

struct Shown;

impl Rendering for Shown {
    fn shown(&self, x: Double) -> String {
        f(x).to_string()
    }
}

#[test]
fn recording_errors_are_put_in_words() {
    let words = |error: RecordingError| error.message(&Shown);
    assert_eq!(
        words(RecordingError::UnsupportedFormat {
            actual: 2,
            supported: 1
        }),
        "unsupported recording format 2; supported version is 1"
    );
    assert_eq!(
        words(manifest().with_metadata(" \n", "x").unwrap_err()),
        "recording metadata key and value must be nonempty: \" \\n\""
    );
    assert_eq!(
        words(RecordingError::NonIncreasingGeneration {
            previous: 7,
            actual: 5
        }),
        "generation 5 is not newer than 7"
    );
    let trigger = ThresholdTriggerSpec::new("high", "score", d(0.5), d(1.25), 1).unwrap_err();
    assert_eq!(
        words(RecordingError::Trigger(trigger)),
        "trigger high must enter above its exit threshold: enter=0.5, exit=1.25"
    );
    assert_eq!(
        words(RecordingError::EmptyManifestField("run_id")),
        "recording manifest field run_id cannot be empty"
    );
}

#[test]
fn frames_say_what_changed_for_each_entity() {
    let mut processor = TriggerProcessor::new(vec![high(2)]).unwrap();
    let first = processor.process_snapshot(context(1), &observed(1, &[("B", 1.5), ("A", 1.5)]));
    let counts: Vec<(&str, u32)> = first
        .states
        .iter()
        .map(|state| (state.key.as_str(), state.qualifying_generations))
        .collect();
    assert_eq!(counts, vec![("A", 1), ("B", 1)]);
    let second = processor.process_snapshot(context(2), &observed(2, &[("B", 1.5), ("A", 0.0)]));
    assert_eq!(second.transitions.len(), 1);
    let only = &second.transitions[0];
    assert_eq!((only.key.as_str(), only.generation), ("B", 2));
    assert_eq!(only.kind, TriggerTransitionKind::Entered);
    assert_eq!(only.value, Some(d(1.5)));
    let rows: Vec<(bool, u32)> = second
        .states
        .iter()
        .map(|state| (state.active, state.qualifying_generations))
        .collect();
    assert_eq!(rows, vec![(false, 0), (true, 0)]);
}

#[test]
fn the_first_difference_of_a_generation_is_the_one_reported() {
    let none = || ItemTexts {
        expected: None,
        actual: None,
    };
    let compared = |change: fn(&mut ProcessedFrame<TriggerFrame>)| {
        let runner = ReplayRunner::default();
        let (mut session, _processor) = runner.start(&run_manifest()).unwrap();
        let kept = record(0, 1);
        let mut actual = ProcessedFrame {
            circuit_sequence: 0,
            generation: 1,
            output: kept.expected.clone(),
        };
        change(&mut actual);
        session.compare(&kept, &actual, &none(), &none());
        session.finish()
    };
    assert!(compared(|_| {}).is_exact());
    let found = compared(|actual| {
        actual.circuit_sequence = 4;
        actual.output.snapshot.hash = 9;
    });
    let first = found.first_divergence.clone().unwrap();
    assert_eq!(first.kind, DivergenceKind::CircuitSequence);
    assert_eq!((first.expected.as_str(), first.actual.as_str()), ("0", "4"));
    assert_eq!(found.divergent_generations, 1);
    let entered = compared(|actual| {
        let mut processor = TriggerProcessor::new(vec![high(1)]).unwrap();
        let snapshot = observed(1, &[("A", 1.5)]);
        let frame = processor.process_snapshot(context(1), &snapshot);
        actual.output.transitions = frame.transitions;
    });
    assert_eq!(
        entered.first_divergence.clone().map(|first| first.kind),
        Some(DivergenceKind::TriggerTransitions)
    );
    assert_eq!(entered.clone(), entered);
}

#[test]
fn a_copy_of_a_processor_goes_on_alike() {
    let mut processor = TriggerProcessor::new(vec![high(2)]).unwrap();
    processor.process_snapshot(context(1), &observed(1, &[("A", 1.1)]));
    let mut copy = processor.clone();
    let snapshot = observed(2, &[("A", 1.2)]);
    let frame = processor.process_snapshot(context(2), &snapshot);
    assert_eq!(frame.transitions.len(), 1);
    assert_eq!(copy.process_snapshot(context(2), &snapshot), frame);
    assert_eq!(manifest().clone(), manifest());
    assert_eq!(record(3, 4).clone(), record(3, 4));
}

#[test]
fn a_failure_after_evaluation_poisons_the_session() {
    let config = CircuitConfig::default();
    let (mut session, _processor) =
        CaptureSession::new(Vec::<u8>::new(), &run_manifest(), &config).unwrap();
    let update = || Update {
        generation: 1,
        observed_at_ms: 1,
        mode: ExecutionMode::Live,
        rows: vec![],
        nodes: vec![],
    };
    session.evaluate(&update(), &Native).unwrap();
    let failed = session.process(update(), Err(CircuitError::ProcessorDisconnected));
    assert!(matches!(failed, Err(CaptureError::Circuit(_))));
    assert!(session.is_poisoned());
    assert!(matches!(
        session.process(update(), Err(CircuitError::NothingPending)),
        Err(CaptureError::Poisoned)
    ));
    assert!(matches!(
        session.evaluate(&update(), &Native),
        Err(CaptureError::Poisoned)
    ));
    assert!(matches!(session.finish(), Err(CaptureError::Poisoned)));

    let bad = CircuitConfig {
        ring_size: 1,
        ..CircuitConfig::default()
    };
    assert!(matches!(
        CaptureSession::new((), &run_manifest(), &bad),
        Err(CaptureError::Circuit(CircuitError::InvalidRingSize(1)))
    ));
    let (mut fresh, _processor) =
        CaptureSession::new(Vec::<u8>::new(), &run_manifest(), &config).unwrap();
    let mut unfit = update();
    unfit.rows = vec![InputRow::new("A", 1).with_field("x", d(f64::INFINITY))];
    assert!(matches!(
        fresh.evaluate(&unfit, &Native),
        Err(CaptureError::Recording(_))
    ));
    assert!(!fresh.is_poisoned());
}
