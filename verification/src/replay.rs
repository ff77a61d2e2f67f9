//! Comparison of a recording with its re-evaluation.

use crate::circuit::{CircuitConfig, CircuitError, CircuitWaitStrategy, ProcessedFrame};
use crate::cube::{CubeError, ExecutionMode, Snapshot, Update};
use crate::engine::HypercubeEngine;
use crate::number::{Arithmetic, Double, Rendering};
use crate::recording::{
    GenerationRecord, RecordingError, RecordingLine, RecordingManifest, RecordingReader,
};
use crate::text::{push_decimal, push_signed_decimal, same_text};
use crate::trigger::{
    copied_triggers, TriggerConfigError, TriggerFrame, TriggerProcessor, TriggerState,
    TriggerTransition,
};
use vstd::prelude::*;
use vstd::string::*;

verus! {

/// Kind of semantic discrepancy found during replay.
#[derive(Debug, Clone, Copy, PartialEq, Eq, Structural)]
pub enum DivergenceKind {
    /// Replayed circuit sequence differed from the recording.
    CircuitSequence,
    /// Calculated Hypercube snapshot digest differed.
    SnapshotDigest,
    /// Stateful trigger transitions differed.
    TriggerTransitions,
    /// Complete stateful trigger cross-section differed.
    TriggerStates,
}

/// First concrete expected-versus-actual discrepancy in a replay.
#[derive(Debug, PartialEq, Eq)]
pub struct Divergence {
    /// Hypercube generation containing the discrepancy.
    pub generation: u64,
    /// Semantic category that differed.
    pub kind: DivergenceKind,
    /// Compact expected representation.
    pub expected: String,
    /// Compact replayed representation.
    pub actual: String,
}

/// What a [`Divergence`] holds.
#[verifier::ext_equal]
pub struct DivergenceView {
    /// Generation.
    pub generation: u64,
    /// Category.
    pub kind: DivergenceKind,
    /// Expected representation.
    pub expected: Seq<char>,
    /// Replayed representation.
    pub actual: Seq<char>,
}

impl View for Divergence {
    type V = DivergenceView;

    open spec fn view(&self) -> DivergenceView {
        DivergenceView {
            generation: self.generation,
            kind: self.kind,
            expected: self.expected@,
            actual: self.actual@,
        }
    }
}

impl Clone for Divergence {
    fn clone(&self) -> (copy: Self)
        ensures
            copy@ == self@,
    {
        Divergence {
            generation: self.generation,
            kind: self.kind,
            expected: self.expected.clone(),
            actual: self.actual.clone(),
        }
    }
}

/// Aggregate exactness report for one replay run.
#[derive(Debug, PartialEq, Eq)]
pub struct ReplayReport {
    /// Original run identifier from the recording manifest.
    pub source_run_id: String,
    /// Build identifier from the recording manifest.
    pub source_build_id: String,
    /// Number of complete generations replayed.
    pub generations: usize,
    /// Number of calculated cell values checked.
    pub values: usize,
    /// Number of transitions recorded in the original run.
    pub expected_transitions: usize,
    /// Number of transitions emitted during replay.
    pub actual_transitions: usize,
    /// Number of trigger-state cells recorded in the original run.
    pub expected_states: usize,
    /// Number of trigger-state cells reconstructed during replay.
    pub actual_states: usize,
    /// Number of generations containing at least one discrepancy.
    pub divergent_generations: usize,
    /// Earliest concrete divergence, if any.
    pub first_divergence: Option<Divergence>,
}

/// What a [`ReplayReport`] holds.
#[verifier::ext_equal]
pub struct ReportView {
    /// Run.
    pub source_run_id: Seq<char>,
    /// Build.
    pub source_build_id: Seq<char>,
    /// Generations.
    pub generations: usize,
    /// Values.
    pub values: usize,
    /// Recorded transitions.
    pub expected_transitions: usize,
    /// Replayed transitions.
    pub actual_transitions: usize,
    /// Recorded states.
    pub expected_states: usize,
    /// Replayed states.
    pub actual_states: usize,
    /// Generations with a discrepancy.
    pub divergent_generations: usize,
    /// Earliest discrepancy.
    pub first_divergence: Option<DivergenceView>,
}

/// What an optional divergence holds.
pub open spec fn divergence_view(divergence: Option<Divergence>) -> Option<DivergenceView> {
    match divergence {
        Some(found) => Some(found@),
        None => None,
    }
}

impl View for ReplayReport {
    type V = ReportView;

    open spec fn view(&self) -> ReportView {
        ReportView {
            source_run_id: self.source_run_id@,
            source_build_id: self.source_build_id@,
            generations: self.generations,
            values: self.values,
            expected_transitions: self.expected_transitions,
            actual_transitions: self.actual_transitions,
            expected_states: self.expected_states,
            actual_states: self.actual_states,
            divergent_generations: self.divergent_generations,
            first_divergence: divergence_view(self.first_divergence),
        }
    }
}

impl Clone for ReplayReport {
    fn clone(&self) -> (copy: Self)
        ensures
            copy@ == self@,
    {
        let first_divergence = match &self.first_divergence {
            Some(found) => Some(found.clone()),
            None => None,
        };
        ReplayReport {
            source_run_id: self.source_run_id.clone(),
            source_build_id: self.source_build_id.clone(),
            generations: self.generations,
            values: self.values,
            expected_transitions: self.expected_transitions,
            actual_transitions: self.actual_transitions,
            expected_states: self.expected_states,
            actual_states: self.actual_states,
            divergent_generations: self.divergent_generations,
            first_divergence,
        }
    }
}

impl ReplayReport {
    /// Return true when every generation, digest, and transition matched.
    pub fn is_exact(&self) -> (exact: bool)
        ensures
            exact == (self.divergent_generations == 0),
    {
        self.divergent_generations == 0
    }
}

/// Failure to construct or execute a replay.
#[derive(Debug, PartialEq)]
pub enum ReplayError {
    /// Recording input was malformed or inconsistent.
    Recording(RecordingError),
    /// Stateful trigger configuration was invalid.
    Trigger(TriggerConfigError),
    /// Hypercube rejected a recorded update.
    Engine(CubeError),
    /// Submission or completion failed.
    Circuit(CircuitError),
}

impl ReplayError {
    /// Whether a text says what failed, with the thresholds of a trigger as a
    /// rendering may write them.
    pub open spec fn said<R: Rendering>(self, rendering: &R, text: Seq<char>) -> bool {
        match self {
            ReplayError::Recording(fault) => fault@.said(rendering, text),
            ReplayError::Trigger(fault) => fault@.said(rendering, text),
            ReplayError::Engine(fault) => text == fault@.message(),
            ReplayError::Circuit(fault) => text == fault.said(),
        }
    }

    /// Say what failed.
    pub fn message<R: Rendering>(&self, rendering: &R) -> (text: String)
        ensures
            self.said(rendering, text@),
    {
        match self {
            ReplayError::Recording(fault) => fault.message(rendering),
            ReplayError::Trigger(fault) => fault.message(rendering),
            ReplayError::Engine(fault) => fault.message(),
            ReplayError::Circuit(fault) => fault.message(),
        }
    }
}

/// A sum that stays at the largest machine integer.
pub open spec fn total(a: usize, b: nat) -> usize {
    if a + b <= usize::MAX {
        (a + b) as usize
    } else {
        usize::MAX
    }
}

/// Whether two observed values are the same as numbers.
pub open spec fn same_value(a: Option<Double>, b: Option<Double>) -> bool {
    match (a, b) {
        (Some(x), Some(y)) => x.eq_number(y),
        (None, None) => true,
        _ => false,
    }
}

/// Whether two transitions are the same.
pub open spec fn same_transition(
    a: crate::trigger::TransitionView,
    b: crate::trigger::TransitionView,
) -> bool {
    &&& a.trigger == b.trigger
    &&& a.node == b.node
    &&& a.key == b.key
    &&& a.generation == b.generation
    &&& a.observed_at_ms == b.observed_at_ms
    &&& a.kind == b.kind
    &&& same_value(a.value, b.value)
}

/// The first position from `i` on at which two sequences differ, or the length
/// of the shorter one where they agree that far.
pub open spec fn gap_from<T>(
    a: Seq<T>,
    b: Seq<T>,
    same: spec_fn(T, T) -> bool,
    i: int,
) -> int
    decreases a.len() - i,
{
    if i >= a.len() || i >= b.len() || !same(a[i], b[i]) {
        i
    } else {
        gap_from(a, b, same, i + 1)
    }
}

/// Whether two sequences are the same throughout.
pub open spec fn same_all<T>(a: Seq<T>, b: Seq<T>, same: spec_fn(T, T) -> bool) -> bool {
    gap_from(a, b, same, 0) == a.len() && a.len() == b.len()
}

/// The relation of transitions that counts as no difference.
pub open spec fn transitions_alike() -> spec_fn(
    crate::trigger::TransitionView,
    crate::trigger::TransitionView,
) -> bool {
    |a: crate::trigger::TransitionView, b: crate::trigger::TransitionView| same_transition(a, b)
}

/// The relation of states that counts as no difference.
pub open spec fn states_alike() -> spec_fn(
    crate::trigger::StateView,
    crate::trigger::StateView,
) -> bool {
    |a: crate::trigger::StateView, b: crate::trigger::StateView| a == b
}

/// How a sequence is shown at the first difference, given how its item there
/// is shown, if it has one.
pub open spec fn item_shown(count: nat, index: nat, item: Option<Seq<char>>) -> Seq<char> {
    "count="@ + crate::text::decimal(count) + " first_difference["@ + crate::text::decimal(index)
        + "]="@ + match item {
        Some(text) => text,
        None => "<missing>"@,
    }
}

/// How the two items at the first difference are shown.
#[derive(Debug, PartialEq, Eq)]
pub struct ItemTexts {
    /// The recorded item, if there is one.
    pub expected: Option<String>,
    /// The replayed item, if there is one.
    pub actual: Option<String>,
}

/// A text that may be there.
pub open spec fn text_view(text: Option<String>) -> Option<Seq<char>> {
    match text {
        Some(t) => Some(t@),
        None => None,
    }
}

/// Show a sequence at the first difference.
pub fn render_sequence_item(count: usize, index: usize, item: &Option<String>) -> (text: String)
    ensures
        text@ == item_shown(count as nat, index as nat, text_view(*item)),
{
    let mut text: String = "count=".to_owned();
    push_decimal(&mut text, count as u64);
    text.append(" first_difference[");
    push_decimal(&mut text, index as u64);
    text.append("]=");
    match item {
        Some(shown) => {
            text.append(shown.as_str());
        },
        None => {
            text.append("<missing>");
        },
    }
    text
}

fn transition_matches(a: &TriggerTransition, b: &TriggerTransition) -> (same: bool)
    ensures
        same == same_transition(a@, b@),
{
    let values: bool = match (a.value, b.value) {
        (Some(x), Some(y)) => x.equals(y),
        (None, None) => true,
        _ => false,
    };
    values && same_text(a.trigger.as_str(), b.trigger.as_str()) && same_text(
        a.node.as_str(),
        b.node.as_str(),
    ) && same_text(a.key.as_str(), b.key.as_str()) && a.generation == b.generation
        && a.observed_at_ms == b.observed_at_ms && a.kind == b.kind
}

fn state_matches(a: &TriggerState, b: &TriggerState) -> (same: bool)
    ensures
        same == (a@ == b@),
{
    same_text(a.trigger.as_str(), b.trigger.as_str()) && same_text(
        a.node.as_str(),
        b.node.as_str(),
    ) && same_text(a.key.as_str(), b.key.as_str()) && a.active == b.active
        && a.qualifying_generations == b.qualifying_generations
}

/// Return the position at which two lists of transitions first differ.
pub fn transition_gap(expected: &Vec<TriggerTransition>, actual: &Vec<TriggerTransition>) -> (at:
    usize)
    ensures
        at == gap_from(
            crate::text::views(expected@),
            crate::text::views(actual@),
            transitions_alike(),
            0,
        ),
        at <= expected@.len(),
        at <= actual@.len(),
{
    let ghost a = crate::text::views(expected@);
    let ghost b = crate::text::views(actual@);
    let mut i: usize = 0;
    while i < expected.len() && i < actual.len()
        invariant
            0 <= i <= expected@.len(),
            i <= actual@.len(),
            a == crate::text::views(expected@),
            b == crate::text::views(actual@),
            gap_from(a, b, transitions_alike(), 0) == gap_from(
                a,
                b,
                transitions_alike(),
                i as int,
            ),
        decreases expected@.len() - i,
    {
        assert(a[i as int] == expected@[i as int]@ && b[i as int] == actual@[i as int]@);
        if !transition_matches(&expected[i], &actual[i]) {
            return i;
        }
        i = i + 1;
    }
    i
}

/// Return the position at which two lists of states first differ.
pub fn state_gap(expected: &Vec<TriggerState>, actual: &Vec<TriggerState>) -> (at: usize)
    ensures
        at == gap_from(
            crate::text::views(expected@),
            crate::text::views(actual@),
            states_alike(),
            0,
        ),
        at <= expected@.len(),
        at <= actual@.len(),
{
    let ghost a = crate::text::views(expected@);
    let ghost b = crate::text::views(actual@);
    let mut i: usize = 0;
    while i < expected.len() && i < actual.len()
        invariant
            0 <= i <= expected@.len(),
            i <= actual@.len(),
            a == crate::text::views(expected@),
            b == crate::text::views(actual@),
            gap_from(a, b, states_alike(), 0) == gap_from(a, b, states_alike(), i as int),
        decreases expected@.len() - i,
    {
        assert(a[i as int] == expected@[i as int]@ && b[i as int] == actual@[i as int]@);
        if !state_matches(&expected[i], &actual[i]) {
            return i;
        }
        i = i + 1;
    }
    i
}

/// The difference in sequence, if there is one.
pub open spec fn sequence_divergence(
    generation: u64,
    expected: u64,
    actual: i64,
) -> Option<DivergenceView> {
    if expected == actual {
        None
    } else {
        Some(
            DivergenceView {
                generation,
                kind: DivergenceKind::CircuitSequence,
                expected: crate::text::decimal(expected as nat),
                actual: crate::text::signed_decimal(actual as int),
            },
        )
    }
}

/// The difference in digest, if there is one.
pub open spec fn digest_divergence(
    generation: u64,
    expected: crate::digest::DigestView,
    actual: crate::digest::DigestView,
) -> Option<DivergenceView> {
    if expected == actual {
        None
    } else {
        Some(
            DivergenceView {
                generation,
                kind: DivergenceKind::SnapshotDigest,
                expected: expected.shown(),
                actual: actual.shown(),
            },
        )
    }
}

/// The difference in transitions, if there is one.
pub open spec fn transition_divergence(
    generation: u64,
    expected: Seq<crate::trigger::TransitionView>,
    actual: Seq<crate::trigger::TransitionView>,
    texts: ItemTexts,
) -> Option<DivergenceView> {
    if same_all(expected, actual, transitions_alike()) {
        None
    } else {
        let at = gap_from(expected, actual, transitions_alike(), 0);
        Some(
            DivergenceView {
                generation,
                kind: DivergenceKind::TriggerTransitions,
                expected: item_shown(expected.len(), at as nat, text_view(texts.expected)),
                actual: item_shown(actual.len(), at as nat, text_view(texts.actual)),
            },
        )
    }
}

/// The difference in states, if there is one.
pub open spec fn state_divergence(
    generation: u64,
    expected: Seq<crate::trigger::StateView>,
    actual: Seq<crate::trigger::StateView>,
    texts: ItemTexts,
) -> Option<DivergenceView> {
    if same_all(expected, actual, states_alike()) {
        None
    } else {
        let at = gap_from(expected, actual, states_alike(), 0);
        Some(
            DivergenceView {
                generation,
                kind: DivergenceKind::TriggerStates,
                expected: item_shown(expected.len(), at as nat, text_view(texts.expected)),
                actual: item_shown(actual.len(), at as nat, text_view(texts.actual)),
            },
        )
    }
}

/// The first that is there.
pub open spec fn first_of(
    a: Option<DivergenceView>,
    b: Option<DivergenceView>,
) -> Option<DivergenceView> {
    match a {
        Some(found) => Some(found),
        None => b,
    }
}

/// The first difference between a record and its replay: in sequence, digest,
/// transitions or states, in this order.
pub open spec fn divergence_of(
    record: crate::recording::RecordView,
    sequence: i64,
    frame: crate::trigger::FrameView,
    transitions: ItemTexts,
    states: ItemTexts,
) -> Option<DivergenceView> {
    first_of(
        sequence_divergence(frame.generation, record.circuit_sequence, sequence),
        first_of(
            digest_divergence(frame.generation, record.expected.snapshot, frame.snapshot),
            first_of(
                transition_divergence(
                    frame.generation,
                    record.expected.transitions,
                    frame.transitions,
                    transitions,
                ),
                state_divergence(frame.generation, record.expected.states, frame.states, states),
            ),
        ),
    )
}

/// A report with one more generation.
pub open spec fn compared(
    report: ReportView,
    record: crate::recording::RecordView,
    sequence: i64,
    frame: crate::trigger::FrameView,
    transitions: ItemTexts,
    states: ItemTexts,
) -> ReportView {
    let divergence = divergence_of(record, sequence, frame, transitions, states);
    ReportView {
        generations: (report.generations + 1) as usize,
        values: total(report.values, frame.snapshot.values as nat),
        expected_transitions: total(
            report.expected_transitions,
            record.expected.transitions.len(),
        ),
        actual_transitions: total(report.actual_transitions, frame.transitions.len()),
        expected_states: total(report.expected_states, record.expected.states.len()),
        actual_states: total(report.actual_states, frame.states.len()),
        divergent_generations: if divergence is Some {
            (report.divergent_generations + 1) as usize
        } else {
            report.divergent_generations
        },
        first_divergence: first_of(report.first_divergence, divergence),
        ..report
    }
}

fn first_difference(
    record: &GenerationRecord,
    actual: &ProcessedFrame<TriggerFrame>,
    transitions: &ItemTexts,
    states: &ItemTexts,
) -> (divergence: Option<Divergence>)
    ensures
        divergence_view(divergence) == divergence_of(
            record@,
            actual.circuit_sequence,
            actual.output@,
            *transitions,
            *states,
        ),
{
    let generation: u64 = actual.output.generation;
    let in_sequence: bool = actual.circuit_sequence >= 0 && actual.circuit_sequence as u64
        == record.circuit_sequence;
    if !in_sequence {
        let mut wanted: String = String::new();
        push_decimal(&mut wanted, record.circuit_sequence);
        let mut given: String = String::new();
        push_signed_decimal(&mut given, actual.circuit_sequence);
        assert(wanted@ =~= crate::text::decimal(record.circuit_sequence as nat));
        assert(given@ =~= crate::text::signed_decimal(actual.circuit_sequence as int));
        return Some(
            Divergence {
                generation,
                kind: DivergenceKind::CircuitSequence,
                expected: wanted,
                actual: given,
            },
        );
    }
    if !record.expected.snapshot.matches(&actual.output.snapshot) {
        return Some(
            Divergence {
                generation,
                kind: DivergenceKind::SnapshotDigest,
                expected: record.expected.snapshot.shown(),
                actual: actual.output.snapshot.shown(),
            },
        );
    }
    let at: usize = transition_gap(&record.expected.transitions, &actual.output.transitions);
    if at < record.expected.transitions.len() || at < actual.output.transitions.len() {
        return Some(
            Divergence {
                generation,
                kind: DivergenceKind::TriggerTransitions,
                expected: render_sequence_item(
                    record.expected.transitions.len(),
                    at,
                    &transitions.expected,
                ),
                actual: render_sequence_item(
                    actual.output.transitions.len(),
                    at,
                    &transitions.actual,
                ),
            },
        );
    }
    let place: usize = state_gap(&record.expected.states, &actual.output.states);
    if place < record.expected.states.len() || place < actual.output.states.len() {
        return Some(
            Divergence {
                generation,
                kind: DivergenceKind::TriggerStates,
                expected: render_sequence_item(
                    record.expected.states.len(),
                    place,
                    &states.expected,
                ),
                actual: render_sequence_item(actual.output.states.len(), place, &states.actual),
            },
        );
    }
    None
}

/// Deterministic lockstep runner over a versioned generation recording.
#[derive(Debug, Clone, Copy)]
pub struct ReplayRunner {
    circuit_config: CircuitConfig,
}

impl Default for ReplayRunner {
    fn default() -> (runner: Self)
        ensures
            runner.settings().ring_size == 16,
            runner.settings().wait_strategy matches CircuitWaitStrategy::Sleep(nap)
                && crate::clock::micros_of(nap) == 50,
            crate::clock::micros_of(runner.settings().completion_timeout) == 5_000_000,
    {
        ReplayRunner { circuit_config: CircuitConfig::default() }
    }
}

impl ReplayRunner {
    /// The settings of the circuit.
    pub closed spec fn settings(self) -> CircuitConfig {
        self.circuit_config
    }

    /// Construct a runner with the supplied circuit settings.
    pub fn new(circuit_config: CircuitConfig) -> (runner: Self)
        ensures
            runner.settings() == circuit_config,
    {
        ReplayRunner { circuit_config }
    }

    /// Return the settings of the circuit.
    pub fn circuit_config(&self) -> (config: CircuitConfig)
        ensures
            config == self.settings(),
    {
        self.circuit_config
    }

    /// Start a replay with a fresh engine, fresh trigger state and an empty
    /// report. The processor is for the circuit that the caller runs.
    pub fn start(&self, manifest: &RecordingManifest) -> (result: Result<
        (ReplaySession, TriggerProcessor),
        ReplayError,
    >)
        ensures
            match crate::trigger::triggers_fault(
                manifest@.triggers,
                manifest@.triggers.len() as int,
            ) {
                Some(fault) => result matches Err(ReplayError::Trigger(e)) && e@ == fault,
                None => if !crate::circuit::ring_fits(self.settings().ring_size) {
                    result matches Err(ReplayError::Circuit(e)) && e
                        == CircuitError::InvalidRingSize(self.settings().ring_size)
                } else {
                    result is Ok
                },
            },
            result matches Ok(started) ==> {
                &&& started.0.report()@ == empty_report(
                    manifest@.run_id,
                    manifest@.build_id,
                )
                &&& started.0.generation() is None
                &&& started.1.rules() == manifest@.triggers
                &&& started.1.progress() == Seq::new(
                    manifest@.triggers.len(),
                    |i: int| Seq::<(Seq<char>, crate::trigger::Progress)>::empty(),
                )
            },
    {
        let processor = match TriggerProcessor::new(copied_triggers(&manifest.triggers)) {
            Ok(processor) => processor,
            Err(fault) => {
                return Err(ReplayError::Trigger(fault));
            },
        };
        match self.circuit_config.validate() {
            Ok(()) => {},
            Err(fault) => {
                return Err(ReplayError::Circuit(fault));
            },
        }
        let session = ReplaySession {
            engine: HypercubeEngine::new(),
            report: ReplayReport {
                source_run_id: manifest.run_id.clone(),
                source_build_id: manifest.build_id.clone(),
                generations: 0,
                values: 0,
                expected_transitions: 0,
                actual_transitions: 0,
                expected_states: 0,
                actual_states: 0,
                divergent_generations: 0,
                first_divergence: None,
            },
        };
        Ok((session, processor))
    }
}

/// The report before the first generation.
pub open spec fn empty_report(run_id: Seq<char>, build_id: Seq<char>) -> ReportView {
    ReportView {
        source_run_id: run_id,
        source_build_id: build_id,
        generations: 0,
        values: 0,
        expected_transitions: 0,
        actual_transitions: 0,
        expected_states: 0,
        actual_states: 0,
        divergent_generations: 0,
        first_divergence: None,
    }
}

/// An update as it is evaluated in a replay.
pub open spec fn replayed(update: crate::cube::UpdateView) -> crate::cube::UpdateView {
    crate::cube::UpdateView { mode: ExecutionMode::Replay, ..update }
}

/// A replay in progress.
#[derive(Debug)]
pub struct ReplaySession {
    engine: HypercubeEngine,
    report: ReplayReport,
}

impl ReplaySession {
    #[verifier::type_invariant]
    spec fn well_formed(self) -> bool {
        self.report.divergent_generations <= self.report.generations
    }

    /// The report so far.
    pub closed spec fn report(self) -> ReplayReport {
        self.report
    }

    /// The last generation that the engine completed.
    pub closed spec fn generation(self) -> Option<u64> {
        self.engine.generation()
    }

    /// Evaluate a recorded update in replay mode.
    pub fn evaluate<A: Arithmetic>(&mut self, update: Update, math: &A) -> (result: Result<
        Snapshot,
        ReplayError,
    >)
        ensures
            match crate::engine::update_fault(old(self).generation(), replayed(update@)) {
                Some(fault) => {
                    &&& result matches Err(ReplayError::Engine(e)) && e@ == fault
                    &&& final(self).generation() == old(self).generation()
                },
                None => {
                    &&& result matches Ok(snapshot) && crate::engine::answers(
                        math,
                        replayed(update@),
                        snapshot@,
                    )
                    &&& final(self).generation() == Some(update.generation)
                },
            },
            final(self).report() == old(self).report(),
    {
        proof {
            use_type_invariant(&*self);
        }
        let mut update = update;
        update.mode = ExecutionMode::Replay;
        let mut engine = HypercubeEngine::new();
        std::mem::swap(&mut engine, &mut self.engine);
        let result = engine.update(update, math);
        self.engine = engine;
        match result {
            Ok(snapshot) => Ok(snapshot),
            Err(fault) => Err(ReplayError::Engine(fault)),
        }
    }

    /// Compare a record with what the circuit gave for it, and count it.
    /// `transitions` and `states` show the items at the first difference, as
    /// [`transition_gap`] and [`state_gap`] give it.
    pub fn compare(
        &mut self,
        record: &GenerationRecord,
        actual: &ProcessedFrame<TriggerFrame>,
        transitions: &ItemTexts,
        states: &ItemTexts,
    )
        requires
            old(self).report().generations < usize::MAX,
        ensures
            final(self).report()@ == compared(
                old(self).report()@,
                record@,
                actual.circuit_sequence,
                actual.output@,
                *transitions,
                *states,
            ),
            final(self).generation() == old(self).generation(),
    {
        proof {
            use_type_invariant(&*self);
        }
        let divergence = first_difference(record, actual, transitions, states);
        self.report.generations = self.report.generations + 1;
        self.report.values = self.report.values.saturating_add(actual.output.snapshot.values);
        self.report.expected_transitions =
            self.report.expected_transitions.saturating_add(record.expected.transitions.len());
        self.report.actual_transitions =
            self.report.actual_transitions.saturating_add(actual.output.transitions.len());
        self.report.expected_states =
            self.report.expected_states.saturating_add(record.expected.states.len());
        self.report.actual_states =
            self.report.actual_states.saturating_add(actual.output.states.len());
        if divergence.is_some() {
            self.report.divergent_generations = self.report.divergent_generations + 1;
            if self.report.first_divergence.is_none() {
                self.report.first_divergence = divergence;
            }
        }
    }

    /// Return the number of generations compared so far.
    pub fn generations(&self) -> (n: usize)
        ensures
            n == self.report().generations,
    {
        self.report.generations
    }

    /// End the replay and return its report.
    pub fn finish(self) -> (report: ReplayReport)
        ensures
            report == self.report(),
    {
        let ReplaySession { engine: _, report } = self;
        report
    }
}

/// How far the entities of some triggers are at the start: nowhere.
pub open spec fn no_progress(rules: Seq<crate::trigger::ThresholdView>) -> Seq<
    Seq<(Seq<char>, crate::trigger::Progress)>,
> {
    Seq::new(rules.len(), |i: int| Seq::<(Seq<char>, crate::trigger::Progress)>::empty())
}

/// Whether evaluating an update and processing its snapshot, at a sequence and
/// with the entities as far as they are, can give a frame and take the
/// entities further.
pub open spec fn yields<A: Arithmetic>(
    math: &A,
    rules: Seq<crate::trigger::ThresholdView>,
    tables: Seq<Seq<(Seq<char>, crate::trigger::Progress)>>,
    update: crate::cube::UpdateView,
    sequence: i64,
    frame: crate::trigger::FrameView,
    after: Seq<Seq<(Seq<char>, crate::trigger::Progress)>>,
) -> bool {
    exists|snapshot: crate::cube::SnapshotView, context: crate::circuit::FrameContext|
        {
            &&& #[trigger] crate::engine::answers(math, update, snapshot)
            &&& #[trigger] context.describes(sequence, snapshot)
            &&& frame == crate::trigger::frame_of(rules, tables, context, snapshot)
            &&& after == crate::trigger::all_advanced(rules, snapshot.values, tables)
        }
}

/// Whether records are those of a live run: each holds the frame that its
/// update gave, with the entities as far as the records before took them.
pub open spec fn captured<A: Arithmetic>(
    math: &A,
    rules: Seq<crate::trigger::ThresholdView>,
    records: Seq<crate::recording::RecordView>,
    history: Seq<Seq<Seq<(Seq<char>, crate::trigger::Progress)>>>,
) -> bool {
    &&& history.len() == records.len() + 1
    &&& history[0] == no_progress(rules)
    &&& forall|i: int|
        0 <= i < records.len() ==> yields(
            math,
            rules,
            history[i],
            (#[trigger] records[i]).update,
            records[i].circuit_sequence as i64,
            records[i].expected,
            history[i + 1],
        )
}

/// Whether frames are those of a replay of records.
pub open spec fn reproduced<A: Arithmetic>(
    math: &A,
    rules: Seq<crate::trigger::ThresholdView>,
    records: Seq<crate::recording::RecordView>,
    frames: Seq<ProcessedFrame<crate::trigger::FrameView>>,
    history: Seq<Seq<Seq<(Seq<char>, crate::trigger::Progress)>>>,
) -> bool {
    &&& frames.len() == records.len()
    &&& history.len() == records.len() + 1
    &&& history[0] == no_progress(rules)
    &&& forall|i: int|
        0 <= i < records.len() ==> yields(
            math,
            rules,
            history[i],
            replayed((#[trigger] records[i]).update),
            frames[i].circuit_sequence,
            frames[i].output,
            history[i + 1],
        )
}

/// Replaying one generation in the same state gives the same frame and takes
/// the entities equally far, whatever sequence the circuit gives it.
pub proof fn lemma_replay_step<A: Arithmetic>(
    math: &A,
    rules: Seq<crate::trigger::ThresholdView>,
    tables: Seq<Seq<(Seq<char>, crate::trigger::Progress)>>,
    update: crate::cube::UpdateView,
    live_sequence: i64,
    live: crate::trigger::FrameView,
    live_after: Seq<Seq<(Seq<char>, crate::trigger::Progress)>>,
    sequence: i64,
    frame: crate::trigger::FrameView,
    after: Seq<Seq<(Seq<char>, crate::trigger::Progress)>>,
)
    requires
        crate::number::deterministic(math),
        crate::plan::graph_fault(update.nodes) is None,
        yields(math, rules, tables, update, live_sequence, live, live_after),
        yields(math, rules, tables, replayed(update), sequence, frame, after),
    ensures
        live == frame,
        live_after == after,
{
    let (x, a) = choose|
        snapshot: crate::cube::SnapshotView,
        context: crate::circuit::FrameContext,
    |
        {
            &&& #[trigger] crate::engine::answers(math, update, snapshot)
            &&& #[trigger] context.describes(live_sequence, snapshot)
            &&& live == crate::trigger::frame_of(rules, tables, context, snapshot)
            &&& live_after == crate::trigger::all_advanced(rules, snapshot.values, tables)
        };
    let (y, b) = choose|
        snapshot: crate::cube::SnapshotView,
        context: crate::circuit::FrameContext,
    |
        {
            &&& #[trigger] crate::engine::answers(math, replayed(update), snapshot)
            &&& #[trigger] context.describes(sequence, snapshot)
            &&& frame == crate::trigger::frame_of(rules, tables, context, snapshot)
            &&& after == crate::trigger::all_advanced(rules, snapshot.values, tables)
        };
    crate::engine::lemma_evaluation_deterministic(math, update, replayed(update), x, y);
    crate::trigger::lemma_frame_ignores_operation(rules, tables, a, b, x, y);
}

proof fn lemma_replay_history<A: Arithmetic>(
    math: &A,
    rules: Seq<crate::trigger::ThresholdView>,
    records: Seq<crate::recording::RecordView>,
    live: Seq<Seq<Seq<(Seq<char>, crate::trigger::Progress)>>>,
    frames: Seq<ProcessedFrame<crate::trigger::FrameView>>,
    history: Seq<Seq<Seq<(Seq<char>, crate::trigger::Progress)>>>,
    n: int,
)
    requires
        crate::number::deterministic(math),
        forall|i: int|
            0 <= i < records.len() ==> crate::plan::graph_fault(
                (#[trigger] records[i]).update.nodes,
            ) is None,
        captured(math, rules, records, live),
        reproduced(math, rules, records, frames, history),
        0 <= n <= records.len(),
    ensures
        live[n] == history[n],
        forall|i: int| 0 <= i < n ==> (#[trigger] frames[i]).output == records[i].expected,
    decreases n,
{
    if n > 0 {
        lemma_replay_history(math, rules, records, live, frames, history, n - 1);
        let record = records[n - 1];
        assert(crate::plan::graph_fault(record.update.nodes) is None);
        lemma_replay_step(
            math,
            rules,
            live[n - 1],
            record.update,
            record.circuit_sequence as i64,
            record.expected,
            live[n],
            frames[n - 1].circuit_sequence,
            frames[n - 1].output,
            history[n],
        );
    }
}

/// A replay of a live run gives the recorded frame for every generation, under
/// an arithmetic whose operations each give one result.
pub proof fn lemma_replay_reproduces<A: Arithmetic>(
    math: &A,
    rules: Seq<crate::trigger::ThresholdView>,
    records: Seq<crate::recording::RecordView>,
    live: Seq<Seq<Seq<(Seq<char>, crate::trigger::Progress)>>>,
    frames: Seq<ProcessedFrame<crate::trigger::FrameView>>,
    history: Seq<Seq<Seq<(Seq<char>, crate::trigger::Progress)>>>,
)
    requires
        crate::number::deterministic(math),
        forall|i: int|
            0 <= i < records.len() ==> crate::plan::graph_fault(
                (#[trigger] records[i]).update.nodes,
            ) is None,
        captured(math, rules, records, live),
        reproduced(math, rules, records, frames, history),
    ensures
        forall|i: int|
            0 <= i < records.len() ==> (#[trigger] frames[i]).output == records[i].expected,
{
    lemma_replay_history(math, rules, records, live, frames, history, records.len() as int);
}

proof fn lemma_gap_of_same<T>(a: Seq<T>, same: spec_fn(T, T) -> bool, i: int)
    requires
        forall|k: int| 0 <= k < a.len() ==> same(#[trigger] a[k], a[k]),
        0 <= i <= a.len(),
    ensures
        gap_from(a, a, same, i) == a.len(),
    decreases a.len() - i,
{
    if i < a.len() {
        assert(same(a[i], a[i]));
        lemma_gap_of_same(a, same, i + 1);
    }
}

proof fn lemma_finite_transitions(
    transitions: Seq<crate::trigger::TransitionView>,
    n: int,
    k: int,
)
    requires
        crate::recording::transitions_fault(transitions, n) is None,
        0 <= k < n <= transitions.len(),
    ensures
        same_transition(transitions[k], transitions[k]),
    decreases n,
{
    if k < n - 1 {
        lemma_finite_transitions(transitions, n - 1, k);
    }
}

/// A record whose replay gives its sequence and its frame shows no difference.
pub proof fn lemma_match_shows_no_difference(
    record: crate::recording::RecordView,
    sequence: i64,
    transitions: ItemTexts,
    states: ItemTexts,
)
    requires
        crate::recording::record_fault(record) is None,
        sequence == record.circuit_sequence,
    ensures
        divergence_of(record, sequence, record.expected, transitions, states) is None,
{
    let t = record.expected.transitions;
    assert forall|k: int| 0 <= k < t.len() implies (transitions_alike())(
        #[trigger] t[k],
        t[k],
    ) by {
        lemma_finite_transitions(t, t.len() as int, k);
    }
    lemma_gap_of_same(t, transitions_alike(), 0);
    lemma_gap_of_same(record.expected.states, states_alike(), 0);
}

/// The report after the first `n` records and their replays.
pub open spec fn report_after(
    start: ReportView,
    records: Seq<crate::recording::RecordView>,
    frames: Seq<ProcessedFrame<crate::trigger::FrameView>>,
    texts: Seq<(ItemTexts, ItemTexts)>,
    n: int,
) -> ReportView
    decreases n,
{
    if n <= 0 {
        start
    } else {
        compared(
            report_after(start, records, frames, texts, n - 1),
            records[n - 1],
            frames[n - 1].circuit_sequence,
            frames[n - 1].output,
            texts[n - 1].0,
            texts[n - 1].1,
        )
    }
}

/// The replay of a live run is exact: no generation differs, and as many
/// transitions and states are replayed as were recorded, under an arithmetic
/// whose operations each give one result and with a circuit that counts its
/// frames from zero.
pub proof fn lemma_recorded_run_replays_exactly<A: Arithmetic>(
    math: &A,
    rules: Seq<crate::trigger::ThresholdView>,
    records: Seq<crate::recording::RecordView>,
    live: Seq<Seq<Seq<(Seq<char>, crate::trigger::Progress)>>>,
    frames: Seq<ProcessedFrame<crate::trigger::FrameView>>,
    history: Seq<Seq<Seq<(Seq<char>, crate::trigger::Progress)>>>,
    run_id: Seq<char>,
    build_id: Seq<char>,
    texts: Seq<(ItemTexts, ItemTexts)>,
    n: int,
)
    requires
        crate::number::deterministic(math),
        forall|i: int|
            0 <= i < records.len() ==> crate::plan::graph_fault(
                (#[trigger] records[i]).update.nodes,
            ) is None,
        crate::recording::well_ordered(records),
        captured(math, rules, records, live),
        reproduced(math, rules, records, frames, history),
        forall|i: int| 0 <= i < frames.len() ==> (#[trigger] frames[i]).circuit_sequence == i,
        0 <= n <= records.len(),
        n <= usize::MAX,
    ensures
        ({
            let report = report_after(empty_report(run_id, build_id), records, frames, texts, n);
            &&& report.source_run_id == run_id
            &&& report.source_build_id == build_id
            &&& report.generations == n
            &&& report.divergent_generations == 0
            &&& report.first_divergence is None
            &&& report.expected_transitions == report.actual_transitions
            &&& report.expected_states == report.actual_states
        }),
    decreases n,
{
    if n > 0 {
        lemma_recorded_run_replays_exactly(
            math,
            rules,
            records,
            live,
            frames,
            history,
            run_id,
            build_id,
            texts,
            n - 1,
        );
        lemma_replay_reproduces(math, rules, records, live, frames, history);
        let record = records[n - 1];
        assert(frames[n - 1].output == record.expected);
        assert(frames[n - 1].circuit_sequence == n - 1);
        assert(crate::recording::place_after(records, n - 1).fault(record) is None);
        crate::recording::lemma_place_after(records, n - 1);
        lemma_match_shows_no_difference(
            record,
            frames[n - 1].circuit_sequence,
            texts[n - 1].0,
            texts[n - 1].1,
        );
    }
}

/// Every generation with a difference is counted, and the earliest difference
/// is kept: a report is exact if and only if it holds none.
pub proof fn lemma_exact_iff_no_divergence(
    records: Seq<crate::recording::RecordView>,
    frames: Seq<ProcessedFrame<crate::trigger::FrameView>>,
    run_id: Seq<char>,
    build_id: Seq<char>,
    texts: Seq<(ItemTexts, ItemTexts)>,
    n: int,
)
    requires
        0 <= n <= usize::MAX,
    ensures
        ({
            let report = report_after(empty_report(run_id, build_id), records, frames, texts, n);
            &&& report.generations == n
            &&& report.divergent_generations <= n
            &&& (report.divergent_generations == 0) == (report.first_divergence is None)
        }),
    decreases n,
{
    if n > 0 {
        lemma_exact_iff_no_divergence(records, frames, run_id, build_id, texts, n - 1);
    }
}

/// One generation of a live run: what went into a session and its circuit,
/// and what came out.
pub struct LiveStep {
    /// Update that was evaluated.
    pub update: crate::cube::UpdateView,
    /// Positions of the upstream streams.
    pub source_positions: Seq<(Seq<char>, i64)>,
    /// Result of the evaluation.
    pub snapshot: crate::cube::SnapshotView,
    /// Sequence that the circuit gave the snapshot.
    pub sequence: i64,
    /// Context of the snapshot in the circuit.
    pub context: crate::circuit::FrameContext,
    /// Frame that the trigger processor gave.
    pub frame: crate::trigger::FrameView,
}

impl LiveStep {
    /// The record that a session makes of the step.
    pub open spec fn record(self) -> crate::recording::RecordView {
        crate::capture::recorded(
            self.update,
            self.source_positions,
            self.sequence,
            self.frame,
        )
    }

    /// Whether a session whose engine completed `last` and whose recording is
    /// at a place evaluates the update, the trigger processor gives the frame
    /// for its snapshot and takes the entities further, and the session then
    /// permits the record.
    pub open spec fn taken<A: Arithmetic>(
        self,
        math: &A,
        rules: Seq<crate::trigger::ThresholdView>,
        last: Option<u64>,
        place: crate::recording::RecordOrder,
        tables: Seq<Seq<(Seq<char>, crate::trigger::Progress)>>,
        after: Seq<Seq<(Seq<char>, crate::trigger::Progress)>>,
    ) -> bool {
        &&& crate::capture::capture_accepts(false, None, last, self.update)
        &&& crate::engine::answers(math, self.update, self.snapshot)
        &&& self.context.describes(self.sequence, self.snapshot)
        &&& self.frame == crate::trigger::frame_of(rules, tables, self.context, self.snapshot)
        &&& after == crate::trigger::all_advanced(rules, self.snapshot.values, tables)
        &&& self.sequence >= 0
        &&& place.next_sequence < u64::MAX
        &&& place.fault(self.record()) is None
    }
}

/// The records of some steps.
pub open spec fn records_of(steps: Seq<LiveStep>) -> Seq<crate::recording::RecordView> {
    Seq::new(steps.len(), |i: int| steps[i].record())
}

/// The generation that the engine completed before step `i`.
pub open spec fn completed_before(steps: Seq<LiveStep>, i: int) -> Option<u64> {
    if i <= 0 {
        None
    } else {
        Some(steps[i - 1].update.generation)
    }
}

/// Whether a session went through some steps from its start, with a fresh
/// trigger processor and a recording that passed through some places.
pub open spec fn live_run<A: Arithmetic>(
    math: &A,
    rules: Seq<crate::trigger::ThresholdView>,
    steps: Seq<LiveStep>,
    places: Seq<crate::recording::RecordOrder>,
    history: Seq<Seq<Seq<(Seq<char>, crate::trigger::Progress)>>>,
) -> bool {
    &&& history.len() == steps.len() + 1
    &&& history[0] == no_progress(rules)
    &&& places.len() == steps.len() + 1
    &&& places[0] == (crate::recording::RecordOrder { next_sequence: 0, last_generation: None })
    &&& forall|i: int|
        0 <= i < steps.len() ==> {
            &&& (#[trigger] steps[i]).taken(
                math,
                rules,
                completed_before(steps, i),
                places[i],
                history[i],
                history[i + 1],
            )
            &&& places[i + 1] == places[i].after(steps[i].record())
        }
}

/// The records that a session makes over frames of the trigger processor are
/// those of a live run, in order, each with a graph without a fault.
pub proof fn lemma_session_captures<A: Arithmetic>(
    math: &A,
    rules: Seq<crate::trigger::ThresholdView>,
    steps: Seq<LiveStep>,
    places: Seq<crate::recording::RecordOrder>,
    history: Seq<Seq<Seq<(Seq<char>, crate::trigger::Progress)>>>,
)
    requires
        live_run(math, rules, steps, places, history),
    ensures
        captured(math, rules, records_of(steps), history),
        crate::recording::accepted(records_of(steps), places),
        crate::recording::well_ordered(records_of(steps)),
        forall|i: int|
            0 <= i < steps.len() ==> crate::plan::graph_fault(
                (#[trigger] records_of(steps)[i]).update.nodes,
            ) is None,
{
    let records = records_of(steps);
    assert forall|i: int| 0 <= i < records.len() implies {
        &&& yields(
            math,
            rules,
            history[i],
            (#[trigger] records[i]).update,
            records[i].circuit_sequence as i64,
            records[i].expected,
            history[i + 1],
        )
        &&& crate::plan::graph_fault(records[i].update.nodes) is None
        &&& places[i].next_sequence < u64::MAX
        &&& places[i].fault(records[i]) is None
        &&& places[i + 1] == places[i].after(records[i])
    } by {
        let step = steps[i];
        assert(step.taken(
            math,
            rules,
            completed_before(steps, i),
            places[i],
            history[i],
            history[i + 1],
        ));
        assert(records[i].circuit_sequence as i64 == step.sequence);
        assert(crate::engine::answers(math, step.update, step.snapshot));
        assert(step.context.describes(step.sequence, step.snapshot));
    }
    assert(crate::recording::accepted(records, places));
    crate::recording::lemma_accepted_in_order(records, places);
}

/// What a session recorded replays exactly: the report of a replay of all its
/// records counts every generation and no difference, and as many transitions
/// and states were replayed as recorded.
pub proof fn lemma_session_replays_exactly<A: Arithmetic>(
    math: &A,
    rules: Seq<crate::trigger::ThresholdView>,
    steps: Seq<LiveStep>,
    places: Seq<crate::recording::RecordOrder>,
    live: Seq<Seq<Seq<(Seq<char>, crate::trigger::Progress)>>>,
    frames: Seq<ProcessedFrame<crate::trigger::FrameView>>,
    history: Seq<Seq<Seq<(Seq<char>, crate::trigger::Progress)>>>,
    run_id: Seq<char>,
    build_id: Seq<char>,
    texts: Seq<(ItemTexts, ItemTexts)>,
)
    requires
        crate::number::deterministic(math),
        live_run(math, rules, steps, places, live),
        reproduced(math, rules, records_of(steps), frames, history),
        forall|i: int| 0 <= i < frames.len() ==> (#[trigger] frames[i]).circuit_sequence == i,
        steps.len() <= usize::MAX,
    ensures
        ({
            let report = report_after(
                empty_report(run_id, build_id),
                records_of(steps),
                frames,
                texts,
                steps.len() as int,
            );
            &&& report.source_run_id == run_id
            &&& report.source_build_id == build_id
            &&& report.generations == steps.len()
            &&& report.divergent_generations == 0
            &&& report.first_divergence is None
            &&& report.expected_transitions == report.actual_transitions
            &&& report.expected_states == report.actual_states
        }),
{
    lemma_session_captures(math, rules, steps, places, live);
    lemma_recorded_run_replays_exactly(
        math,
        rules,
        records_of(steps),
        live,
        frames,
        history,
        run_id,
        build_id,
        texts,
        steps.len() as int,
    );
}

/// A replay accepts every update that a session recorded: once its engine has
/// completed the generations before, it evaluates the next.
pub proof fn lemma_replay_accepts<A: Arithmetic>(
    math: &A,
    rules: Seq<crate::trigger::ThresholdView>,
    steps: Seq<LiveStep>,
    places: Seq<crate::recording::RecordOrder>,
    history: Seq<Seq<Seq<(Seq<char>, crate::trigger::Progress)>>>,
    i: int,
)
    requires
        live_run(math, rules, steps, places, history),
        0 <= i < steps.len(),
    ensures
        crate::engine::update_fault(
            completed_before(steps, i),
            replayed(records_of(steps)[i].update),
        ) is None,
{
    assert(steps[i].taken(
        math,
        rules,
        completed_before(steps, i),
        places[i],
        history[i],
        history[i + 1],
    ));
}

/// The first `n` records that some reads returned.
pub open spec fn records_read(
    results: Seq<Result<Option<GenerationRecord>, RecordingError>>,
    n: nat,
) -> Seq<crate::recording::RecordView> {
    Seq::new(n, |i: int| (results[i]->Ok_0->0)@)
}

/// From a session to the report: where the lines of a recording decode to the
/// manifest and to the records that a session wrote, in order, reading them
/// back returns each of them and then the end, and the report of their replay
/// counts every generation, no difference, and as many transitions and states
/// as were recorded.
pub proof fn lemma_recorded_read_and_replayed<A: Arithmetic, R>(
    math: &A,
    manifest: crate::recording::ManifestView,
    steps: Seq<LiveStep>,
    places: Seq<crate::recording::RecordOrder>,
    live: Seq<Seq<Seq<(Seq<char>, crate::trigger::Progress)>>>,
    first: Option<RecordingLine>,
    lines: Seq<Option<RecordingLine>>,
    readers: Seq<RecordingReader<R>>,
    results: Seq<Result<Option<GenerationRecord>, RecordingError>>,
    frames: Seq<ProcessedFrame<crate::trigger::FrameView>>,
    history: Seq<Seq<Seq<(Seq<char>, crate::trigger::Progress)>>>,
    texts: Seq<(ItemTexts, ItemTexts)>,
)
    requires
        crate::number::deterministic(math),
        live_run(math, manifest.triggers, steps, places, live),
        steps.len() <= usize::MAX,
        first matches Some(RecordingLine::Manifest { manifest: held }) && held@ == manifest,
        lines.len() == steps.len() + 1,
        results.len() == lines.len(),
        readers.len() == lines.len() + 1,
        readers[0].opened(first),
        forall|k: int|
            0 <= k < lines.len() ==> readers[k].reads(
                #[trigger] lines[k],
                results[k],
                readers[k + 1],
            ),
        forall|k: int|
            0 <= k < steps.len() ==> crate::recording::decodes_to(
                #[trigger] lines[k],
                records_of(steps)[k],
            ),
        lines[steps.len() as int] is None,
        reproduced(
            math,
            manifest.triggers,
            records_read(results, steps.len()),
            frames,
            history,
        ),
        forall|i: int| 0 <= i < frames.len() ==> (#[trigger] frames[i]).circuit_sequence == i,
    ensures
        forall|i: int|
            0 <= i < steps.len() ==> ((#[trigger] results[i]) matches Ok(Some(read)) && read@
                == records_of(steps)[i]),
        results[steps.len() as int] matches Ok(None),
        ({
            let report = report_after(
                empty_report(manifest.run_id, manifest.build_id),
                records_read(results, steps.len()),
                frames,
                texts,
                steps.len() as int,
            );
            &&& report.source_run_id == manifest.run_id
            &&& report.source_build_id == manifest.build_id
            &&& report.generations == steps.len()
            &&& report.divergent_generations == 0
            &&& report.first_divergence is None
            &&& report.expected_transitions == report.actual_transitions
            &&& report.expected_states == report.actual_states
        }),
{
    let records = records_of(steps);
    lemma_session_captures(math, manifest.triggers, steps, places, live);
    assert forall|i: int| 0 <= i < lines.len() implies (if i < steps.len() {
        (#[trigger] results[i]) matches Ok(Some(read)) && read@ == records[i]
    } else {
        results[i] matches Ok(None)
    }) by {
        crate::recording::lemma_recording_is_read_back(
            manifest,
            records,
            places,
            first,
            lines,
            readers,
            results,
            i,
        );
    }
    assert(results[steps.len() as int] matches Ok(None));
    assert(records_read(results, steps.len()) =~= records) by {
        assert forall|i: int| 0 <= i < steps.len() implies records_read(
            results,
            steps.len(),
        )[i] == records[i] by {
            assert(results[i] matches Ok(Some(read)) && read@ == records[i]);
        }
    }
    lemma_session_replays_exactly(
        math,
        manifest.triggers,
        steps,
        places,
        live,
        frames,
        history,
        manifest.run_id,
        manifest.build_id,
        texts,
    );
}

proof fn lemma_gap_is_first<T>(a: Seq<T>, b: Seq<T>, same: spec_fn(T, T) -> bool, i: int)
    requires
        0 <= i <= a.len(),
        i <= b.len(),
    ensures
        i <= gap_from(a, b, same, i) <= a.len(),
        gap_from(a, b, same, i) <= b.len(),
        forall|k: int| i <= k < gap_from(a, b, same, i) ==> same(#[trigger] a[k], b[k]),
        gap_from(a, b, same, i) < a.len() && gap_from(a, b, same, i) < b.len() ==> !same(
            a[gap_from(a, b, same, i)],
            b[gap_from(a, b, same, i)],
        ),
    decreases a.len() - i,
{
    if i < a.len() && i < b.len() && same(a[i], b[i]) {
        lemma_gap_is_first(a, b, same, i + 1);
    }
}

/// A comparison misses no difference and invents none. A generation counts as
/// divergent exactly where the sequence, a field of the digest, the number of
/// transitions or states, or any field of one of them at some position is not
/// what was recorded, values being compared as numbers. The first such
/// generation is reported, with the first category that differs.
pub proof fn lemma_comparison_finds_every_difference(
    session: &mut ReplaySession,
    record: &GenerationRecord,
    actual: &ProcessedFrame<TriggerFrame>,
    transitions: &ItemTexts,
    states: &ItemTexts,
)
    requires
        call_ensures(
            ReplaySession::compare,
            (session, record, actual, transitions, states),
            (),
        ),
        old(session).report().generations < usize::MAX,
        old(session).report().divergent_generations < usize::MAX,
    ensures
        ({
            let before = old(session).report();
            let after = final(session).report();
            let x = record.expected;
            let y = actual.output;
            let in_sequence = record.circuit_sequence as int == actual.circuit_sequence as int;
            let same_digest = x.snapshot.algorithm@ == y.snapshot.algorithm@ && x.snapshot.hash
                == y.snapshot.hash && x.snapshot.values == y.snapshot.values && x.snapshot.missing
                == y.snapshot.missing;
            let same_moves = x.transitions@.len() == y.transitions@.len() && forall|i: int|
                0 <= i < x.transitions@.len() ==> {
                    let a = #[trigger] x.transitions@[i];
                    let b = y.transitions@[i];
                    &&& a.trigger@ == b.trigger@
                    &&& a.node@ == b.node@
                    &&& a.key@ == b.key@
                    &&& a.generation == b.generation
                    &&& a.observed_at_ms == b.observed_at_ms
                    &&& a.kind == b.kind
                    &&& a.value is Some <==> b.value is Some
                    &&& a.value is Some ==> a.value->0.eq_number(b.value->0)
                };
            let same_states = x.states@.len() == y.states@.len() && forall|i: int|
                0 <= i < x.states@.len() ==> {
                    let a = #[trigger] x.states@[i];
                    let b = y.states@[i];
                    &&& a.trigger@ == b.trigger@
                    &&& a.node@ == b.node@
                    &&& a.key@ == b.key@
                    &&& a.active == b.active
                    &&& a.qualifying_generations == b.qualifying_generations
                };
            let alike = in_sequence && same_digest && same_moves && same_states;
            &&& after.generations == before.generations + 1
            &&& alike ==> after.divergent_generations == before.divergent_generations
            &&& !alike ==> after.divergent_generations == before.divergent_generations + 1
            &&& before.first_divergence is Some ==> divergence_view(after.first_divergence)
                == divergence_view(before.first_divergence)
            &&& before.first_divergence is None && alike ==> after.first_divergence is None
            &&& before.first_divergence is None && !alike ==> after.first_divergence is Some
                && after.first_divergence->0.generation == y.generation
                && after.first_divergence->0.kind == if !in_sequence {
                DivergenceKind::CircuitSequence
            } else if !same_digest {
                DivergenceKind::SnapshotDigest
            } else if !same_moves {
                DivergenceKind::TriggerTransitions
            } else {
                DivergenceKind::TriggerStates
            }
            &&& before.first_divergence is None && !in_sequence
                ==> after.first_divergence->0.expected@ == crate::text::decimal(
                record.circuit_sequence as nat,
            ) && after.first_divergence->0.actual@ == crate::text::signed_decimal(
                actual.circuit_sequence as int,
            )
            &&& before.first_divergence is None && in_sequence && !same_digest
                ==> after.first_divergence->0.expected@ == x.snapshot@.shown()
                && after.first_divergence->0.actual@ == y.snapshot@.shown()
            &&& before.values + y.snapshot.values <= usize::MAX ==> after.values == before.values
                + y.snapshot.values
            &&& before.expected_transitions + x.transitions@.len() <= usize::MAX
                ==> after.expected_transitions == before.expected_transitions
                + x.transitions@.len()
            &&& before.actual_transitions + y.transitions@.len() <= usize::MAX
                ==> after.actual_transitions == before.actual_transitions + y.transitions@.len()
            &&& before.expected_states + x.states@.len() <= usize::MAX ==> after.expected_states
                == before.expected_states + x.states@.len()
            &&& before.actual_states + y.states@.len() <= usize::MAX ==> after.actual_states
                == before.actual_states + y.states@.len()
            &&& after.source_run_id@ == before.source_run_id@
            &&& after.source_build_id@ == before.source_build_id@
        }),
{
    let x = record.expected;
    let y = actual.output;
    let a = crate::text::views(x.transitions@);
    let b = crate::text::views(y.transitions@);
    lemma_gap_is_first(a, b, transitions_alike(), 0);
    let t = gap_from(a, b, transitions_alike(), 0);
    if same_all(a, b, transitions_alike()) {
        assert forall|i: int| 0 <= i < x.transitions@.len() implies same_transition(
            (#[trigger] x.transitions@[i])@,
            y.transitions@[i]@,
        ) by {
            assert((transitions_alike())(a[i], b[i]));
        }
    } else if t < a.len() && t < b.len() {
        assert(a[t] == x.transitions@[t]@ && b[t] == y.transitions@[t]@);
    }
    let c = crate::text::views(x.states@);
    let d = crate::text::views(y.states@);
    lemma_gap_is_first(c, d, states_alike(), 0);
    let s = gap_from(c, d, states_alike(), 0);
    if same_all(c, d, states_alike()) {
        assert forall|i: int| 0 <= i < x.states@.len() implies (#[trigger] x.states@[i])@
            == y.states@[i]@ by {
            assert((states_alike())(c[i], d[i]));
        }
    } else if s < c.len() && s < d.len() {
        assert(c[s] == x.states@[s]@ && d[s] == y.states@[s]@);
    }
    let before = old(session).report();
    let after = final(session).report();
    assert(before@.first_divergence == divergence_view(before.first_divergence));
    assert(after@.first_divergence == divergence_view(after.first_divergence));
}

/// The position at which two lists of transitions are said to differ is the
/// first one: before it every field agrees, and at it one list has ended or
/// some field differs.
pub proof fn lemma_transition_gap_is_first(
    expected: &Vec<TriggerTransition>,
    actual: &Vec<TriggerTransition>,
    at: usize,
)
    requires
        call_ensures(transition_gap, (expected, actual), at),
    ensures
        at <= expected@.len(),
        at <= actual@.len(),
        forall|i: int|
            0 <= i < at ==> {
                let a = #[trigger] expected@[i];
                let b = actual@[i];
                &&& a.trigger@ == b.trigger@
                &&& a.node@ == b.node@
                &&& a.key@ == b.key@
                &&& a.generation == b.generation
                &&& a.observed_at_ms == b.observed_at_ms
                &&& a.kind == b.kind
                &&& a.value is Some <==> b.value is Some
                &&& a.value is Some ==> a.value->0.eq_number(b.value->0)
            },
        at < expected@.len() && at < actual@.len() ==> {
            let a = expected@[at as int];
            let b = actual@[at as int];
            ||| a.trigger@ != b.trigger@
            ||| a.node@ != b.node@
            ||| a.key@ != b.key@
            ||| a.generation != b.generation
            ||| a.observed_at_ms != b.observed_at_ms
            ||| a.kind != b.kind
            ||| a.value is Some != b.value is Some
            ||| a.value is Some && b.value is Some && !a.value->0.eq_number(b.value->0)
        },
{
    let a = crate::text::views(expected@);
    let b = crate::text::views(actual@);
    lemma_gap_is_first(a, b, transitions_alike(), 0);
    assert forall|i: int| 0 <= i < at implies same_transition(
        (#[trigger] expected@[i])@,
        actual@[i]@,
    ) by {
        assert((transitions_alike())(a[i], b[i]));
    }
    if at < expected@.len() && at < actual@.len() {
        assert(a[at as int] == expected@[at as int]@ && b[at as int] == actual@[at as int]@);
    }
}

/// The position at which two lists of states are said to differ is the first
/// one.
pub proof fn lemma_state_gap_is_first(
    expected: &Vec<TriggerState>,
    actual: &Vec<TriggerState>,
    at: usize,
)
    requires
        call_ensures(state_gap, (expected, actual), at),
    ensures
        at <= expected@.len(),
        at <= actual@.len(),
        forall|i: int|
            0 <= i < at ==> {
                let a = #[trigger] expected@[i];
                let b = actual@[i];
                &&& a.trigger@ == b.trigger@
                &&& a.node@ == b.node@
                &&& a.key@ == b.key@
                &&& a.active == b.active
                &&& a.qualifying_generations == b.qualifying_generations
            },
        at < expected@.len() && at < actual@.len() ==> {
            let a = expected@[at as int];
            let b = actual@[at as int];
            ||| a.trigger@ != b.trigger@
            ||| a.node@ != b.node@
            ||| a.key@ != b.key@
            ||| a.active != b.active
            ||| a.qualifying_generations != b.qualifying_generations
        },
{
    let a = crate::text::views(expected@);
    let b = crate::text::views(actual@);
    lemma_gap_is_first(a, b, states_alike(), 0);
    assert forall|i: int| 0 <= i < at implies (#[trigger] expected@[i])@ == actual@[i]@ by {
        assert((states_alike())(a[i], b[i]));
    }
    if at < expected@.len() && at < actual@.len() {
        assert(a[at as int] == expected@[at as int]@ && b[at as int] == actual@[at as int]@);
        assert(!(states_alike())(a[at as int], b[at as int]));
    }
}

/// A report of a whole run is exact only where every generation of the replay
/// is the recorded one in its sequence, its digest, its transitions and its
/// states.
pub proof fn lemma_exact_report_means_same_run(
    records: Seq<crate::recording::RecordView>,
    frames: Seq<ProcessedFrame<crate::trigger::FrameView>>,
    run_id: Seq<char>,
    build_id: Seq<char>,
    texts: Seq<(ItemTexts, ItemTexts)>,
    n: int,
    k: int,
)
    requires
        0 <= k < n <= usize::MAX,
        report_after(
            empty_report(run_id, build_id),
            records,
            frames,
            texts,
            n,
        ).divergent_generations == 0,
    ensures
        ({
            let x = records[k].expected;
            let y = frames[k].output;
            &&& records[k].circuit_sequence as int == frames[k].circuit_sequence as int
            &&& x.snapshot.algorithm == y.snapshot.algorithm
            &&& x.snapshot.hash == y.snapshot.hash
            &&& x.snapshot.values == y.snapshot.values
            &&& x.snapshot.missing == y.snapshot.missing
            &&& x.transitions.len() == y.transitions.len()
            &&& forall|i: int|
                0 <= i < x.transitions.len() ==> {
                    let a = #[trigger] x.transitions[i];
                    let b = y.transitions[i];
                    &&& a.trigger == b.trigger
                    &&& a.node == b.node
                    &&& a.key == b.key
                    &&& a.generation == b.generation
                    &&& a.observed_at_ms == b.observed_at_ms
                    &&& a.kind == b.kind
                    &&& a.value is Some <==> b.value is Some
                    &&& a.value is Some ==> a.value->0.eq_number(b.value->0)
                }
            &&& x.states == y.states
        }),
    decreases n,
{
    lemma_exact_iff_no_divergence(records, frames, run_id, build_id, texts, n - 1);
    let x = records[k].expected;
    let y = frames[k].output;
    if k < n - 1 {
        lemma_exact_report_means_same_run(records, frames, run_id, build_id, texts, n - 1, k);
    } else {
        lemma_gap_is_first(x.transitions, y.transitions, transitions_alike(), 0);
        lemma_gap_is_first(x.states, y.states, states_alike(), 0);
        assert forall|i: int| 0 <= i < x.transitions.len() implies same_transition(
            #[trigger] x.transitions[i],
            y.transitions[i],
        ) by {
            assert((transitions_alike())(x.transitions[i], y.transitions[i]));
        }
        assert forall|i: int| 0 <= i < x.states.len() implies #[trigger] x.states[i]
            == y.states[i] by {
            assert((states_alike())(x.states[i], y.states[i]));
        }
        assert(x.states =~= y.states);
    }
}

/// A replay starts with nothing compared, under the names of the recorded run,
/// and with the triggers that the run was recorded with.
pub proof fn lemma_replay_starts_fresh(
    runner: &ReplayRunner,
    manifest: &RecordingManifest,
    result: Result<(ReplaySession, TriggerProcessor), ReplayError>,
)
    requires
        call_ensures(ReplayRunner::start, (runner, manifest), result),
    ensures
        result matches Ok(started) ==> {
            &&& started.0.report()@.source_run_id == manifest@.run_id
            &&& started.0.report()@.source_build_id == manifest@.build_id
            &&& started.0.report()@.generations == 0
            &&& started.0.report()@.divergent_generations == 0
            &&& started.0.report()@.first_divergence is None
            &&& started.0.generation() is None
            &&& started.1.rules() == manifest@.triggers
        },
{
}

/// A finished replay hands over the report as it stands, which is exact where
/// no generation diverged.
pub proof fn lemma_replay_ends_with_report(
    session: ReplaySession,
    report: ReplayReport,
    exact: bool,
)
    requires
        call_ensures(ReplaySession::finish, (session,), report),
        call_ensures(ReplayReport::is_exact, (&report,), exact),
    ensures
        report@ == session.report()@,
        exact <==> report.divergent_generations == 0,
{
}

} // verus!
