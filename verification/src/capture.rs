//! Live sessions that record what they calculate.

use crate::circuit::{CircuitConfig, CircuitError, ProcessedFrame};
use crate::cube::{CubeError, Snapshot, Update};
use crate::engine::HypercubeEngine;
use crate::number::{Arithmetic, Double, Rendering, HALF, ONE};
use crate::recording::{
    validate_recordable_update, GenerationRecord, RecordingError, RecordingManifest,
    RecordingWriter,
};
use crate::table::Table;
use crate::text::{push_decimal, push_signed_decimal};
use crate::trigger::{
    copied_triggers, ThresholdTriggerSpec, TriggerConfigError, TriggerFrame, TriggerProcessor,
};
use vstd::prelude::*;
use vstd::string::*;

verus! {

/// Failure while calculating, processing, or recording a live generation.
#[derive(Debug, PartialEq)]
pub enum CaptureError {
    /// Stateful trigger configuration was invalid.
    Trigger(TriggerConfigError),
    /// Hypercube rejected or failed the update.
    Engine(CubeError),
    /// Submission or completion failed.
    Circuit(CircuitError),
    /// Recording could not be written.
    Recording(RecordingError),
    /// A prior post-compute failure made continued recording ambiguous.
    Poisoned,
    /// The circuit returned a negative sequence that cannot enter the file
    /// format.
    NegativeSequence(i64),
    /// A generation was evaluated and its record is not written yet.
    Unrecorded(u64),
    /// A frame was handed back for a generation that is not the one evaluated.
    NotEvaluated(u64),
}

impl CaptureError {
    /// Whether a text says what failed, with the thresholds of a trigger as a
    /// rendering may write them.
    pub open spec fn said<R: Rendering>(self, rendering: &R, text: Seq<char>) -> bool {
        match self {
            CaptureError::Trigger(fault) => fault@.said(rendering, text),
            CaptureError::Engine(fault) => text == fault@.message(),
            CaptureError::Circuit(fault) => text == fault.said(),
            CaptureError::Recording(fault) => fault@.said(rendering, text),
            CaptureError::Poisoned => text
                == "capture session is unusable after a post-compute failure"@,
            CaptureError::NegativeSequence(sequence) => text == "negative circuit sequence "@
                + crate::text::signed_decimal(sequence as int) + " cannot be recorded"@,
            CaptureError::Unrecorded(generation) => text == "generation "@
                + crate::text::decimal(generation as nat) + " is evaluated but not recorded"@,
            CaptureError::NotEvaluated(generation) => text == "generation "@
                + crate::text::decimal(generation as nat) + " is not the one evaluated"@,
        }
    }

    /// Say what failed.
    pub fn message<R: Rendering>(&self, rendering: &R) -> (text: String)
        ensures
            self.said(rendering, text@),
    {
        match self {
            CaptureError::Trigger(fault) => fault.message(rendering),
            CaptureError::Engine(fault) => fault.message(),
            CaptureError::Circuit(fault) => fault.message(),
            CaptureError::Recording(fault) => fault.message(rendering),
            CaptureError::Poisoned =>
                "capture session is unusable after a post-compute failure".to_owned(),
            CaptureError::NegativeSequence(sequence) => {
                let mut text: String = "negative circuit sequence ".to_owned();
                push_signed_decimal(&mut text, *sequence);
                text.append(" cannot be recorded");
                text
            },
            CaptureError::Unrecorded(generation) => {
                let mut text: String = "generation ".to_owned();
                push_decimal(&mut text, *generation);
                text.append(" is evaluated but not recorded");
                text
            },
            CaptureError::NotEvaluated(generation) => {
                let mut text: String = "generation ".to_owned();
                push_decimal(&mut text, *generation);
                text.append(" is not the one evaluated");
                text
            },
        }
    }
}

/// Live calculation session that records reproducible generations and their
/// expected stateful outputs.
///
/// A generation goes through three steps: it is evaluated, the caller passes
/// the snapshot through the circuit and hands back what came out, and the
/// caller writes the record. A failure after the engine has advanced poisons
/// the session, because going on would leave a gap between the engine and the
/// recording. For the same reason a generation that was evaluated must be
/// recorded before the next is evaluated and before the session ends.
#[derive(Debug)]
pub struct CaptureSession<W> {
    engine: HypercubeEngine,
    recording: RecordingWriter<W>,
    pending: Option<u64>,
    poisoned: bool,
}

/// What is wrong with an update before it is evaluated, or in its evaluation.
pub open spec fn capture_refuses(
    poisoned: bool,
    pending: Option<u64>,
    last: Option<u64>,
    update: crate::cube::UpdateView,
    error: CaptureError,
) -> bool {
    if poisoned {
        error is Poisoned
    } else if pending is Some {
        error == CaptureError::Unrecorded(pending->0)
    } else {
        match crate::recording::recordable_fault(update) {
            Some(fault) => error matches CaptureError::Recording(e) && e@ == fault,
            None => match crate::engine::update_fault(last, update) {
                Some(fault) => error matches CaptureError::Engine(e) && e@ == fault,
                None => false,
            },
        }
    }
}

/// Whether an update is evaluated.
pub open spec fn capture_accepts(
    poisoned: bool,
    pending: Option<u64>,
    last: Option<u64>,
    update: crate::cube::UpdateView,
) -> bool {
    &&& !poisoned
    &&& pending is None
    &&& crate::recording::recordable_fault(update) is None
    &&& crate::engine::update_fault(last, update) is None
}

/// The record of an update and the frame that the circuit gave for it.
pub open spec fn recorded(
    update: crate::cube::UpdateView,
    source_positions: Seq<(Seq<char>, i64)>,
    sequence: i64,
    frame: crate::trigger::FrameView,
) -> crate::recording::RecordView {
    crate::recording::RecordView {
        circuit_sequence: sequence as u64,
        update,
        source_positions,
        expected: frame,
    }
}

/// What a session makes of a frame that the circuit gave for an update.
pub open spec fn processes<W>(
    before: CaptureSession<W>,
    update: crate::cube::UpdateView,
    source_positions: Seq<(Seq<char>, i64)>,
    processed: Result<ProcessedFrame<TriggerFrame>, CircuitError>,
    result: Result<GenerationRecord, CaptureError>,
    after: CaptureSession<W>,
) -> bool {
    &&& after.generation() == before.generation()
    &&& after.open_generation() == before.open_generation()
    &&& after.place() == before.place()
    &&& after.sink() == before.sink()
    &&& if before.unusable() {
        &&& result matches Err(e) && e is Poisoned
        &&& after.unusable()
    } else if before.open_generation() != Some(update.generation) {
        &&& result matches Err(e) && e == CaptureError::NotEvaluated(update.generation)
        &&& !after.unusable()
    } else {
        match processed {
            Err(fault) => {
                &&& result matches Err(CaptureError::Circuit(e)) && e == fault
                &&& after.unusable()
            },
            Ok(frame) => if frame.circuit_sequence < 0 {
                &&& result matches Err(CaptureError::NegativeSequence(n)) && n
                    == frame.circuit_sequence
                &&& after.unusable()
            } else {
                let record = recorded(
                    update,
                    source_positions,
                    frame.circuit_sequence,
                    frame.output@,
                );
                match before.place().fault(record) {
                    Some(fault) => {
                        &&& result matches Err(CaptureError::Recording(e)) && e@ == fault
                        &&& after.unusable()
                    },
                    None => {
                        &&& result matches Ok(made) && made@ == record
                        &&& !after.unusable()
                    },
                }
            },
        }
    }
}

impl<W> CaptureSession<W> {
    /// The last generation that the engine completed.
    pub closed spec fn generation(self) -> Option<u64> {
        self.engine.generation()
    }

    /// Whether the session cannot go on.
    pub closed spec fn unusable(self) -> bool {
        self.poisoned
    }

    /// The generation that was evaluated and is not recorded yet.
    pub closed spec fn open_generation(self) -> Option<u64> {
        self.pending
    }

    /// The place of the next record.
    pub closed spec fn place(self) -> crate::recording::RecordOrder {
        self.recording.place()
    }

    /// The sink of the recording.
    pub closed spec fn sink(self) -> W {
        self.recording.sink()
    }

    /// Whether the recording holds every generation that the engine completed.
    pub open spec fn aligned(self) -> bool {
        self.generation() == self.place().last_generation
    }

    /// What holds of every session: unless it cannot go on, the recording
    /// holds every generation that the engine completed, but for the one that
    /// is open, which is the last.
    pub open spec fn in_step(self) -> bool {
        &&& self.open_generation() matches Some(g) ==> self.generation() == Some(g)
        &&& self.unusable() || self.open_generation() is Some || self.aligned()
    }

    /// Start a fresh engine, trigger processor, and versioned recording. The
    /// processor is for the circuit that the caller runs.
    pub fn new(writer: W, manifest: &RecordingManifest, config: &CircuitConfig) -> (result: Result<
        (Self, TriggerProcessor),
        CaptureError,
    >)
        ensures
            match crate::trigger::triggers_fault(
                manifest@.triggers,
                manifest@.triggers.len() as int,
            ) {
                Some(fault) => result matches Err(CaptureError::Trigger(e)) && e@ == fault,
                None => if !crate::circuit::ring_fits(config.ring_size) {
                    result matches Err(CaptureError::Circuit(e)) && e
                        == CircuitError::InvalidRingSize(config.ring_size)
                } else {
                    match crate::recording::manifest_fault(manifest@) {
                        Some(fault) => result matches Err(CaptureError::Recording(e)) && e@
                            == fault,
                        None => result is Ok,
                    }
                },
            },
            result matches Ok(started) ==> {
                &&& started.0.generation() is None
                &&& !started.0.unusable()
                &&& started.0.open_generation() is None
                &&& started.0.place() == (crate::recording::RecordOrder {
                    next_sequence: 0,
                    last_generation: None,
                })
                &&& started.0.sink() == writer
                &&& started.0.aligned()
                &&& started.0.in_step()
                &&& started.1.rules() == manifest@.triggers
                &&& started.1.progress() == Seq::new(
                    manifest@.triggers.len(),
                    |i: int| Seq::<(Seq<char>, crate::trigger::Progress)>::empty(),
                )
            },
    {
        let processor = match TriggerProcessor::new(copied_triggers(&manifest.triggers)) {
            Ok(processor) => processor,
            Err(fault) => {
                return Err(CaptureError::Trigger(fault));
            },
        };
        match config.validate() {
            Ok(()) => {},
            Err(fault) => {
                return Err(CaptureError::Circuit(fault));
            },
        }
        let recording = match RecordingWriter::new(writer, manifest) {
            Ok(recording) => recording,
            Err(fault) => {
                return Err(CaptureError::Recording(fault));
            },
        };
        let session = CaptureSession {
            engine: HypercubeEngine::new(),
            recording,
            pending: None,
            poisoned: false,
        };
        Ok((session, processor))
    }

    /// Evaluate one complete input generation, which is then open until its
    /// record is written. A refused update changes nothing.
    pub fn evaluate<A: Arithmetic>(&mut self, update: &Update, math: &A) -> (result: Result<
        Snapshot,
        CaptureError,
    >)
        ensures
            match result {
                Ok(snapshot) => {
                    &&& capture_accepts(
                        old(self).unusable(),
                        old(self).open_generation(),
                        old(self).generation(),
                        update@,
                    )
                    &&& crate::engine::answers(math, update@, snapshot@)
                    &&& final(self).generation() == Some(update.generation)
                    &&& final(self).open_generation() == Some(update.generation)
                },
                Err(error) => {
                    &&& capture_refuses(
                        old(self).unusable(),
                        old(self).open_generation(),
                        old(self).generation(),
                        update@,
                        error,
                    )
                    &&& final(self).generation() == old(self).generation()
                    &&& final(self).open_generation() == old(self).open_generation()
                },
            },
            old(self).in_step() ==> final(self).in_step(),
            final(self).unusable() == old(self).unusable(),
            final(self).place() == old(self).place(),
            final(self).sink() == old(self).sink(),
    {
        if self.poisoned {
            return Err(CaptureError::Poisoned);
        }
        match self.pending {
            Some(generation) => {
                return Err(CaptureError::Unrecorded(generation));
            },
            None => {},
        }
        match validate_recordable_update(update) {
            Ok(()) => {},
            Err(fault) => {
                return Err(CaptureError::Recording(fault));
            },
        }
        match self.engine.update_ref(update, math) {
            Ok(snapshot) => {
                self.pending = Some(update.generation);
                Ok(snapshot)
            },
            Err(fault) => Err(CaptureError::Engine(fault)),
        }
    }

    /// Take what the circuit gave for the open generation and return the
    /// record to be written. A failure poisons the session. A frame for
    /// another generation than the open one is refused, and so is any frame
    /// once the session is poisoned; that changes nothing.
    ///
    /// Position names are application-defined stable stream identities. Their
    /// values should denote the last input included in this generation.
    pub fn process_with_positions(
        &mut self,
        update: Update,
        source_positions: Table<i64>,
        processed: Result<ProcessedFrame<TriggerFrame>, CircuitError>,
    ) -> (result: Result<GenerationRecord, CaptureError>)
        ensures
            processes(
                *old(self),
                update@,
                source_positions@,
                processed,
                result,
                *final(self),
            ),
            old(self).in_step() ==> final(self).in_step(),
    {
        if self.poisoned {
            return Err(CaptureError::Poisoned);
        }
        let expected: bool = match self.pending {
            Some(generation) => generation == update.generation,
            None => false,
        };
        if !expected {
            return Err(CaptureError::NotEvaluated(update.generation));
        }
        let processed = match processed {
            Ok(processed) => processed,
            Err(fault) => {
                self.poisoned = true;
                return Err(CaptureError::Circuit(fault));
            },
        };
        if processed.circuit_sequence < 0 {
            self.poisoned = true;
            return Err(CaptureError::NegativeSequence(processed.circuit_sequence));
        }
        let record = GenerationRecord {
            circuit_sequence: processed.circuit_sequence as u64,
            update,
            source_positions,
            expected: processed.output,
        };
        match self.recording.permit(&record) {
            Ok(()) => Ok(record),
            Err(fault) => {
                self.poisoned = true;
                Err(CaptureError::Recording(fault))
            },
        }
    }

    /// As [`Self::process_with_positions`], without upstream positions.
    pub fn process(
        &mut self,
        update: Update,
        processed: Result<ProcessedFrame<TriggerFrame>, CircuitError>,
    ) -> (result: Result<GenerationRecord, CaptureError>)
        ensures
            processes(
                *old(self),
                update@,
                Seq::empty(),
                processed,
                result,
                *final(self),
            ),
            old(self).in_step() ==> final(self).in_step(),
    {
        self.process_with_positions(update, Table::new(), processed)
    }

    /// Give access to the sink, to write a line.
    pub fn sink_mut(&mut self) -> (sink: &mut W)
        ensures
            *sink == old(self).sink(),
            final(self).sink() == *final(sink),
            final(self).place() == old(self).place(),
            final(self).generation() == old(self).generation(),
            final(self).open_generation() == old(self).open_generation(),
            final(self).unusable() == old(self).unusable(),
            old(self).in_step() ==> final(self).in_step(),
    {
        self.recording.sink_mut()
    }

    /// Take note that the record of the open generation was written. The
    /// recording then holds every generation that the engine completed.
    pub fn written(&mut self, record: &GenerationRecord)
        requires
            old(self).place().next_sequence < u64::MAX,
            old(self).open_generation() == Some(record.update.generation),
        ensures
            final(self).place() == old(self).place().after(record@),
            final(self).sink() == old(self).sink(),
            final(self).generation() == old(self).generation(),
            final(self).open_generation() is None,
            final(self).unusable() == old(self).unusable(),
            old(self).in_step() ==> final(self).aligned() && final(self).in_step(),
    {
        self.recording.commit(record);
        self.pending = None;
    }

    /// Take note that a record could not be written.
    pub fn poison(&mut self)
        ensures
            final(self).unusable(),
            final(self).place() == old(self).place(),
            final(self).sink() == old(self).sink(),
            final(self).generation() == old(self).generation(),
            final(self).open_generation() == old(self).open_generation(),
            old(self).in_step() ==> final(self).in_step(),
    {
        self.poisoned = true;
    }

    /// Return the generation that was evaluated and is not recorded yet.
    pub fn pending_generation(&self) -> (generation: Option<u64>)
        ensures
            generation == self.open_generation(),
    {
        self.pending
    }

    /// Return the sequence of the next record.
    pub fn next_sequence(&self) -> (sequence: u64)
        ensures
            sequence == self.place().next_sequence,
    {
        self.recording.next_sequence()
    }

    /// End the recording and return its sink, unless the session is poisoned
    /// or a generation is open.
    pub fn finish(self) -> (result: Result<W, CaptureError>)
        ensures
            if self.unusable() {
                result matches Err(e) && e is Poisoned
            } else {
                match self.open_generation() {
                    Some(generation) => result matches Err(e) && e == CaptureError::Unrecorded(
                        generation,
                    ),
                    None => result matches Ok(sink) && sink == self.sink(),
                }
            },
            self.in_step() && result is Ok ==> self.aligned(),
    {
        if self.poisoned {
            return Err(CaptureError::Poisoned);
        }
        match self.pending {
            Some(generation) => Err(CaptureError::Unrecorded(generation)),
            None => Ok(self.recording.into_inner()),
        }
    }

    /// Return whether a post-compute failure prevents safe continuation.
    pub fn is_poisoned(&self) -> (poisoned: bool)
        ensures
            poisoned == self.unusable(),
    {
        self.poisoned
    }
}

/// Build the standard residual-score trigger used by examples and smoke tests.
///
/// Applications should normally construct their own specifications. This
/// helper keeps the runnable replay example concise.
pub fn residual_score_trigger() -> (result: Result<ThresholdTriggerSpec, TriggerConfigError>)
    ensures
        result matches Ok(made) && made@ == (crate::trigger::ThresholdView {
            id: "persistent_liquid_residual"@,
            node: "liquid_residual_score"@,
            enter_at_or_above: Double { bits: ONE },
            exit_at_or_below: Double { bits: HALF },
            min_consecutive: 2,
        }),
{
    proof {
        reveal_strlit("persistent_liquid_residual");
        reveal_strlit("liquid_residual_score");
        crate::text::lemma_not_blank("persistent_liquid_residual"@, 0);
        crate::text::lemma_not_blank("liquid_residual_score"@, 0);
    }
    ThresholdTriggerSpec::new(
        "persistent_liquid_residual",
        "liquid_residual_score",
        Double { bits: ONE },
        Double { bits: HALF },
        2,
    )
}

/// A session hands out a record only for the generation that it evaluated
/// last; the record holds that update, the positions it was given and what the
/// circuit made of it, under the circuit's own sequence. A failure after the
/// evaluation makes the session unusable, and only such a failure does.
pub proof fn lemma_session_records_evaluated<W>(
    session: &mut CaptureSession<W>,
    update: Update,
    source_positions: Table<i64>,
    processed: Result<ProcessedFrame<TriggerFrame>, CircuitError>,
    result: Result<GenerationRecord, CaptureError>,
)
    requires
        call_ensures(
            CaptureSession::<W>::process_with_positions,
            (session, update, source_positions, processed),
            result,
        ),
    ensures
        result matches Ok(record) ==> {
            &&& !old(session).unusable()
            &&& old(session).open_generation() == Some(update.generation)
            &&& processed is Ok
            &&& record.update@ == update@
            &&& record.source_positions@ == source_positions@
            &&& record.circuit_sequence == processed->Ok_0.circuit_sequence
            &&& record.circuit_sequence == old(session).place().next_sequence
            &&& record.expected@ == processed->Ok_0.output@
        },
        !old(session).unusable() && old(session).open_generation() != Some(update.generation)
            ==> result is Err && !final(session).unusable(),
        old(session).unusable() ==> result is Err && final(session).unusable(),
        !old(session).unusable() && old(session).open_generation() == Some(update.generation)
            ==> (final(session).unusable() <==> result is Err),
        processed is Err ==> result is Err,
        final(session).open_generation() == old(session).open_generation(),
{
    if let Ok(record) = result {
        assert(record@.update == record.update@);
        assert(record@.source_positions == record.source_positions@);
        assert(record@.expected == record.expected@);
        assert(record@.circuit_sequence == record.circuit_sequence);
    }
}

/// An evaluation is refused while the session is unusable or a generation is
/// open, and one that succeeds opens the generation of its update.
pub proof fn lemma_evaluation_opens_generation<W, A: Arithmetic>(
    session: &mut CaptureSession<W>,
    update: &Update,
    math: &A,
    result: Result<Snapshot, CaptureError>,
)
    requires
        call_ensures(CaptureSession::<W>::evaluate::<A>, (session, update, math), result),
    ensures
        old(session).unusable() || old(session).open_generation() is Some ==> result is Err,
        result is Ok ==> final(session).open_generation() == Some(update.generation)
            && final(session).generation() == Some(update.generation),
        result is Ok && old(session).generation() is Some ==> old(session).generation()->0
            < update.generation,
        result is Ok ==> result->Ok_0@.generation == update.generation,
        result is Err ==> final(session).open_generation() == old(session).open_generation()
            && final(session).generation() == old(session).generation(),
{
}

/// A session ends with its sink exactly where it is usable and no generation
/// is open.
pub proof fn lemma_session_ends_when_recorded<W>(
    session: CaptureSession<W>,
    result: Result<W, CaptureError>,
)
    requires
        call_ensures(CaptureSession::<W>::finish, (session,), result),
    ensures
        result is Ok <==> !session.unusable() && session.open_generation() is None,
        result is Ok ==> result->Ok_0 == session.sink(),
{
}

/// The residual trigger enters at one and leaves at one half, and waits for two
/// observations in a row.
pub proof fn lemma_residual_trigger_levels(
    result: Result<ThresholdTriggerSpec, TriggerConfigError>,
)
    requires
        call_ensures(residual_score_trigger, (), result),
    ensures
        result is Ok,
        crate::reading::exact(result->Ok_0@.enter_at_or_above) == 1 as real,
        2 as real * crate::reading::exact(result->Ok_0@.exit_at_or_below) == 1 as real,
        result->Ok_0@.min_consecutive == 2,
{
    crate::reading::lemma_constants();
}

} // verus!
