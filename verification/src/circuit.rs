//! Ordered processing of coherent generations.
//!
//! A circuit hands snapshots to a stateful [`FrameProcessor`] and takes the
//! results back. The settings, the order of submissions and what each arrival
//! means are decided here; the ring and its thread are driven by the caller.

use crate::cube::{ExecutionMode, Snapshot};
use crate::text::{push_decimal, push_signed_decimal};
use std::collections::VecDeque;
use std::time::Duration;
use vstd::prelude::*;
use vstd::string::*;

verus! {

/// Per-generation context supplied to a stateful frame processor.
///
/// Stateful code should use `observed_at_ms` as its logical clock instead of
/// consulting wall time. Replay changes `mode` but preserves the original
/// generation and observation time.
#[derive(Debug, Clone, Copy, PartialEq, Eq)]
pub struct FrameContext {
    /// Sequence assigned to this frame.
    pub circuit_sequence: i64,
    /// Hypercube generation carried by the snapshot.
    pub generation: u64,
    /// Original logical observation time.
    pub observed_at_ms: i64,
    /// Live, replay, or batch execution context.
    pub mode: ExecutionMode,
}

impl FrameContext {
    /// The context of a snapshot at a sequence.
    pub open spec fn describes(self, sequence: i64, snapshot: crate::cube::SnapshotView) -> bool {
        &&& self.circuit_sequence == sequence
        &&& self.generation == snapshot.generation
        &&& self.observed_at_ms == snapshot.observed_at_ms
        &&& self.mode == snapshot.mode
    }
}

/// Stateful callback invoked once for every coherent Hypercube snapshot.
///
/// Correctness-lane implementations should be deterministic and must not
/// perform irreversible external effects. Publish their output through a
/// separately guarded adapter instead.
pub trait FrameProcessor: Send + 'static {
    /// Deterministic result returned for one processed frame.
    type Output: Send + 'static;

    /// Process `snapshot` using the supplied logical context.
    fn process(&mut self, context: FrameContext, snapshot: &Snapshot) -> Self::Output;
}

/// Consumer behavior while the circuit is waiting for its next generation.
#[derive(Debug, Clone, Copy, PartialEq, Eq)]
pub enum CircuitWaitStrategy {
    /// Poll continuously for the lowest latency, occupying a processor core.
    BusySpin,
    /// Poll with a CPU spin-loop hint, trading some latency for friendlier
    /// hyper-thread and power behavior.
    SpinLoop,
    /// Sleep between polls for lower idle CPU use and higher wake-up latency.
    Sleep(Duration),
}

/// Runtime settings of a circuit.
#[derive(Debug, Clone, Copy, PartialEq, Eq)]
pub struct CircuitConfig {
    /// Number of preallocated ring slots; must be a power of two of at least 2.
    pub ring_size: usize,
    /// Consumer behavior when no frame is available.
    pub wait_strategy: CircuitWaitStrategy,
    /// Maximum wait for a submitted generation to complete.
    pub completion_timeout: Duration,
}

impl Default for CircuitConfig {
    /// Sixteen slots, naps of fifty microseconds, and five seconds to
    /// complete.
    fn default() -> (config: Self)
        ensures
            config.ring_size == 16,
            config.wait_strategy matches CircuitWaitStrategy::Sleep(nap) && crate::clock::micros_of(nap)
                == 50,
            crate::clock::micros_of(config.completion_timeout) == 5_000_000,
    {
        CircuitConfig {
            ring_size: 16,
            wait_strategy: CircuitWaitStrategy::Sleep(Duration::from_micros(50)),
            completion_timeout: Duration::from_secs(5),
        }
    }
}

/// Whether a ring can have a number of slots.
pub open spec fn ring_fits(ring_size: usize) -> bool {
    ring_size >= 2 && vstd::arithmetic::power2::is_pow2(ring_size as int)
}

impl CircuitConfig {
    /// Reject a ring size that is not a power of two of at least two.
    pub fn validate(&self) -> (result: Result<(), CircuitError>)
        ensures
            result == if ring_fits(self.ring_size) {
                Ok::<(), CircuitError>(())
            } else {
                Err(CircuitError::InvalidRingSize(self.ring_size))
            },
    {
        if self.ring_size < 2 {
            return Err(CircuitError::InvalidRingSize(self.ring_size));
        }
        let mut rest: usize = self.ring_size;
        proof {
            reveal(vstd::arithmetic::power2::is_pow2);
        }
        while rest % 2 == 0
            invariant
                rest >= 1,
                self.ring_size >= 2,
                vstd::arithmetic::power2::is_pow2(self.ring_size as int)
                    == vstd::arithmetic::power2::is_pow2(rest as int),
            decreases rest,
        {
            proof {
                reveal(vstd::arithmetic::power2::is_pow2);
            }
            rest = rest / 2;
        }
        if rest == 1 {
            Ok(())
        } else {
            Err(CircuitError::InvalidRingSize(self.ring_size))
        }
    }
}

/// One completed circuit callback and its ordering coordinates.
#[derive(Debug, Clone, PartialEq)]
pub struct ProcessedFrame<O> {
    /// Sequence assigned at submission.
    pub circuit_sequence: i64,
    /// Hypercube generation processed by the callback.
    pub generation: u64,
    /// Processor-specific deterministic output.
    pub output: O,
}

/// Configuration, backpressure, or completion error from a circuit.
#[derive(Debug, Clone, Copy, PartialEq, Eq, Structural)]
pub enum CircuitError {
    /// Ring size did not meet the ring's layout requirement.
    InvalidRingSize(usize),
    /// A nonblocking submission found no free ring slot.
    RingFull {
        /// Generation that could not be submitted.
        generation: u64,
    },
    /// No submitted generation is waiting for completion.
    NothingPending,
    /// The processor thread stopped without returning its result.
    ProcessorDisconnected,
    /// The submitted generation exceeded its completion deadline.
    CompletionTimeout {
        /// Generation that timed out.
        generation: u64,
    },
    /// Completion order differed from submission order.
    CompletionMismatch {
        /// Expected sequence.
        expected_sequence: i64,
        /// Expected Hypercube generation.
        expected_generation: u64,
        /// Returned sequence.
        actual_sequence: i64,
        /// Returned Hypercube generation.
        actual_generation: u64,
    },
}

impl CircuitError {
    /// The message for a reader.
    pub open spec fn said(self) -> Seq<char> {
        match self {
            CircuitError::InvalidRingSize(size) => "ring size "@ + crate::text::decimal(
                size as nat,
            ) + " must be a power of two and at least 2"@,
            CircuitError::RingFull { generation } =>
                "circuit ring is full while submitting generation "@ + crate::text::decimal(
                generation as nat,
            ),
            CircuitError::NothingPending => "no circuit generation is pending"@,
            CircuitError::ProcessorDisconnected => "circuit processor disconnected"@,
            CircuitError::CompletionTimeout { generation } => "generation "@
                + crate::text::decimal(generation as nat)
                + " did not complete before the circuit deadline"@,
            CircuitError::CompletionMismatch {
                expected_sequence,
                expected_generation,
                actual_sequence,
                actual_generation,
            } => "circuit completion mismatch: expected sequence "@ + crate::text::signed_decimal(
                expected_sequence as int,
            ) + " generation "@ + crate::text::decimal(expected_generation as nat)
                + ", got sequence "@ + crate::text::signed_decimal(actual_sequence as int)
                + " generation "@ + crate::text::decimal(actual_generation as nat),
        }
    }

    /// Return the message for a reader.
    pub fn message(&self) -> (text: String)
        ensures
            text@ == self.said(),
    {
        match self {
            CircuitError::InvalidRingSize(size) => {
                let mut text: String = "ring size ".to_owned();
                push_decimal(&mut text, *size as u64);
                text.append(" must be a power of two and at least 2");
                text
            },
            CircuitError::RingFull { generation } => {
                let mut text: String =
                    "circuit ring is full while submitting generation ".to_owned();
                push_decimal(&mut text, *generation);
                text
            },
            CircuitError::NothingPending => "no circuit generation is pending".to_owned(),
            CircuitError::ProcessorDisconnected => "circuit processor disconnected".to_owned(),
            CircuitError::CompletionTimeout { generation } => {
                let mut text: String = "generation ".to_owned();
                push_decimal(&mut text, *generation);
                text.append(" did not complete before the circuit deadline");
                text
            },
            CircuitError::CompletionMismatch {
                expected_sequence,
                expected_generation,
                actual_sequence,
                actual_generation,
            } => {
                let mut text: String = "circuit completion mismatch: expected sequence ".to_owned();
                push_signed_decimal(&mut text, *expected_sequence);
                text.append(" generation ");
                push_decimal(&mut text, *expected_generation);
                text.append(", got sequence ");
                push_signed_decimal(&mut text, *actual_sequence);
                text.append(" generation ");
                push_decimal(&mut text, *actual_generation);
                text
            },
        }
    }
}

/// The context in which a processor sees a snapshot.
pub fn frame_context(circuit_sequence: i64, snapshot: &Snapshot) -> (context: FrameContext)
    ensures
        context.describes(circuit_sequence, snapshot@),
{
    FrameContext {
        circuit_sequence,
        generation: snapshot.generation,
        observed_at_ms: snapshot.observed_at_ms,
        mode: snapshot.mode,
    }
}

/// What came back while waiting for the oldest submission.
#[derive(Debug, PartialEq)]
pub enum Arrival<O> {
    /// A callback completed.
    Completed(ProcessedFrame<O>),
    /// Nothing arrived before the deadline.
    Timeout,
    /// Nothing can arrive any more.
    Disconnected,
}

/// What the oldest submission and an arrival amount to.
pub open spec fn settlement<O>(
    pending: Seq<(i64, u64)>,
    arrival: Arrival<O>,
) -> Result<ProcessedFrame<O>, CircuitError> {
    if pending.len() == 0 {
        Err(CircuitError::NothingPending)
    } else {
        match arrival {
            Arrival::Timeout => Err(CircuitError::CompletionTimeout { generation: pending[0].1 }),
            Arrival::Disconnected => Err(CircuitError::ProcessorDisconnected),
            Arrival::Completed(frame) => if frame.circuit_sequence == pending[0].0
                && frame.generation == pending[0].1 {
                Ok(frame)
            } else {
                Err(
                    CircuitError::CompletionMismatch {
                        expected_sequence: pending[0].0,
                        expected_generation: pending[0].1,
                        actual_sequence: frame.circuit_sequence,
                        actual_generation: frame.generation,
                    },
                )
            },
        }
    }
}

/// Submitted generations that wait for completion, the oldest first.
#[derive(Debug)]
pub struct PendingFrames {
    frames: VecDeque<(i64, u64)>,
}

impl View for PendingFrames {
    type V = Seq<(i64, u64)>;

    closed spec fn view(&self) -> Seq<(i64, u64)> {
        self.frames@
    }
}

impl PendingFrames {
    /// Nothing submitted yet.
    pub fn new() -> (pending: Self)
        ensures
            pending@ == Seq::<(i64, u64)>::empty(),
    {
        PendingFrames { frames: VecDeque::new() }
    }

    /// Take note of a submission: the sequence that the ring gave it, or
    /// nothing where the ring was full.
    pub fn submitted(&mut self, sequence: Option<i64>, generation: u64) -> (result: Result<
        i64,
        CircuitError,
    >)
        ensures
            match sequence {
                Some(number) => result == Ok::<i64, CircuitError>(number) && final(self)@ == old(
                    self,
                )@.push((number, generation)),
                None => result == Err::<i64, CircuitError>(CircuitError::RingFull { generation })
                    && final(self)@ == old(self)@,
            },
    {
        match sequence {
            Some(number) => {
                self.frames.push_back((number, generation));
                Ok(number)
            },
            None => Err(CircuitError::RingFull { generation }),
        }
    }

    /// Return whether there is anything to wait for.
    pub fn awaited(&self) -> (result: Result<(), CircuitError>)
        ensures
            result == if self@.len() == 0 {
                Err::<(), CircuitError>(CircuitError::NothingPending)
            } else {
                Ok(())
            },
    {
        if self.frames.len() == 0 {
            Err(CircuitError::NothingPending)
        } else {
            Ok(())
        }
    }

    /// Settle the oldest submission by what arrived. It stays pending unless
    /// the arrival completes it.
    pub fn settled<O>(&mut self, arrival: Arrival<O>) -> (result: Result<
        ProcessedFrame<O>,
        CircuitError,
    >)
        ensures
            result == settlement(old(self)@, arrival),
            final(self)@ == if settlement(old(self)@, arrival) is Ok {
                old(self)@.skip(1)
            } else {
                old(self)@
            },
    {
        if self.frames.len() == 0 {
            return Err(CircuitError::NothingPending);
        }
        let (expected_sequence, expected_generation) = self.frames[0];
        let frame = match arrival {
            Arrival::Timeout => {
                return Err(CircuitError::CompletionTimeout { generation: expected_generation });
            },
            Arrival::Disconnected => {
                return Err(CircuitError::ProcessorDisconnected);
            },
            Arrival::Completed(frame) => frame,
        };
        if frame.circuit_sequence != expected_sequence || frame.generation != expected_generation {
            return Err(
                CircuitError::CompletionMismatch {
                    expected_sequence,
                    expected_generation,
                    actual_sequence: frame.circuit_sequence,
                    actual_generation: frame.generation,
                },
            );
        }
        let _oldest = self.frames.pop_front();
        assert(self@ =~= old(self)@.skip(1));
        Ok(frame)
    }

    /// Return the number of submitted generations awaiting completion.
    pub fn pending_len(&self) -> (n: usize)
        ensures
            n == self@.len(),
    {
        self.frames.len()
    }
}

/// What a settled frame is to whoever waits for one submission.
#[derive(Debug, Clone, Copy, PartialEq, Eq, Structural)]
pub enum Completion {
    /// The frame of that submission.
    Own,
    /// The frame of another submission.
    PassedOver,
}

impl PendingFrames {
    /// Tell whether a settled frame is that of a submission, by the sequence
    /// that the ring gave the submission.
    pub fn completion<O>(submitted: i64, frame: &ProcessedFrame<O>) -> (completion: Completion)
        ensures
            completion == if frame.circuit_sequence == submitted {
                Completion::Own
            } else {
                Completion::PassedOver
            },
    {
        if frame.circuit_sequence == submitted {
            Completion::Own
        } else {
            Completion::PassedOver
        }
    }
}

/// What some arrivals settle, one after the other, and what is left.
pub open spec fn settled_all<O>(
    pending: Seq<(i64, u64)>,
    arrivals: Seq<Arrival<O>>,
) -> (Seq<ProcessedFrame<O>>, Seq<(i64, u64)>)
    decreases arrivals.len(),
{
    if arrivals.len() == 0 {
        (Seq::empty(), pending)
    } else {
        let (frames, rest) = settled_all(pending, arrivals.drop_last());
        match settlement(rest, arrivals.last()) {
            Ok(frame) => (frames.push(frame), rest.skip(1)),
            Err(_) => (frames, rest),
        }
    }
}

/// Whatever arrives, results are handed out in the order of submission, none
/// twice and none left out in between.
pub proof fn lemma_completions_in_order<O>(
    pending: Seq<(i64, u64)>,
    arrivals: Seq<Arrival<O>>,
)
    ensures
        ({
            let (frames, rest) = settled_all(pending, arrivals);
            &&& frames.len() <= pending.len()
            &&& rest == pending.skip(frames.len() as int)
            &&& forall|k: int|
                0 <= k < frames.len() ==> (#[trigger] frames[k]).circuit_sequence == pending[k].0
                    && frames[k].generation == pending[k].1
        }),
    decreases arrivals.len(),
{
    if arrivals.len() == 0 {
        assert(pending.skip(0) =~= pending);
    } else {
        lemma_completions_in_order(pending, arrivals.drop_last());
        let (frames, rest) = settled_all(pending, arrivals.drop_last());
        match settlement(rest, arrivals.last()) {
            Ok(frame) => {
                assert(rest[0] == pending[frames.len() as int]);
                assert(rest.skip(1) =~= pending.skip(frames.len() as int + 1));
            },
            Err(_) => {},
        }
    }
}

/// A ring is accepted exactly where its size is a power of two and two at
/// least.
pub proof fn lemma_ring_sizes(config: &CircuitConfig, result: Result<(), CircuitError>)
    requires
        call_ensures(CircuitConfig::validate, (config,), result),
    ensures
        result is Ok <==> config.ring_size >= 2 && exists|n: nat|
            config.ring_size == #[trigger] vstd::arithmetic::power::pow(2, n),
        result is Err ==> result->Err_0 == CircuitError::InvalidRingSize(config.ring_size),
{
    let size = config.ring_size as int;
    vstd::arithmetic::power2::is_pow2_equiv(size);
    if vstd::arithmetic::power2::is_pow2(size) {
        let n = choose|n: nat| #[trigger] vstd::arithmetic::power::pow(2, n) == size;
        assert(config.ring_size == vstd::arithmetic::power::pow(2, n));
    }
}

/// A context says of its snapshot where it stands: the sequence that it is
/// given, and the generation, time and mode of the snapshot.
pub proof fn lemma_context_describes_snapshot(
    circuit_sequence: i64,
    snapshot: &Snapshot,
    context: FrameContext,
)
    requires
        call_ensures(frame_context, (circuit_sequence, snapshot), context),
    ensures
        context.circuit_sequence == circuit_sequence,
        context.generation == snapshot.generation,
        context.observed_at_ms == snapshot.observed_at_ms,
        context.mode == snapshot.mode,
{
}

/// Submissions wait in line. One that the ring took joins at the end under its
/// sequence; one that it did not take is refused, and nothing changes.
pub proof fn lemma_submissions_wait_in_line(
    pending: &mut PendingFrames,
    sequence: Option<i64>,
    generation: u64,
    result: Result<i64, CircuitError>,
)
    requires
        call_ensures(PendingFrames::submitted, (pending, sequence, generation), result),
    ensures
        sequence is Some ==> {
            &&& result is Ok
            &&& result->Ok_0 == sequence->0
            &&& final(pending)@.len() == old(pending)@.len() + 1
            &&& final(pending)@.last() == (sequence->0, generation)
            &&& forall|i: int|
                0 <= i < old(pending)@.len() ==> #[trigger] final(pending)@[i] == old(pending)@[i]
        },
        sequence is None ==> {
            &&& result is Err
            &&& result->Err_0 == CircuitError::RingFull { generation }
            &&& final(pending)@ == old(pending)@
        },
{
}

/// Only the oldest submission is settled, and only by its own frame: what
/// arrives with its sequence and its generation is handed back and leaves the
/// line; anything else is an error that says what was expected, and the line
/// stays as it is.
pub proof fn lemma_oldest_submission_is_settled<O>(
    pending: &mut PendingFrames,
    arrival: Arrival<O>,
    result: Result<ProcessedFrame<O>, CircuitError>,
)
    requires
        call_ensures(PendingFrames::settled::<O>, (pending, arrival), result),
    ensures
        old(pending)@.len() == 0 ==> result is Err && result->Err_0
            == CircuitError::NothingPending,
        result is Ok ==> {
            &&& old(pending)@.len() > 0
            &&& arrival is Completed
            &&& result->Ok_0 == arrival->0
            &&& result->Ok_0.circuit_sequence == old(pending)@[0].0
            &&& result->Ok_0.generation == old(pending)@[0].1
            &&& final(pending)@ == old(pending)@.skip(1)
        },
        result is Err ==> final(pending)@ == old(pending)@,
        old(pending)@.len() > 0 ==> match arrival {
            Arrival::Timeout => result is Err && result->Err_0
                == (CircuitError::CompletionTimeout { generation: old(pending)@[0].1 }),
            Arrival::Disconnected => result is Err && result->Err_0
                == CircuitError::ProcessorDisconnected,
            Arrival::Completed(frame) => {
                let own = frame.circuit_sequence == old(pending)@[0].0 && frame.generation == old(
                    pending,
                )@[0].1;
                &&& own <==> result is Ok
                &&& !own ==> result->Err_0 == (CircuitError::CompletionMismatch {
                    expected_sequence: old(pending)@[0].0,
                    expected_generation: old(pending)@[0].1,
                    actual_sequence: frame.circuit_sequence,
                    actual_generation: frame.generation,
                })
            },
        },
{
}

/// A frame is a submission's own exactly where it bears its sequence, and
/// there is something to wait for exactly where something is pending.
pub proof fn lemma_waiting_ends_with_own_frame<O>(
    submitted: i64,
    frame: &ProcessedFrame<O>,
    completion: Completion,
    pending: &PendingFrames,
    awaited: Result<(), CircuitError>,
)
    requires
        call_ensures(PendingFrames::completion::<O>, (submitted, frame), completion),
        call_ensures(PendingFrames::awaited, (pending,), awaited),
    ensures
        completion is Own <==> frame.circuit_sequence == submitted,
        awaited is Ok <==> pending@.len() > 0,
        awaited is Err ==> awaited->Err_0 == CircuitError::NothingPending,
{
}

} // verus!
