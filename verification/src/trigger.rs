//! Threshold triggers with persistence and hysteresis.

use crate::circuit::{FrameContext, FrameProcessor};
use crate::cube::{CellValue, Snapshot};
use crate::digest::{snapshot_digest, SnapshotDigest};
use crate::number::{Double, Rendering};
use crate::order::{sorted_order, Ranking};
use crate::table::Table;
use crate::text::{is_before, is_blank, same_text};
use vstd::prelude::*;
use vstd::string::*;

verus! {

/// Configuration for a persistent upper-threshold trigger with hysteresis.
#[derive(Debug, PartialEq)]
pub struct ThresholdTriggerSpec {
    /// Stable identifier included in emitted transitions.
    pub id: String,
    /// Hypercube node whose entity values are observed.
    pub node: String,
    /// Inactive entities begin qualifying at or above this value.
    pub enter_at_or_above: Double,
    /// Active entities exit at or below this value.
    pub exit_at_or_below: Double,
    /// Number of consecutive qualifying generations required to enter.
    pub min_consecutive: u32,
}

/// What a [`ThresholdTriggerSpec`] holds.
#[verifier::ext_equal]
pub struct ThresholdView {
    /// Identifier.
    pub id: Seq<char>,
    /// Observed node.
    pub node: Seq<char>,
    /// Entry threshold.
    pub enter_at_or_above: Double,
    /// Exit threshold.
    pub exit_at_or_below: Double,
    /// Persistence.
    pub min_consecutive: u32,
}

impl View for ThresholdTriggerSpec {
    type V = ThresholdView;

    open spec fn view(&self) -> ThresholdView {
        ThresholdView {
            id: self.id@,
            node: self.node@,
            enter_at_or_above: self.enter_at_or_above,
            exit_at_or_below: self.exit_at_or_below,
            min_consecutive: self.min_consecutive,
        }
    }
}

impl Clone for ThresholdTriggerSpec {
    fn clone(&self) -> (copy: Self)
        ensures
            copy@ == self@,
    {
        ThresholdTriggerSpec {
            id: self.id.clone(),
            node: self.node.clone(),
            enter_at_or_above: self.enter_at_or_above,
            exit_at_or_below: self.exit_at_or_below,
            min_consecutive: self.min_consecutive,
        }
    }
}

/// Copy a list of trigger specifications.
pub fn copied_triggers(specs: &Vec<ThresholdTriggerSpec>) -> (copy: Vec<ThresholdTriggerSpec>)
    ensures
        crate::text::views(copy@) == crate::text::views(specs@),
{
    let mut copy: Vec<ThresholdTriggerSpec> = Vec::new();
    let mut i: usize = 0;
    while i < specs.len()
        invariant
            0 <= i <= specs@.len(),
            copy@.len() == i,
            forall|k: int| 0 <= k < i ==> (#[trigger] copy@[k])@ == specs@[k]@,
        decreases specs@.len() - i,
    {
        copy.push(specs[i].clone());
        i = i + 1;
    }
    assert(crate::text::views(copy@) =~= crate::text::views(specs@));
    copy
}

/// Invalid threshold-trigger configuration.
#[derive(Debug, Clone, PartialEq)]
pub enum TriggerConfigError {
    /// A required identifier was empty.
    EmptyIdentifier(&'static str),
    /// A threshold was NaN or infinite.
    NonFiniteThreshold {
        /// Invalid trigger identifier.
        trigger: String,
    },
    /// Entry did not sit strictly above exit.
    InvalidHysteresis {
        /// Invalid trigger identifier.
        trigger: String,
        /// Configured entry threshold.
        enter: Double,
        /// Configured exit threshold.
        exit: Double,
    },
    /// Persistence count was zero.
    ZeroPersistence {
        /// Invalid trigger identifier.
        trigger: String,
    },
    /// Two specifications shared one identifier.
    DuplicateTrigger(String),
}

/// What a [`TriggerConfigError`] holds.
#[verifier::ext_equal]
pub enum TriggerFault {
    /// An identifier was empty.
    EmptyIdentifier(Seq<char>),
    /// A threshold was not finite.
    NonFiniteThreshold {
        /// The trigger.
        trigger: Seq<char>,
    },
    /// Entry is not above exit.
    InvalidHysteresis {
        /// The trigger.
        trigger: Seq<char>,
        /// Entry threshold.
        enter: Double,
        /// Exit threshold.
        exit: Double,
    },
    /// Persistence is zero.
    ZeroPersistence {
        /// The trigger.
        trigger: Seq<char>,
    },
    /// An identifier is repeated.
    DuplicateTrigger(Seq<char>),
}

impl View for TriggerConfigError {
    type V = TriggerFault;

    open spec fn view(&self) -> TriggerFault {
        match self {
            TriggerConfigError::EmptyIdentifier(kind) => TriggerFault::EmptyIdentifier(kind@),
            TriggerConfigError::NonFiniteThreshold { trigger } => TriggerFault::NonFiniteThreshold {
                trigger: trigger@,
            },
            TriggerConfigError::InvalidHysteresis {
                trigger,
                enter,
                exit,
            } => TriggerFault::InvalidHysteresis { trigger: trigger@, enter: *enter, exit: *exit },
            TriggerConfigError::ZeroPersistence { trigger } => TriggerFault::ZeroPersistence {
                trigger: trigger@,
            },
            TriggerConfigError::DuplicateTrigger(id) => TriggerFault::DuplicateTrigger(id@),
        }
    }
}

impl TriggerFault {
    /// Whether a text says what is wrong, with the thresholds as a rendering
    /// may write them.
    pub open spec fn said<R: Rendering>(self, rendering: &R, text: Seq<char>) -> bool {
        match self {
            TriggerFault::EmptyIdentifier(kind) => text == kind + " cannot be empty"@,
            TriggerFault::NonFiniteThreshold { trigger } => text == "trigger "@ + trigger
                + " has a non-finite threshold"@,
            TriggerFault::InvalidHysteresis { trigger, enter, exit } => exists|a: String, b: String|
                {
                    &&& #[trigger] call_ensures(R::shown, (rendering, enter), a)
                    &&& #[trigger] call_ensures(R::shown, (rendering, exit), b)
                    &&& text == "trigger "@ + trigger
                        + " must enter above its exit threshold: enter="@ + a@ + ", exit="@ + b@
                },
            TriggerFault::ZeroPersistence { trigger } => text == "trigger "@ + trigger
                + " must require at least one generation"@,
            TriggerFault::DuplicateTrigger(id) => text == "duplicate trigger id: "@ + id,
        }
    }
}

impl TriggerConfigError {
    /// Say what is wrong with a trigger, with its thresholds written out.
    pub fn message<R: Rendering>(&self, rendering: &R) -> (text: String)
        ensures
            self@.said(rendering, text@),
    {
        match self {
            TriggerConfigError::EmptyIdentifier(kind) => (*kind).to_owned().concat(" cannot be empty"),
            TriggerConfigError::NonFiniteThreshold { trigger } => "trigger ".to_owned().concat(
                trigger.as_str(),
            ).concat(" has a non-finite threshold"),
            TriggerConfigError::InvalidHysteresis { trigger, enter, exit } => {
                let a = rendering.shown(*enter);
                let b = rendering.shown(*exit);
                let text = "trigger ".to_owned().concat(trigger.as_str()).concat(
                    " must enter above its exit threshold: enter=",
                ).concat(a.as_str()).concat(", exit=").concat(b.as_str());
                assert(call_ensures(R::shown, (rendering, *enter), a));
                assert(call_ensures(R::shown, (rendering, *exit), b));
                text
            },
            TriggerConfigError::ZeroPersistence { trigger } => "trigger ".to_owned().concat(
                trigger.as_str(),
            ).concat(" must require at least one generation"),
            TriggerConfigError::DuplicateTrigger(id) => "duplicate trigger id: ".to_owned().concat(
                id.as_str(),
            ),
        }
    }
}

/// What is wrong with one specification.
pub open spec fn threshold_fault(rule: ThresholdView) -> Option<TriggerFault> {
    if crate::text::blank(rule.id) {
        Some(TriggerFault::EmptyIdentifier("trigger id"@))
    } else if crate::text::blank(rule.node) {
        Some(TriggerFault::EmptyIdentifier("trigger node"@))
    } else if !rule.enter_at_or_above.finite() || !rule.exit_at_or_below.finite() {
        Some(TriggerFault::NonFiniteThreshold { trigger: rule.id })
    } else if rule.enter_at_or_above.le(rule.exit_at_or_below) {
        Some(
            TriggerFault::InvalidHysteresis {
                trigger: rule.id,
                enter: rule.enter_at_or_above,
                exit: rule.exit_at_or_below,
            },
        )
    } else if rule.min_consecutive == 0 {
        Some(TriggerFault::ZeroPersistence { trigger: rule.id })
    } else {
        None
    }
}

/// Whether an identifier was used by one of the first `n` specifications.
pub open spec fn trigger_seen(specs: Seq<ThresholdView>, n: int, id: Seq<char>) -> bool {
    exists|j: int| 0 <= j < n && (#[trigger] specs[j]).id == id
}

/// The first fault among the first `n` specifications.
pub open spec fn triggers_fault(specs: Seq<ThresholdView>, n: int) -> Option<TriggerFault>
    decreases n,
{
    if n <= 0 {
        None
    } else {
        match triggers_fault(specs, n - 1) {
            Some(fault) => Some(fault),
            None => match threshold_fault(specs[n - 1]) {
                Some(fault) => Some(fault),
                None => if trigger_seen(specs, n - 1, specs[n - 1].id) {
                    Some(TriggerFault::DuplicateTrigger(specs[n - 1].id))
                } else {
                    None
                },
            },
        }
    }
}

/// Whether a result is what a fault, or its absence, calls for.
pub open spec fn reports<T>(
    result: Result<T, TriggerConfigError>,
    fault: Option<TriggerFault>,
) -> bool {
    match fault {
        Some(f) => result matches Err(e) && e@ == f,
        None => result is Ok,
    }
}

impl ThresholdTriggerSpec {
    /// Construct and validate one trigger specification.
    pub fn new(
        id: &str,
        node: &str,
        enter_at_or_above: Double,
        exit_at_or_below: Double,
        min_consecutive: u32,
    ) -> (result: Result<Self, TriggerConfigError>)
        ensures
            reports(
                result,
                threshold_fault(
                    ThresholdView {
                        id: id@,
                        node: node@,
                        enter_at_or_above,
                        exit_at_or_below,
                        min_consecutive,
                    },
                ),
            ),
            result matches Ok(made) ==> made@ == (ThresholdView {
                id: id@,
                node: node@,
                enter_at_or_above,
                exit_at_or_below,
                min_consecutive,
            }),
    {
        let made = ThresholdTriggerSpec {
            id: id.to_owned(),
            node: node.to_owned(),
            enter_at_or_above,
            exit_at_or_below,
            min_consecutive,
        };
        match made.validate() {
            Ok(()) => Ok(made),
            Err(fault) => Err(fault),
        }
    }

    /// Reject empty identifiers, thresholds that are not finite or leave no
    /// room between entry and exit, and a persistence of zero.
    pub fn validate(&self) -> (result: Result<(), TriggerConfigError>)
        ensures
            reports(result, threshold_fault(self@)),
    {
        if is_blank(self.id.as_str()) {
            return Err(TriggerConfigError::EmptyIdentifier("trigger id"));
        }
        if is_blank(self.node.as_str()) {
            return Err(TriggerConfigError::EmptyIdentifier("trigger node"));
        }
        if !self.enter_at_or_above.is_finite() || !self.exit_at_or_below.is_finite() {
            return Err(TriggerConfigError::NonFiniteThreshold { trigger: self.id.clone() });
        }
        if self.enter_at_or_above.is_at_most(self.exit_at_or_below) {
            return Err(
                TriggerConfigError::InvalidHysteresis {
                    trigger: self.id.clone(),
                    enter: self.enter_at_or_above,
                    exit: self.exit_at_or_below,
                },
            );
        }
        if self.min_consecutive == 0 {
            return Err(TriggerConfigError::ZeroPersistence { trigger: self.id.clone() });
        }
        Ok(())
    }
}

/// State change emitted by a threshold processor.
#[derive(Debug, Clone, Copy, PartialEq, Eq, PartialOrd, Ord, Structural)]
pub enum TriggerTransitionKind {
    /// Entity satisfied entry persistence and became active.
    Entered,
    /// Active entity crossed the configured exit threshold.
    Exited,
    /// Active entity disappeared from the observed node.
    Invalidated,
}

impl TriggerTransitionKind {
    /// Position of a kind among transitions of one entity.
    pub open spec fn place(self) -> int {
        match self {
            TriggerTransitionKind::Entered => 0,
            TriggerTransitionKind::Exited => 1,
            TriggerTransitionKind::Invalidated => 2,
        }
    }

    fn rank(self) -> (rank: u8)
        ensures
            rank == self.place(),
    {
        match self {
            TriggerTransitionKind::Entered => 0,
            TriggerTransitionKind::Exited => 1,
            TriggerTransitionKind::Invalidated => 2,
        }
    }
}

/// One deterministic entity-level trigger transition.
#[derive(Debug, PartialEq)]
pub struct TriggerTransition {
    /// Trigger specification that produced the transition.
    pub trigger: String,
    /// Hypercube node observed by the trigger.
    pub node: String,
    /// Entity key whose state changed.
    pub key: String,
    /// Hypercube generation at which the transition occurred.
    pub generation: u64,
    /// Original observation time of the frame.
    pub observed_at_ms: i64,
    /// Enter, exit, or invalidation transition.
    pub kind: TriggerTransitionKind,
    /// Observed value, or `None` when missing data invalidated the state.
    pub value: Option<Double>,
}

/// What a [`TriggerTransition`] holds.
#[verifier::ext_equal]
pub struct TransitionView {
    /// Trigger.
    pub trigger: Seq<char>,
    /// Observed node.
    pub node: Seq<char>,
    /// Entity key.
    pub key: Seq<char>,
    /// Generation.
    pub generation: u64,
    /// Observation time.
    pub observed_at_ms: i64,
    /// Kind.
    pub kind: TriggerTransitionKind,
    /// Observed value.
    pub value: Option<Double>,
}

impl View for TriggerTransition {
    type V = TransitionView;

    open spec fn view(&self) -> TransitionView {
        TransitionView {
            trigger: self.trigger@,
            node: self.node@,
            key: self.key@,
            generation: self.generation,
            observed_at_ms: self.observed_at_ms,
            kind: self.kind,
            value: self.value,
        }
    }
}

impl Clone for TriggerTransition {
    fn clone(&self) -> (copy: Self)
        ensures
            copy@ == self@,
    {
        TriggerTransition {
            trigger: self.trigger.clone(),
            node: self.node.clone(),
            key: self.key.clone(),
            generation: self.generation,
            observed_at_ms: self.observed_at_ms,
            kind: self.kind,
            value: self.value,
        }
    }
}

/// One entity's complete state for a threshold trigger after a generation.
///
/// This is the dense callback output that an adapter can project into Slice
/// vectors or publish to new subscribers. Transitions remain the sparse
/// edge-event view.
#[derive(Debug, PartialEq, Eq)]
pub struct TriggerState {
    /// Trigger specification that owns the state.
    pub trigger: String,
    /// Hypercube node observed by the trigger.
    pub node: String,
    /// Entity key represented by this state.
    pub key: String,
    /// Whether the trigger is currently active for the entity.
    pub active: bool,
    /// Current consecutive entry-qualification count.
    pub qualifying_generations: u32,
}

/// What a [`TriggerState`] holds.
#[verifier::ext_equal]
pub struct StateView {
    /// Trigger.
    pub trigger: Seq<char>,
    /// Observed node.
    pub node: Seq<char>,
    /// Entity key.
    pub key: Seq<char>,
    /// Whether it is active.
    pub active: bool,
    /// Qualifying generations so far.
    pub qualifying_generations: u32,
}

impl View for TriggerState {
    type V = StateView;

    open spec fn view(&self) -> StateView {
        StateView {
            trigger: self.trigger@,
            node: self.node@,
            key: self.key@,
            active: self.active,
            qualifying_generations: self.qualifying_generations,
        }
    }
}

impl Clone for TriggerState {
    fn clone(&self) -> (copy: Self)
        ensures
            copy@ == self@,
    {
        TriggerState {
            trigger: self.trigger.clone(),
            node: self.node.clone(),
            key: self.key.clone(),
            active: self.active,
            qualifying_generations: self.qualifying_generations,
        }
    }
}

/// Deterministic output of threshold processing for one generation.
#[derive(Debug, PartialEq)]
pub struct TriggerFrame {
    /// Hypercube generation processed.
    pub generation: u64,
    /// Semantic digest of the complete input snapshot.
    pub snapshot: SnapshotDigest,
    /// Ordered state transitions emitted for this generation.
    pub transitions: Vec<TriggerTransition>,
    /// Complete ordered trigger-state cross-section after processing.
    pub states: Vec<TriggerState>,
}

/// What a [`TriggerFrame`] holds.
#[verifier::ext_equal]
pub struct FrameView {
    /// Generation.
    pub generation: u64,
    /// Digest.
    pub snapshot: crate::digest::DigestView,
    /// Transitions.
    pub transitions: Seq<TransitionView>,
    /// States.
    pub states: Seq<StateView>,
}

impl View for TriggerFrame {
    type V = FrameView;

    open spec fn view(&self) -> FrameView {
        FrameView {
            generation: self.generation,
            snapshot: self.snapshot@,
            transitions: crate::text::views(self.transitions@),
            states: crate::text::views(self.states@),
        }
    }
}

impl Clone for TriggerFrame {
    fn clone(&self) -> (copy: Self)
        ensures
            copy@ == self@,
    {
        let mut transitions: Vec<TriggerTransition> = Vec::new();
        let mut i: usize = 0;
        while i < self.transitions.len()
            invariant
                0 <= i <= self.transitions@.len(),
                transitions@.len() == i,
                forall|k: int| 0 <= k < i ==> (#[trigger] transitions@[k])@ == self.transitions@[k]@,
            decreases self.transitions@.len() - i,
        {
            transitions.push(self.transitions[i].clone());
            i = i + 1;
        }
        let mut states: Vec<TriggerState> = Vec::new();
        let mut j: usize = 0;
        while j < self.states.len()
            invariant
                0 <= j <= self.states@.len(),
                states@.len() == j,
                forall|k: int| 0 <= k < j ==> (#[trigger] states@[k])@ == self.states@[k]@,
            decreases self.states@.len() - j,
        {
            states.push(self.states[j].clone());
            j = j + 1;
        }
        let copy = TriggerFrame {
            generation: self.generation,
            snapshot: self.snapshot.clone(),
            transitions,
            states,
        };
        assert(copy@.transitions =~= self@.transitions);
        assert(copy@.states =~= self@.states);
        copy
    }
}

/// How far one entity is with one trigger.
#[derive(Debug, Clone, Copy, PartialEq, Eq, Structural)]
pub struct Progress {
    /// Consecutive generations that qualified for entry.
    pub qualifying_generations: u32,
    /// Whether the trigger is active.
    pub active: bool,
}

/// Where an entity starts.
pub open spec fn fresh() -> Progress {
    Progress { qualifying_generations: 0, active: false }
}

/// One more qualifying generation.
pub open spec fn qualified(before: Progress) -> u32 {
    if before.qualifying_generations < u32::MAX {
        (before.qualifying_generations + 1) as u32
    } else {
        u32::MAX
    }
}

/// How far an entity is after a value was observed.
pub open spec fn stepped(rule: ThresholdView, before: Progress, value: Double) -> Progress {
    if before.active {
        if value.le(rule.exit_at_or_below) {
            fresh()
        } else {
            before
        }
    } else if rule.enter_at_or_above.le(value) {
        if qualified(before) >= rule.min_consecutive {
            Progress { qualifying_generations: 0, active: true }
        } else {
            Progress { qualifying_generations: qualified(before), active: false }
        }
    } else {
        fresh()
    }
}

/// The change of state that an observed value brings about.
pub open spec fn crossing(rule: ThresholdView, before: Progress, value: Double) -> Option<
    TriggerTransitionKind,
> {
    if before.active && value.le(rule.exit_at_or_below) {
        Some(TriggerTransitionKind::Exited)
    } else if !before.active && rule.enter_at_or_above.le(value) && qualified(before)
        >= rule.min_consecutive {
        Some(TriggerTransitionKind::Entered)
    } else {
        None
    }
}

/// How far an entity is.
pub open spec fn progress_of(table: Seq<(Seq<char>, Progress)>, key: Seq<char>) -> Progress {
    match crate::table::found(table, key) {
        Some(progress) => progress,
        None => fresh(),
    }
}

/// The transition of an entity.
pub open spec fn transition_of(
    rule: ThresholdView,
    context: FrameContext,
    key: Seq<char>,
    kind: TriggerTransitionKind,
    value: Option<Double>,
) -> TransitionView {
    TransitionView {
        trigger: rule.id,
        node: rule.node,
        key,
        generation: context.generation,
        observed_at_ms: context.observed_at_ms,
        kind,
        value,
    }
}

/// How far the entities of a trigger are after the first `n` cells.
pub open spec fn walked(
    rule: ThresholdView,
    cells: Seq<crate::cube::CellView>,
    n: int,
    table: Seq<(Seq<char>, Progress)>,
) -> Seq<(Seq<char>, Progress)>
    decreases n,
{
    if n <= 0 {
        table
    } else {
        let before = walked(rule, cells, n - 1, table);
        let cell = cells[n - 1];
        if cell.node == rule.node {
            crate::table::entered(
                before,
                cell.key,
                stepped(rule, progress_of(before, cell.key), cell.value),
            )
        } else {
            before
        }
    }
}

/// The transitions that the first `n` cells bring about.
pub open spec fn crossings(
    rule: ThresholdView,
    context: FrameContext,
    cells: Seq<crate::cube::CellView>,
    n: int,
    table: Seq<(Seq<char>, Progress)>,
) -> Seq<TransitionView>
    decreases n,
{
    if n <= 0 {
        Seq::empty()
    } else {
        let before = crossings(rule, context, cells, n - 1, table);
        let cell = cells[n - 1];
        let progress = progress_of(walked(rule, cells, n - 1, table), cell.key);
        if cell.node == rule.node {
            match crossing(rule, progress, cell.value) {
                Some(kind) => before.push(
                    transition_of(rule, context, cell.key, kind, Some(cell.value)),
                ),
                None => before,
            }
        } else {
            before
        }
    }
}

/// Whether an entity is among the first `n` cells of a node.
pub open spec fn observed(
    cells: Seq<crate::cube::CellView>,
    n: int,
    node: Seq<char>,
    key: Seq<char>,
) -> bool {
    exists|j: int|
        0 <= j < n && (#[trigger] cells[j]).node == node && cells[j].key == key
}

/// The entries among the first `n` whose entity is observed.
pub open spec fn present(
    table: Seq<(Seq<char>, Progress)>,
    cells: Seq<crate::cube::CellView>,
    node: Seq<char>,
    n: int,
) -> Seq<(Seq<char>, Progress)>
    decreases n,
{
    if n <= 0 {
        Seq::empty()
    } else if observed(cells, cells.len() as int, node, table[n - 1].0) {
        present(table, cells, node, n - 1).push(table[n - 1])
    } else {
        present(table, cells, node, n - 1)
    }
}

/// The transitions of the entries among the first `n` that are active and no
/// longer observed.
pub open spec fn losses(
    rule: ThresholdView,
    context: FrameContext,
    table: Seq<(Seq<char>, Progress)>,
    cells: Seq<crate::cube::CellView>,
    n: int,
) -> Seq<TransitionView>
    decreases n,
{
    if n <= 0 {
        Seq::empty()
    } else {
        let before = losses(rule, context, table, cells, n - 1);
        let (key, progress) = table[n - 1];
        if !observed(cells, cells.len() as int, rule.node, key) && progress.active {
            before.push(
                transition_of(rule, context, key, TriggerTransitionKind::Invalidated, None),
            )
        } else {
            before
        }
    }
}

/// How far the entities of a trigger are after a snapshot.
pub open spec fn advanced(
    rule: ThresholdView,
    cells: Seq<crate::cube::CellView>,
    table: Seq<(Seq<char>, Progress)>,
) -> Seq<(Seq<char>, Progress)> {
    let after = walked(rule, cells, cells.len() as int, table);
    present(after, cells, rule.node, after.len() as int)
}

/// The transitions of a trigger for a snapshot.
pub open spec fn changes(
    rule: ThresholdView,
    context: FrameContext,
    cells: Seq<crate::cube::CellView>,
    table: Seq<(Seq<char>, Progress)>,
) -> Seq<TransitionView> {
    let after = walked(rule, cells, cells.len() as int, table);
    crossings(rule, context, cells, cells.len() as int, table) + losses(
        rule,
        context,
        after,
        cells,
        after.len() as int,
    )
}

/// The transitions of the first `n` triggers, one trigger after the other.
pub open spec fn all_changes(
    specs: Seq<ThresholdView>,
    context: FrameContext,
    cells: Seq<crate::cube::CellView>,
    tables: Seq<Seq<(Seq<char>, Progress)>>,
    n: int,
) -> Seq<TransitionView>
    decreases n,
{
    if n <= 0 {
        Seq::empty()
    } else {
        all_changes(specs, context, cells, tables, n - 1) + changes(
            specs[n - 1],
            context,
            cells,
            tables[n - 1],
        )
    }
}

/// Whether one transition goes before another: by trigger, entity, kind and
/// node.
pub open spec fn goes_before(a: TransitionView, b: TransitionView) -> bool {
    ||| crate::text::precedes(a.trigger, b.trigger)
    ||| a.trigger == b.trigger && crate::text::precedes(a.key, b.key)
    ||| a.trigger == b.trigger && a.key == b.key && a.kind.place() < b.kind.place()
    ||| a.trigger == b.trigger && a.key == b.key && a.kind == b.kind && crate::text::precedes(
        a.node,
        b.node,
    )
}

/// The order of some transitions by position.
pub open spec fn transition_order(transitions: Seq<TransitionView>) -> spec_fn(
    int,
    int,
) -> bool {
    |i: int, j: int| goes_before(transitions[i], transitions[j])
}

/// Transitions in order; equal ones stay as they came.
pub open spec fn in_order(transitions: Seq<TransitionView>) -> Seq<TransitionView> {
    crate::order::taken(
        transitions,
        crate::order::arrangement(transitions.len(), transition_order(transitions)),
    )
}

/// Whether one trigger's identifier stands before another's.
pub open spec fn by_id(specs: Seq<ThresholdView>) -> spec_fn(int, int) -> bool {
    |i: int, j: int| crate::text::precedes(specs[i].id, specs[j].id)
}

/// The triggers in dictionary order of their identifiers.
pub open spec fn id_order(specs: Seq<ThresholdView>) -> Seq<int> {
    crate::order::arrangement(specs.len(), by_id(specs))
}

/// The first `n` states of a trigger.
pub open spec fn trigger_states(
    rule: ThresholdView,
    table: Seq<(Seq<char>, Progress)>,
) -> Seq<StateView> {
    Seq::new(
        table.len(),
        |i: int|
            StateView {
                trigger: rule.id,
                node: rule.node,
                key: table[i].0,
                active: table[i].1.active,
                qualifying_generations: table[i].1.qualifying_generations,
            },
    )
}

/// The states of the first `n` triggers of an order.
pub open spec fn all_states(
    specs: Seq<ThresholdView>,
    order: Seq<int>,
    tables: Seq<Seq<(Seq<char>, Progress)>>,
    n: int,
) -> Seq<StateView>
    decreases n,
{
    if n <= 0 {
        Seq::empty()
    } else {
        all_states(specs, order, tables, n - 1) + trigger_states(
            specs[order[n - 1]],
            tables[order[n - 1]],
        )
    }
}

/// How far the entities of every trigger are after a snapshot.
pub open spec fn all_advanced(
    specs: Seq<ThresholdView>,
    cells: Seq<crate::cube::CellView>,
    tables: Seq<Seq<(Seq<char>, Progress)>>,
) -> Seq<Seq<(Seq<char>, Progress)>> {
    Seq::new(specs.len(), |i: int| advanced(specs[i], cells, tables[i]))
}

/// The frame of a snapshot, given how far the entities were.
pub open spec fn frame_of(
    specs: Seq<ThresholdView>,
    tables: Seq<Seq<(Seq<char>, Progress)>>,
    context: FrameContext,
    snapshot: crate::cube::SnapshotView,
) -> FrameView {
    FrameView {
        generation: context.generation,
        snapshot: crate::digest::digest_of(snapshot),
        transitions: in_order(
            all_changes(specs, context, snapshot.values, tables, specs.len() as int),
        ),
        states: all_states(
            specs,
            id_order(specs),
            all_advanced(specs, snapshot.values, tables),
            specs.len() as int,
        ),
    }
}

/// The order of transitions is a strict weak order.
pub proof fn lemma_transition_order(transitions: Seq<TransitionView>)
    ensures
        crate::order::strict_weak(transitions.len(), transition_order(transitions)),
{
    let f = transition_order(transitions);
    assert forall|i: int, j: int|
        0 <= i < transitions.len() && 0 <= j < transitions.len() && #[trigger] f(
            i,
            j,
        ) implies !f(j, i) by {
        let a = transitions[i];
        let b = transitions[j];
        lemma_one_way(a.trigger, b.trigger);
        lemma_one_way(a.key, b.key);
        lemma_one_way(a.node, b.node);
    }
    assert forall|i: int, j: int, k: int|
        #![trigger f(i, k), f(j, k)]
        #![trigger f(i, k), f(i, j)]
        0 <= i < transitions.len() && 0 <= j < transitions.len() && 0 <= k < transitions.len()
            && f(i, k) implies f(i, j) || f(j, k) by {
        let a = transitions[i];
        let b = transitions[j];
        let c = transitions[k];
        lemma_between(a.trigger, b.trigger, c.trigger);
        lemma_between(a.key, b.key, c.key);
        lemma_between(a.node, b.node, c.node);
    }
}

pub(crate) proof fn lemma_one_way(a: Seq<char>, b: Seq<char>)
    ensures
        crate::text::precedes(a, b) ==> !crate::text::precedes(b, a) && a != b,
        crate::text::precedes(b, a) ==> a != b,
{
    if crate::text::precedes(a, b) {
        crate::text::lemma_precedes_asymmetric(a, b);
    }
    if crate::text::precedes(b, a) {
        crate::text::lemma_precedes_asymmetric(b, a);
    }
}

pub(crate) proof fn lemma_between(a: Seq<char>, b: Seq<char>, c: Seq<char>)
    ensures
        a == b || crate::text::precedes(a, b) || crate::text::precedes(b, a),
        b == c || crate::text::precedes(b, c) || crate::text::precedes(c, b),
        a == c || crate::text::precedes(a, c) || crate::text::precedes(c, a),
        crate::text::precedes(a, c) ==> crate::text::precedes(a, b) || crate::text::precedes(b, c),
        crate::text::precedes(a, c) ==> a != c && !crate::text::precedes(c, a),
        crate::text::precedes(a, b) ==> a != b,
        crate::text::precedes(b, c) ==> b != c,
        crate::text::precedes(b, a) && crate::text::precedes(a, c) ==> crate::text::precedes(b, c),
        crate::text::precedes(a, c) && crate::text::precedes(c, b) ==> crate::text::precedes(a, b),
{
    if a != b {
        crate::text::lemma_precedes_total(a, b);
    }
    if b != c {
        crate::text::lemma_precedes_total(b, c);
    }
    if a != c {
        crate::text::lemma_precedes_total(a, c);
    }
    if crate::text::precedes(a, c) {
        crate::text::lemma_precedes_negative(a, b, c);
    }
    lemma_one_way(a, b);
    lemma_one_way(b, c);
    lemma_one_way(a, c);
    if crate::text::precedes(b, a) && crate::text::precedes(a, c) {
        crate::text::lemma_precedes_transitive(b, a, c);
    }
    if crate::text::precedes(a, c) && crate::text::precedes(c, b) {
        crate::text::lemma_precedes_transitive(a, c, b);
    }
}

struct ByTransition<'a> {
    transitions: &'a Vec<TriggerTransition>,
}

impl<'a> Ranking for ByTransition<'a> {
    closed spec fn size(&self) -> nat {
        self.transitions@.len()
    }

    closed spec fn relation(&self) -> spec_fn(int, int) -> bool {
        transition_order(crate::text::views(self.transitions@))
    }

    proof fn lawful(&self) {
        lemma_transition_order(crate::text::views(self.transitions@));
    }

    fn before(&self, i: usize, j: usize) -> bool {
        let a = &self.transitions[i];
        let b = &self.transitions[j];
        if !same_text(a.trigger.as_str(), b.trigger.as_str()) {
            proof {
                lemma_one_way(a.trigger@, b.trigger@);
            }
            return is_before(a.trigger.as_str(), b.trigger.as_str());
        }
        proof {
            crate::text::lemma_precedes_irreflexive(a.trigger@);
        }
        if !same_text(a.key.as_str(), b.key.as_str()) {
            return is_before(a.key.as_str(), b.key.as_str());
        }
        proof {
            crate::text::lemma_precedes_irreflexive(a.key@);
        }
        if a.kind.rank() != b.kind.rank() {
            return a.kind.rank() < b.kind.rank();
        }
        is_before(a.node.as_str(), b.node.as_str())
    }
}

fn transitions_in_order(transitions: Vec<TriggerTransition>) -> (sorted: Vec<TriggerTransition>)
    ensures
        crate::text::views(sorted@) == in_order(crate::text::views(transitions@)),
{
    let ghost all = crate::text::views(transitions@);
    let order = sorted_order(&ByTransition { transitions: &transitions }, transitions.len());
    let ghost p = crate::order::indexes(order@);
    let mut sorted: Vec<TriggerTransition> = Vec::new();
    let mut k: usize = 0;
    while k < order.len()
        invariant
            0 <= k <= order@.len(),
            all == crate::text::views(transitions@),
            p == crate::order::indexes(order@),
            order@.len() == transitions@.len(),
            forall|a: int| 0 <= a < p.len() ==> 0 <= #[trigger] p[a] < transitions@.len(),
            sorted@.len() == k,
            forall|a: int| 0 <= a < k ==> (#[trigger] sorted@[a])@ == all[p[a]],
        decreases order@.len() - k,
    {
        assert(p[k as int] == order@[k as int]);
        sorted.push(transitions[order[k]].clone());
        k = k + 1;
    }
    assert(crate::text::views(sorted@) =~= in_order(all));
    sorted
}

/// The identifiers of triggers are in a strict weak order.
pub proof fn lemma_by_id(specs: Seq<ThresholdView>)
    ensures
        crate::order::strict_weak(specs.len(), by_id(specs)),
{
    let f = by_id(specs);
    assert forall|i: int, j: int|
        0 <= i < specs.len() && 0 <= j < specs.len() && #[trigger] f(i, j) implies !f(j, i) by {
        crate::text::lemma_precedes_asymmetric(specs[i].id, specs[j].id);
    }
    assert forall|i: int, j: int, k: int|
        #![trigger f(i, k), f(j, k)]
        #![trigger f(i, k), f(i, j)]
        0 <= i < specs.len() && 0 <= j < specs.len() && 0 <= k < specs.len() && f(
            i,
            k,
        ) implies f(i, j) || f(j, k) by {
        crate::text::lemma_precedes_negative(specs[i].id, specs[j].id, specs[k].id);
    }
}

struct ById<'a> {
    specs: &'a Vec<ThresholdTriggerSpec>,
}

impl<'a> Ranking for ById<'a> {
    closed spec fn size(&self) -> nat {
        self.specs@.len()
    }

    closed spec fn relation(&self) -> spec_fn(int, int) -> bool {
        by_id(crate::text::views(self.specs@))
    }

    proof fn lawful(&self) {
        lemma_by_id(crate::text::views(self.specs@));
    }

    fn before(&self, i: usize, j: usize) -> bool {
        is_before(self.specs[i].id.as_str(), self.specs[j].id.as_str())
    }
}

fn transition(
    rule: &ThresholdTriggerSpec,
    context: FrameContext,
    key: &String,
    kind: TriggerTransitionKind,
    value: Option<Double>,
) -> (made: TriggerTransition)
    ensures
        made@ == transition_of(rule@, context, key@, kind, value),
{
    TriggerTransition {
        trigger: rule.id.clone(),
        node: rule.node.clone(),
        key: key.clone(),
        generation: context.generation,
        observed_at_ms: context.observed_at_ms,
        kind,
        value,
    }
}

/// Observe one value of an entity: how far it is afterwards, and the change of
/// state that this brings about.
pub fn observe(rule: &ThresholdTriggerSpec, before: Progress, value: Double) -> (result: (
    Progress,
    Option<TriggerTransitionKind>,
))
    ensures
        result.0 == stepped(rule@, before, value),
        result.1 == crossing(rule@, before, value),
{
    if before.active {
        if value.is_at_most(rule.exit_at_or_below) {
            return (
                Progress { qualifying_generations: 0, active: false },
                Some(TriggerTransitionKind::Exited),
            );
        }
        return (before, None);
    }
    if rule.enter_at_or_above.is_at_most(value) {
        let count: u32 = before.qualifying_generations.saturating_add(1);
        if count >= rule.min_consecutive {
            return (
                Progress { qualifying_generations: 0, active: true },
                Some(TriggerTransitionKind::Entered),
            );
        }
        return (Progress { qualifying_generations: count, active: false }, None);
    }
    (Progress { qualifying_generations: 0, active: false }, None)
}

fn walk(
    rule: &ThresholdTriggerSpec,
    context: FrameContext,
    cells: &Vec<CellValue>,
    table: &mut Table<Progress>,
    transitions: &mut Vec<TriggerTransition>,
) -> (seen: Table<()>)
    ensures
        final(table)@ == walked(
            rule@,
            crate::text::views(cells@),
            cells@.len() as int,
            old(table)@,
        ),
        crate::text::views(final(transitions)@) == crate::text::views(old(transitions)@)
            + crossings(
            rule@,
            context,
            crate::text::views(cells@),
            cells@.len() as int,
            old(table)@,
        ),
        forall|key: Seq<char>|
            (#[trigger] crate::table::found(seen@, key) is Some) == observed(
                crate::text::views(cells@),
                cells@.len() as int,
                rule.node@,
                key,
            ),
{
    let ghost all = crate::text::views(cells@);
    let ghost start = table@;
    let ghost before_all = crate::text::views(transitions@);
    let mut seen: Table<()> = Table::new();
    let mut i: usize = 0;
    assert(before_all =~= before_all + crossings(rule@, context, all, 0, start));
    while i < cells.len()
        invariant
            0 <= i <= cells@.len(),
            all == crate::text::views(cells@),
            table@ == walked(rule@, all, i as int, start),
            crate::text::views(transitions@) == before_all + crossings(
                rule@,
                context,
                all,
                i as int,
                start,
            ),
            forall|key: Seq<char>|
                (#[trigger] crate::table::found(seen@, key) is Some) == observed(
                    all,
                    i as int,
                    rule.node@,
                    key,
                ),
        decreases cells@.len() - i,
    {
        let cell = &cells[i];
        assert(all[i as int] == cell@);
        let ghost known = seen@;
        if same_text(cell.node.as_str(), rule.node.as_str()) {
            seen.insert(cell.key.clone(), ());
            let before: Progress = match table.get(cell.key.as_str()) {
                Some(progress) => *progress,
                None => Progress { qualifying_generations: 0, active: false },
            };
            assert(before == progress_of(table@, cell.key@));
            let (after, kind) = observe(rule, before, cell.value);
            table.insert(cell.key.clone(), after);
            match kind {
                Some(kind) => {
                    let made = transition(rule, context, &cell.key, kind, Some(cell.value));
                    let ghost was = transitions@;
                    let ghost view = made@;
                    transitions.push(made);
                    proof {
                        assert(crate::text::views(transitions@) =~= crate::text::views(was).push(
                            view,
                        ));
                        assert(crate::text::views(transitions@) =~= before_all + crossings(
                            rule@,
                            context,
                            all,
                            i + 1,
                            start,
                        ));
                    }
                },
                None => {},
            }
        }
        proof {
            assert forall|key: Seq<char>|
                (#[trigger] crate::table::found(seen@, key) is Some) == observed(
                    all,
                    i + 1,
                    rule.node@,
                    key,
                ) by {
                assert(crate::table::found(known, key) is Some == observed(
                    all,
                    i as int,
                    rule.node@,
                    key,
                ));
                if observed(all, i as int, rule.node@, key) {
                    let j = choose|j: int|
                        0 <= j < i && (#[trigger] all[j]).node == rule.node@ && all[j].key == key;
                    assert(all[j].key == key);
                }
                if cell.node@ == rule.node@ {
                    crate::table::lemma_entered(known, cell.key@, (), key);
                    if key == cell.key@ {
                        assert(all[i as int].node == rule.node@);
                    }
                }
            }
        }
        i = i + 1;
    }
    seen
}

fn prune(
    rule: &ThresholdTriggerSpec,
    context: FrameContext,
    table: &Table<Progress>,
    seen: &Table<()>,
    transitions: &mut Vec<TriggerTransition>,
    Ghost(cells): Ghost<Seq<crate::cube::CellView>>,
) -> (kept: Table<Progress>)
    requires
        forall|key: Seq<char>|
            (#[trigger] crate::table::found(seen@, key) is Some) == observed(
                cells,
                cells.len() as int,
                rule.node@,
                key,
            ),
    ensures
        kept@ == present(table@, cells, rule.node@, table@.len() as int),
        crate::text::views(final(transitions)@) == crate::text::views(old(transitions)@) + losses(
            rule@,
            context,
            table@,
            cells,
            table@.len() as int,
        ),
{
    let ghost before_all = crate::text::views(transitions@);
    let mut marks: Vec<bool> = Vec::new();
    let mut i: usize = 0;
    assert(before_all =~= before_all + losses(rule@, context, table@, cells, 0));
    while i < table.len()
        invariant
            0 <= i <= table@.len(),
            marks@.len() == i,
            forall|k: int|
                0 <= k < i ==> (#[trigger] marks@[k]) == observed(
                    cells,
                    cells.len() as int,
                    rule.node@,
                    table@[k].0,
                ),
            crate::text::views(transitions@) == before_all + losses(
                rule@,
                context,
                table@,
                cells,
                i as int,
            ),
            forall|key: Seq<char>|
                (#[trigger] crate::table::found(seen@, key) is Some) == observed(
                    cells,
                    cells.len() as int,
                    rule.node@,
                    key,
                ),
        decreases table@.len() - i,
    {
        let key = table.key_at(i);
        let here: bool = seen.get(key.as_str()).is_some();
        marks.push(here);
        if !here && table.value_at(i).active {
            let made = transition(rule, context, key, TriggerTransitionKind::Invalidated, None);
            let ghost was = transitions@;
            let ghost view = made@;
            transitions.push(made);
            proof {
                assert(crate::text::views(transitions@) =~= crate::text::views(was).push(view));
                assert(crate::text::views(transitions@) =~= before_all + losses(
                    rule@,
                    context,
                    table@,
                    cells,
                    i + 1,
                ));
            }
        }
        i = i + 1;
    }
    proof {
        lemma_marked_present(table@, marks@, cells, rule.node@, table@.len() as int);
    }
    table.selected(&marks)
}

proof fn lemma_marked_present(
    table: Seq<(Seq<char>, Progress)>,
    marks: Seq<bool>,
    cells: Seq<crate::cube::CellView>,
    node: Seq<char>,
    n: int,
)
    requires
        0 <= n <= table.len(),
        marks.len() == table.len(),
        forall|k: int|
            0 <= k < marks.len() ==> (#[trigger] marks[k]) == observed(
                cells,
                cells.len() as int,
                node,
                table[k].0,
            ),
    ensures
        crate::table::marked(table, marks, n) == present(table, cells, node, n),
    decreases n,
{
    if n > 0 {
        lemma_marked_present(table, marks, cells, node, n - 1);
    }
}

fn push_states(states: &mut Vec<TriggerState>, rule: &ThresholdTriggerSpec, table: &Table<Progress>)
    ensures
        crate::text::views(final(states)@) == crate::text::views(old(states)@) + trigger_states(
            rule@,
            table@,
        ),
{
    let ghost before_all = crate::text::views(states@);
    let ghost made = trigger_states(rule@, table@);
    let mut i: usize = 0;
    assert(before_all =~= before_all + made.take(0));
    while i < table.len()
        invariant
            0 <= i <= table@.len(),
            made == trigger_states(rule@, table@),
            crate::text::views(states@) == before_all + made.take(i as int),
        decreases table@.len() - i,
    {
        let progress = table.value_at(i);
        let ghost was = states@;
        let state = TriggerState {
            trigger: rule.id.clone(),
            node: rule.node.clone(),
            key: table.key_at(i).clone(),
            active: progress.active,
            qualifying_generations: progress.qualifying_generations,
        };
        let ghost view = state@;
        states.push(state);
        proof {
            assert(view =~= made[i as int]);
            assert(crate::text::views(states@) =~= crate::text::views(was).push(view));
            assert(made.take(i + 1) =~= made.take(i as int).push(made[i as int]));
        }
        i = i + 1;
    }
    assert(made.take(i as int) =~= made);
}

/// Stateful processor implementing persistent entry, hysteretic exit, and
/// missing-value invalidation over Hypercube node values.
#[derive(Debug)]
pub struct TriggerProcessor {
    specs: Vec<ThresholdTriggerSpec>,
    order: Vec<usize>,
    tables: Vec<Table<Progress>>,
}

impl Clone for TriggerProcessor {
    fn clone(&self) -> (copy: Self)
        ensures
            copy.rules() == self.rules(),
            copy.progress() == self.progress(),
    {
        proof {
            use_type_invariant(self);
        }
        let mut order: Vec<usize> = Vec::new();
        let mut j: usize = 0;
        while j < self.order.len()
            invariant
                0 <= j <= self.order@.len(),
                order@ == self.order@.take(j as int),
            decreases self.order@.len() - j,
        {
            order.push(self.order[j]);
            j = j + 1;
        }
        assert(order@ =~= self.order@);
        let mut tables: Vec<Table<Progress>> = Vec::new();
        let mut i: usize = 0;
        while i < self.tables.len()
            invariant
                0 <= i <= self.tables@.len(),
                tables@.len() == i,
                forall|k: int| 0 <= k < i ==> (#[trigger] tables@[k])@ == self.tables@[k]@,
            decreases self.tables@.len() - i,
        {
            tables.push(self.tables[i].clone());
            i = i + 1;
        }
        assert(crate::text::views(tables@) =~= crate::text::views(self.tables@));
        let specs = copied_triggers(&self.specs);
        assert(specs@.len() == crate::text::views(specs@).len());
        TriggerProcessor { specs, order, tables }
    }
}

impl TriggerProcessor {
    #[verifier::type_invariant]
    spec fn well_formed(self) -> bool {
        &&& self.tables@.len() == self.specs@.len()
        &&& crate::order::indexes(self.order@) == id_order(crate::text::views(self.specs@))
        &&& crate::order::arranged(
            self.specs@.len(),
            by_id(crate::text::views(self.specs@)),
            crate::order::indexes(self.order@),
        )
        &&& triggers_fault(crate::text::views(self.specs@), self.specs@.len() as int) is None
    }

    /// The configuration.
    pub closed spec fn rules(self) -> Seq<ThresholdView> {
        crate::text::views(self.specs@)
    }

    /// How far the entities of each trigger are, in the order of
    /// configuration.
    pub closed spec fn progress(self) -> Seq<Seq<(Seq<char>, Progress)>> {
        crate::text::views(self.tables@)
    }

    /// Build a processor and reject duplicate or invalid specifications.
    pub fn new(specs: Vec<ThresholdTriggerSpec>) -> (result: Result<Self, TriggerConfigError>)
        ensures
            reports(result, triggers_fault(crate::text::views(specs@), specs@.len() as int)),
            result matches Ok(processor) ==> {
                &&& processor.rules() == crate::text::views(specs@)
                &&& processor.progress() == Seq::new(
                    specs@.len(),
                    |i: int| Seq::<(Seq<char>, Progress)>::empty(),
                )
            },
    {
        match validate_triggers(&specs) {
            Ok(()) => {},
            Err(fault) => {
                return Err(fault);
            },
        }
        let order = sorted_order(&ById { specs: &specs }, specs.len());
        let mut tables: Vec<Table<Progress>> = Vec::new();
        let mut i: usize = 0;
        while i < specs.len()
            invariant
                0 <= i <= specs@.len(),
                tables@.len() == i,
                forall|k: int|
                    0 <= k < i ==> (#[trigger] tables@[k])@ == Seq::<
                        (Seq<char>, Progress),
                    >::empty(),
            decreases specs@.len() - i,
        {
            tables.push(Table::new());
            i = i + 1;
        }
        let processor = TriggerProcessor { specs, order, tables };
        assert(processor.progress() =~= Seq::new(
            specs@.len(),
            |i: int| Seq::<(Seq<char>, Progress)>::empty(),
        ));
        Ok(processor)
    }

    /// Return the immutable trigger configuration.
    pub fn specs(&self) -> (specs: &[ThresholdTriggerSpec])
        ensures
            crate::text::views(specs@) == self.rules(),
            triggers_fault(self.rules(), self.rules().len() as int) is None,
    {
        proof {
            use_type_invariant(self);
        }
        self.specs.as_slice()
    }

    /// Observe one snapshot: transitions in order, and the complete state of
    /// every observed entity.
    pub fn process_snapshot(&mut self, context: FrameContext, snapshot: &Snapshot) -> (frame:
        TriggerFrame)
        ensures
            frame@ == frame_of(old(self).rules(), old(self).progress(), context, snapshot@),
            final(self).rules() == old(self).rules(),
            final(self).progress() == all_advanced(
                old(self).rules(),
                snapshot@.values,
                old(self).progress(),
            ),
    {
        proof {
            use_type_invariant(&*self);
        }
        let ghost rules = self.rules();
        let ghost start = self.progress();
        let ghost cells = snapshot@.values;
        let mut transitions: Vec<TriggerTransition> = Vec::new();
        let mut tables: Vec<Table<Progress>> = Vec::new();
        let mut i: usize = 0;
        assert(crate::text::views(transitions@) =~= all_changes(rules, context, cells, start, 0));
        while i < self.specs.len()
            invariant
                0 <= i <= self.specs@.len(),
                self.tables@.len() == self.specs@.len(),
                rules == crate::text::views(self.specs@),
                start == crate::text::views(self.tables@),
                cells == crate::text::views(snapshot.values@),
                tables@.len() == i,
                forall|k: int|
                    0 <= k < i ==> (#[trigger] tables@[k])@ == advanced(rules[k], cells, start[k]),
                crate::text::views(transitions@) == all_changes(
                    rules,
                    context,
                    cells,
                    start,
                    i as int,
                ),
            decreases self.specs@.len() - i,
        {
            let rule = &self.specs[i];
            assert(rules[i as int] == rule@);
            let mut table = self.tables[i].clone();
            assert(table@ == start[i as int]);
            let seen = walk(rule, context, &snapshot.values, &mut table, &mut transitions);
            let kept = prune(rule, context, &table, &seen, &mut transitions, Ghost(cells));
            assert(crate::text::views(transitions@) =~= all_changes(
                rules,
                context,
                cells,
                start,
                i + 1,
            ));
            tables.push(kept);
            i = i + 1;
        }
        let ghost after = crate::text::views(tables@);
        assert(after =~= all_advanced(rules, cells, start));
        let transitions = transitions_in_order(transitions);
        let mut states: Vec<TriggerState> = Vec::new();
        let mut k: usize = 0;
        let ghost p = crate::order::indexes(self.order@);
        assert(crate::text::views(states@) =~= all_states(rules, p, after, 0));
        while k < self.order.len()
            invariant
                0 <= k <= self.order@.len(),
                self.order@.len() == self.specs@.len(),
                tables@.len() == self.specs@.len(),
                rules == crate::text::views(self.specs@),
                after == crate::text::views(tables@),
                p == crate::order::indexes(self.order@),
                forall|a: int| 0 <= a < p.len() ==> 0 <= #[trigger] p[a] < self.specs@.len(),
                crate::text::views(states@) == all_states(rules, p, after, k as int),
            decreases self.order@.len() - k,
        {
            let at: usize = self.order[k];
            assert(p[k as int] == at);
            assert(rules[at as int] == self.specs@[at as int]@);
            assert(after[at as int] == tables@[at as int]@);
            push_states(&mut states, &self.specs[at], &tables[at]);
            assert(crate::text::views(states@) =~= all_states(rules, p, after, k + 1));
            k = k + 1;
        }
        self.tables = tables;
        TriggerFrame {
            generation: context.generation,
            snapshot: snapshot_digest(snapshot),
            transitions,
            states,
        }
    }
}

impl FrameProcessor for TriggerProcessor {
    type Output = TriggerFrame;

    fn process(&mut self, context: FrameContext, snapshot: &Snapshot) -> (frame: TriggerFrame)
        ensures
            frame@ == frame_of(old(self).rules(), old(self).progress(), context, snapshot@),
            final(self).rules() == old(self).rules(),
            final(self).progress() == all_advanced(
                old(self).rules(),
                snapshot@.values,
                old(self).progress(),
            ),
    {
        self.process_snapshot(context, snapshot)
    }
}

proof fn lemma_triggers_fault_stays(specs: Seq<ThresholdView>, i: int, n: int)
    requires
        0 <= i <= n,
        triggers_fault(specs, i) is Some,
    ensures
        triggers_fault(specs, n) == triggers_fault(specs, i),
    decreases n,
{
    if i < n {
        lemma_triggers_fault_stays(specs, i, n - 1);
    }
}

/// Reject invalid or repeated trigger specifications.
pub fn validate_triggers(specs: &Vec<ThresholdTriggerSpec>) -> (result: Result<
    (),
    TriggerConfigError,
>)
    ensures
        reports(result, triggers_fault(crate::text::views(specs@), specs@.len() as int)),
{
    let ghost all = crate::text::views(specs@);
    let ghost n = specs@.len() as int;
    let mut ids: Table<()> = Table::new();
    let mut i: usize = 0;
    while i < specs.len()
        invariant
            0 <= i <= specs@.len(),
            n == specs@.len(),
            all == crate::text::views(specs@),
            triggers_fault(all, i as int) is None,
            forall|id: Seq<char>|
                (#[trigger] crate::table::found(ids@, id) is Some) == trigger_seen(
                    all,
                    i as int,
                    id,
                ),
        decreases specs@.len() - i,
    {
        let rule = &specs[i];
        assert(all[i as int] == rule@);
        match rule.validate() {
            Ok(()) => {},
            Err(fault) => {
                proof {
                    lemma_triggers_fault_stays(all, i + 1, n);
                }
                return Err(fault);
            },
        }
        let known: bool = ids.get(rule.id.as_str()).is_some();
        if known {
            proof {
                lemma_triggers_fault_stays(all, i + 1, n);
            }
            return Err(TriggerConfigError::DuplicateTrigger(rule.id.clone()));
        }
        let ghost before = ids@;
        ids.insert(rule.id.clone(), ());
        proof {
            assert forall|id: Seq<char>|
                (#[trigger] crate::table::found(ids@, id) is Some) == trigger_seen(
                    all,
                    i + 1,
                    id,
                ) by {
                crate::table::lemma_entered(before, rule.id@, (), id);
                assert(crate::table::found(before, id) is Some == trigger_seen(all, i as int, id));
                if trigger_seen(all, i as int, id) {
                    let j = choose|j: int| 0 <= j < i && (#[trigger] all[j]).id == id;
                    assert(all[j].id == id);
                }
                if id == rule.id@ {
                    assert(all[i as int].id == id);
                }
            }
        }
        i = i + 1;
    }
    Ok(())
}

proof fn lemma_found_pushed(
    table: Seq<(Seq<char>, Progress)>,
    entry: (Seq<char>, Progress),
    key: Seq<char>,
)
    ensures
        crate::table::found(table.push(entry), key) == if entry.0 == key {
            Some(entry.1)
        } else {
            crate::table::found(table, key)
        },
{
    assert(table.push(entry).drop_last() =~= table);
}

pub(crate) proof fn lemma_found_present(
    table: Seq<(Seq<char>, Progress)>,
    cells: Seq<crate::cube::CellView>,
    node: Seq<char>,
    n: int,
    key: Seq<char>,
)
    requires
        0 <= n <= table.len(),
    ensures
        crate::table::found(present(table, cells, node, n), key) == if observed(
            cells,
            cells.len() as int,
            node,
            key,
        ) {
            crate::table::found(table.take(n), key)
        } else {
            None
        },
    decreases n,
{
    if n > 0 {
        lemma_found_present(table, cells, node, n - 1, key);
        assert(table.take(n) =~= table.take(n - 1).push(table[n - 1]));
        lemma_found_pushed(table.take(n - 1), table[n - 1], key);
        lemma_found_pushed(present(table, cells, node, n - 1), table[n - 1], key);
    }
}

pub(crate) proof fn lemma_walked_found(
    rule: ThresholdView,
    cells: Seq<crate::cube::CellView>,
    n: int,
    table: Seq<(Seq<char>, Progress)>,
    key: Seq<char>,
)
    requires
        0 <= n <= cells.len(),
    ensures
        observed(cells, n, rule.node, key) ==> crate::table::found(
            walked(rule, cells, n, table),
            key,
        ) is Some,
        !observed(cells, n, rule.node, key) ==> crate::table::found(
            walked(rule, cells, n, table),
            key,
        ) == crate::table::found(table, key),
    decreases n,
{
    if n > 0 {
        lemma_walked_found(rule, cells, n - 1, table, key);
        let before = walked(rule, cells, n - 1, table);
        let cell = cells[n - 1];
        if observed(cells, n - 1, rule.node, key) {
            let j = choose|j: int|
                0 <= j < n - 1 && (#[trigger] cells[j]).node == rule.node && cells[j].key == key;
            assert(cells[j].key == key);
            assert(observed(cells, n, rule.node, key));
        }
        if cell.node == rule.node {
            crate::table::lemma_entered(
                before,
                cell.key,
                stepped(rule, progress_of(before, cell.key), cell.value),
                key,
            );
            if cell.key == key {
                assert(cells[n - 1].node == rule.node);
                assert(observed(cells, n, rule.node, key));
            }
        }
    }
}

/// After a snapshot a trigger holds a state for exactly the entities that its
/// node shows.
pub proof fn lemma_states_are_observed(
    rule: ThresholdView,
    cells: Seq<crate::cube::CellView>,
    table: Seq<(Seq<char>, Progress)>,
    key: Seq<char>,
)
    ensures
        (crate::table::found(advanced(rule, cells, table), key) is Some) == observed(
            cells,
            cells.len() as int,
            rule.node,
            key,
        ),
{
    let after = walked(rule, cells, cells.len() as int, table);
    lemma_walked_found(rule, cells, cells.len() as int, table, key);
    lemma_found_present(after, cells, rule.node, after.len() as int, key);
    assert(after.take(after.len() as int) =~= after);
}

proof fn lemma_walked_once(
    rule: ThresholdView,
    cells: Seq<crate::cube::CellView>,
    n: int,
    table: Seq<(Seq<char>, Progress)>,
    j: int,
)
    requires
        0 <= j < n <= cells.len(),
        cells[j].node == rule.node,
        forall|k: int|
            0 <= k < cells.len() && k != j && (#[trigger] cells[k]).node == rule.node ==> cells[k].key
                != cells[j].key,
    ensures
        crate::table::found(walked(rule, cells, n, table), cells[j].key) == Some(
            stepped(rule, progress_of(table, cells[j].key), cells[j].value),
        ),
    decreases n,
{
    let before = walked(rule, cells, n - 1, table);
    let cell = cells[n - 1];
    let next = stepped(rule, progress_of(before, cell.key), cell.value);
    if n - 1 == j {
        assert(!observed(cells, j, rule.node, cells[j].key));
        lemma_walked_found(rule, cells, j, table, cells[j].key);
        crate::table::lemma_entered(before, cell.key, next, cells[j].key);
    } else {
        lemma_walked_once(rule, cells, n - 1, table, j);
        if cell.node == rule.node {
            crate::table::lemma_entered(before, cell.key, next, cells[j].key);
        }
    }
}

/// Where an entity is shown once, its new state follows from its own state and
/// value alone.
pub proof fn lemma_entities_are_independent(
    rule: ThresholdView,
    cells: Seq<crate::cube::CellView>,
    table: Seq<(Seq<char>, Progress)>,
    j: int,
)
    requires
        0 <= j < cells.len(),
        cells[j].node == rule.node,
        forall|k: int|
            0 <= k < cells.len() && k != j && (#[trigger] cells[k]).node == rule.node ==> cells[k].key
                != cells[j].key,
    ensures
        crate::table::found(advanced(rule, cells, table), cells[j].key) == Some(
            stepped(rule, progress_of(table, cells[j].key), cells[j].value),
        ),
{
    let after = walked(rule, cells, cells.len() as int, table);
    lemma_walked_once(rule, cells, cells.len() as int, table, j);
    assert(observed(cells, cells.len() as int, rule.node, cells[j].key));
    lemma_found_present(after, cells, rule.node, after.len() as int, cells[j].key);
    assert(after.take(after.len() as int) =~= after);
}

/// A transition says exactly that the entity became active or inactive.
pub proof fn lemma_crossing_is_change(rule: ThresholdView, before: Progress, value: Double)
    ensures
        (crossing(rule, before, value) == Some(TriggerTransitionKind::Entered)) == (!before.active
            && stepped(rule, before, value).active),
        (crossing(rule, before, value) == Some(TriggerTransitionKind::Exited)) == (before.active
            && !stepped(rule, before, value).active),
        crossing(rule, before, value) != Some(TriggerTransitionKind::Invalidated),
{
}

/// How far an entity is after some generations, each with its value or
/// without one.
pub open spec fn run(rule: ThresholdView, start: Progress, values: Seq<Option<Double>>) -> Progress
    decreases values.len(),
{
    if values.len() == 0 {
        start
    } else {
        match values.last() {
            Some(value) => stepped(rule, run(rule, start, values.drop_last()), value),
            None => fresh(),
        }
    }
}

/// Entering takes the configured number of consecutive qualifying generations:
/// an entity that starts fresh is inactive with its count before that, and
/// active from then on.
pub proof fn lemma_entry_takes_persistence(rule: ThresholdView, values: Seq<Option<Double>>)
    requires
        threshold_fault(rule) is None,
        forall|i: int|
            0 <= i < values.len() ==> ((#[trigger] values[i]) matches Some(value)
                && rule.enter_at_or_above.le(value)),
    ensures
        values.len() < rule.min_consecutive ==> run(rule, fresh(), values) == (Progress {
            qualifying_generations: values.len() as u32,
            active: false,
        }),
        values.len() >= rule.min_consecutive ==> run(rule, fresh(), values) == (Progress {
            qualifying_generations: 0,
            active: true,
        }),
    decreases values.len(),
{
    if values.len() > 0 {
        assert forall|i: int| 0 <= i < values.drop_last().len() implies ((
        #[trigger] values.drop_last()[i]) matches Some(value) && rule.enter_at_or_above.le(
            value,
        )) by {
            assert(values.drop_last()[i] == values[i]);
        }
        lemma_entry_takes_persistence(rule, values.drop_last());
        assert(values.last() == values[values.len() - 1]);
    }
}

/// An active entity stays active while every generation shows it above the
/// exit threshold, though it may fall below the entry threshold.
pub proof fn lemma_exit_has_hysteresis(
    rule: ThresholdView,
    start: Progress,
    values: Seq<Option<Double>>,
)
    requires
        start.active,
        forall|i: int|
            0 <= i < values.len() ==> ((#[trigger] values[i]) matches Some(value)
                && !value.le(rule.exit_at_or_below)),
    ensures
        run(rule, start, values) == start,
    decreases values.len(),
{
    if values.len() > 0 {
        assert forall|i: int| 0 <= i < values.drop_last().len() implies ((
        #[trigger] values.drop_last()[i]) matches Some(value) && !value.le(
            rule.exit_at_or_below,
        )) by {
            assert(values.drop_last()[i] == values[i]);
        }
        lemma_exit_has_hysteresis(rule, start, values.drop_last());
        assert(values.last() == values[values.len() - 1]);
    }
}

/// A generation that does not show an entity, or shows it below the entry
/// threshold while inactive, starts its count again.
pub proof fn lemma_gap_breaks_persistence(
    rule: ThresholdView,
    start: Progress,
    values: Seq<Option<Double>>,
)
    requires
        values.len() > 0,
        values.last() matches Some(value) ==> !run(rule, start, values.drop_last()).active
            && !rule.enter_at_or_above.le(value),
    ensures
        run(rule, start, values) == fresh(),
{
}

/// No value both enters and exits.
pub proof fn lemma_thresholds_apart(rule: ThresholdView, value: Double)
    requires
        threshold_fault(rule) is None,
    ensures
        !(rule.enter_at_or_above.le(value) && value.le(rule.exit_at_or_below)),
{
}

proof fn lemma_crossings_agree(
    rule: ThresholdView,
    a: FrameContext,
    b: FrameContext,
    cells: Seq<crate::cube::CellView>,
    n: int,
    table: Seq<(Seq<char>, Progress)>,
)
    requires
        a.generation == b.generation,
        a.observed_at_ms == b.observed_at_ms,
    ensures
        crossings(rule, a, cells, n, table) == crossings(rule, b, cells, n, table),
    decreases n,
{
    if n > 0 {
        lemma_crossings_agree(rule, a, b, cells, n - 1, table);
    }
}

proof fn lemma_losses_agree(
    rule: ThresholdView,
    a: FrameContext,
    b: FrameContext,
    table: Seq<(Seq<char>, Progress)>,
    cells: Seq<crate::cube::CellView>,
    n: int,
)
    requires
        a.generation == b.generation,
        a.observed_at_ms == b.observed_at_ms,
    ensures
        losses(rule, a, table, cells, n) == losses(rule, b, table, cells, n),
    decreases n,
{
    if n > 0 {
        lemma_losses_agree(rule, a, b, table, cells, n - 1);
    }
}

proof fn lemma_changes_agree(
    specs: Seq<ThresholdView>,
    a: FrameContext,
    b: FrameContext,
    cells: Seq<crate::cube::CellView>,
    tables: Seq<Seq<(Seq<char>, Progress)>>,
    n: int,
)
    requires
        a.generation == b.generation,
        a.observed_at_ms == b.observed_at_ms,
    ensures
        all_changes(specs, a, cells, tables, n) == all_changes(specs, b, cells, tables, n),
    decreases n,
{
    if n > 0 {
        lemma_changes_agree(specs, a, b, cells, tables, n - 1);
        let rule = specs[n - 1];
        let after = walked(rule, cells, cells.len() as int, tables[n - 1]);
        lemma_crossings_agree(rule, a, b, cells, cells.len() as int, tables[n - 1]);
        lemma_losses_agree(rule, a, b, after, cells, after.len() as int);
    }
}

/// The frame of a snapshot depends neither on the mode of execution, nor on
/// the sequence that the circuit gave it, nor on how long its nodes took.
pub proof fn lemma_frame_ignores_operation(
    specs: Seq<ThresholdView>,
    tables: Seq<Seq<(Seq<char>, Progress)>>,
    a: FrameContext,
    b: FrameContext,
    x: crate::cube::SnapshotView,
    y: crate::cube::SnapshotView,
)
    requires
        a.generation == b.generation,
        a.observed_at_ms == b.observed_at_ms,
        crate::digest::same_meaning(x, y),
    ensures
        frame_of(specs, tables, a, x) == frame_of(specs, tables, b, y),
{
    crate::digest::lemma_digest_ignores_operation(x, y);
    lemma_changes_agree(specs, a, b, x.values, tables, specs.len() as int);
}

/// One observation moves an entity as its trigger says. An inactive entity
/// counts the generations in a row at or above the entry threshold, and enters
/// once they are as many as configured; any other value starts its count
/// again. An active entity exits at or below the exit threshold and stays as
/// it is above.
pub proof fn lemma_observation_moves_entity(
    rule: &ThresholdTriggerSpec,
    before: Progress,
    value: Double,
    result: (Progress, Option<TriggerTransitionKind>),
)
    requires
        call_ensures(observe, (rule, before, value), result),
        rule.enter_at_or_above.finite(),
        rule.exit_at_or_below.finite(),
        value.finite(),
    ensures
        ({
            let x = crate::reading::exact(value);
            let high = x >= crate::reading::exact(rule.enter_at_or_above);
            let low = x <= crate::reading::exact(rule.exit_at_or_below);
            let due = before.qualifying_generations + 1 >= rule.min_consecutive;
            let after = result.0;
            &&& before.active && low ==> !after.active && after.qualifying_generations == 0
                && result.1 == Some(TriggerTransitionKind::Exited)
            &&& before.active && !low ==> after == before && result.1 is None
            &&& !before.active && high && due ==> after.active && after.qualifying_generations == 0
                && result.1 == Some(TriggerTransitionKind::Entered)
            &&& !before.active && high && !due ==> !after.active && after.qualifying_generations
                == before.qualifying_generations + 1 && result.1 is None
            &&& !before.active && !high ==> !after.active && after.qualifying_generations == 0
                && result.1 is None
        }),
{
    crate::reading::lemma_order(rule.enter_at_or_above, value);
    crate::reading::lemma_order(value, rule.exit_at_or_below);
}

/// Whether a trigger is in order: it has a name and a node, finite thresholds
/// of which the entry is the higher, and asks for a generation at least.
pub open spec fn trigger_in_order(rule: ThresholdView) -> bool {
    &&& !crate::text::blank(rule.id)
    &&& !crate::text::blank(rule.node)
    &&& rule.enter_at_or_above.finite()
    &&& rule.exit_at_or_below.finite()
    &&& crate::reading::exact(rule.enter_at_or_above) > crate::reading::exact(rule.exit_at_or_below)
    &&& rule.min_consecutive >= 1
}

proof fn lemma_threshold_fault(rule: ThresholdView)
    ensures
        threshold_fault(rule) is None <==> trigger_in_order(rule),
{
    if rule.enter_at_or_above.finite() && rule.exit_at_or_below.finite() {
        crate::reading::lemma_order(rule.enter_at_or_above, rule.exit_at_or_below);
    }
}

/// Triggers are free of faults exactly where each is in order and no name
/// comes twice.
pub proof fn lemma_triggers_in_order(specs: Seq<ThresholdView>, n: int)
    requires
        0 <= n <= specs.len(),
    ensures
        triggers_fault(specs, n) is None <==> {
            &&& forall|i: int| 0 <= i < n ==> trigger_in_order(#[trigger] specs[i])
            &&& forall|i: int, j: int|
                0 <= i < j < n ==> (#[trigger] specs[i]).id != (#[trigger] specs[j]).id
        },
    decreases n,
{
    if n > 0 {
        lemma_triggers_in_order(specs, n - 1);
        lemma_threshold_fault(specs[n - 1]);
        if triggers_fault(specs, n) is None {
            assert forall|i: int, j: int| 0 <= i < j < n implies (#[trigger] specs[i]).id != (
            #[trigger] specs[j]).id by {
                if j == n - 1 {
                    assert(!trigger_seen(specs, j, specs[j].id));
                }
            }
        } else if triggers_fault(specs, n - 1) is None {
            if trigger_seen(specs, n - 1, specs[n - 1].id) {
                let j = choose|j: int| 0 <= j < n - 1 && (#[trigger] specs[j]).id == specs[n
                    - 1].id;
                assert(specs[j].id == specs[n - 1].id);
            } else {
                assert(!trigger_in_order(specs[n - 1]));
            }
        }
    }
}

/// A trigger is made exactly where it is in order, and keeps what it is given.
pub proof fn lemma_trigger_is_kept(
    id: &str,
    node: &str,
    enter_at_or_above: Double,
    exit_at_or_below: Double,
    min_consecutive: u32,
    result: Result<ThresholdTriggerSpec, TriggerConfigError>,
)
    requires
        call_ensures(
            ThresholdTriggerSpec::new,
            (id, node, enter_at_or_above, exit_at_or_below, min_consecutive),
            result,
        ),
    ensures
        result is Ok <==> trigger_in_order(
            ThresholdView {
                id: id@,
                node: node@,
                enter_at_or_above,
                exit_at_or_below,
                min_consecutive,
            },
        ),
        result is Ok ==> {
            let made = result->Ok_0;
            &&& made.id@ == id@
            &&& made.node@ == node@
            &&& made.enter_at_or_above == enter_at_or_above
            &&& made.exit_at_or_below == exit_at_or_below
            &&& made.min_consecutive == min_consecutive
        },
{
    lemma_threshold_fault(
        ThresholdView {
            id: id@,
            node: node@,
            enter_at_or_above,
            exit_at_or_below,
            min_consecutive,
        },
    );
}

/// A processor is made exactly where every trigger is in order and no name
/// comes twice; it starts with those triggers and with nothing observed.
pub proof fn lemma_processor_starts_fresh(
    specs: Vec<ThresholdTriggerSpec>,
    result: Result<TriggerProcessor, TriggerConfigError>,
)
    requires
        call_ensures(TriggerProcessor::new, (specs,), result),
    ensures
        ({
            let all = crate::text::views(specs@);
            &&& result is Ok <==> {
                &&& forall|i: int| 0 <= i < all.len() ==> trigger_in_order(#[trigger] all[i])
                &&& forall|i: int, j: int|
                    0 <= i < j < all.len() ==> (#[trigger] all[i]).id != (#[trigger] all[j]).id
            }
            &&& result is Ok ==> result->Ok_0.rules() == all && result->Ok_0.progress().len()
                == all.len()
            &&& result is Ok ==> forall|i: int|
                0 <= i < all.len() ==> (#[trigger] result->Ok_0.progress()[i]).len() == 0
        }),
{
    let all = crate::text::views(specs@);
    lemma_triggers_in_order(all, all.len() as int);
}

} // verus!
