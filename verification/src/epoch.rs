//! The publication counter of a slice, and reads that it guards.
//!
//! A writer makes the counter odd before it touches a vector and even when
//! the vector is whole again. A reader copies the vector between two loads of
//! the counter and keeps the copy only where both loads gave the same even
//! number. The same rule guards each slot of a struct slice through the slot's
//! own counter.

use vstd::prelude::*;

verus! {

/// How often a guarded read is tried.
pub const READ_ATTEMPTS: u32 = 1000;

/// Microseconds to wait between two tries.
pub const RETRY_PAUSE_MICROS: u64 = 50;

/// Whether a counter says that the vector is whole.
pub open spec fn settled(epoch: u64) -> bool {
    epoch % 2 == 0
}

/// The counter while a vector is being written.
pub open spec fn opened(epoch: u64) -> u64 {
    if settled(epoch) {
        (epoch + 1) as u64
    } else {
        epoch
    }
}

/// The counter after a vector was written.
///
/// At the top of its range the counter stays odd, so that no later read takes
/// a torn vector for a whole one.
pub open spec fn closed(epoch: u64) -> u64 {
    let step: int = if settled(epoch) {
        2
    } else {
        1
    };
    if epoch + step > u64::MAX {
        u64::MAX
    } else {
        (epoch + step) as u64
    }
}

/// Return the counter to store before a write.
pub fn begin_write(current: u64) -> (odd: u64)
    ensures
        odd == opened(current),
        !settled(odd),
        odd >= current,
        settled(current) ==> odd > current,
{
    if current % 2 == 0 {
        current + 1
    } else {
        current
    }
}

/// Return the counter to store after a write.
pub fn end_write(current: u64) -> (even: u64)
    ensures
        even == closed(current),
        even >= current,
        settled(even) || even == u64::MAX,
{
    if current % 2 == 0 {
        current.saturating_add(2)
    } else {
        current.saturating_add(1)
    }
}

/// What to do next in a guarded read.
#[derive(Debug, Clone, Copy, PartialEq, Eq, Structural)]
pub enum ReadAction {
    /// Copy the guarded data, then load the counters again.
    Copy,
    /// Keep the copy.
    Accept,
    /// Wait, then load the counters again.
    Pause,
    /// Stop: every try has failed.
    GiveUp,
}

/// A guarded read over one or more counters, without the loads and copies.
#[derive(Debug)]
pub struct StableRead {
    failures: u32,
    start: Option<Vec<u64>>,
}

/// How far a guarded read has come.
pub struct ReadView {
    /// Number of tries that have failed.
    pub failures: nat,
    /// Counters before the copy, once they were found settled.
    pub start: Option<Seq<u64>>,
}

impl View for StableRead {
    type V = ReadView;

    closed spec fn view(&self) -> ReadView {
        ReadView {
            failures: self.failures as nat,
            start: match self.start {
                Some(epochs) => Some(epochs@),
                None => None,
            },
        }
    }
}

/// Whether every counter is settled.
pub open spec fn all_settled(epochs: Seq<u64>) -> bool {
    forall|i: int| 0 <= i < epochs.len() ==> settled(#[trigger] epochs[i])
}

/// A guarded read after a try has failed.
pub open spec fn missed(read: ReadView) -> (ReadView, ReadAction) {
    (
        ReadView {
            failures: if read.failures < READ_ATTEMPTS {
                read.failures + 1
            } else {
                read.failures
            },
            start: None,
        },
        if read.failures + 1 < READ_ATTEMPTS {
            ReadAction::Pause
        } else {
            ReadAction::GiveUp
        },
    )
}

/// A guarded read after the counters were loaded.
pub open spec fn observed(read: ReadView, epochs: Seq<u64>) -> (ReadView, ReadAction) {
    match read.start {
        None => if all_settled(epochs) {
            (ReadView { start: Some(epochs), ..read }, ReadAction::Copy)
        } else {
            missed(read)
        },
        Some(start) => if start == epochs && all_settled(epochs) {
            (ReadView { start: None, ..read }, ReadAction::Accept)
        } else {
            missed(read)
        },
    }
}

fn are_settled(epochs: &Vec<u64>) -> (settled: bool)
    ensures
        settled == all_settled(epochs@),
{
    let mut i: usize = 0;
    while i < epochs.len()
        invariant
            0 <= i <= epochs@.len(),
            forall|k: int| 0 <= k < i ==> settled(#[trigger] epochs@[k]),
        decreases epochs@.len() - i,
    {
        if epochs[i] % 2 != 0 {
            assert(!settled(epochs@[i as int]));
            return false;
        }
        i = i + 1;
    }
    true
}

fn same_epochs(a: &Vec<u64>, b: &Vec<u64>) -> (same: bool)
    ensures
        same == (a@ == b@),
{
    if a.len() != b.len() {
        return false;
    }
    let mut i: usize = 0;
    while i < a.len()
        invariant
            0 <= i <= a@.len(),
            a@.len() == b@.len(),
            forall|k: int| 0 <= k < i ==> a@[k] == b@[k],
        decreases a@.len() - i,
    {
        if a[i] != b[i] {
            return false;
        }
        i = i + 1;
    }
    assert(a@ =~= b@);
    true
}

impl StableRead {
    /// Begin a guarded read.
    pub fn new() -> (read: Self)
        ensures
            read@ == (ReadView { failures: 0, start: None }),
    {
        StableRead { failures: 0, start: None }
    }

    /// Take the counters that were loaded and return what to do next.
    pub fn observe(&mut self, epochs: Vec<u64>) -> (action: ReadAction)
        ensures
            (final(self)@, action) == observed(old(self)@, epochs@),
    {
        let whole: bool = are_settled(&epochs);
        let matched: bool = match &self.start {
            None => whole,
            Some(start) => whole && same_epochs(start, &epochs),
        };
        if matched {
            if self.start.is_none() {
                self.start = Some(epochs);
                ReadAction::Copy
            } else {
                self.start = None;
                ReadAction::Accept
            }
        } else {
            self.start = None;
            if self.failures < READ_ATTEMPTS {
                self.failures = self.failures + 1;
            }
            if self.failures < READ_ATTEMPTS {
                ReadAction::Pause
            } else {
                ReadAction::GiveUp
            }
        }
    }
}

/// A vector in shared memory with its counter, and whether its writer is
/// between [`begin_write`] and [`end_write`].
pub struct SharedVector {
    /// Publication counter.
    pub epoch: u64,
    /// Words of the vector.
    pub words: Seq<u64>,
    /// Whether a write is under way.
    pub writing: bool,
}

/// What one step of the only writer can do: nothing, begin, store words while
/// a write is under way, or end.
pub open spec fn writer_step(a: SharedVector, b: SharedVector) -> bool {
    ||| b == a
    ||| !a.writing && b == (SharedVector { epoch: opened(a.epoch), writing: true, ..a })
    ||| a.writing && b.writing && b.epoch == a.epoch && b.words.len() == a.words.len()
    ||| a.writing && b == (SharedVector { epoch: closed(a.epoch), writing: false, ..a })
}

/// Whether a run of memory states comes from a writer that was idle at first.
pub open spec fn written(trace: Seq<SharedVector>) -> bool {
    &&& trace.len() > 0
    &&& !trace[0].writing
    &&& forall|k: int, n: int|
        0 <= k && n == k + 1 && n < trace.len() ==> writer_step(
            #[trigger] trace[k],
            #[trigger] trace[n],
        )
}

/// Whether a vector is one that the writer had finished by a state: the first
/// one, or one that a write ended with.
pub open spec fn published(trace: Seq<SharedVector>, p: int, words: Seq<u64>) -> bool {
    &&& 0 <= p < trace.len()
    &&& trace[p].words == words
    &&& !trace[p].writing
    &&& p == 0 || trace[p - 1].writing
}

proof fn lemma_writing_is_odd(trace: Seq<SharedVector>, k: int)
    requires
        written(trace),
        0 <= k < trace.len(),
    ensures
        trace[k].writing ==> !settled(trace[k].epoch),
    decreases k,
{
    if k > 0 {
        lemma_writing_is_odd(trace, k - 1);
        assert(writer_step(trace[k - 1], trace[k]));
    }
}

proof fn lemma_epoch_grows(trace: Seq<SharedVector>, s: int, t: int)
    requires
        written(trace),
        0 <= s <= t < trace.len(),
    ensures
        trace[s].epoch <= trace[t].epoch,
    decreases t - s,
{
    if s < t {
        lemma_epoch_grows(trace, s, t - 1);
        assert(writer_step(trace[t - 1], trace[t]));
    }
}

proof fn lemma_unchanged(trace: Seq<SharedVector>, s: int, t: int, r: int)
    requires
        written(trace),
        0 <= s <= r <= t < trace.len(),
        settled(trace[s].epoch),
        trace[s].epoch == trace[t].epoch,
    ensures
        trace[r].words == trace[s].words,
        !trace[r].writing,
    decreases r - s,
{
    lemma_writing_is_odd(trace, s);
    if s < r {
        lemma_unchanged(trace, s, t, r - 1);
        lemma_epoch_grows(trace, s, r - 1);
        lemma_epoch_grows(trace, r - 1, r);
        lemma_epoch_grows(trace, r, t);
        assert(writer_step(trace[r - 1], trace[r]));
    }
}

proof fn lemma_last_published(trace: Seq<SharedVector>, s: int) -> (p: int)
    requires
        written(trace),
        0 <= s < trace.len(),
        !trace[s].writing,
    ensures
        p <= s,
        published(trace, p, trace[s].words),
    decreases s,
{
    if s == 0 {
        0
    } else {
        assert(writer_step(trace[s - 1], trace[s]));
        if trace[s - 1].writing {
            s
        } else {
            lemma_last_published(trace, s - 1)
        }
    }
}

/// A guarded copy is coherent: where both loads of the counter gave the same
/// settled number, the words that were copied in between, each at a moment of
/// its own, are together one vector that the writer had finished before.
pub proof fn lemma_stable_read_is_coherent(
    trace: Seq<SharedVector>,
    read: ReadView,
    s: int,
    t: int,
    moments: Seq<int>,
    copy: Seq<u64>,
)
    requires
        written(trace),
        0 <= s <= t < trace.len(),
        read.start is None,
        observed(read, seq![trace[s].epoch]).1 == ReadAction::Copy,
        observed(observed(read, seq![trace[s].epoch]).0, seq![trace[t].epoch]).1
            == ReadAction::Accept,
        moments.len() == trace[s].words.len(),
        copy.len() == moments.len(),
        forall|i: int|
            0 <= i < moments.len() ==> s <= #[trigger] moments[i] <= t && copy[i]
                == trace[moments[i]].words[i],
    ensures
        copy == trace[s].words,
        copy == trace[t].words,
        exists|p: int| p <= s && #[trigger] published(trace, p, copy),
{
    let first = seq![trace[s].epoch];
    let second = seq![trace[t].epoch];
    assert(settled(first[0]));
    assert(first[0] == second[0]);
    assert forall|i: int| 0 <= i < copy.len() implies copy[i] == trace[s].words[i] by {
        lemma_unchanged(trace, s, t, moments[i]);
    }
    assert(copy =~= trace[s].words);
    lemma_unchanged(trace, s, t, t);
    lemma_unchanged(trace, s, t, s);
    let p = lemma_last_published(trace, s);
    assert(published(trace, p, copy));
}

/// While the counter has room, a write takes it from one settled number to a
/// larger one by way of an odd one, so that a read before and a read after can
/// tell that there was a write.
pub proof fn lemma_publication_advances(epoch: u64)
    requires
        settled(epoch),
        epoch < u64::MAX - 1,
    ensures
        !settled(opened(epoch)),
        settled(closed(opened(epoch))),
        closed(opened(epoch)) == epoch + 2,
{
}

/// A guarded read ends after as many failures as it has tries: the action is
/// to give up exactly at the last one.
pub proof fn lemma_read_gives_up(read: ReadView, epochs: Seq<u64>)
    requires
        read.failures < READ_ATTEMPTS,
    ensures
        ({
            let next = observed(read, epochs);
            &&& next.1 == ReadAction::GiveUp <==> next.0.failures == READ_ATTEMPTS
            &&& next.1 == ReadAction::Pause || next.1 == ReadAction::GiveUp <==> next.0.failures
                == read.failures + 1
        }),
{
}

/// A write takes the counter to an odd value and, once it is done, to the next
/// even one: a counter that was even moves on by two, and one that an
/// interrupted write left odd by one.
pub proof fn lemma_write_brackets_counter(current: u64, odd: u64, even: u64)
    requires
        current < u64::MAX - 1,
        call_ensures(begin_write, (current,), odd),
        call_ensures(end_write, (odd,), even),
    ensures
        odd % 2 == 1,
        even % 2 == 0,
        current % 2 == 0 ==> odd == current + 1 && even == current + 2,
        current % 2 == 1 ==> odd == current && even == current + 1,
{
}

/// A read copies only after every counter was even, accepts the copy only
/// where every counter is then even and as it was before the copy, and gives
/// up only once all its tries have failed.
pub proof fn lemma_reads_accept_unchanged(
    read: &mut StableRead,
    epochs: Vec<u64>,
    action: ReadAction,
)
    requires
        call_ensures(StableRead::observe, (read, epochs), action),
    ensures
        ({
            let even = forall|i: int| 0 <= i < epochs@.len() ==> #[trigger] epochs@[i] % 2 == 0;
            let start = old(read)@.start;
            let tries: nat = old(read)@.failures + 1;
            &&& action == ReadAction::Copy <==> start is None && even
            &&& action == ReadAction::Copy ==> final(read)@.start == Some(epochs@)
                && final(read)@.failures == old(read)@.failures
            &&& action == ReadAction::Accept <==> start == Some(epochs@) && even
            &&& action != ReadAction::Copy ==> final(read)@.start is None
            &&& action == ReadAction::GiveUp ==> tries >= 1000
            &&& action == ReadAction::Pause ==> tries < 1000 && final(read)@.failures == tries
        }),
{
    let even = forall|i: int| 0 <= i < epochs@.len() ==> #[trigger] epochs@[i] % 2 == 0;
    assert(even == all_settled(epochs@)) by {
        if even {
            assert forall|i: int| 0 <= i < epochs@.len() implies settled(#[trigger] epochs@[i]) by {
                assert(epochs@[i] % 2 == 0);
            }
        }
        if all_settled(epochs@) {
            assert forall|i: int| 0 <= i < epochs@.len() implies #[trigger] epochs@[i] % 2
                == 0 by {
                assert(settled(epochs@[i]));
            }
        }
    }
}

} // verus!
