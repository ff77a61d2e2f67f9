//! A map from texts to values that keeps its keys in dictionary order.

use crate::text::{is_before, same_text};

use vstd::prelude::*;

verus! {

broadcast use vstd::seq_lib::group_seq_properties;

/// A map from texts to values, walked in dictionary order of the keys.
#[derive(Debug, PartialEq)]
pub struct Table<V> {
    entries: Vec<(String, V)>,
}

/// Whether the keys of some entries grow strictly.
pub open spec fn ascending<V>(entries: Seq<(Seq<char>, V)>) -> bool {
    forall|i: int, j: int|
        0 <= i < j < entries.len() ==> crate::text::precedes(
            (#[trigger] entries[i]).0,
            (#[trigger] entries[j]).0,
        )
}

/// The value that some entries hold for a key.
pub open spec fn found<V>(entries: Seq<(Seq<char>, V)>, key: Seq<char>) -> Option<V>
    decreases entries.len(),
{
    if entries.len() == 0 {
        None
    } else if entries.last().0 == key {
        Some(entries.last().1)
    } else {
        found(entries.drop_last(), key)
    }
}

/// Entries with one added, or with its value replaced where the key is there.
pub open spec fn entered<V>(
    entries: Seq<(Seq<char>, V)>,
    key: Seq<char>,
    value: V,
) -> Seq<(Seq<char>, V)>
    decreases entries.len(),
{
    if entries.len() == 0 {
        seq![(key, value)]
    } else if entries.last().0 == key {
        entries.drop_last().push((key, value))
    } else if crate::text::precedes(entries.last().0, key) {
        entries.push((key, value))
    } else {
        entered(entries.drop_last(), key, value).push(entries.last())
    }
}

proof fn lemma_found_none<V>(entries: Seq<(Seq<char>, V)>, key: Seq<char>)
    requires
        forall|i: int| 0 <= i < entries.len() ==> (#[trigger] entries[i]).0 != key,
    ensures
        found(entries, key) is None,
    decreases entries.len(),
{
    if entries.len() > 0 {
        assert(entries.last() == entries[entries.len() - 1]);
        assert forall|i: int| 0 <= i < entries.drop_last().len() implies (
        #[trigger] entries.drop_last()[i]).0 != key by {
            assert(entries.drop_last()[i] == entries[i]);
        }
        lemma_found_none(entries.drop_last(), key);
    }
}

/// What ascending entries hold at a position is what they hold for its key.
pub proof fn lemma_found_at<V>(entries: Seq<(Seq<char>, V)>, i: int)
    requires
        ascending(entries),
        0 <= i < entries.len(),
    ensures
        found(entries, entries[i].0) == Some(entries[i].1),
    decreases entries.len(),
{
    if i < entries.len() - 1 {
        crate::text::lemma_precedes_asymmetric(entries[i].0, entries.last().0);
        assert(entries.drop_last()[i] == entries[i]);
        assert forall|a: int, b: int|
            0 <= a < b < entries.drop_last().len() implies crate::text::precedes(
            (#[trigger] entries.drop_last()[a]).0,
            (#[trigger] entries.drop_last()[b]).0,
        ) by {
            assert(entries.drop_last()[a] == entries[a]);
            assert(entries.drop_last()[b] == entries[b]);
        }
        lemma_found_at(entries.drop_last(), i);
    }
}

/// A value that is found stands at a position with its key.
pub proof fn lemma_found_where<V>(entries: Seq<(Seq<char>, V)>, key: Seq<char>) -> (i: int)
    requires
        found(entries, key) is Some,
    ensures
        0 <= i < entries.len(),
        entries[i] == (key, found(entries, key)->0),
    decreases entries.len(),
{
    if entries.last().0 == key {
        entries.len() - 1
    } else {
        lemma_found_where(entries.drop_last(), key)
    }
}

/// After an entry was made, its key holds the value and every other key what
/// it held before.
pub proof fn lemma_entered<V>(
    entries: Seq<(Seq<char>, V)>,
    key: Seq<char>,
    value: V,
    other: Seq<char>,
)
    ensures
        found(entered(entries, key, value), key) == Some(value),
        other != key ==> found(entered(entries, key, value), other) == found(entries, other),
    decreases entries.len(),
{
    let after = entered(entries, key, value);
    if entries.len() == 0 {
        assert(after.drop_last() =~= entries);
        assert(after.last() == (key, value));
        assert(found(after.drop_last(), other) is None);
    } else if entries.last().0 == key {
        assert(after.drop_last() =~= entries.drop_last());
        assert(after.last() == (key, value));
    } else if crate::text::precedes(entries.last().0, key) {
        assert(after.drop_last() =~= entries);
        assert(after.last() == (key, value));
    } else {
        lemma_entered(entries.drop_last(), key, value, other);
        assert(after.drop_last() =~= entered(entries.drop_last(), key, value));
        assert(after.last() == entries.last());
    }
}

/// An entry made among ascending entries leaves them ascending, and every
/// entry is then the one made or one that was there.
pub proof fn lemma_entered_ascending<V>(entries: Seq<(Seq<char>, V)>, key: Seq<char>, value: V)
    requires
        ascending(entries),
    ensures
        ascending(entered(entries, key, value)),
        forall|i: int|
            0 <= i < entered(entries, key, value).len() ==> (#[trigger] entered(
                entries,
                key,
                value,
            )[i]) == (key, value) || entries.contains(entered(entries, key, value)[i]),
    decreases entries.len(),
{
    let after = entered(entries, key, value);
    if entries.len() > 0 {
        let front = entries.drop_last();
        let last = entries.last();
        assert forall|a: int, b: int| 0 <= a < b < front.len() implies crate::text::precedes(
            (#[trigger] front[a]).0,
            (#[trigger] front[b]).0,
        ) by {
            assert(front[a] == entries[a] && front[b] == entries[b]);
        }
        assert forall|a: int| 0 <= a < front.len() implies crate::text::precedes(
            (#[trigger] front[a]).0,
            last.0,
        ) && entries.contains(front[a]) by {
            assert(front[a] == entries[a] && last == entries[entries.len() - 1]);
        }
        assert(entries.contains(last)) by {
            assert(last == entries[entries.len() - 1]);
        }
        if last.0 == key {
            assert(after =~= front.push((key, value)));
            assert forall|a: int, b: int| 0 <= a < b < after.len() implies crate::text::precedes(
                (#[trigger] after[a]).0,
                (#[trigger] after[b]).0,
            ) by {
                assert(after[a] == front[a]);
                if b < front.len() {
                    assert(after[b] == front[b]);
                }
            }
            assert forall|a: int| 0 <= a < after.len() implies (#[trigger] after[a]) == (
                key,
                value,
            ) || entries.contains(after[a]) by {
                if a < front.len() {
                    assert(after[a] == front[a]);
                }
            }
        } else if crate::text::precedes(last.0, key) {
            assert(after =~= entries.push((key, value)));
            assert forall|a: int, b: int| 0 <= a < b < after.len() implies crate::text::precedes(
                (#[trigger] after[a]).0,
                (#[trigger] after[b]).0,
            ) by {
                assert(after[a] == entries[a]);
                if b < entries.len() {
                    assert(after[b] == entries[b]);
                } else if a < entries.len() - 1 {
                    assert(entries[a] == front[a]);
                    crate::text::lemma_precedes_transitive(entries[a].0, last.0, key);
                }
            }
            assert forall|a: int| 0 <= a < after.len() implies (#[trigger] after[a]) == (
                key,
                value,
            ) || entries.contains(after[a]) by {
                if a < entries.len() {
                    assert(after[a] == entries[a]);
                }
            }
        } else {
            crate::text::lemma_precedes_total(last.0, key);
            lemma_entered_ascending(front, key, value);
            let inner = entered(front, key, value);
            assert(after =~= inner.push(last));
            assert forall|a: int| 0 <= a < inner.len() implies crate::text::precedes(
                (#[trigger] inner[a]).0,
                last.0,
            ) && (inner[a] == (key, value) || entries.contains(inner[a])) by {
                if inner[a] != (key, value) {
                    let k = choose|k: int| 0 <= k < front.len() && front[k] == inner[a];
                    assert(front[k] == inner[a]);
                }
            }
            assert forall|a: int, b: int| 0 <= a < b < after.len() implies crate::text::precedes(
                (#[trigger] after[a]).0,
                (#[trigger] after[b]).0,
            ) by {
                assert(after[a] == inner[a]);
                if b < inner.len() {
                    assert(after[b] == inner[b]);
                }
            }
            assert forall|a: int| 0 <= a < after.len() implies (#[trigger] after[a]) == (
                key,
                value,
            ) || entries.contains(after[a]) by {
                if a < inner.len() {
                    assert(after[a] == inner[a]);
                }
            }
        }
    }
}

proof fn lemma_entered_splits<V>(
    before: Seq<(Seq<char>, V)>,
    after: Seq<(Seq<char>, V)>,
    key: Seq<char>,
    value: V,
)
    requires
        before.len() > 0 ==> crate::text::precedes(before.last().0, key),
        forall|i: int|
            0 <= i < after.len() ==> crate::text::precedes(key, (#[trigger] after[i]).0),
    ensures
        entered(before + after, key, value) == before.push((key, value)) + after,
    decreases after.len(),
{
    if after.len() == 0 {
        assert(before + after =~= before);
        assert(before.push((key, value)) + after =~= before.push((key, value)));
        if before.len() > 0 {
            crate::text::lemma_precedes_asymmetric(before.last().0, key);
        } else {
            assert(seq![(key, value)] =~= before.push((key, value)));
        }
    } else {
        let whole = before + after;
        assert(whole.last() == after.last());
        assert(whole.drop_last() =~= before + after.drop_last());
        crate::text::lemma_precedes_asymmetric(key, after.last().0);
        assert forall|i: int| 0 <= i < after.drop_last().len() implies crate::text::precedes(
            key,
            (#[trigger] after.drop_last()[i]).0,
        ) by {
            assert(after.drop_last()[i] == after[i]);
        }
        lemma_entered_splits(before, after.drop_last(), key, value);
        assert((before.push((key, value)) + after.drop_last()).push(after.last())
            =~= before.push((key, value)) + after);
    }
}

proof fn lemma_entered_replaces<V>(
    before: Seq<(Seq<char>, V)>,
    held: V,
    after: Seq<(Seq<char>, V)>,
    key: Seq<char>,
    value: V,
)
    requires
        forall|i: int|
            0 <= i < after.len() ==> crate::text::precedes(key, (#[trigger] after[i]).0),
    ensures
        entered(before.push((key, held)) + after, key, value) == before.push((key, value)) + after,
    decreases after.len(),
{
    let whole = before.push((key, held)) + after;
    if after.len() == 0 {
        assert(whole =~= before.push((key, held)));
        assert(whole.drop_last() =~= before);
        assert(before.push((key, value)) + after =~= before.push((key, value)));
    } else {
        assert(whole.last() == after.last());
        assert(whole.drop_last() =~= before.push((key, held)) + after.drop_last());
        crate::text::lemma_precedes_asymmetric(key, after.last().0);
        assert forall|i: int| 0 <= i < after.drop_last().len() implies crate::text::precedes(
            key,
            (#[trigger] after.drop_last()[i]).0,
        ) by {
            assert(after.drop_last()[i] == after[i]);
        }
        lemma_entered_replaces(before, held, after.drop_last(), key, value);
        assert((before.push((key, value)) + after.drop_last()).push(after.last())
            =~= before.push((key, value)) + after);
    }
}

/// The entries among the first `n` that are marked.
pub open spec fn marked<V>(
    entries: Seq<(Seq<char>, V)>,
    marks: Seq<bool>,
    n: int,
) -> Seq<(Seq<char>, V)>
    decreases n,
{
    if n <= 0 {
        Seq::empty()
    } else if marks[n - 1] {
        marked(entries, marks, n - 1).push(entries[n - 1])
    } else {
        marked(entries, marks, n - 1)
    }
}

proof fn lemma_marked_from<V>(entries: Seq<(Seq<char>, V)>, marks: Seq<bool>, n: int, k: int)
    requires
        0 <= n <= entries.len(),
        0 <= k < marked(entries, marks, n).len(),
    ensures
        exists|i: int| 0 <= i < n && #[trigger] entries[i] == marked(entries, marks, n)[k],
    decreases n,
{
    if marks[n - 1] && k == marked(entries, marks, n).len() - 1 {
        assert(entries[n - 1] == marked(entries, marks, n)[k]);
    } else {
        lemma_marked_from(entries, marks, n - 1, k);
        let i = choose|i: int|
            0 <= i < n - 1 && #[trigger] entries[i] == marked(entries, marks, n - 1)[k];
        assert(entries[i] == marked(entries, marks, n)[k]);
    }
}

proof fn lemma_marked_ascending<V>(entries: Seq<(Seq<char>, V)>, marks: Seq<bool>, n: int)
    requires
        ascending(entries),
        0 <= n <= entries.len(),
    ensures
        ascending(marked(entries, marks, n)),
    decreases n,
{
    if n > 0 {
        lemma_marked_ascending(entries, marks, n - 1);
        let before = marked(entries, marks, n - 1);
        let now = marked(entries, marks, n);
        assert forall|i: int, j: int| 0 <= i < j < now.len() implies crate::text::precedes(
            (#[trigger] now[i]).0,
            (#[trigger] now[j]).0,
        ) by {
            assert(now[i] == before[i]);
            if j < before.len() {
                assert(now[j] == before[j]);
            } else {
                lemma_marked_from(entries, marks, n - 1, i);
                let a = choose|a: int| 0 <= a < n - 1 && #[trigger] entries[a] == before[i];
                assert(crate::text::precedes(entries[a].0, entries[n - 1].0));
            }
        }
    }
}

impl<V> View for Table<V> {
    type V = Seq<(Seq<char>, V)>;

    closed spec fn view(&self) -> Seq<(Seq<char>, V)> {
        Seq::new(self.entries@.len(), |i: int| (self.entries@[i].0@, self.entries@[i].1))
    }
}

impl<V> Table<V> {
    #[verifier::type_invariant]
    spec fn well_formed(self) -> bool {
        ascending(self@)
    }

    /// A map without entries.
    pub fn new() -> (table: Self)
        ensures
            table@ == Seq::<(Seq<char>, V)>::empty(),
    {
        let table = Table { entries: Vec::new() };
        assert(table@ =~= Seq::<(Seq<char>, V)>::empty());
        table
    }

    /// Number of entries, whose keys grow strictly.
    pub fn len(&self) -> (n: usize)
        ensures
            n == self@.len(),
            ascending(self@),
    {
        proof {
            use_type_invariant(self);
        }
        self.entries.len()
    }

    /// The key at a position in dictionary order.
    pub fn key_at(&self, i: usize) -> (key: &String)
        requires
            i < self@.len(),
        ensures
            key@ == self@[i as int].0,
    {
        &self.entries[i].0
    }

    /// The value at a position in dictionary order of the keys.
    pub fn value_at(&self, i: usize) -> (value: &V)
        requires
            i < self@.len(),
        ensures
            *value == self@[i as int].1,
    {
        &self.entries[i].1
    }

    fn place(&self, key: &str) -> (at: usize)
        ensures
            at <= self@.len(),
            forall|i: int|
                0 <= i < at ==> crate::text::precedes((#[trigger] self@[i]).0, key@),
            forall|i: int|
                at <= i < self@.len() ==> !crate::text::precedes((#[trigger] self@[i]).0, key@),
    {
        proof {
            use_type_invariant(self);
        }
        let mut lo: usize = 0;
        let mut hi: usize = self.entries.len();
        while lo < hi
            invariant
                0 <= lo <= hi <= self@.len(),
                self@.len() == self.entries@.len(),
                ascending(self@),
                forall|i: int|
                    0 <= i < lo ==> crate::text::precedes((#[trigger] self@[i]).0, key@),
                forall|i: int|
                    hi <= i < self@.len() ==> !crate::text::precedes(
                        (#[trigger] self@[i]).0,
                        key@,
                    ),
            decreases hi - lo,
        {
            let mid: usize = lo + (hi - lo) / 2;
            assert(self@[mid as int].0 == self.entries@[mid as int].0@);
            if is_before(self.entries[mid].0.as_str(), key) {
                assert forall|i: int| 0 <= i < mid + 1 implies crate::text::precedes(
                    (#[trigger] self@[i]).0,
                    key@,
                ) by {
                    if i < mid {
                        crate::text::lemma_precedes_transitive(
                            self@[i].0,
                            self@[mid as int].0,
                            key@,
                        );
                    }
                }
                lo = mid + 1;
            } else {
                assert forall|i: int| mid <= i < self@.len() implies !crate::text::precedes(
                    (#[trigger] self@[i]).0,
                    key@,
                ) by {
                    if i > mid && crate::text::precedes(self@[i].0, key@) {
                        crate::text::lemma_precedes_transitive(
                            self@[mid as int].0,
                            self@[i].0,
                            key@,
                        );
                    }
                }
                hi = mid;
            }
        }
        lo
    }

    /// Look up the value of a key.
    pub fn get(&self, key: &str) -> (value: Option<&V>)
        ensures
            match value {
                Some(v) => found(self@, key@) == Some(*v),
                None => found(self@, key@) is None,
            },
    {
        proof {
            use_type_invariant(self);
        }
        let at: usize = self.place(key);
        if at < self.entries.len() && same_text(self.entries[at].0.as_str(), key) {
            proof {
                assert(self@[at as int].0 == key@);
                lemma_found_at(self@, at as int);
            }
            Some(&self.entries[at].1)
        } else {
            proof {
                assert forall|i: int| 0 <= i < self@.len() implies (#[trigger] self@[i]).0
                    != key@ by {
                    crate::text::lemma_precedes_irreflexive(key@);
                    if i > at && self@[i].0 == key@ {
                        assert(crate::text::precedes(self@[at as int].0, self@[i].0));
                    }
                }
                lemma_found_none(self@, key@);
            }
            None
        }
    }

    /// Add an entry, or replace the value of a key that is there.
    pub fn insert(&mut self, key: String, value: V)
        ensures
            final(self)@ == entered(old(self)@, key@, value),
    {
        proof {
            use_type_invariant(&*self);
        }
        let at: usize = self.place(key.as_str());
        let ghost was = self@;
        let mut entries: Vec<(String, V)> = Vec::new();
        std::mem::swap(&mut entries, &mut self.entries);
        let ghost before = was.take(at as int);
        assert(forall|i: int| 0 <= i < entries@.len() ==> (#[trigger] entries@[i]).0@ == was[i].0);
        assert(entries@.len() == was.len());
        if at < entries.len() && same_text(entries[at].0.as_str(), key.as_str()) {
            let ghost after = was.skip(at + 1);
            let ghost k = key@;
            let ghost held = was[at as int].1;
            proof {
                assert(was =~= before.push((k, held)) + after);
                assert forall|i: int| 0 <= i < after.len() implies crate::text::precedes(
                    k,
                    (#[trigger] after[i]).0,
                ) by {
                    assert(after[i] == was[at + 1 + i]);
                    assert(crate::text::precedes(was[at as int].0, was[at + 1 + i].0));
                }
                lemma_entered_replaces(before, held, after, k, value);
            }
            entries[at] = (key, value);
            let ghost now = Seq::new(entries@.len(), |i: int| (entries@[i].0@, entries@[i].1));
            proof {
                assert(now =~= before.push((k, value)) + after);
                assert forall|i: int, j: int| 0 <= i < j < now.len() implies crate::text::precedes(
                    (#[trigger] now[i]).0,
                    (#[trigger] now[j]).0,
                ) by {
                    assert(now[i].0 == was[i].0);
                    assert(now[j].0 == was[j].0);
                }
            }
            self.entries = entries;
            assert(self@ =~= now);
        } else {
            let ghost after = was.skip(at as int);
            let ghost k = key@;
            proof {
                assert(was =~= before + after);
                assert forall|i: int| 0 <= i < after.len() implies crate::text::precedes(
                    k,
                    (#[trigger] after[i]).0,
                ) by {
                    assert(after[i] == was[at + i]);
                    if was[at + i].0 == k {
                        if i > 0 {
                            assert(crate::text::precedes(was[at as int].0, was[at + i].0));
                        }
                    } else {
                        crate::text::lemma_precedes_total(k, was[at + i].0);
                    }
                }
                if before.len() > 0 {
                    assert(before.last() == was[at - 1]);
                }
                lemma_entered_splits(before, after, k, value);
            }
            entries.insert(at, (key, value));
            let ghost now = Seq::new(entries@.len(), |i: int| (entries@[i].0@, entries@[i].1));
            proof {
                assert(now =~= before.push((k, value)) + after);
                assert forall|i: int, j: int| 0 <= i < j < now.len() implies crate::text::precedes(
                    (#[trigger] now[i]).0,
                    (#[trigger] now[j]).0,
                ) by {
                    if j < at {
                        assert(now[i] == was[i] && now[j] == was[j]);
                    } else if j == at {
                        assert(now[i] == was[i]);
                    } else if i < at {
                        assert(now[i] == was[i] && now[j] == was[j - 1]);
                    } else if i == at {
                        assert(now[j] == after[j - at - 1]);
                    } else {
                        assert(now[i] == was[i - 1] && now[j] == was[j - 1]);
                    }
                }
            }
            self.entries = entries;
            assert(self@ =~= now);
        }
    }
}

impl<V: Copy> Table<V> {
    /// A map of the marked entries.
    pub fn selected(&self, marks: &Vec<bool>) -> (table: Self)
        requires
            marks@.len() == self@.len(),
        ensures
            table@ == marked(self@, marks@, self@.len() as int),
    {
        proof {
            use_type_invariant(self);
        }
        let mut entries: Vec<(String, V)> = Vec::new();
        let mut i: usize = 0;
        let ghost mut now: Seq<(Seq<char>, V)> = Seq::empty();
        while i < self.entries.len()
            invariant
                0 <= i <= self.entries@.len(),
                self@.len() == self.entries@.len(),
                marks@.len() == self.entries@.len(),
                now == marked(self@, marks@, i as int),
                now =~= Seq::new(entries@.len(), |k: int| (entries@[k].0@, entries@[k].1)),
            decreases self.entries@.len() - i,
        {
            assert(self@[i as int] == (self.entries@[i as int].0@, self.entries@[i as int].1));
            if marks[i] {
                entries.push((self.entries[i].0.clone(), self.entries[i].1));
                proof {
                    now = now.push(self@[i as int]);
                }
            }
            i = i + 1;
        }
        proof {
            lemma_marked_ascending(self@, marks@, i as int);
            assert(Seq::new(entries@.len(), |k: int| (entries@[k].0@, entries@[k].1)) =~= now);
        }
        Table { entries }
    }
}

impl<V: Copy> Clone for Table<V> {
    fn clone(&self) -> (copy: Self)
        ensures
            copy@ == self@,
    {
        proof {
            use_type_invariant(self);
        }
        let mut entries: Vec<(String, V)> = Vec::new();
        let mut i: usize = 0;
        while i < self.entries.len()
            invariant
                0 <= i <= self.entries@.len(),
                entries@.len() == i,
                forall|k: int|
                    0 <= k < i ==> (#[trigger] entries@[k]).0@ == self.entries@[k].0@
                        && entries@[k].1 == self.entries@[k].1,
            decreases self.entries@.len() - i,
        {
            entries.push((self.entries[i].0.clone(), self.entries[i].1));
            i = i + 1;
        }
        let ghost now = Seq::new(entries@.len(), |k: int| (entries@[k].0@, entries@[k].1));
        assert(now =~= self@);
        Table { entries }
    }
}

impl Table<String> {
    /// A copy of named texts.
    pub fn copied(&self) -> (copy: Self)
        ensures
            copy@ == self@,
    {
        proof {
            use_type_invariant(self);
        }
        let mut entries: Vec<(String, String)> = Vec::new();
        let mut i: usize = 0;
        while i < self.entries.len()
            invariant
                0 <= i <= self.entries@.len(),
                entries@.len() == i,
                forall|k: int|
                    0 <= k < i ==> (#[trigger] entries@[k]).0@ == self.entries@[k].0@
                        && entries@[k].1 == self.entries@[k].1,
            decreases self.entries@.len() - i,
        {
            entries.push((self.entries[i].0.clone(), self.entries[i].1.clone()));
            i = i + 1;
        }
        let ghost now = Seq::new(entries@.len(), |k: int| (entries@[k].0@, entries@[k].1));
        assert(now =~= self@);
        Table { entries }
    }
}

/// After an entry was made its key finds the value, and every other key what
/// it found before.
pub proof fn lemma_table_finds_entries<V>(
    table: &mut Table<V>,
    key: String,
    value: V,
    other: &str,
    before: Option<&V>,
    after: Option<&V>,
)
    requires
        call_ensures(Table::<V>::insert, (table, key, value), ()),
        call_ensures(Table::<V>::get, (&*old(table), other), before),
        call_ensures(Table::<V>::get, (&*final(table), other), after),
    ensures
        other@ == key@ ==> after is Some && *after->0 == value,
        other@ != key@ ==> (after is Some <==> before is Some),
        other@ != key@ && before is Some ==> *after->0 == *before->0,
{
    lemma_entered(old(table)@, key@, value, other@);
}

proof fn lemma_absent_key<V>(entries: Seq<(Seq<char>, V)>, key: Seq<char>)
    requires
        found(entries, key) is None,
    ensures
        forall|i: int| 0 <= i < entries.len() ==> (#[trigger] entries[i]).0 != key,
    decreases entries.len(),
{
    if entries.len() > 0 {
        lemma_absent_key(entries.drop_last(), key);
        assert forall|i: int| 0 <= i < entries.len() implies (#[trigger] entries[i]).0 != key by {
            if i < entries.len() - 1 {
                assert(entries.drop_last()[i] == entries[i]);
            }
        }
    }
}

/// What a key finds stands under that key, and a key finds nothing only where
/// it does not occur.
pub proof fn lemma_keys_find_values<V>(table: &Table<V>, key: &str, value: Option<&V>)
    requires
        call_ensures(Table::<V>::get, (table, key), value),
    ensures
        value is Some ==> exists|i: int|
            0 <= i < table@.len() && #[trigger] table@[i] == (key@, *value->0),
        value is None ==> forall|i: int| 0 <= i < table@.len() ==> (#[trigger] table@[i]).0 != key@,
{
    if value is Some {
        let i = lemma_found_where(table@, key@);
        assert(table@[i] == (key@, *value->0));
    } else {
        lemma_absent_key(table@, key@);
    }
}

/// Whether one of the first `n` entries is marked and is the one given.
pub open spec fn among_marked<V>(
    entries: Seq<(Seq<char>, V)>,
    marks: Seq<bool>,
    n: int,
    entry: (Seq<char>, V),
) -> bool {
    exists|i: int| 0 <= i < n && #[trigger] marks[i] && entries[i] == entry
}

proof fn lemma_marked_all<V>(entries: Seq<(Seq<char>, V)>, marks: Seq<bool>, n: int)
    requires
        0 <= n <= entries.len(),
        marks.len() == entries.len(),
    ensures
        forall|i: int|
            0 <= i < n && #[trigger] marks[i] ==> marked(entries, marks, n).contains(entries[i]),
        forall|k: int|
            0 <= k < marked(entries, marks, n).len() ==> among_marked(
                entries,
                marks,
                n,
                #[trigger] marked(entries, marks, n)[k],
            ),
    decreases n,
{
    let all = marked(entries, marks, n);
    if n > 0 {
        lemma_marked_all(entries, marks, n - 1);
        let some = marked(entries, marks, n - 1);
        assert forall|i: int| 0 <= i < n && #[trigger] marks[i] implies all.contains(
            entries[i],
        ) by {
            if i == n - 1 {
                assert(all[all.len() - 1] == entries[i]);
            } else {
                assert(some.contains(entries[i]));
                let k = choose|k: int| 0 <= k < some.len() && some[k] == entries[i];
                assert(all[k] == entries[i]);
            }
        }
        assert forall|k: int| 0 <= k < all.len() implies among_marked(
            entries,
            marks,
            n,
            #[trigger] all[k],
        ) by {
            if k < some.len() {
                assert(some[k] == all[k]);
                assert(among_marked(entries, marks, n - 1, some[k]));
                let i = choose|i: int|
                    0 <= i < n - 1 && #[trigger] marks[i] && entries[i] == some[k];
                assert(marks[i] && entries[i] == all[k]);
            } else {
                assert(marks[n - 1] && entries[n - 1] == all[k]);
            }
        }
    }
}

/// A selection holds exactly the entries that are marked.
pub proof fn lemma_selection_holds_marked<V: Copy>(
    table: &Table<V>,
    marks: &Vec<bool>,
    chosen: Table<V>,
)
    requires
        marks@.len() == table@.len(),
        call_ensures(Table::<V>::selected, (table, marks), chosen),
    ensures
        forall|i: int|
            0 <= i < table@.len() && #[trigger] marks@[i] ==> chosen@.contains(table@[i]),
        forall|k: int|
            0 <= k < chosen@.len() ==> among_marked(
                table@,
                marks@,
                table@.len() as int,
                #[trigger] chosen@[k],
            ),
{
    lemma_marked_all(table@, marks@, table@.len() as int);
}

} // verus!
