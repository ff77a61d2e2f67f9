//! Discoverable slice files.

use crate::header::ValueType;
use crate::names::{normalize_asset_class, validate_slice_name};
use crate::order::{sorted_order, Ranking};
use crate::slice_error::SliceError;
use crate::table::Table;
use crate::text::{is_before, is_blank, same_text};
use vstd::prelude::*;

verus! {

/// Discoverable metadata for one named slice file.
#[derive(Debug, PartialEq, Eq)]
pub struct SliceCatalogEntry {
    /// Stable logical name used by consumers.
    pub name: String,
    /// Normalized namespace shared with the layout.
    pub asset_class: String,
    /// Identity of the associated layout.
    pub layout_id: String,
    /// Hash of the exact associated layout.
    pub layout_hash: u64,
    /// Physical payload schema.
    pub value_type: ValueType,
    /// File path as published by the writer.
    pub path: String,
    /// Caller-defined purpose such as `node_output` or `latest`.
    pub role: String,
    /// Optional human-readable meaning and units.
    pub description: Option<String>,
}

/// What a [`SliceCatalogEntry`] holds.
#[verifier::ext_equal]
pub struct EntryView {
    /// Name.
    pub name: Seq<char>,
    /// Namespace.
    pub asset_class: Seq<char>,
    /// Layout.
    pub layout_id: Seq<char>,
    /// Hash of the layout.
    pub layout_hash: u64,
    /// Payload schema.
    pub value_type: ValueType,
    /// Path.
    pub path: Seq<char>,
    /// Purpose.
    pub role: Seq<char>,
    /// Meaning.
    pub description: Option<Seq<char>>,
}

/// A view of an optional text.
pub open spec fn text_view(text: Option<String>) -> Option<Seq<char>> {
    match text {
        Some(t) => Some(t@),
        None => None,
    }
}

impl View for SliceCatalogEntry {
    type V = EntryView;

    open spec fn view(&self) -> EntryView {
        EntryView {
            name: self.name@,
            asset_class: self.asset_class@,
            layout_id: self.layout_id@,
            layout_hash: self.layout_hash,
            value_type: self.value_type,
            path: self.path@,
            role: self.role@,
            description: text_view(self.description),
        }
    }
}

impl Clone for SliceCatalogEntry {
    fn clone(&self) -> (copy: Self)
        ensures
            copy@ == self@,
    {
        let description: Option<String> = match &self.description {
            Some(text) => Some(text.clone()),
            None => None,
        };
        SliceCatalogEntry {
            name: self.name.clone(),
            asset_class: self.asset_class.clone(),
            layout_id: self.layout_id.clone(),
            layout_hash: self.layout_hash,
            value_type: self.value_type,
            path: self.path.clone(),
            role: self.role.clone(),
            description,
        }
    }
}

/// What is wrong with an entry.
pub open spec fn entry_fault(entry: EntryView) -> Option<crate::slice_error::SliceFault> {
    match crate::names::slice_name_fault(entry.name) {
        Some(fault) => Some(fault),
        None => match crate::names::namespace_of(entry.asset_class) {
            Err(fault) => Some(fault),
            Ok(namespace) => if namespace != entry.asset_class {
                Some(
                    crate::slice_error::SliceFault::EntryNotNormalized {
                        given: entry.asset_class,
                        normalized: namespace,
                    },
                )
            } else if crate::text::blank(entry.layout_id) {
                Some(crate::slice_error::SliceFault::EntryWithoutLayout(entry.name))
            } else if entry.layout_hash == 0 {
                Some(crate::slice_error::SliceFault::EntryWithoutHash(entry.name))
            } else if crate::text::blank(entry.path) {
                Some(crate::slice_error::SliceFault::EntryWithoutPath(entry.name))
            } else if crate::text::blank(entry.role) {
                Some(crate::slice_error::SliceFault::EntryWithoutRole(entry.name))
            } else {
                None
            },
        },
    }
}

impl SliceCatalogEntry {
    /// Check name, namespace, layout identity, path, and role.
    pub fn validate(&self) -> (result: Result<(), SliceError>)
        ensures
            crate::slice_error::reports(result, entry_fault(self@)),
    {
        match validate_slice_name(self.name.as_str()) {
            Ok(()) => {},
            Err(fault) => {
                return Err(fault);
            },
        }
        let namespace: String = match normalize_asset_class(self.asset_class.as_str()) {
            Ok(namespace) => namespace,
            Err(fault) => {
                return Err(fault);
            },
        };
        if !same_text(namespace.as_str(), self.asset_class.as_str()) {
            return Err(
                SliceError::EntryNotNormalized {
                    given: self.asset_class.clone(),
                    normalized: namespace,
                },
            );
        }
        if is_blank(self.layout_id.as_str()) {
            return Err(SliceError::EntryWithoutLayout(self.name.clone()));
        }
        if self.layout_hash == 0 {
            return Err(SliceError::EntryWithoutHash(self.name.clone()));
        }
        if is_blank(self.path.as_str()) {
            return Err(SliceError::EntryWithoutPath(self.name.clone()));
        }
        if is_blank(self.role.as_str()) {
            return Err(SliceError::EntryWithoutRole(self.name.clone()));
        }
        Ok(())
    }
}

/// Versioned collection of discoverable slice files.
#[derive(Debug, PartialEq, Eq)]
pub struct SliceCatalog {
    /// Catalog schema version; currently `1`.
    pub version: u32,
    /// Entries ordered by logical name when modified through [`Self::upsert`].
    pub entries: Vec<SliceCatalogEntry>,
}

/// What a [`SliceCatalog`] holds.
#[verifier::ext_equal]
pub struct CatalogView {
    /// Schema version.
    pub version: u32,
    /// Entries.
    pub entries: Seq<EntryView>,
}

impl View for SliceCatalog {
    type V = CatalogView;

    open spec fn view(&self) -> CatalogView {
        CatalogView { version: self.version, entries: crate::text::views(self.entries@) }
    }
}

impl Clone for SliceCatalog {
    fn clone(&self) -> (copy: Self)
        ensures
            copy@ == self@,
    {
        let mut entries: Vec<SliceCatalogEntry> = Vec::new();
        let mut i: usize = 0;
        while i < self.entries.len()
            invariant
                0 <= i <= self.entries@.len(),
                entries@.len() == i,
                forall|k: int| 0 <= k < i ==> (#[trigger] entries@[k])@ == self.entries@[k]@,
            decreases self.entries@.len() - i,
        {
            entries.push(self.entries[i].clone());
            i = i + 1;
        }
        let copy = SliceCatalog { version: self.version, entries };
        assert(copy@.entries =~= self@.entries);
        copy
    }
}

impl Default for SliceCatalog {
    fn default() -> (catalog: Self)
        ensures
            catalog@ == (CatalogView { version: 1, entries: Seq::empty() }),
    {
        let catalog = SliceCatalog { version: 1, entries: Vec::new() };
        assert(catalog@.entries =~= Seq::empty());
        catalog
    }
}

/// Whether a name was used by one of the first `n` entries.
pub open spec fn name_taken(entries: Seq<EntryView>, n: int, name: Seq<char>) -> bool {
    exists|j: int| 0 <= j < n && (#[trigger] entries[j]).name == name
}

/// The first fault among the first `n` entries.
pub open spec fn entries_fault(entries: Seq<EntryView>, n: int) -> Option<
    crate::slice_error::SliceFault,
>
    decreases n,
{
    if n <= 0 {
        None
    } else {
        match entries_fault(entries, n - 1) {
            Some(fault) => Some(fault),
            None => match entry_fault(entries[n - 1]) {
                Some(fault) => Some(fault),
                None => if name_taken(entries, n - 1, entries[n - 1].name) {
                    Some(crate::slice_error::SliceFault::DuplicateEntry(entries[n - 1].name))
                } else {
                    None
                },
            },
        }
    }
}

/// What is wrong with a catalog.
pub open spec fn catalog_fault(catalog: CatalogView) -> Option<crate::slice_error::SliceFault> {
    if catalog.version != 1 {
        Some(crate::slice_error::SliceFault::CatalogVersion(catalog.version))
    } else {
        entries_fault(catalog.entries, catalog.entries.len() as int)
    }
}

/// The position of the first entry with a name, from `i` on.
pub open spec fn place_of(entries: Seq<EntryView>, name: Seq<char>, i: int) -> Option<int>
    decreases entries.len() - i,
{
    if i >= entries.len() {
        None
    } else if entries[i].name == name {
        Some(i)
    } else {
        place_of(entries, name, i + 1)
    }
}

/// Whether one entry's name stands before another's.
pub open spec fn by_name(entries: Seq<EntryView>) -> spec_fn(int, int) -> bool {
    |i: int, j: int| crate::text::precedes(entries[i].name, entries[j].name)
}

/// Entries in dictionary order of their names; equal names stay as they came.
pub open spec fn in_name_order(entries: Seq<EntryView>) -> Seq<EntryView> {
    crate::order::taken(
        entries,
        crate::order::arrangement(entries.len(), by_name(entries)),
    )
}

/// Entries with one put in: over the first of its name, or else at the end.
pub open spec fn put_in(entries: Seq<EntryView>, entry: EntryView) -> Seq<EntryView> {
    match place_of(entries, entry.name, 0) {
        Some(i) => entries.update(i, entry),
        None => entries.push(entry),
    }
}

/// Entries with one put in, over the first of its name where there is one, in
/// order of names.
pub open spec fn upserted(entries: Seq<EntryView>, entry: EntryView) -> Seq<EntryView> {
    in_name_order(put_in(entries, entry))
}

/// The entries of a namespace.
pub open spec fn of_namespace(entries: Seq<EntryView>, namespace: Seq<char>) -> Seq<EntryView> {
    entries.filter(|entry: EntryView| entry.asset_class == namespace)
}

/// The views behind references, one for one.
pub open spec fn entries_behind(entries: Seq<&SliceCatalogEntry>) -> Seq<EntryView> {
    Seq::new(entries.len(), |i: int| (*entries[i])@)
}

/// What an optional reference shows.
pub open spec fn entry_behind(entry: Option<&SliceCatalogEntry>) -> Option<EntryView> {
    match entry {
        Some(found) => Some((*found)@),
        None => None,
    }
}

proof fn lemma_entries_fault_stays(entries: Seq<EntryView>, i: int, n: int)
    requires
        0 <= i <= n,
        entries_fault(entries, i) is Some,
    ensures
        entries_fault(entries, n) == entries_fault(entries, i),
    decreases n,
{
    if i < n {
        lemma_entries_fault_stays(entries, i, n - 1);
    }
}

proof fn lemma_place_of(entries: Seq<EntryView>, name: Seq<char>, i: int)
    requires
        0 <= i <= entries.len(),
    ensures
        match place_of(entries, name, i) {
            Some(j) => i <= j < entries.len() && entries[j].name == name && forall|k: int|
                i <= k < j ==> (#[trigger] entries[k]).name != name,
            None => forall|k: int| i <= k < entries.len() ==> (#[trigger] entries[k]).name != name,
        },
    decreases entries.len() - i,
{
    if i < entries.len() && entries[i].name != name {
        lemma_place_of(entries, name, i + 1);
    }
}

/// The names of entries are in a strict weak order.
pub proof fn lemma_by_name(entries: Seq<EntryView>)
    ensures
        crate::order::strict_weak(entries.len(), by_name(entries)),
{
    let f = by_name(entries);
    assert forall|i: int, j: int|
        0 <= i < entries.len() && 0 <= j < entries.len() && #[trigger] f(i, j) implies !f(
        j,
        i,
    ) by {
        crate::text::lemma_precedes_asymmetric(entries[i].name, entries[j].name);
    }
    assert forall|i: int, j: int, k: int|
        #![trigger f(i, k), f(j, k)]
        #![trigger f(i, k), f(i, j)]
        0 <= i < entries.len() && 0 <= j < entries.len() && 0 <= k < entries.len() && f(
            i,
            k,
        ) implies f(i, j) || f(j, k) by {
        crate::text::lemma_precedes_negative(entries[i].name, entries[j].name, entries[k].name);
    }
}

struct ByName<'a> {
    entries: &'a Vec<SliceCatalogEntry>,
}

impl<'a> Ranking for ByName<'a> {
    closed spec fn size(&self) -> nat {
        self.entries@.len()
    }

    closed spec fn relation(&self) -> spec_fn(int, int) -> bool {
        by_name(crate::text::views(self.entries@))
    }

    proof fn lawful(&self) {
        lemma_by_name(crate::text::views(self.entries@));
    }

    fn before(&self, i: usize, j: usize) -> bool {
        is_before(self.entries[i].name.as_str(), self.entries[j].name.as_str())
    }
}

fn entries_in_order(entries: &Vec<SliceCatalogEntry>) -> (sorted: Vec<SliceCatalogEntry>)
    ensures
        crate::text::views(sorted@) == in_name_order(crate::text::views(entries@)),
{
    let ghost all = crate::text::views(entries@);
    let order = sorted_order(&ByName { entries }, entries.len());
    let ghost p = crate::order::indexes(order@);
    let mut sorted: Vec<SliceCatalogEntry> = Vec::new();
    let mut k: usize = 0;
    while k < order.len()
        invariant
            0 <= k <= order@.len(),
            all == crate::text::views(entries@),
            p == crate::order::indexes(order@),
            order@.len() == entries@.len(),
            forall|a: int| 0 <= a < p.len() ==> 0 <= #[trigger] p[a] < entries@.len(),
            sorted@.len() == k,
            forall|a: int| 0 <= a < k ==> (#[trigger] sorted@[a])@ == all[p[a]],
        decreases order@.len() - k,
    {
        assert(p[k as int] == order@[k as int]);
        sorted.push(entries[order[k]].clone());
        k = k + 1;
    }
    assert(crate::text::views(sorted@) =~= in_name_order(all));
    sorted
}

impl SliceCatalog {
    /// Check schema version, entry validity, and unique names.
    #[verifier::loop_isolation(false)]
    pub fn validate(&self) -> (result: Result<(), SliceError>)
        ensures
            crate::slice_error::reports(result, catalog_fault(self@)),
    {
        if self.version != 1 {
            return Err(SliceError::CatalogVersion(self.version));
        }
        let ghost all = self@.entries;
        let ghost n = all.len() as int;
        let mut names: Table<()> = Table::new();
        let mut i: usize = 0;
        while i < self.entries.len()
            invariant
                0 <= i <= self.entries@.len(),
                entries_fault(all, i as int) is None,
                forall|name: Seq<char>|
                    (#[trigger] crate::table::found(names@, name) is Some) == name_taken(
                        all,
                        i as int,
                        name,
                    ),
            decreases self.entries@.len() - i,
        {
            let entry = &self.entries[i];
            assert(all[i as int] == entry@);
            match entry.validate() {
                Ok(()) => {},
                Err(fault) => {
                    proof {
                        lemma_entries_fault_stays(all, i + 1, n);
                    }
                    return Err(fault);
                },
            }
            let known: bool = names.get(entry.name.as_str()).is_some();
            if known {
                proof {
                    lemma_entries_fault_stays(all, i + 1, n);
                }
                return Err(SliceError::DuplicateEntry(entry.name.clone()));
            }
            let ghost before = names@;
            names.insert(entry.name.clone(), ());
            proof {
                assert forall|name: Seq<char>|
                    (#[trigger] crate::table::found(names@, name) is Some) == name_taken(
                        all,
                        i + 1,
                        name,
                    ) by {
                    crate::table::lemma_entered(before, entry.name@, (), name);
                    assert(crate::table::found(before, name) is Some == name_taken(
                        all,
                        i as int,
                        name,
                    ));
                    if name_taken(all, i as int, name) {
                        let j = choose|j: int| 0 <= j < i && (#[trigger] all[j]).name == name;
                        assert(all[j].name == name);
                    }
                    if name == entry.name@ {
                        assert(all[i as int].name == name);
                    }
                }
            }
            i = i + 1;
        }
        Ok(())
    }

    fn position(&self, name: &str) -> (at: Option<usize>)
        ensures
            match at {
                Some(i) => place_of(self@.entries, name@, 0) == Some(i as int),
                None => place_of(self@.entries, name@, 0) is None,
            },
            at matches Some(i) ==> i < self.entries@.len(),
    {
        let ghost all = self@.entries;
        let mut i: usize = 0;
        while i < self.entries.len()
            invariant
                0 <= i <= self.entries@.len(),
                all == crate::text::views(self.entries@),
                place_of(all, name@, 0) == place_of(all, name@, i as int),
            decreases self.entries@.len() - i,
        {
            assert(all[i as int] == self.entries@[i as int]@);
            if same_text(self.entries[i].name.as_str(), name) {
                return Some(i);
            }
            i = i + 1;
        }
        None
    }

    /// Insert or replace an entry and restore lexical name order.
    pub fn upsert(&mut self, entry: SliceCatalogEntry) -> (result: Result<(), SliceError>)
        ensures
            crate::slice_error::reports(result, entry_fault(entry@)),
            final(self)@ == if entry_fault(entry@) is None {
                CatalogView {
                    version: old(self).version,
                    entries: upserted(old(self)@.entries, entry@),
                }
            } else {
                old(self)@
            },
    {
        match entry.validate() {
            Ok(()) => {},
            Err(fault) => {
                return Err(fault);
            },
        }
        let ghost before = self@.entries;
        let ghost view = entry@;
        match self.position(entry.name.as_str()) {
            Some(i) => {
                self.entries[i] = entry;
                assert(self@.entries =~= before.update(i as int, view));
            },
            None => {
                self.entries.push(entry);
                assert(self@.entries =~= before.push(view));
            },
        }
        let sorted = entries_in_order(&self.entries);
        self.entries = sorted;
        Ok(())
    }

    /// Find one entry by its exact logical name.
    pub fn find(&self, name: &str) -> (entry: Option<&SliceCatalogEntry>)
        ensures
            entry_behind(entry) == (match place_of(self@.entries, name@, 0) {
                Some(i) => Some(self@.entries[i]),
                None => None,
            }),
    {
        match self.position(name) {
            Some(i) => Some(&self.entries[i]),
            None => None,
        }
    }

    /// Select every entry in a normalized namespace.
    pub fn by_asset_class<'a>(&'a self, asset_class: &str) -> (result: Result<
        Vec<&'a SliceCatalogEntry>,
        SliceError,
    >)
        ensures
            match crate::names::namespace_of(asset_class@) {
                Ok(namespace) => result matches Ok(entries) && entries_behind(entries@)
                    == of_namespace(self@.entries, namespace),
                Err(fault) => result matches Err(e) && e@ == fault,
            },
    {
        let namespace: String = match normalize_asset_class(asset_class) {
            Ok(namespace) => namespace,
            Err(fault) => {
                return Err(fault);
            },
        };
        let mut chosen: Vec<&'a SliceCatalogEntry> = Vec::new();
        let mut i: usize = 0;
        let ghost all = self@.entries;
        let ghost wanted = |entry: EntryView| entry.asset_class == namespace@;
        assert(entries_behind(chosen@) =~= all.take(0).filter(wanted)) by {
            reveal(Seq::filter);
        }
        while i < self.entries.len()
            invariant
                0 <= i <= self.entries@.len(),
                all == crate::text::views(self.entries@),
                wanted == (|entry: EntryView| entry.asset_class == namespace@),
                entries_behind(chosen@) == all.take(i as int).filter(wanted),
            decreases self.entries@.len() - i,
        {
            let ghost before = chosen@;
            let entry = &self.entries[i];
            if same_text(entry.asset_class.as_str(), namespace.as_str()) {
                chosen.push(entry);
                assert(entries_behind(chosen@) =~= entries_behind(before).push(entry@));
            }
            proof {
                reveal(Seq::filter);
                assert(all.take(i + 1).drop_last() =~= all.take(i as int));
                assert(all.take(i + 1).last() == entry@);
            }
            i = i + 1;
        }
        assert(all.take(i as int) =~= all);
        Ok(chosen)
    }
}

/// Whether names grow strictly from entry to entry.
pub open spec fn names_ascend(entries: Seq<EntryView>) -> bool {
    forall|i: int, j: int|
        0 <= i < j < entries.len() ==> crate::text::precedes(
            (#[trigger] entries[i]).name,
            (#[trigger] entries[j]).name,
        )
}

/// Whether no two entries share a name.
pub open spec fn names_differ(entries: Seq<EntryView>) -> bool {
    forall|i: int, j: int|
        0 <= i < j < entries.len() ==> (#[trigger] entries[i]).name != (#[trigger] entries[j]).name
}

/// Putting an entry into a catalog of distinct names brings it in order of
/// names, and the entry is what its name finds afterwards; what every other
/// name finds stays.
pub proof fn lemma_upsert(entries: Seq<EntryView>, entry: EntryView, name: Seq<char>)
    requires
        names_differ(entries),
    ensures
        names_ascend(upserted(entries, entry)),
        found_in(upserted(entries, entry), entry.name) == Some(entry),
        name != entry.name ==> found_in(upserted(entries, entry), name) == found_in(
            entries,
            name,
        ),
{
    let after = upserted(entries, entry);
    let all = put_in(entries, entry);
    let n = all.len();
    lemma_place_of(entries, entry.name, 0);
    lemma_place_of(entries, name, 0);
    lemma_place_of(after, name, 0);
    let at = match place_of(entries, entry.name, 0) {
        Some(i) => i,
        None => entries.len() as int,
    };
    assert(0 <= at < n && all[at] == entry);
    assert forall|k: int| 0 <= k < n && k != at implies k < entries.len() && #[trigger] all[k]
        == entries[k] && entries[k].name != entry.name by {
        if at < entries.len() {
            if k < at {
                assert(entries[k].name != entries[at].name);
            } else {
                assert(entries[at].name != entries[k].name);
            }
        }
    }
    assert(names_differ(all));
    lemma_by_name(all);
    crate::order::lemma_arrangement_exists(n, by_name(all));
    let p = crate::order::arrangement(n, by_name(all));
    assert(after =~= Seq::new(p.len(), |k: int| all[p[k]]));
    assert forall|i: int, j: int| 0 <= i < j < after.len() implies crate::text::precedes(
        (#[trigger] after[i]).name,
        (#[trigger] after[j]).name,
    ) by {
        let x = p[i];
        let y = p[j];
        assert(crate::order::stands(by_name(all), x, y));
        assert(all[x].name != all[y].name) by {
            if x < y {
                assert(all[x].name != all[y].name);
            } else {
                assert(all[y].name != all[x].name);
            }
        }
        crate::text::lemma_precedes_total(all[x].name, all[y].name);
    }
    assert(p.contains(at));
    let a = choose|a: int| 0 <= a < p.len() && p[a] == at;
    assert(after[a] == entry);
    lemma_only(after, a);
    if name != entry.name {
        match place_of(entries, name, 0) {
            Some(j) => {
                assert(all[j] == entries[j]);
                assert(p.contains(j));
                let b = choose|b: int| 0 <= b < p.len() && p[b] == j;
                assert(after[b] == entries[j]);
                lemma_only(after, b);
            },
            None => {
                match place_of(after, name, 0) {
                    Some(k) => {
                        let x = p[k];
                        assert(after[k] == all[x]);
                        if x != at {
                            assert(entries[x].name != name);
                        }
                    },
                    None => {},
                }
            },
        }
    }
}

proof fn lemma_only(entries: Seq<EntryView>, i: int)
    requires
        names_ascend(entries),
        0 <= i < entries.len(),
    ensures
        place_of(entries, entries[i].name, 0) == Some(i),
{
    lemma_place_of(entries, entries[i].name, 0);
    match place_of(entries, entries[i].name, 0) {
        Some(j) => {
            if j < i {
                crate::text::lemma_precedes_asymmetric(entries[j].name, entries[i].name);
            }
            if i < j {
                crate::text::lemma_precedes_asymmetric(entries[i].name, entries[j].name);
            }
        },
        None => {
            assert(entries[i].name != entries[i].name);
        },
    }
}

/// The entry that a name finds.
pub open spec fn found_in(entries: Seq<EntryView>, name: Seq<char>) -> Option<EntryView> {
    match place_of(entries, name, 0) {
        Some(i) => Some(entries[i]),
        None => None,
    }
}

proof fn lemma_sound_entries(entries: Seq<EntryView>, n: int)
    requires
        entries_fault(entries, n) is None,
        0 <= n <= entries.len(),
    ensures
        forall|i: int| 0 <= i < n ==> entry_fault(#[trigger] entries[i]) is None,
        forall|i: int, j: int|
            0 <= i < j < n ==> (#[trigger] entries[i]).name != (#[trigger] entries[j]).name,
    decreases n,
{
    if n > 0 {
        lemma_sound_entries(entries, n - 1);
        assert forall|i: int| 0 <= i < n - 1 implies (#[trigger] entries[i]).name
            != entries[n - 1].name by {
            if entries[i].name == entries[n - 1].name {
                assert(name_taken(entries, n - 1, entries[n - 1].name));
            }
        }
    }
}

proof fn lemma_entries_are_sound(entries: Seq<EntryView>, n: int)
    requires
        0 <= n <= entries.len(),
        forall|i: int| 0 <= i < entries.len() ==> entry_fault(#[trigger] entries[i]) is None,
        names_differ(entries),
    ensures
        entries_fault(entries, n) is None,
    decreases n,
{
    if n > 0 {
        lemma_entries_are_sound(entries, n - 1);
        if name_taken(entries, n - 1, entries[n - 1].name) {
            let j = choose|j: int|
                0 <= j < n - 1 && (#[trigger] entries[j]).name == entries[n - 1].name;
            assert(entries[j].name != entries[n - 1].name);
        }
    }
}

/// Putting a valid entry into a valid catalog leaves the catalog valid.
pub proof fn lemma_upsert_keeps_valid(catalog: CatalogView, entry: EntryView)
    requires
        catalog_fault(catalog) is None,
        entry_fault(entry) is None,
    ensures
        catalog_fault(
            CatalogView { entries: upserted(catalog.entries, entry), ..catalog },
        ) is None,
{
    let entries = catalog.entries;
    let all = put_in(entries, entry);
    let after = upserted(entries, entry);
    lemma_sound_entries(entries, entries.len() as int);
    lemma_upsert(entries, entry, entry.name);
    lemma_place_of(entries, entry.name, 0);
    lemma_by_name(all);
    crate::order::lemma_arrangement_exists(all.len(), by_name(all));
    let p = crate::order::arrangement(all.len(), by_name(all));
    assert forall|i: int| 0 <= i < after.len() implies entry_fault(#[trigger] after[i]) is None by {
        assert(after[i] == all[p[i]]);
        if all[p[i]] != entry {
            assert(all[p[i]] == entries[p[i]]);
        }
    }
    assert forall|i: int, j: int| 0 <= i < j < after.len() implies (#[trigger] after[i]).name != (
    #[trigger] after[j]).name by {
        crate::text::lemma_precedes_asymmetric(after[i].name, after[j].name);
    }
    lemma_entries_are_sound(after, after.len() as int);
}

/// An entry is accepted exactly where its name is one of a slice, its
/// namespace is normalized, its layout, path and role are not blank and its
/// hash is not zero.
pub proof fn lemma_entries_are_accepted(
    entry: &SliceCatalogEntry,
    title: &str,
    name: Result<(), SliceError>,
    result: Result<(), SliceError>,
)
    requires
        title@ == entry.name@,
        call_ensures(crate::names::validate_slice_name, (title,), name),
        call_ensures(SliceCatalogEntry::validate, (entry,), result),
    ensures
        result is Ok <==> {
            &&& name is Ok
            &&& crate::names::namespace_of(entry.asset_class@) == Ok::<
                Seq<char>,
                crate::slice_error::SliceFault,
            >(entry.asset_class@)
            &&& crate::text::trimmed(entry.layout_id@).len() > 0
            &&& entry.layout_hash != 0
            &&& crate::text::trimmed(entry.path@).len() > 0
            &&& crate::text::trimmed(entry.role@).len() > 0
        },
{
}

/// A catalog is accepted exactly where it is of the first version, every entry
/// is accepted and no two have the same name.
pub proof fn lemma_catalogs_are_accepted(catalog: &SliceCatalog, result: Result<(), SliceError>)
    requires
        call_ensures(SliceCatalog::validate, (catalog,), result),
    ensures
        result is Ok <==> {
            &&& catalog.version == 1
            &&& forall|i: int|
                0 <= i < catalog.entries@.len() ==> entry_fault(
                    (#[trigger] catalog.entries@[i])@,
                ) is None
            &&& forall|i: int, j: int|
                0 <= i < j < catalog.entries@.len() ==> (#[trigger] catalog.entries@[i]).name@ != (
                #[trigger] catalog.entries@[j]).name@
        },
{
    let entries = catalog@.entries;
    let n = entries.len() as int;
    assert(forall|i: int|
        0 <= i < n ==> #[trigger] entries[i] == (#[trigger] catalog.entries@[i])@);
    if result is Ok {
        lemma_sound_entries(entries, n);
        assert forall|i: int| 0 <= i < n implies entry_fault(
            (#[trigger] catalog.entries@[i])@,
        ) is None by {
            assert(entry_fault(entries[i]) is None);
        }
        assert forall|i: int, j: int| 0 <= i < j < n implies (
        #[trigger] catalog.entries@[i]).name@ != (#[trigger] catalog.entries@[j]).name@ by {
            assert(entries[i].name != entries[j].name);
        }
    } else if catalog.version == 1 {
        if (forall|i: int|
            0 <= i < n ==> entry_fault((#[trigger] catalog.entries@[i])@) is None) && (forall|
            i: int,
            j: int,
        |
            0 <= i < j < n ==> (#[trigger] catalog.entries@[i]).name@ != (
            #[trigger] catalog.entries@[j]).name@) {
            assert forall|i: int| 0 <= i < n implies entry_fault(#[trigger] entries[i]) is None by {
                assert(entry_fault(catalog.entries@[i]@) is None);
            }
            assert forall|i: int, j: int| 0 <= i < j < n implies (#[trigger] entries[i]).name != (
            #[trigger] entries[j]).name by {
                assert(catalog.entries@[i].name@ != catalog.entries@[j].name@);
            }
            lemma_entries_are_sound(entries, n);
        }
    }
}

/// A name finds an entry of that name, and nothing only where no entry has it.
pub proof fn lemma_names_find_entries(
    catalog: &SliceCatalog,
    name: &str,
    entry: Option<&SliceCatalogEntry>,
)
    requires
        call_ensures(SliceCatalog::find, (catalog, name), entry),
    ensures
        entry is Some ==> entry->0.name@ == name@ && exists|i: int|
            0 <= i < catalog.entries@.len() && (#[trigger] catalog.entries@[i])@ == entry->0@,
        entry is None ==> forall|i: int|
            0 <= i < catalog.entries@.len() ==> (#[trigger] catalog.entries@[i]).name@ != name@,
{
    let entries = catalog@.entries;
    lemma_place_of(entries, name@, 0);
    assert(forall|i: int|
        0 <= i < entries.len() ==> #[trigger] entries[i] == (#[trigger] catalog.entries@[i])@);
    match place_of(entries, name@, 0) {
        Some(i) => {
            assert(catalog.entries@[i]@ == entry->0@);
        },
        None => {
            assert forall|i: int| 0 <= i < catalog.entries@.len() implies (
            #[trigger] catalog.entries@[i]).name@ != name@ by {
                assert(entries[i].name != name@);
            }
        },
    }
}

/// Putting in an entry that is accepted makes it what its name finds, and
/// leaves what other names find; an entry that is refused changes nothing.
pub proof fn lemma_put_entry_is_found(
    catalog: &mut SliceCatalog,
    entry: SliceCatalogEntry,
    name: Seq<char>,
    checked: Result<(), SliceError>,
    result: Result<(), SliceError>,
)
    requires
        call_ensures(SliceCatalogEntry::validate, (&entry,), checked),
        call_ensures(SliceCatalog::upsert, (catalog, entry), result),
        names_differ(old(catalog)@.entries),
    ensures
        result is Ok <==> checked is Ok,
        result is Err ==> final(catalog)@ == old(catalog)@ && result->Err_0@ == checked->Err_0@,
        final(catalog).version == old(catalog).version,
        result is Ok ==> {
            &&& found_in(final(catalog)@.entries, entry@.name) == Some(entry@)
            &&& name != entry@.name ==> found_in(final(catalog)@.entries, name) == found_in(
                old(catalog)@.entries,
                name,
            )
            &&& names_ascend(final(catalog)@.entries)
        },
{
    assert(final(catalog)@.version == final(catalog).version);
    if result is Ok {
        lemma_upsert(old(catalog)@.entries, entry@, name);
    }
}

/// The entries of a namespace are those of the catalog that have it, in their
/// order.
pub proof fn lemma_namespaces_select_entries(
    catalog: &SliceCatalog,
    asset_class: &str,
    namespace: Result<String, SliceError>,
    result: Result<Vec<&SliceCatalogEntry>, SliceError>,
)
    requires
        call_ensures(crate::names::normalize_asset_class, (asset_class,), namespace),
        call_ensures(SliceCatalog::by_asset_class, (catalog, asset_class), result),
    ensures
        namespace is Err ==> result is Err && result->Err_0@ == namespace->Err_0@,
        namespace is Ok ==> {
            &&& result is Ok
            &&& forall|i: int|
                0 <= i < result->Ok_0@.len() ==> (#[trigger] result->Ok_0@[i]).asset_class@
                    == namespace->Ok_0@ && catalog@.entries.contains((*result->Ok_0@[i])@)
            &&& forall|i: int|
                0 <= i < catalog.entries@.len() && (#[trigger] catalog.entries@[i]).asset_class@
                    == namespace->Ok_0@ ==> entries_behind(result->Ok_0@).contains(
                    catalog.entries@[i]@,
                )
        },
{
    broadcast use vstd::seq_lib::group_filter_ensures;

    if namespace is Ok {
        let entries = catalog@.entries;
        let chosen = |entry: EntryView| entry.asset_class == namespace->Ok_0@;
        let kept = entries.filter(chosen);
        let shown = result->Ok_0@;
        assert(entries_behind(shown) == kept);
        assert forall|i: int| 0 <= i < shown.len() implies (#[trigger] shown[i]).asset_class@
            == namespace->Ok_0@ && entries.contains((*shown[i])@) by {
            assert(entries_behind(shown)[i] == (*shown[i])@);
            assert(chosen(kept[i]));
            assert(kept.contains(kept[i]));
            entries.lemma_filter_contains_rev(chosen, kept[i]);
        }
        assert forall|i: int|
            0 <= i < catalog.entries@.len() && (
            #[trigger] catalog.entries@[i]).asset_class@ == namespace->Ok_0@ implies entries_behind(
            shown,
        ).contains(catalog.entries@[i]@) by {
            assert(entries[i] == catalog.entries@[i]@);
            assert(chosen(entries[i]));
            assert(kept.contains(entries[i]));
        }
    }
}

} // verus!
