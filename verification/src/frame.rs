//! What the frames of a trigger processor hold.
//!
//! The laws here speak of every processor that can be reached: one that
//! started fresh and observed any snapshots before.

use crate::circuit::FrameContext;
use crate::trigger::{Progress, TriggerTransitionKind};
use vstd::prelude::*;

verus! {

/// How far the entities of every trigger are once a fresh processor has
/// observed the cells of some snapshots, one after the other.
pub open spec fn reached(
    specs: Seq<crate::trigger::ThresholdView>,
    earlier: Seq<Seq<crate::cube::CellView>>,
) -> Seq<Seq<(Seq<char>, Progress)>>
    decreases earlier.len(),
{
    if earlier.len() == 0 {
        Seq::new(specs.len(), |i: int| Seq::<(Seq<char>, Progress)>::empty())
    } else {
        crate::trigger::all_advanced(specs, earlier.last(), reached(specs, earlier.drop_last()))
    }
}

/// Whether an entity is within the bounds of a trigger: its count is below the
/// persistence, and zero once it is active.
pub open spec fn kept(rule: crate::trigger::ThresholdView, progress: Progress) -> bool {
    &&& progress.qualifying_generations < rule.min_consecutive
    &&& progress.active ==> progress.qualifying_generations == 0
}

/// Whether the entities of a trigger stand in dictionary order, each within
/// the bounds of the trigger.
pub open spec fn sound_table(
    rule: crate::trigger::ThresholdView,
    table: Seq<(Seq<char>, Progress)>,
) -> bool {
    &&& crate::table::ascending(table)
    &&& forall|i: int| 0 <= i < table.len() ==> kept(rule, (#[trigger] table[i]).1)
}

/// Whether that holds of every trigger.
pub open spec fn sound_tables(
    specs: Seq<crate::trigger::ThresholdView>,
    tables: Seq<Seq<(Seq<char>, Progress)>>,
) -> bool {
    &&& tables.len() == specs.len()
    &&& forall|i: int| 0 <= i < specs.len() ==> sound_table(specs[i], #[trigger] tables[i])
}

/// Whether no two cells share a node and a key.
pub open spec fn shown_once(cells: Seq<crate::cube::CellView>) -> bool {
    forall|i: int, j: int|
        0 <= i < j < cells.len() ==> !((#[trigger] cells[i]).node == (#[trigger] cells[j]).node
            && cells[i].key == cells[j].key)
}

proof fn lemma_rule_is_sound(specs: Seq<crate::trigger::ThresholdView>, n: int, i: int)
    requires
        crate::trigger::triggers_fault(specs, n) is None,
        0 <= i < n <= specs.len(),
    ensures
        crate::trigger::threshold_fault(specs[i]) is None,
    decreases n,
{
    if i < n - 1 {
        lemma_rule_is_sound(specs, n - 1, i);
    }
}

proof fn lemma_ids_differ(specs: Seq<crate::trigger::ThresholdView>, n: int, i: int, j: int)
    requires
        crate::trigger::triggers_fault(specs, n) is None,
        0 <= i < j < n <= specs.len(),
    ensures
        specs[i].id != specs[j].id,
    decreases n,
{
    if j < n - 1 {
        lemma_ids_differ(specs, n - 1, i, j);
    } else if specs[i].id == specs[j].id {
        assert(crate::trigger::trigger_seen(specs, n - 1, specs[n - 1].id));
    }
}

proof fn lemma_same_id(specs: Seq<crate::trigger::ThresholdView>, i: int, j: int)
    requires
        crate::trigger::triggers_fault(specs, specs.len() as int) is None,
        0 <= i < specs.len(),
        0 <= j < specs.len(),
        specs[i].id == specs[j].id,
    ensures
        i == j,
{
    if i < j {
        lemma_ids_differ(specs, specs.len() as int, i, j);
    } else if j < i {
        lemma_ids_differ(specs, specs.len() as int, j, i);
    }
}

proof fn lemma_progress_kept(
    rule: crate::trigger::ThresholdView,
    table: Seq<(Seq<char>, Progress)>,
    key: Seq<char>,
)
    requires
        sound_table(rule, table),
        rule.min_consecutive > 0,
    ensures
        kept(rule, crate::trigger::progress_of(table, key)),
{
    if crate::table::found(table, key) is Some {
        let i = crate::table::lemma_found_where(table, key);
        assert(kept(rule, table[i].1));
    }
}

proof fn lemma_walked_sound(
    rule: crate::trigger::ThresholdView,
    cells: Seq<crate::cube::CellView>,
    n: int,
    table: Seq<(Seq<char>, Progress)>,
)
    requires
        sound_table(rule, table),
        rule.min_consecutive > 0,
        n <= cells.len(),
    ensures
        sound_table(rule, crate::trigger::walked(rule, cells, n, table)),
    decreases n,
{
    if n > 0 {
        lemma_walked_sound(rule, cells, n - 1, table);
        let before = crate::trigger::walked(rule, cells, n - 1, table);
        let cell = cells[n - 1];
        if cell.node == rule.node {
            let old = crate::trigger::progress_of(before, cell.key);
            let new = crate::trigger::stepped(rule, old, cell.value);
            lemma_progress_kept(rule, before, cell.key);
            assert(kept(rule, new));
            crate::table::lemma_entered_ascending(before, cell.key, new);
            let after = crate::table::entered(before, cell.key, new);
            assert forall|i: int| 0 <= i < after.len() implies kept(
                rule,
                (#[trigger] after[i]).1,
            ) by {
                if after[i] != (cell.key, new) {
                    let k = choose|k: int| 0 <= k < before.len() && before[k] == after[i];
                    assert(kept(rule, before[k].1));
                }
            }
        }
    }
}

proof fn lemma_present_from(
    table: Seq<(Seq<char>, Progress)>,
    cells: Seq<crate::cube::CellView>,
    node: Seq<char>,
    n: int,
    k: int,
) -> (i: int)
    requires
        0 <= n <= table.len(),
        0 <= k < crate::trigger::present(table, cells, node, n).len(),
    ensures
        0 <= i < n,
        table[i] == crate::trigger::present(table, cells, node, n)[k],
        crate::trigger::observed(cells, cells.len() as int, node, table[i].0),
    decreases n,
{
    let before = crate::trigger::present(table, cells, node, n - 1);
    if k < before.len() {
        lemma_present_from(table, cells, node, n - 1, k)
    } else {
        n - 1
    }
}

proof fn lemma_present_sound(
    rule: crate::trigger::ThresholdView,
    table: Seq<(Seq<char>, Progress)>,
    cells: Seq<crate::cube::CellView>,
    n: int,
)
    requires
        sound_table(rule, table),
        0 <= n <= table.len(),
    ensures
        sound_table(rule, crate::trigger::present(table, cells, rule.node, n)),
    decreases n,
{
    if n > 0 {
        lemma_present_sound(rule, table, cells, n - 1);
        let before = crate::trigger::present(table, cells, rule.node, n - 1);
        let now = crate::trigger::present(table, cells, rule.node, n);
        assert forall|i: int, j: int| 0 <= i < j < now.len() implies crate::text::precedes(
            (#[trigger] now[i]).0,
            (#[trigger] now[j]).0,
        ) by {
            assert(now[i] == before[i]);
            if j < before.len() {
                assert(now[j] == before[j]);
            } else {
                let a = lemma_present_from(table, cells, rule.node, n - 1, i);
                assert(now[j] == table[n - 1]);
                assert(crate::text::precedes(table[a].0, table[n - 1].0));
            }
        }
        assert forall|i: int| 0 <= i < now.len() implies kept(rule, (#[trigger] now[i]).1) by {
            if i < before.len() {
                assert(now[i] == before[i]);
            } else {
                assert(now[i] == table[n - 1]);
            }
        }
    }
}

proof fn lemma_advanced_sound(
    rule: crate::trigger::ThresholdView,
    cells: Seq<crate::cube::CellView>,
    table: Seq<(Seq<char>, Progress)>,
)
    requires
        sound_table(rule, table),
        rule.min_consecutive > 0,
    ensures
        sound_table(rule, crate::trigger::advanced(rule, cells, table)),
{
    let after = crate::trigger::walked(rule, cells, cells.len() as int, table);
    lemma_walked_sound(rule, cells, cells.len() as int, table);
    lemma_present_sound(rule, after, cells, after.len() as int);
}

/// In every processor that can be reached, the entities of each trigger stand
/// in dictionary order, every count is below the persistence of its trigger,
/// and the count of an active entity is zero.
pub proof fn lemma_reached_is_sound(
    specs: Seq<crate::trigger::ThresholdView>,
    earlier: Seq<Seq<crate::cube::CellView>>,
)
    requires
        crate::trigger::triggers_fault(specs, specs.len() as int) is None,
    ensures
        sound_tables(specs, reached(specs, earlier)),
    decreases earlier.len(),
{
    let now = reached(specs, earlier);
    if earlier.len() > 0 {
        lemma_reached_is_sound(specs, earlier.drop_last());
        let before = reached(specs, earlier.drop_last());
        assert forall|i: int| 0 <= i < specs.len() implies sound_table(
            specs[i],
            #[trigger] now[i],
        ) by {
            lemma_rule_is_sound(specs, specs.len() as int, i);
            assert(sound_table(specs[i], before[i]));
            lemma_advanced_sound(specs[i], earlier.last(), before[i]);
        }
    }
}

proof fn lemma_first_sight(
    rule: crate::trigger::ThresholdView,
    cells: Seq<crate::cube::CellView>,
    table: Seq<(Seq<char>, Progress)>,
    j: int,
)
    requires
        shown_once(cells),
        0 <= j < cells.len(),
        cells[j].node == rule.node,
    ensures
        crate::trigger::progress_of(
            crate::trigger::walked(rule, cells, j, table),
            cells[j].key,
        ) == crate::trigger::progress_of(table, cells[j].key),
{
    crate::trigger::lemma_walked_found(rule, cells, j, table, cells[j].key);
    assert(!crate::trigger::observed(cells, j, rule.node, cells[j].key)) by {
        if crate::trigger::observed(cells, j, rule.node, cells[j].key) {
            let i = choose|i: int|
                0 <= i < j && (#[trigger] cells[i]).node == rule.node && cells[i].key
                    == cells[j].key;
            assert(cells[i].node == cells[j].node);
        }
    }
}

/// What cell `j` changes for a trigger.
pub open spec fn crossed_at(
    rule: crate::trigger::ThresholdView,
    context: FrameContext,
    cells: Seq<crate::cube::CellView>,
    table: Seq<(Seq<char>, Progress)>,
    j: int,
    t: crate::trigger::TransitionView,
) -> bool {
    &&& cells[j].node == rule.node
    &&& crate::trigger::crossing(
        rule,
        crate::trigger::progress_of(table, cells[j].key),
        cells[j].value,
    ) == Some(t.kind)
    &&& t == crate::trigger::transition_of(
        rule,
        context,
        cells[j].key,
        t.kind,
        Some(cells[j].value),
    )
}

/// Whether a transition says that an active entity is no longer shown.
pub open spec fn lost(
    rule: crate::trigger::ThresholdView,
    context: FrameContext,
    cells: Seq<crate::cube::CellView>,
    table: Seq<(Seq<char>, Progress)>,
    t: crate::trigger::TransitionView,
) -> bool {
    &&& !crate::trigger::observed(cells, cells.len() as int, rule.node, t.key)
    &&& crate::trigger::progress_of(table, t.key).active
    &&& t == crate::trigger::transition_of(
        rule,
        context,
        t.key,
        TriggerTransitionKind::Invalidated,
        None,
    )
}

/// Whether a transition is called for: a cell crosses a threshold, or an
/// active entity is no longer shown.
pub open spec fn called_for(
    rule: crate::trigger::ThresholdView,
    context: FrameContext,
    cells: Seq<crate::cube::CellView>,
    table: Seq<(Seq<char>, Progress)>,
    t: crate::trigger::TransitionView,
) -> bool {
    ||| exists|j: int| 0 <= j < cells.len() && #[trigger] crossed_at(rule, context, cells, table, j, t)
    ||| lost(rule, context, cells, table, t)
}

proof fn lemma_crossings_from(
    rule: crate::trigger::ThresholdView,
    context: FrameContext,
    cells: Seq<crate::cube::CellView>,
    n: int,
    table: Seq<(Seq<char>, Progress)>,
    k: int,
) -> (j: int)
    requires
        shown_once(cells),
        0 <= n <= cells.len(),
        0 <= k < crate::trigger::crossings(rule, context, cells, n, table).len(),
    ensures
        0 <= j < n,
        crossed_at(
            rule,
            context,
            cells,
            table,
            j,
            crate::trigger::crossings(rule, context, cells, n, table)[k],
        ),
    decreases n,
{
    let before = crate::trigger::crossings(rule, context, cells, n - 1, table);
    if k < before.len() {
        lemma_crossings_from(rule, context, cells, n - 1, table, k)
    } else {
        lemma_first_sight(rule, cells, table, n - 1);
        n - 1
    }
}

proof fn lemma_crossings_to(
    rule: crate::trigger::ThresholdView,
    context: FrameContext,
    cells: Seq<crate::cube::CellView>,
    n: int,
    table: Seq<(Seq<char>, Progress)>,
    j: int,
    t: crate::trigger::TransitionView,
) -> (k: int)
    requires
        shown_once(cells),
        0 <= j < n <= cells.len(),
        crossed_at(rule, context, cells, table, j, t),
    ensures
        0 <= k < crate::trigger::crossings(rule, context, cells, n, table).len(),
        crate::trigger::crossings(rule, context, cells, n, table)[k] == t,
    decreases n,
{
    let before = crate::trigger::crossings(rule, context, cells, n - 1, table);
    if j < n - 1 {
        lemma_crossings_to(rule, context, cells, n - 1, table, j, t)
    } else {
        lemma_first_sight(rule, cells, table, n - 1);
        before.len() as int
    }
}

proof fn lemma_crossings_differ(
    rule: crate::trigger::ThresholdView,
    context: FrameContext,
    cells: Seq<crate::cube::CellView>,
    n: int,
    table: Seq<(Seq<char>, Progress)>,
    a: int,
    b: int,
)
    requires
        shown_once(cells),
        0 <= n <= cells.len(),
        0 <= a < b < crate::trigger::crossings(rule, context, cells, n, table).len(),
    ensures
        crate::trigger::crossings(rule, context, cells, n, table)[a].key
            != crate::trigger::crossings(rule, context, cells, n, table)[b].key,
    decreases n,
{
    let before = crate::trigger::crossings(rule, context, cells, n - 1, table);
    if b < before.len() {
        lemma_crossings_differ(rule, context, cells, n - 1, table, a, b);
    } else {
        let i = lemma_crossings_from(rule, context, cells, n - 1, table, a);
        assert(cells[i].node == cells[n - 1].node);
    }
}

proof fn lemma_losses_from(
    rule: crate::trigger::ThresholdView,
    context: FrameContext,
    table: Seq<(Seq<char>, Progress)>,
    cells: Seq<crate::cube::CellView>,
    n: int,
    k: int,
) -> (i: int)
    requires
        0 <= n <= table.len(),
        0 <= k < crate::trigger::losses(rule, context, table, cells, n).len(),
    ensures
        0 <= i < n,
        !crate::trigger::observed(cells, cells.len() as int, rule.node, table[i].0),
        table[i].1.active,
        crate::trigger::losses(rule, context, table, cells, n)[k]
            == crate::trigger::transition_of(
            rule,
            context,
            table[i].0,
            TriggerTransitionKind::Invalidated,
            None,
        ),
    decreases n,
{
    let before = crate::trigger::losses(rule, context, table, cells, n - 1);
    if k < before.len() {
        lemma_losses_from(rule, context, table, cells, n - 1, k)
    } else {
        n - 1
    }
}

proof fn lemma_losses_to(
    rule: crate::trigger::ThresholdView,
    context: FrameContext,
    table: Seq<(Seq<char>, Progress)>,
    cells: Seq<crate::cube::CellView>,
    n: int,
    i: int,
) -> (k: int)
    requires
        0 <= i < n <= table.len(),
        !crate::trigger::observed(cells, cells.len() as int, rule.node, table[i].0),
        table[i].1.active,
    ensures
        0 <= k < crate::trigger::losses(rule, context, table, cells, n).len(),
        crate::trigger::losses(rule, context, table, cells, n)[k]
            == crate::trigger::transition_of(
            rule,
            context,
            table[i].0,
            TriggerTransitionKind::Invalidated,
            None,
        ),
    decreases n,
{
    let before = crate::trigger::losses(rule, context, table, cells, n - 1);
    if i < n - 1 {
        lemma_losses_to(rule, context, table, cells, n - 1, i)
    } else {
        before.len() as int
    }
}

proof fn lemma_losses_differ(
    rule: crate::trigger::ThresholdView,
    context: FrameContext,
    table: Seq<(Seq<char>, Progress)>,
    cells: Seq<crate::cube::CellView>,
    n: int,
    a: int,
    b: int,
)
    requires
        crate::table::ascending(table),
        0 <= n <= table.len(),
        0 <= a < b < crate::trigger::losses(rule, context, table, cells, n).len(),
    ensures
        crate::trigger::losses(rule, context, table, cells, n)[a].key
            != crate::trigger::losses(rule, context, table, cells, n)[b].key,
    decreases n,
{
    let before = crate::trigger::losses(rule, context, table, cells, n - 1);
    if b < before.len() {
        lemma_losses_differ(rule, context, table, cells, n - 1, a, b);
    } else {
        let i = lemma_losses_from(rule, context, table, cells, n - 1, a);
        assert(crate::text::precedes(table[i].0, table[n - 1].0));
        crate::trigger::lemma_one_way(table[i].0, table[n - 1].0);
    }
}

proof fn lemma_changes_from(
    rule: crate::trigger::ThresholdView,
    context: FrameContext,
    cells: Seq<crate::cube::CellView>,
    table: Seq<(Seq<char>, Progress)>,
    k: int,
)
    requires
        sound_table(rule, table),
        rule.min_consecutive > 0,
        shown_once(cells),
        0 <= k < crate::trigger::changes(rule, context, cells, table).len(),
    ensures
        called_for(
            rule,
            context,
            cells,
            table,
            crate::trigger::changes(rule, context, cells, table)[k],
        ),
        k < crate::trigger::crossings(rule, context, cells, cells.len() as int, table).len()
            ==> crate::trigger::observed(
            cells,
            cells.len() as int,
            rule.node,
            crate::trigger::changes(rule, context, cells, table)[k].key,
        ),
        k >= crate::trigger::crossings(rule, context, cells, cells.len() as int, table).len()
            ==> !crate::trigger::observed(
            cells,
            cells.len() as int,
            rule.node,
            crate::trigger::changes(rule, context, cells, table)[k].key,
        ),
{
    let n = cells.len() as int;
    let after = crate::trigger::walked(rule, cells, n, table);
    let crossed = crate::trigger::crossings(rule, context, cells, n, table);
    let gone = crate::trigger::losses(rule, context, after, cells, after.len() as int);
    let all = crate::trigger::changes(rule, context, cells, table);
    let t = all[k];
    if k < crossed.len() {
        assert(t == crossed[k]);
        let j = lemma_crossings_from(rule, context, cells, n, table, k);
        assert(crossed_at(rule, context, cells, table, j, t));
        assert(cells[j].node == rule.node && cells[j].key == t.key);
    } else {
        assert(t == gone[k - crossed.len()]);
        let i = lemma_losses_from(
            rule,
            context,
            after,
            cells,
            after.len() as int,
            k - crossed.len(),
        );
        lemma_walked_sound(rule, cells, n, table);
        crate::table::lemma_found_at(after, i);
        crate::trigger::lemma_walked_found(rule, cells, n, table, t.key);
        assert(lost(rule, context, cells, table, t));
    }
}

proof fn lemma_changes_to(
    rule: crate::trigger::ThresholdView,
    context: FrameContext,
    cells: Seq<crate::cube::CellView>,
    table: Seq<(Seq<char>, Progress)>,
    t: crate::trigger::TransitionView,
)
    requires
        sound_table(rule, table),
        rule.min_consecutive > 0,
        shown_once(cells),
        called_for(rule, context, cells, table, t),
    ensures
        crate::trigger::changes(rule, context, cells, table).contains(t),
{
    let n = cells.len() as int;
    let after = crate::trigger::walked(rule, cells, n, table);
    let crossed = crate::trigger::crossings(rule, context, cells, n, table);
    let all = crate::trigger::changes(rule, context, cells, table);
    if exists|j: int| 0 <= j < cells.len() && #[trigger] crossed_at(rule, context, cells, table, j, t) {
        let j = choose|j: int|
            0 <= j < cells.len() && #[trigger] crossed_at(rule, context, cells, table, j, t);
        let k = lemma_crossings_to(rule, context, cells, n, table, j, t);
        assert(all[k] == t);
    } else {
        crate::trigger::lemma_walked_found(rule, cells, n, table, t.key);
        assert(crate::table::found(after, t.key) is Some);
        let i = crate::table::lemma_found_where(after, t.key);
        let k = lemma_losses_to(rule, context, after, cells, after.len() as int, i);
        assert(all[crossed.len() + k] == t);
    }
}

proof fn lemma_changes_differ(
    rule: crate::trigger::ThresholdView,
    context: FrameContext,
    cells: Seq<crate::cube::CellView>,
    table: Seq<(Seq<char>, Progress)>,
    a: int,
    b: int,
)
    requires
        sound_table(rule, table),
        rule.min_consecutive > 0,
        shown_once(cells),
        0 <= a < b < crate::trigger::changes(rule, context, cells, table).len(),
    ensures
        crate::trigger::changes(rule, context, cells, table)[a].key != crate::trigger::changes(
            rule,
            context,
            cells,
            table,
        )[b].key,
{
    let n = cells.len() as int;
    let after = crate::trigger::walked(rule, cells, n, table);
    let crossed = crate::trigger::crossings(rule, context, cells, n, table);
    lemma_walked_sound(rule, cells, n, table);
    lemma_changes_from(rule, context, cells, table, a);
    lemma_changes_from(rule, context, cells, table, b);
    if b < crossed.len() {
        lemma_crossings_differ(rule, context, cells, n, table, a, b);
    } else if a >= crossed.len() {
        lemma_losses_differ(
            rule,
            context,
            after,
            cells,
            after.len() as int,
            a - crossed.len(),
            b - crossed.len(),
        );
    }
}

proof fn lemma_all_changes_from(
    specs: Seq<crate::trigger::ThresholdView>,
    context: FrameContext,
    cells: Seq<crate::cube::CellView>,
    tables: Seq<Seq<(Seq<char>, Progress)>>,
    n: int,
    k: int,
) -> (s: int)
    requires
        crate::trigger::triggers_fault(specs, specs.len() as int) is None,
        sound_tables(specs, tables),
        shown_once(cells),
        0 <= n <= specs.len(),
        0 <= k < crate::trigger::all_changes(specs, context, cells, tables, n).len(),
    ensures
        0 <= s < n,
        called_for(
            specs[s],
            context,
            cells,
            tables[s],
            crate::trigger::all_changes(specs, context, cells, tables, n)[k],
        ),
    decreases n,
{
    let before = crate::trigger::all_changes(specs, context, cells, tables, n - 1);
    if k < before.len() {
        lemma_all_changes_from(specs, context, cells, tables, n - 1, k)
    } else {
        lemma_rule_is_sound(specs, specs.len() as int, n - 1);
        assert(sound_table(specs[n - 1], tables[n - 1]));
        lemma_changes_from(specs[n - 1], context, cells, tables[n - 1], k - before.len());
        n - 1
    }
}

proof fn lemma_all_changes_to(
    specs: Seq<crate::trigger::ThresholdView>,
    context: FrameContext,
    cells: Seq<crate::cube::CellView>,
    tables: Seq<Seq<(Seq<char>, Progress)>>,
    n: int,
    s: int,
    t: crate::trigger::TransitionView,
)
    requires
        crate::trigger::triggers_fault(specs, specs.len() as int) is None,
        sound_tables(specs, tables),
        shown_once(cells),
        0 <= s < n <= specs.len(),
        called_for(specs[s], context, cells, tables[s], t),
    ensures
        crate::trigger::all_changes(specs, context, cells, tables, n).contains(t),
    decreases n,
{
    let before = crate::trigger::all_changes(specs, context, cells, tables, n - 1);
    let now = crate::trigger::all_changes(specs, context, cells, tables, n);
    if s < n - 1 {
        lemma_all_changes_to(specs, context, cells, tables, n - 1, s, t);
        let k = choose|k: int| 0 <= k < before.len() && before[k] == t;
        assert(now[k] == t);
    } else {
        lemma_rule_is_sound(specs, specs.len() as int, s);
        assert(sound_table(specs[s], tables[s]));
        lemma_changes_to(specs[s], context, cells, tables[s], t);
        let last = crate::trigger::changes(specs[s], context, cells, tables[s]);
        let k = choose|k: int| 0 <= k < last.len() && last[k] == t;
        assert(now[before.len() + k] == t);
    }
}

/// Whether no two transitions are of the same trigger and entity.
pub open spec fn one_each(transitions: Seq<crate::trigger::TransitionView>) -> bool {
    forall|a: int, b: int|
        0 <= a < b < transitions.len() ==> !((#[trigger] transitions[a]).trigger == (
        #[trigger] transitions[b]).trigger && transitions[a].key == transitions[b].key)
}

proof fn lemma_all_changes_differ(
    specs: Seq<crate::trigger::ThresholdView>,
    context: FrameContext,
    cells: Seq<crate::cube::CellView>,
    tables: Seq<Seq<(Seq<char>, Progress)>>,
    n: int,
)
    requires
        crate::trigger::triggers_fault(specs, specs.len() as int) is None,
        sound_tables(specs, tables),
        shown_once(cells),
        0 <= n <= specs.len(),
    ensures
        one_each(crate::trigger::all_changes(specs, context, cells, tables, n)),
    decreases n,
{
    if n > 0 {
        lemma_all_changes_differ(specs, context, cells, tables, n - 1);
        let before = crate::trigger::all_changes(specs, context, cells, tables, n - 1);
        let last = crate::trigger::changes(specs[n - 1], context, cells, tables[n - 1]);
        let now = crate::trigger::all_changes(specs, context, cells, tables, n);
        lemma_rule_is_sound(specs, specs.len() as int, n - 1);
        assert(sound_table(specs[n - 1], tables[n - 1]));
        assert forall|a: int, b: int| 0 <= a < b < now.len() implies !((
        #[trigger] now[a]).trigger == (#[trigger] now[b]).trigger && now[a].key == now[b].key) by {
            if b < before.len() {
                assert(now[a] == before[a] && now[b] == before[b]);
            } else {
                lemma_changes_from(
                    specs[n - 1],
                    context,
                    cells,
                    tables[n - 1],
                    b - before.len(),
                );
                assert(now[b] == last[b - before.len()]);
                if a < before.len() {
                    assert(now[a] == before[a]);
                    let s = lemma_all_changes_from(specs, context, cells, tables, n - 1, a);
                    lemma_ids_differ(specs, specs.len() as int, s, n - 1);
                } else {
                    assert(now[a] == last[a - before.len()]);
                    lemma_changes_differ(
                        specs[n - 1],
                        context,
                        cells,
                        tables[n - 1],
                        a - before.len(),
                        b - before.len(),
                    );
                }
            }
        }
    }
}

/// Whether one trigger and entity stand before another.
pub open spec fn pair_precedes(
    trigger: Seq<char>,
    key: Seq<char>,
    next_trigger: Seq<char>,
    next_key: Seq<char>,
) -> bool {
    crate::text::precedes(trigger, next_trigger) || trigger == next_trigger
        && crate::text::precedes(key, next_key)
}

/// Whether transitions strictly increase by trigger and entity.
pub open spec fn transitions_ascend(transitions: Seq<crate::trigger::TransitionView>) -> bool {
    forall|a: int, b: int|
        0 <= a < b < transitions.len() ==> pair_precedes(
            (#[trigger] transitions[a]).trigger,
            transitions[a].key,
            (#[trigger] transitions[b]).trigger,
            transitions[b].key,
        )
}

/// Whether states strictly increase by trigger and entity.
pub open spec fn states_ascend(states: Seq<crate::trigger::StateView>) -> bool {
    forall|a: int, b: int|
        0 <= a < b < states.len() ==> pair_precedes(
            (#[trigger] states[a]).trigger,
            states[a].key,
            (#[trigger] states[b]).trigger,
            states[b].key,
        )
}

proof fn lemma_in_order(transitions: Seq<crate::trigger::TransitionView>)
    requires
        one_each(transitions),
    ensures
        transitions_ascend(crate::trigger::in_order(transitions)),
        forall|t: crate::trigger::TransitionView|
            #![trigger crate::trigger::in_order(transitions).contains(t)]
            crate::trigger::in_order(transitions).contains(t) == transitions.contains(t),
{
    let n = transitions.len();
    let f = crate::trigger::transition_order(transitions);
    crate::trigger::lemma_transition_order(transitions);
    crate::order::lemma_arrangement_exists(n, f);
    let p = crate::order::arrangement(n, f);
    let sorted = crate::trigger::in_order(transitions);
    assert(sorted.len() == n);
    assert(forall|k: int| 0 <= k < n ==> (#[trigger] sorted[k]) == transitions[p[k]]);
    assert forall|a: int, b: int| 0 <= a < b < sorted.len() implies pair_precedes(
        (#[trigger] sorted[a]).trigger,
        sorted[a].key,
        (#[trigger] sorted[b]).trigger,
        sorted[b].key,
    ) by {
        let x = p[a];
        let y = p[b];
        assert(crate::order::stands(f, x, y));
        let u = transitions[x];
        let v = transitions[y];
        assert(!(u.trigger == v.trigger && u.key == v.key)) by {
            if x < y {
                assert(!(transitions[x].trigger == transitions[y].trigger && transitions[x].key
                    == transitions[y].key));
            } else {
                assert(!(transitions[y].trigger == transitions[x].trigger && transitions[y].key
                    == transitions[x].key));
            }
        }
        crate::trigger::lemma_between(u.trigger, v.trigger, v.trigger);
        crate::trigger::lemma_between(u.key, v.key, v.key);
    }
    assert forall|t: crate::trigger::TransitionView|
        #![trigger sorted.contains(t)]
        sorted.contains(t) == transitions.contains(t) by {
        if sorted.contains(t) {
            let k = choose|k: int| 0 <= k < sorted.len() && sorted[k] == t;
            assert(transitions[p[k]] == t);
        }
        if transitions.contains(t) {
            let x = choose|x: int| 0 <= x < transitions.len() && transitions[x] == t;
            assert(p.contains(x));
            let k = choose|k: int| 0 <= k < p.len() && p[k] == x;
            assert(sorted[k] == t);
        }
    }
}

/// The transitions of a frame are those that are called for, each once, in
/// order of trigger and entity.
pub proof fn lemma_frame_transitions(
    specs: Seq<crate::trigger::ThresholdView>,
    earlier: Seq<Seq<crate::cube::CellView>>,
    context: FrameContext,
    snapshot: crate::cube::SnapshotView,
)
    requires
        crate::trigger::triggers_fault(specs, specs.len() as int) is None,
        shown_once(snapshot.values),
    ensures
        ({
            let tables = reached(specs, earlier);
            let frame = crate::trigger::frame_of(specs, tables, context, snapshot);
            &&& transitions_ascend(frame.transitions)
            &&& forall|t: crate::trigger::TransitionView|
                #![trigger frame.transitions.contains(t)]
                frame.transitions.contains(t) == exists|s: int|
                    0 <= s < specs.len() && #[trigger] called_for(
                        specs[s],
                        context,
                        snapshot.values,
                        tables[s],
                        t,
                    )
        }),
{
    let tables = reached(specs, earlier);
    let cells = snapshot.values;
    let n = specs.len() as int;
    let frame = crate::trigger::frame_of(specs, tables, context, snapshot);
    let all = crate::trigger::all_changes(specs, context, cells, tables, n);
    lemma_reached_is_sound(specs, earlier);
    lemma_all_changes_differ(specs, context, cells, tables, n);
    lemma_in_order(all);
    assert forall|t: crate::trigger::TransitionView|
        #![trigger frame.transitions.contains(t)]
        frame.transitions.contains(t) == exists|s: int|
            0 <= s < specs.len() && #[trigger] called_for(
                specs[s],
                context,
                snapshot.values,
                tables[s],
                t,
            ) by {
        assert(crate::trigger::in_order(all).contains(t) == all.contains(t));
        if all.contains(t) {
            let k = choose|k: int| 0 <= k < all.len() && all[k] == t;
            let s = lemma_all_changes_from(specs, context, cells, tables, n, k);
            assert(called_for(specs[s], context, cells, tables[s], t));
        }
        if exists|s: int|
            0 <= s < specs.len() && #[trigger] called_for(
                specs[s],
                context,
                cells,
                tables[s],
                t,
            ) {
            let s = choose|s: int|
                0 <= s < specs.len() && #[trigger] called_for(
                    specs[s],
                    context,
                    cells,
                    tables[s],
                    t,
                );
            lemma_all_changes_to(specs, context, cells, tables, n, s, t);
        }
    }
}

/// What a frame says of an entity that its snapshot shows. The new state is
/// active exactly as the thresholds and the count say, the count grows while
/// the entity qualifies and is zero otherwise, and a transition stands in the
/// frame exactly where the state changed, and no other for that entity.
pub proof fn lemma_frame_of_shown_entity(
    specs: Seq<crate::trigger::ThresholdView>,
    earlier: Seq<Seq<crate::cube::CellView>>,
    context: FrameContext,
    snapshot: crate::cube::SnapshotView,
    s: int,
    j: int,
)
    requires
        crate::trigger::triggers_fault(specs, specs.len() as int) is None,
        shown_once(snapshot.values),
        0 <= s < specs.len(),
        0 <= j < snapshot.values.len(),
        snapshot.values[j].node == specs[s].node,
    ensures
        ({
            let rule = specs[s];
            let key = snapshot.values[j].key;
            let value = snapshot.values[j].value;
            let tables = reached(specs, earlier);
            let after = reached(specs, earlier.push(snapshot.values));
            let frame = crate::trigger::frame_of(specs, tables, context, snapshot);
            let old = crate::trigger::progress_of(tables[s], key);
            let new = crate::trigger::progress_of(after[s], key);
            let entered = crate::trigger::transition_of(
                rule,
                context,
                key,
                TriggerTransitionKind::Entered,
                Some(value),
            );
            let exited = crate::trigger::transition_of(
                rule,
                context,
                key,
                TriggerTransitionKind::Exited,
                Some(value),
            );
            &&& crate::table::found(after[s], key) is Some
            &&& new.active == if old.active {
                !value.le(rule.exit_at_or_below)
            } else {
                rule.enter_at_or_above.le(value) && old.qualifying_generations + 1
                    >= rule.min_consecutive
            }
            &&& new.qualifying_generations == if !old.active && !new.active
                && rule.enter_at_or_above.le(value) {
                old.qualifying_generations + 1
            } else {
                0
            }
            &&& frame.transitions.contains(entered) == (!old.active && new.active)
            &&& frame.transitions.contains(exited) == (old.active && !new.active)
            &&& forall|t: crate::trigger::TransitionView|
                #![trigger frame.transitions.contains(t)]
                frame.transitions.contains(t) && t.trigger == rule.id && t.key == key ==> t
                    == entered || t == exited
        }),
{
    let rule = specs[s];
    let cells = snapshot.values;
    let key = cells[j].key;
    let value = cells[j].value;
    let tables = reached(specs, earlier);
    let after = reached(specs, earlier.push(cells));
    let frame = crate::trigger::frame_of(specs, tables, context, snapshot);
    let old = crate::trigger::progress_of(tables[s], key);
    let new = crate::trigger::progress_of(after[s], key);
    lemma_reached_is_sound(specs, earlier);
    lemma_rule_is_sound(specs, specs.len() as int, s);
    lemma_frame_transitions(specs, earlier, context, snapshot);
    assert(earlier.push(cells).drop_last() =~= earlier);
    assert(earlier.push(cells).last() == cells);
    assert(after[s] == crate::trigger::advanced(rule, cells, tables[s]));
    assert(sound_table(rule, tables[s]));
    lemma_progress_kept(rule, tables[s], key);
    crate::trigger::lemma_entities_are_independent(rule, cells, tables[s], j);
    assert(new == crate::trigger::stepped(rule, old, value));
    crate::trigger::lemma_crossing_is_change(rule, old, value);
    let entered = crate::trigger::transition_of(
        rule,
        context,
        key,
        TriggerTransitionKind::Entered,
        Some(value),
    );
    let exited = crate::trigger::transition_of(
        rule,
        context,
        key,
        TriggerTransitionKind::Exited,
        Some(value),
    );
    assert(crate::trigger::observed(cells, cells.len() as int, rule.node, key));
    if !old.active && new.active {
        assert(crossed_at(rule, context, cells, tables[s], j, entered));
        assert(called_for(specs[s], context, cells, tables[s], entered));
    }
    if old.active && !new.active {
        assert(crossed_at(rule, context, cells, tables[s], j, exited));
        assert(called_for(specs[s], context, cells, tables[s], exited));
    }
    assert forall|t: crate::trigger::TransitionView|
        #![trigger frame.transitions.contains(t)]
        frame.transitions.contains(t) && t.trigger == rule.id && t.key == key implies {
        &&& t == entered || t == exited
        &&& crate::trigger::crossing(rule, old, value) == Some(t.kind)
    } by {
        let q = choose|q: int|
            0 <= q < specs.len() && #[trigger] called_for(
                specs[q],
                context,
                cells,
                tables[q],
                t,
            );
        assert(specs[q].id == rule.id);
        lemma_same_id(specs, q, s);
        let i = choose|i: int|
            0 <= i < cells.len() && #[trigger] crossed_at(rule, context, cells, tables[s], i, t);
        assert(crossed_at(rule, context, cells, tables[s], i, t));
        if i < j {
            assert(cells[i].node == cells[j].node);
        } else if j < i {
            assert(cells[j].node == cells[i].node);
        }
    }
}

/// What a frame says of an entity that its snapshot does not show: it keeps no
/// state, and it is invalidated exactly where it was active.
pub proof fn lemma_frame_of_missing_entity(
    specs: Seq<crate::trigger::ThresholdView>,
    earlier: Seq<Seq<crate::cube::CellView>>,
    context: FrameContext,
    snapshot: crate::cube::SnapshotView,
    s: int,
    key: Seq<char>,
)
    requires
        crate::trigger::triggers_fault(specs, specs.len() as int) is None,
        shown_once(snapshot.values),
        0 <= s < specs.len(),
        !crate::trigger::observed(
            snapshot.values,
            snapshot.values.len() as int,
            specs[s].node,
            key,
        ),
    ensures
        ({
            let rule = specs[s];
            let tables = reached(specs, earlier);
            let after = reached(specs, earlier.push(snapshot.values));
            let frame = crate::trigger::frame_of(specs, tables, context, snapshot);
            let invalidated = crate::trigger::transition_of(
                rule,
                context,
                key,
                TriggerTransitionKind::Invalidated,
                None,
            );
            &&& crate::table::found(after[s], key) is None
            &&& frame.transitions.contains(invalidated) == crate::trigger::progress_of(
                tables[s],
                key,
            ).active
            &&& forall|t: crate::trigger::TransitionView|
                #![trigger frame.transitions.contains(t)]
                frame.transitions.contains(t) && t.trigger == rule.id && t.key == key ==> t
                    == invalidated
        }),
{
    let rule = specs[s];
    let cells = snapshot.values;
    let tables = reached(specs, earlier);
    let after = reached(specs, earlier.push(cells));
    let frame = crate::trigger::frame_of(specs, tables, context, snapshot);
    let invalidated = crate::trigger::transition_of(
        rule,
        context,
        key,
        TriggerTransitionKind::Invalidated,
        None,
    );
    lemma_frame_transitions(specs, earlier, context, snapshot);
    assert(earlier.push(cells).drop_last() =~= earlier);
    assert(after[s] == crate::trigger::advanced(rule, cells, tables[s]));
    crate::trigger::lemma_states_are_observed(rule, cells, tables[s], key);
    if crate::trigger::progress_of(tables[s], key).active {
        assert(lost(rule, context, cells, tables[s], invalidated));
        assert(called_for(specs[s], context, cells, tables[s], invalidated));
    }
    assert forall|t: crate::trigger::TransitionView|
        #![trigger frame.transitions.contains(t)]
        frame.transitions.contains(t) && t.trigger == rule.id && t.key == key implies t
        == invalidated && crate::trigger::progress_of(tables[s], key).active by {
        let q = choose|q: int|
            0 <= q < specs.len() && #[trigger] called_for(
                specs[q],
                context,
                cells,
                tables[q],
                t,
            );
        assert(specs[q].id == rule.id);
        lemma_same_id(specs, q, s);
        if exists|i: int|
            0 <= i < cells.len() && #[trigger] crossed_at(rule, context, cells, tables[s], i, t) {
            let i = choose|i: int|
                0 <= i < cells.len() && #[trigger] crossed_at(
                    rule,
                    context,
                    cells,
                    tables[s],
                    i,
                    t,
                );
            assert(cells[i].node == rule.node && cells[i].key == key);
        }
    }
}

/// Whether a row is a state of one of the first `n` triggers of an order.
spec fn row_of(
    specs: Seq<crate::trigger::ThresholdView>,
    order: Seq<int>,
    tables: Seq<Seq<(Seq<char>, Progress)>>,
    a: int,
    i: int,
    row: crate::trigger::StateView,
) -> bool {
    &&& 0 <= i < tables[order[a]].len()
    &&& row == crate::trigger::trigger_states(specs[order[a]], tables[order[a]])[i]
}

proof fn lemma_states_from(
    specs: Seq<crate::trigger::ThresholdView>,
    order: Seq<int>,
    tables: Seq<Seq<(Seq<char>, Progress)>>,
    n: int,
    k: int,
) -> (at: (int, int))
    requires
        0 <= n <= order.len(),
        0 <= k < crate::trigger::all_states(specs, order, tables, n).len(),
    ensures
        0 <= at.0 < n,
        row_of(
            specs,
            order,
            tables,
            at.0,
            at.1,
            crate::trigger::all_states(specs, order, tables, n)[k],
        ),
    decreases n,
{
    let before = crate::trigger::all_states(specs, order, tables, n - 1);
    if k < before.len() {
        lemma_states_from(specs, order, tables, n - 1, k)
    } else {
        (n - 1, k - before.len())
    }
}

proof fn lemma_states_to(
    specs: Seq<crate::trigger::ThresholdView>,
    order: Seq<int>,
    tables: Seq<Seq<(Seq<char>, Progress)>>,
    n: int,
    a: int,
    i: int,
) -> (k: int)
    requires
        0 <= a < n <= order.len(),
        0 <= i < tables[order[a]].len(),
    ensures
        0 <= k < crate::trigger::all_states(specs, order, tables, n).len(),
        crate::trigger::all_states(specs, order, tables, n)[k] == crate::trigger::trigger_states(
            specs[order[a]],
            tables[order[a]],
        )[i],
    decreases n,
{
    let before = crate::trigger::all_states(specs, order, tables, n - 1);
    if a < n - 1 {
        lemma_states_to(specs, order, tables, n - 1, a, i)
    } else {
        before.len() + i
    }
}

proof fn lemma_states_ascend(
    specs: Seq<crate::trigger::ThresholdView>,
    tables: Seq<Seq<(Seq<char>, Progress)>>,
    n: int,
)
    requires
        crate::trigger::triggers_fault(specs, specs.len() as int) is None,
        sound_tables(specs, tables),
        0 <= n <= specs.len(),
    ensures
        states_ascend(
            crate::trigger::all_states(specs, crate::trigger::id_order(specs), tables, n),
        ),
    decreases n,
{
    if n > 0 {
        lemma_states_ascend(specs, tables, n - 1);
        let f = crate::trigger::by_id(specs);
        crate::trigger::lemma_by_id(specs);
        crate::order::lemma_arrangement_exists(specs.len(), f);
        let order = crate::trigger::id_order(specs);
        let before = crate::trigger::all_states(specs, order, tables, n - 1);
        let now = crate::trigger::all_states(specs, order, tables, n);
        let x = order[n - 1];
        let last = crate::trigger::trigger_states(specs[x], tables[x]);
        assert(sound_table(specs[x], tables[x]));
        assert forall|a: int, b: int| 0 <= a < b < now.len() implies pair_precedes(
            (#[trigger] now[a]).trigger,
            now[a].key,
            (#[trigger] now[b]).trigger,
            now[b].key,
        ) by {
            if b < before.len() {
                assert(now[a] == before[a] && now[b] == before[b]);
            } else {
                let i = b - before.len();
                assert(now[b] == last[i]);
                if a < before.len() {
                    assert(now[a] == before[a]);
                    let at = lemma_states_from(specs, order, tables, n - 1, a);
                    let y = order[at.0];
                    assert(crate::order::stands(f, order[at.0], order[n - 1]));
                    if specs[y].id == specs[x].id {
                        crate::text::lemma_precedes_irreflexive(specs[y].id);
                        lemma_same_id(specs, y, x);
                    } else {
                        crate::text::lemma_precedes_total(specs[y].id, specs[x].id);
                    }
                } else {
                    let h = a - before.len();
                    assert(now[a] == last[h]);
                    assert(crate::text::precedes(tables[x][h].0, tables[x][i].0));
                }
            }
        }
    }
}

/// The shape of a frame. Its states strictly increase by trigger and entity
/// and hold one row for exactly each entity that the node of a trigger shows,
/// with a count below the persistence of the trigger, which is zero where the
/// row is active. Its transitions strictly increase by trigger and entity, so
/// that there is at most one for each, and bear the generation and the time of
/// the context.
pub proof fn lemma_frame_shape(
    specs: Seq<crate::trigger::ThresholdView>,
    earlier: Seq<Seq<crate::cube::CellView>>,
    context: FrameContext,
    snapshot: crate::cube::SnapshotView,
)
    requires
        crate::trigger::triggers_fault(specs, specs.len() as int) is None,
        shown_once(snapshot.values),
    ensures
        ({
            let frame = crate::trigger::frame_of(
                specs,
                reached(specs, earlier),
                context,
                snapshot,
            );
            &&& states_ascend(frame.states)
            &&& forall|k: int|
                0 <= k < frame.states.len() ==> exists|s: int|
                    0 <= s < specs.len() && states_entity(
                        #[trigger] specs[s],
                        snapshot.values,
                        #[trigger] frame.states[k],
                    )
            &&& forall|s: int, key: Seq<char>|
                0 <= s < specs.len() && #[trigger] crate::trigger::observed(
                    snapshot.values,
                    snapshot.values.len() as int,
                    specs[s].node,
                    key,
                ) ==> holds_row(frame.states, specs[s], key)
            &&& transitions_ascend(frame.transitions)
            &&& forall|k: int|
                0 <= k < frame.transitions.len() ==> {
                    &&& (#[trigger] frame.transitions[k]).generation == context.generation
                    &&& frame.transitions[k].observed_at_ms == context.observed_at_ms
                }
        }),
{
    let tables = reached(specs, earlier);
    let cells = snapshot.values;
    let after = reached(specs, earlier.push(cells));
    let frame = crate::trigger::frame_of(specs, tables, context, snapshot);
    let n = specs.len() as int;
    assert(earlier.push(cells).drop_last() =~= earlier);
    lemma_reached_is_sound(specs, earlier.push(cells));
    lemma_states_ascend(specs, after, n);
    lemma_frame_transitions(specs, earlier, context, snapshot);
    crate::trigger::lemma_by_id(specs);
    crate::order::lemma_arrangement_exists(specs.len(), crate::trigger::by_id(specs));
    let order = crate::trigger::id_order(specs);
    assert forall|k: int| 0 <= k < frame.states.len() implies exists|s: int|
        0 <= s < specs.len() && states_entity(
            #[trigger] specs[s],
            snapshot.values,
            #[trigger] frame.states[k],
        ) by {
        let at = lemma_states_from(specs, order, after, n, k);
        let s = order[at.0];
        assert(sound_table(specs[s], after[s]));
        assert(kept(specs[s], after[s][at.1].1));
        crate::table::lemma_found_at(after[s], at.1);
        crate::trigger::lemma_states_are_observed(
            specs[s],
            cells,
            tables[s],
            after[s][at.1].0,
        );
        assert(states_entity(specs[s], snapshot.values, frame.states[k]));
    }
    assert forall|s: int, key: Seq<char>|
        0 <= s < specs.len() && #[trigger] crate::trigger::observed(
            snapshot.values,
            snapshot.values.len() as int,
            specs[s].node,
            key,
        ) implies holds_row(frame.states, specs[s], key) by {
        crate::trigger::lemma_states_are_observed(specs[s], cells, tables[s], key);
        assert(after[s] == crate::trigger::advanced(specs[s], cells, tables[s]));
        let i = crate::table::lemma_found_where(after[s], key);
        assert(order.contains(s));
        let a = choose|a: int| 0 <= a < order.len() && order[a] == s;
        let k = lemma_states_to(specs, order, after, n, a, i);
        assert(frame.states[k].trigger == specs[s].id);
    }
    assert forall|k: int| 0 <= k < frame.transitions.len() implies {
        &&& (#[trigger] frame.transitions[k]).generation == context.generation
        &&& frame.transitions[k].observed_at_ms == context.observed_at_ms
    } by {
        let t = frame.transitions[k];
        assert(frame.transitions.contains(t));
        let s = choose|s: int|
            0 <= s < specs.len() && #[trigger] called_for(
                specs[s],
                context,
                cells,
                tables[s],
                t,
            );
        assert(called_for(specs[s], context, cells, tables[s], t));
    }
}

/// Whether a row is the state of an entity that the node of a trigger shows,
/// within the bounds of the trigger.
pub open spec fn states_entity(
    rule: crate::trigger::ThresholdView,
    cells: Seq<crate::cube::CellView>,
    row: crate::trigger::StateView,
) -> bool {
    &&& row.trigger == rule.id
    &&& row.node == rule.node
    &&& crate::trigger::observed(cells, cells.len() as int, rule.node, row.key)
    &&& row.qualifying_generations < rule.min_consecutive
    &&& row.active ==> row.qualifying_generations == 0
}

/// Whether some states hold a row for a trigger and an entity.
pub open spec fn holds_row(
    states: Seq<crate::trigger::StateView>,
    rule: crate::trigger::ThresholdView,
    key: Seq<char>,
) -> bool {
    exists|k: int|
        0 <= k < states.len() && (#[trigger] states[k]).trigger == rule.id && states[k].key == key
}

proof fn lemma_column_cell_from(
    id: Seq<char>,
    rows: Seq<crate::cube::RowView>,
    order: Seq<int>,
    column: Seq<Option<crate::evaluate::Slot>>,
    n: int,
    k: int,
) -> (a: int)
    requires
        0 <= n <= order.len(),
        0 <= k < crate::engine::column_cells(id, rows, order, column, n).len(),
    ensures
        0 <= a < n,
        crate::engine::column_cells(id, rows, order, column, n)[k].node == id,
        crate::engine::column_cells(id, rows, order, column, n)[k].key == rows[order[a]].key,
    decreases n,
{
    let before = crate::engine::column_cells(id, rows, order, column, n - 1);
    if k < before.len() {
        lemma_column_cell_from(id, rows, order, column, n - 1, k)
    } else {
        n - 1
    }
}

proof fn lemma_column_once(
    id: Seq<char>,
    rows: Seq<crate::cube::RowView>,
    order: Seq<int>,
    column: Seq<Option<crate::evaluate::Slot>>,
    n: int,
)
    requires
        crate::validation::rows_fault(rows, rows.len() as int) is None,
        crate::evaluate::orders(order, rows.len()),
        0 <= n <= order.len(),
    ensures
        shown_once(crate::engine::column_cells(id, rows, order, column, n)),
    decreases n,
{
    if n > 0 {
        lemma_column_once(id, rows, order, column, n - 1);
        let before = crate::engine::column_cells(id, rows, order, column, n - 1);
        let now = crate::engine::column_cells(id, rows, order, column, n);
        assert forall|i: int, j: int| 0 <= i < j < now.len() implies !((#[trigger] now[i]).node == (
        #[trigger] now[j]).node && now[i].key == now[j].key) by {
            assert(now[i] == before[i]);
            if j < before.len() {
                assert(now[j] == before[j]);
            } else {
                let a = lemma_column_cell_from(id, rows, order, column, n - 1, i);
                let x = order[a];
                let y = order[n - 1];
                assert(x != y);
                if x < y {
                    crate::validation::lemma_sound_rows(rows, rows.len() as int, x, y);
                } else {
                    crate::validation::lemma_sound_rows(rows, rows.len() as int, y, x);
                }
            }
        }
    }
}

proof fn lemma_grid_cell_from(
    rows: Seq<crate::cube::RowView>,
    nodes: Seq<crate::cube::NodeView>,
    grid: Seq<Seq<Option<crate::evaluate::Slot>>>,
    n: int,
    k: int,
) -> (i: int)
    requires
        0 <= n <= nodes.len(),
        0 <= k < crate::engine::grid_cells(rows, nodes, grid, n).len(),
    ensures
        0 <= i < n,
        crate::engine::grid_cells(rows, nodes, grid, n)[k].node == nodes[i].id,
    decreases n,
{
    let before = crate::engine::grid_cells(rows, nodes, grid, n - 1);
    if k < before.len() {
        lemma_grid_cell_from(rows, nodes, grid, n - 1, k)
    } else {
        let order = crate::evaluate::key_order(rows);
        let a = lemma_column_cell_from(
            nodes[n - 1].id,
            rows,
            order,
            grid[n - 1],
            order.len() as int,
            k - before.len(),
        );
        n - 1
    }
}

proof fn lemma_grid_once(
    rows: Seq<crate::cube::RowView>,
    nodes: Seq<crate::cube::NodeView>,
    grid: Seq<Seq<Option<crate::evaluate::Slot>>>,
    n: int,
)
    requires
        crate::validation::rows_fault(rows, rows.len() as int) is None,
        crate::validation::declarations_fault(nodes, nodes.len() as int) is None,
        0 <= n <= nodes.len(),
    ensures
        shown_once(crate::engine::grid_cells(rows, nodes, grid, n)),
    decreases n,
{
    if n > 0 {
        lemma_grid_once(rows, nodes, grid, n - 1);
        let before = crate::engine::grid_cells(rows, nodes, grid, n - 1);
        let last = crate::engine::node_cells(rows, nodes, grid, n - 1);
        let now = crate::engine::grid_cells(rows, nodes, grid, n);
        let order = crate::evaluate::key_order(rows);
        crate::evaluate::lemma_key_order(rows);
        lemma_column_once(nodes[n - 1].id, rows, order, grid[n - 1], order.len() as int);
        assert forall|i: int, j: int| 0 <= i < j < now.len() implies !((#[trigger] now[i]).node == (
        #[trigger] now[j]).node && now[i].key == now[j].key) by {
            if j < before.len() {
                assert(now[i] == before[i] && now[j] == before[j]);
            } else {
                assert(now[j] == last[j - before.len()]);
                if i < before.len() {
                    assert(now[i] == before[i]);
                    let x = lemma_grid_cell_from(rows, nodes, grid, n - 1, i);
                    let a = lemma_column_cell_from(
                        nodes[n - 1].id,
                        rows,
                        order,
                        grid[n - 1],
                        order.len() as int,
                        j - before.len(),
                    );
                    crate::validation::lemma_sound_nodes(nodes, nodes.len() as int, x, n - 1);
                } else {
                    assert(now[i] == last[i - before.len()]);
                }
            }
        }
    }
}

/// The snapshots of an accepted update show every entity at most once for
/// each node, as the laws on frames ask.
pub proof fn lemma_snapshot_shows_once(
    update: crate::cube::UpdateView,
    grid: Seq<Seq<Option<crate::evaluate::Slot>>>,
    snapshot: crate::cube::SnapshotView,
)
    requires
        crate::engine::update_fault(None, update) is None,
        crate::engine::shows(update, grid, snapshot),
    ensures
        shown_once(snapshot.values),
{
    lemma_grid_once(update.rows, update.nodes, grid, update.nodes.len() as int);
}

/// A frame explains itself. It bears the generation of the context and the
/// digest of the snapshot. Each of its transitions names a trigger and the
/// node of that trigger, and says what happened: a cell of that node and
/// entity reached the entry threshold while the entity was inactive, one fell
/// to the exit threshold while it was active, or none is left of an active
/// entity. Each of its states shows how far the entity now is.
pub proof fn lemma_frame_explains_itself(
    processor: &mut crate::trigger::TriggerProcessor,
    context: FrameContext,
    snapshot: &crate::cube::Snapshot,
    frame: crate::trigger::TriggerFrame,
    earlier: Seq<Seq<crate::cube::CellView>>,
)
    requires
        call_ensures(
            crate::trigger::TriggerProcessor::process_snapshot,
            (processor, context, snapshot),
            frame,
        ),
        crate::trigger::triggers_fault(
            old(processor).rules(),
            old(processor).rules().len() as int,
        ) is None,
        old(processor).progress() == reached(old(processor).rules(), earlier),
        shown_once(snapshot@.values),
    ensures
        final(processor).rules() == old(processor).rules(),
        final(processor).progress() == reached(
            old(processor).rules(),
            earlier.push(snapshot@.values),
        ),
        frame.generation == context.generation,
        frame.snapshot@ == crate::digest::digest_of(snapshot@),
        forall|k: int|
            0 <= k < frame.transitions@.len() ==> explained(
                old(processor).rules(),
                old(processor).progress(),
                snapshot@.values,
                #[trigger] frame.transitions@[k],
            ),
        forall|k: int|
            0 <= k < frame.transitions@.len() ==> (#[trigger] frame.transitions@[k]).generation
                == context.generation && frame.transitions@[k].observed_at_ms
                == context.observed_at_ms,
        forall|k: int|
            0 <= k < frame.states@.len() ==> told(
                old(processor).rules(),
                final(processor).progress(),
                #[trigger] frame.states@[k],
            ),
{
    let specs = old(processor).rules();
    let tables = old(processor).progress();
    let cells = snapshot@.values;
    let after = reached(specs, earlier.push(cells));
    let n = specs.len() as int;
    assert(earlier.push(cells).drop_last() =~= earlier);
    lemma_frame_transitions(specs, earlier, context, snapshot@);
    lemma_frame_shape(specs, earlier, context, snapshot@);
    lemma_reached_is_sound(specs, earlier.push(cells));
    let shown = frame@;
    assert forall|k: int| 0 <= k < frame.transitions@.len() implies explained(
        specs,
        tables,
        cells,
        #[trigger] frame.transitions@[k],
    ) by {
        let t = shown.transitions[k];
        assert(t == frame.transitions@[k]@);
        assert(shown.transitions.contains(t));
        let s = choose|s: int|
            0 <= s < specs.len() && #[trigger] called_for(specs[s], context, cells, tables[s], t);
        assert(called_for(specs[s], context, cells, tables[s], t));
        if exists|j: int|
            0 <= j < cells.len() && #[trigger] crossed_at(
                specs[s],
                context,
                cells,
                tables[s],
                j,
                t,
            ) {
            let j = choose|j: int|
                0 <= j < cells.len() && #[trigger] crossed_at(
                    specs[s],
                    context,
                    cells,
                    tables[s],
                    j,
                    t,
                );
            assert(cells[j].node == specs[s].node && cells[j].key == t.key);
        }
        assert(explains(specs[s], tables[s], cells, frame.transitions@[k]));
    }
    assert forall|k: int| 0 <= k < frame.transitions@.len() implies (
    #[trigger] frame.transitions@[k]).generation == context.generation
        && frame.transitions@[k].observed_at_ms == context.observed_at_ms by {
        assert(shown.transitions[k] == frame.transitions@[k]@);
    }
    crate::trigger::lemma_by_id(specs);
    crate::order::lemma_arrangement_exists(specs.len(), crate::trigger::by_id(specs));
    let order = crate::trigger::id_order(specs);
    assert forall|k: int| 0 <= k < frame.states@.len() implies told(
        specs,
        after,
        #[trigger] frame.states@[k],
    ) by {
        assert(shown.states[k] == frame.states@[k]@);
        let at = lemma_states_from(specs, order, after, n, k);
        let s = order[at.0];
        assert(sound_table(specs[s], after[s]));
        crate::table::lemma_found_at(after[s], at.1);
        assert(tells(specs[s], after[s], frame.states@[k]));
    }
}

/// Whether a transition is explained by a trigger, by how far its entities
/// were, and by the cells of a snapshot.
pub open spec fn explains(
    rule: crate::trigger::ThresholdView,
    table: Seq<(Seq<char>, Progress)>,
    cells: Seq<crate::cube::CellView>,
    t: crate::trigger::TriggerTransition,
) -> bool {
    let before = crate::table::found(table, t.key@);
    let was_active = before is Some && before->0.active;
    let count = if before is Some {
        before->0.qualifying_generations as int
    } else {
        0
    };
    &&& t.trigger@ == rule.id
    &&& t.node@ == rule.node
    &&& match t.kind {
        TriggerTransitionKind::Entered => {
            &&& !was_active
            &&& count + 1 >= rule.min_consecutive
            &&& exists|j: int|
                {
                    &&& 0 <= j < cells.len()
                    &&& (#[trigger] cells[j]).node == rule.node
                    &&& cells[j].key == t.key@
                    &&& t.value == Some(cells[j].value)
                    &&& rule.enter_at_or_above.le(cells[j].value)
                }
        },
        TriggerTransitionKind::Exited => {
            &&& was_active
            &&& exists|j: int|
                {
                    &&& 0 <= j < cells.len()
                    &&& (#[trigger] cells[j]).node == rule.node
                    &&& cells[j].key == t.key@
                    &&& t.value == Some(cells[j].value)
                    &&& cells[j].value.le(rule.exit_at_or_below)
                }
        },
        TriggerTransitionKind::Invalidated => {
            &&& was_active
            &&& t.value is None
            &&& forall|j: int|
                0 <= j < cells.len() && (#[trigger] cells[j]).node == rule.node ==> cells[j].key
                    != t.key@
        },
    }
}

/// Whether a transition is explained by one of some triggers.
pub open spec fn explained(
    specs: Seq<crate::trigger::ThresholdView>,
    tables: Seq<Seq<(Seq<char>, Progress)>>,
    cells: Seq<crate::cube::CellView>,
    t: crate::trigger::TriggerTransition,
) -> bool {
    exists|s: int| 0 <= s < specs.len() && #[trigger] explains(specs[s], tables[s], cells, t)
}

/// Whether a state tells how far an entity of one of some triggers is.
pub open spec fn told(
    specs: Seq<crate::trigger::ThresholdView>,
    tables: Seq<Seq<(Seq<char>, Progress)>>,
    row: crate::trigger::TriggerState,
) -> bool {
    exists|s: int| 0 <= s < specs.len() && #[trigger] tells(specs[s], tables[s], row)
}

/// Whether a state tells how far an entity of a trigger is.
pub open spec fn tells(
    rule: crate::trigger::ThresholdView,
    table: Seq<(Seq<char>, Progress)>,
    row: crate::trigger::TriggerState,
) -> bool {
    &&& row.trigger@ == rule.id
    &&& row.node@ == rule.node
    &&& crate::table::found(table, row.key@) is Some
    &&& crate::table::found(table, row.key@)->0.active == row.active
    &&& crate::table::found(table, row.key@)->0.qualifying_generations
        == row.qualifying_generations
}

} // verus!
