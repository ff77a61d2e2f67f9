//! Deterministic synthetic input for examples, integration tests, and demos.

use crate::cube::{ExecutionMode, InputRow, NodeSpec, Transform, Update, WeightedInput};
use crate::number::{Arithmetic, Double, Term, ONE, ZERO};
use crate::random::{XorShift64, TAU};
use crate::text::push_zero_padded;
use vstd::prelude::*;

verus! {

#[derive(Debug)]
struct EntityState {
    key: String,
    level: Double,
    phase: Double,
}

/// One entity of a [`SyntheticInjector`].
#[verifier::ext_equal]
pub struct EntityView {
    /// Entity key.
    pub key: Seq<char>,
    /// Positive simulated state.
    pub level: Double,
    /// Shift of the entity's cycle in radians.
    pub phase: Double,
}

impl View for EntityState {
    type V = EntityView;

    closed spec fn view(&self) -> EntityView {
        EntityView { key: self.key@, level: self.level, phase: self.phase }
    }
}

impl Clone for EntityState {
    fn clone(&self) -> (copy: Self)
        ensures
            copy@ == self@,
    {
        EntityState { key: self.key.clone(), level: self.level, phase: self.phase }
    }
}

/// Produces repeatable, correlated semi-live cross-sections without a data
/// vendor or external service.
#[derive(Debug)]
pub struct SyntheticInjector {
    rng: XorShift64,
    generation: u64,
    entities: Vec<EntityState>,
}

/// What a [`SyntheticInjector`] holds.
#[verifier::ext_equal]
pub struct InjectorView {
    /// State of the generator of noise.
    pub rng: u64,
    /// Generation that was emitted last.
    pub generation: u64,
    /// Entities in layout order.
    pub entities: Seq<EntityView>,
}

impl View for SyntheticInjector {
    type V = InjectorView;

    closed spec fn view(&self) -> InjectorView {
        InjectorView {
            rng: self.rng.state,
            generation: self.generation,
            entities: crate::text::views(self.entities@),
        }
    }
}

impl Clone for SyntheticInjector {
    fn clone(&self) -> (copy: Self)
        ensures
            copy@ == self@,
    {
        let mut entities: Vec<EntityState> = Vec::new();
        let mut i: usize = 0;
        while i < self.entities.len()
            invariant
                0 <= i <= self.entities@.len(),
                entities@.len() == i,
                forall|k: int| 0 <= k < i ==> (#[trigger] entities@[k])@ == self.entities@[k]@,
            decreases self.entities@.len() - i,
        {
            entities.push(self.entities[i].clone());
            i = i + 1;
        }
        let copy = SyntheticInjector { rng: self.rng, generation: self.generation, entities };
        assert(copy@.entities =~= self@.entities);
        copy
    }
}

/// How many entities are simulated where some number was asked for.
pub open spec fn at_least_one(count: nat) -> nat {
    if count == 0 {
        1
    } else {
        count
    }
}

/// The key of an entity by its position.
pub open spec fn entity_key(i: nat) -> Seq<char> {
    "ENTITY-"@ + crate::text::zero_padded(i + 1, 3)
}

/// Whether an entity is the one that a simulation of `count` begins with at a
/// position.
pub open spec fn entity_begins<A: Arithmetic>(math: &A, i: int, count: nat, entity: EntityView) -> bool {
    &&& entity.key == entity_key(i as nat)
    &&& crate::number::computes(
        math,
        crate::number::e_add(
            crate::number::e_lit(0x4054_0000_0000_0000),
            crate::number::e_mul(
                crate::number::Expr::Int(i as u64),
                crate::number::e_lit(0x4004_0000_0000_0000),
            ),
        ),
        entity.level,
    )
    &&& crate::number::computes(
        math,
        crate::number::e_mul(
            crate::number::e_div(
                crate::number::Expr::Int(i as u64),
                crate::number::Expr::Int(count as u64),
            ),
            crate::number::e_lit(TAU),
        ),
        entity.phase,
    )
}

/// Whether a simulation begins in some state.
pub open spec fn injector_begins<A: Arithmetic>(
    math: &A,
    entity_count: nat,
    seed: u64,
    a: InjectorView,
) -> bool {
    &&& a.rng == crate::random::seeded(seed)
    &&& a.generation == 0
    &&& a.entities.len() == at_least_one(entity_count)
    &&& forall|i: int|
        0 <= i < a.entities.len() ==> #[trigger] entity_begins(
            math,
            i,
            a.entities.len(),
            a.entities[i],
        )
}

/// The angle of a generation in the common cycle.
pub open spec fn cycle(generation: u64) -> crate::number::Expr {
    crate::number::e_mul(
        crate::number::Expr::Int(generation),
        crate::number::e_lit(0x3fb7_0a3d_70a3_d70a),
    )
}

/// The change that all entities share in a generation.
pub open spec fn common_change(generation: u64) -> crate::number::Expr {
    crate::number::e_mul(
        crate::number::e_sin(cycle(generation)),
        crate::number::e_lit(0x3f68_9374_bc6a_7efa),
    )
}

/// The change of one entity in a generation.
pub open spec fn entity_change(generation: u64, phase: Double, draw: u64) -> crate::number::Expr {
    crate::number::e_add(
        crate::number::e_add(
            common_change(generation),
            crate::number::e_mul(
                crate::number::e_sin(
                    crate::number::e_add(cycle(generation), crate::number::Expr::Lit(phase)),
                ),
                crate::number::e_lit(0x3f60_624d_d2f1_a9fc),
            ),
        ),
        crate::number::e_mul(
            crate::random::symmetric(draw),
            crate::number::e_lit(0x3f58_9374_bc6a_7efa),
        ),
    )
}

/// The level of one entity after a generation.
pub open spec fn next_level(
    generation: u64,
    entity: EntityView,
    draw: u64,
) -> crate::number::Expr {
    crate::number::e_floor(
        crate::number::e_mul(
            crate::number::Expr::Lit(entity.level),
            crate::number::e_add(
                crate::number::e_lit(ONE),
                entity_change(generation, entity.phase, draw),
            ),
        ),
        Double { bits: ONE },
    )
}

/// One number over another, less one.
pub open spec fn relative_change(after: Double, before: Double) -> crate::number::Expr {
    crate::number::e_sub(
        crate::number::e_div(crate::number::Expr::Lit(after), crate::number::Expr::Lit(before)),
        crate::number::e_lit(ONE),
    )
}

/// The activity of one entity in a generation.
pub open spec fn activity(generation: u64, phase: Double, draw: u64) -> crate::number::Expr {
    crate::number::e_floor(
        crate::number::e_add(
            crate::number::e_add(
                crate::number::e_lit(0x4049_0000_0000_0000),
                crate::number::e_mul(
                    crate::number::e_lit(0x403e_0000_0000_0000),
                    crate::number::e_cos(
                        crate::number::e_add(
                            crate::number::e_mul(
                                cycle(generation),
                                crate::number::e_lit(0x3fe6_6666_6666_6666),
                            ),
                            crate::number::Expr::Lit(phase),
                        ),
                    ),
                ),
            ),
            crate::number::e_mul(
                crate::random::symmetric(draw),
                crate::number::e_lit(0x4020_0000_0000_0000),
            ),
        ),
        Double { bits: ZERO },
    )
}

/// The distance of one entity's change from the common one, in basis points.
pub open spec fn dispersion(generation: u64, phase: Double, draw: u64) -> crate::number::Expr {
    crate::number::e_mul(
        crate::number::e_abs(
            crate::number::e_sub(
                entity_change(generation, phase, draw),
                common_change(generation),
            ),
        ),
        crate::number::e_lit(0x40c3_8800_0000_0000),
    )
}

/// The fields of one synthetic row.
pub struct SyntheticFields {
    /// Level after the step.
    pub level: Double,
    /// One-step arithmetic return.
    pub change: Double,
    /// Periodic intensity.
    pub activity: Double,
    /// Distance from the common change.
    pub dispersion: Double,
}

impl SyntheticFields {
    /// The fields by name.
    pub open spec fn table(self) -> Seq<(Seq<char>, Double)> {
        let f = Seq::<(Seq<char>, Double)>::empty();
        let f = crate::table::entered(f, "level"@, self.level);
        let f = crate::table::entered(f, "change"@, self.change);
        let f = crate::table::entered(f, "activity"@, self.activity);
        crate::table::entered(f, "dispersion"@, self.dispersion)
    }
}

/// Whether an entity goes from one state to another in a generation, and an
/// arithmetic can give the fields of its row.
pub open spec fn entity_steps<A: Arithmetic>(
    math: &A,
    generation: u64,
    rng: u64,
    k: int,
    before: EntityView,
    after: EntityView,
    fields: SyntheticFields,
) -> bool {
    let first = crate::random::drawn(rng, (2 * k + 1) as nat);
    let second = crate::random::drawn(rng, (2 * k + 2) as nat);
    &&& after == (EntityView { level: fields.level, ..before })
    &&& crate::number::computes(math, next_level(generation, before, first), fields.level)
    &&& crate::number::computes(math, relative_change(fields.level, before.level), fields.change)
    &&& crate::number::computes(math, activity(generation, before.phase, second), fields.activity)
    &&& crate::number::computes(math, dispersion(generation, before.phase, first), fields.dispersion)
}

/// Whether an entity goes from one state to another in a generation, and a row
/// is the one that this step gives.
pub open spec fn entity_row<A: Arithmetic>(
    math: &A,
    generation: u64,
    rng: u64,
    k: int,
    before: EntityView,
    after: EntityView,
    observed_at_ms: i64,
    row: crate::cube::RowView,
) -> bool {
    exists|fields: SyntheticFields|
        {
            &&& #[trigger] entity_steps(math, generation, rng, k, before, after, fields)
            &&& row == (crate::cube::RowView {
                key: before.key,
                observed_at_ms,
                fields: fields.table(),
            })
        }
}

/// Whether a simulation goes from one state to another and emits some rows.
pub open spec fn injector_steps<A: Arithmetic>(
    math: &A,
    a: InjectorView,
    observed_at_ms: i64,
    b: InjectorView,
    rows: Seq<crate::cube::RowView>,
) -> bool {
    &&& b.generation == a.generation + 1
    &&& b.rng == crate::random::drawn(a.rng, 2 * a.entities.len())
    &&& b.entities.len() == a.entities.len()
    &&& rows.len() == a.entities.len()
    &&& forall|k: int|
        0 <= k < rows.len() ==> entity_row(
            math,
            b.generation,
            a.rng,
            k,
            a.entities[k],
            b.entities[k],
            observed_at_ms,
            #[trigger] rows[k],
        )
}

impl EntityState {
    /// Take one step in a generation and report it as a row.
    fn step<A: Arithmetic>(
        &self,
        math: &A,
        rng: &mut XorShift64,
        generation: u64,
        observed_at_ms: i64,
        Ghost(start): Ghost<u64>,
        Ghost(k): Ghost<int>,
    ) -> (r: (EntityState, InputRow))
        requires
            k >= 0,
            old(rng).state == crate::random::drawn(start, (2 * k) as nat),
        ensures
            final(rng).state == crate::random::drawn(start, (2 * k + 2) as nat),
            entity_row(math, generation, start, k, self@, r.0@, observed_at_ms, r.1@),
    {
        let phase = Term::literal(math, self.phase);
        let angle = Term::integer(math, generation).times(
            math,
            Term::constant(math, 0x3fb7_0a3d_70a3_d70a),
        );
        let common = angle.sine(math).times(math, Term::constant(math, 0x3f68_9374_bc6a_7efa));
        let noise = rng.symmetric(math);
        let ghost first = crate::random::drawn(start, (2 * k + 1) as nat);
        let change = common.plus(
            math,
            angle.plus(math, phase).sine(math).times(
                math,
                Term::constant(math, 0x3f60_624d_d2f1_a9fc),
            ),
        ).plus(math, noise.times(math, Term::constant(math, 0x3f58_9374_bc6a_7efa)));
        assert(change.expr@ == entity_change(generation, self.phase, first));
        let level = Term::literal(math, self.level).times(
            math,
            Term::constant(math, ONE).plus(math, change),
        ).at_least(math, Double { bits: ONE });
        let swing = angle.times(math, Term::constant(math, 0x3fe6_6666_6666_6666)).plus(
            math,
            phase,
        ).cosine(math);
        let intensity = Term::constant(math, 0x4049_0000_0000_0000).plus(
            math,
            Term::constant(math, 0x403e_0000_0000_0000).times(math, swing),
        ).plus(
            math,
            rng.symmetric(math).times(math, Term::constant(math, 0x4020_0000_0000_0000)),
        ).at_least(math, Double { bits: ZERO });
        let spread = change.minus(math, common).absolute(math).times(
            math,
            Term::constant(math, 0x40c3_8800_0000_0000),
        );
        let moved = Term::literal(math, level.value).over(
            math,
            Term::literal(math, self.level),
        ).minus(math, Term::constant(math, ONE));
        let row = InputRow::new(self.key.as_str(), observed_at_ms).with_field(
            "level",
            level.value,
        ).with_field("change", moved.value).with_field("activity", intensity.value).with_field(
            "dispersion",
            spread.value,
        );
        let after = EntityState { key: self.key.clone(), level: level.value, phase: self.phase };
        proof {
            let fields = SyntheticFields {
                level: level.value,
                change: moved.value,
                activity: intensity.value,
                dispersion: spread.value,
            };
            let second = crate::random::drawn(start, (2 * k + 2) as nat);
            assert(intensity.expr@ == activity(generation, self.phase, second));
            assert(entity_steps(math, generation, start, k, self@, after@, fields));
            assert(row@.fields == fields.table());
        }
        (after, row)
    }
}

impl SyntheticInjector {
    /// Create at least one synthetic entity with a repeatable random seed.
    pub fn new<A: Arithmetic>(math: &A, entity_count: usize, seed: u64) -> (injector: Self)
        ensures
            injector_begins(math, entity_count as nat, seed, injector@),
    {
        let count: usize = if entity_count == 0 {
            1
        } else {
            entity_count
        };
        let mut entities: Vec<EntityState> = Vec::new();
        let mut i: usize = 0;
        while i < count
            invariant
                0 <= i <= count,
                entities@.len() == i,
                forall|k: int|
                    0 <= k < i ==> entity_begins(
                        math,
                        k,
                        count as nat,
                        (#[trigger] entities@[k])@,
                    ),
            decreases count - i,
        {
            let mut key: String = "ENTITY-".to_owned();
            push_zero_padded(&mut key, i as u64 + 1, 3);
            let index = Term::integer(math, i as u64);
            let level = Term::constant(math, 0x4054_0000_0000_0000).plus(
                math,
                index.times(math, Term::constant(math, 0x4004_0000_0000_0000)),
            );
            let phase = index.over(math, Term::integer(math, count as u64)).times(
                math,
                Term::constant(math, TAU),
            );
            entities.push(EntityState { key, level: level.value, phase: phase.value });
            i = i + 1;
        }
        SyntheticInjector { rng: XorShift64::new(seed), generation: 0, entities }
    }

    /// Return the most recently emitted generation, or zero before first use.
    pub fn generation(&self) -> (generation: u64)
        ensures
            generation == self@.generation,
    {
        self.generation
    }

    /// Return stable entity keys in layout order.
    pub fn entity_keys(&self) -> (keys: Vec<String>)
        ensures
            keys@.len() == self@.entities.len(),
            forall|k: int|
                0 <= k < keys@.len() ==> (#[trigger] keys@[k])@ == self@.entities[k].key,
    {
        let mut keys: Vec<String> = Vec::new();
        let mut i: usize = 0;
        while i < self.entities.len()
            invariant
                0 <= i <= self.entities@.len(),
                keys@.len() == i,
                forall|k: int|
                    0 <= k < i ==> (#[trigger] keys@[k])@ == self@.entities[k].key,
            decreases self.entities@.len() - i,
        {
            keys.push(self.entities[i].key.clone());
            assert(self@.entities[i as int] == self.entities@[i as int]@);
            i = i + 1;
        }
        keys
    }

    /// Advance the generator and build one live [`Update`].
    pub fn next_update<A: Arithmetic>(
        &mut self,
        math: &A,
        observed_at_ms: i64,
        nodes: Vec<NodeSpec>,
    ) -> (update: Update)
        requires
            old(self)@.generation < u64::MAX,
        ensures
            injector_steps(math, old(self)@, observed_at_ms, final(self)@, update@.rows),
            update@.generation == final(self)@.generation,
            update@.observed_at_ms == observed_at_ms,
            update@.mode == ExecutionMode::Live,
            update@.nodes == crate::text::views(nodes@),
    {
        let ghost a = self@;
        let generation: u64 = self.generation + 1;
        let mut rng: XorShift64 = self.rng;
        let ghost start = rng.state;
        let mut entities: Vec<EntityState> = Vec::new();
        let mut rows: Vec<InputRow> = Vec::new();
        let mut i: usize = 0;
        while i < self.entities.len()
            invariant
                a == self@,
                start == a.rng,
                0 <= i <= self.entities@.len(),
                entities@.len() == i,
                rows@.len() == i,
                rng.state == crate::random::drawn(start, 2 * i as nat),
                forall|k: int|
                    0 <= k < i ==> entity_row(
                        math,
                        generation,
                        start,
                        k,
                        a.entities[k],
                        entities@[k]@,
                        observed_at_ms,
                        (#[trigger] rows@[k])@,
                    ),
            decreases self.entities@.len() - i,
        {
            let (entity, row) = self.entities[i].step(
                math,
                &mut rng,
                generation,
                observed_at_ms,
                Ghost(start),
                Ghost(i as int),
            );
            assert(a.entities[i as int] == self.entities@[i as int]@);
            entities.push(entity);
            rows.push(row);
            i = i + 1;
        }
        self.entities = entities;
        self.rng = rng;
        self.generation = generation;
        let update = Update {
            generation,
            observed_at_ms,
            mode: ExecutionMode::Live,
            rows,
            nodes,
        };
        proof {
            let b = self@;
            assert forall|k: int| 0 <= k < update@.rows.len() implies entity_row(
                math,
                generation,
                start,
                k,
                a.entities[k],
                b.entities[k],
                observed_at_ms,
                #[trigger] update@.rows[k],
            ) by {
                assert(update@.rows[k] == rows@[k]@);
                assert(b.entities[k] == self.entities@[k]@);
            }
        }
        update
    }
}

/// The graph of the domain-neutral demonstration.
pub open spec fn demo_graph() -> Seq<crate::cube::NodeView> {
    seq![
        crate::cube::NodeView {
            id: "level"@,
            transform: Transform::Identity,
            kind: crate::cube::KindView::Field { field: "level"@ },
        },
        crate::cube::NodeView {
            id: "change"@,
            transform: Transform::RankZScore,
            kind: crate::cube::KindView::Field { field: "change"@ },
        },
        crate::cube::NodeView {
            id: "activity"@,
            transform: Transform::ZScore,
            kind: crate::cube::KindView::Field { field: "activity"@ },
        },
        crate::cube::NodeView {
            id: "dispersion"@,
            transform: Transform::Percentile,
            kind: crate::cube::KindView::Field { field: "dispersion"@ },
        },
        crate::cube::NodeView {
            id: "signal"@,
            transform: Transform::ZScore,
            kind: crate::cube::KindView::Linear {
                inputs: seq![
                    crate::cube::EdgeView {
                        node: "change"@,
                        weight: Double { bits: 0x3fe4_cccc_cccc_cccd },
                        required: true,
                    },
                    crate::cube::EdgeView {
                        node: "activity"@,
                        weight: Double { bits: 0x3fd0_0000_0000_0000 },
                        required: true,
                    },
                    crate::cube::EdgeView {
                        node: "dispersion"@,
                        weight: Double { bits: 0xbfb9_9999_9999_999a },
                        required: true,
                    },
                ],
                normalize_weights: true,
            },
        },
    ]
}

/// A small domain-neutral graph retained for tests and API experimentation.
///
/// `level` is a positive simulated state, `change` is its one-step arithmetic
/// return, `activity` is a non-negative periodic intensity, and `dispersion`
/// is the absolute distance from that generation's common change in basis
/// points. Financial examples should prefer
/// [`crate::market::market_demo_nodes`].
pub fn demo_nodes() -> (nodes: Vec<NodeSpec>)
    ensures
        crate::text::views(nodes@) == demo_graph(),
{
    let inputs: Vec<WeightedInput> = vec![
        WeightedInput::required("change", Double { bits: 0x3fe4_cccc_cccc_cccd }),
        WeightedInput::required("activity", Double { bits: 0x3fd0_0000_0000_0000 }),
        WeightedInput::required("dispersion", Double { bits: 0xbfb9_9999_9999_999a }),
    ];
    let ghost edges = crate::text::views(inputs@);
    let nodes: Vec<NodeSpec> = vec![
        NodeSpec::field("level", "level", Transform::Identity),
        NodeSpec::field("change", "change", Transform::RankZScore),
        NodeSpec::field("activity", "activity", Transform::ZScore),
        NodeSpec::field("dispersion", "dispersion", Transform::Percentile),
        NodeSpec::linear("signal", inputs, true, Transform::ZScore),
    ];
    assert(edges =~= demo_graph()[4].edges());
    assert(crate::text::views(nodes@) =~= demo_graph());
    nodes
}

/// The keys of a simulation are all different.
pub proof fn lemma_keys_differ<A: Arithmetic>(
    math: &A,
    entity_count: nat,
    seed: u64,
    a: InjectorView,
    i: int,
    j: int,
)
    requires
        injector_begins(math, entity_count, seed, a),
        0 <= i < a.entities.len(),
        0 <= j < a.entities.len(),
        i != j,
    ensures
        a.entities[i].key != a.entities[j].key,
{
    assert(entity_begins(math, i, a.entities.len(), a.entities[i]));
    assert(entity_begins(math, j, a.entities.len(), a.entities[j]));
    if a.entities[i].key == a.entities[j].key {
        let m = crate::text::zero_padded((i + 1) as nat, 3);
        let n = crate::text::zero_padded((j + 1) as nat, 3);
        assert(m =~= entity_key(i as nat).skip("ENTITY-"@.len() as int));
        assert(n =~= entity_key(j as nat).skip("ENTITY-"@.len() as int));
        crate::text::lemma_zero_padded_injective((i + 1) as nat, (j + 1) as nat, 3);
    }
}

/// With an arithmetic that gives one result per operation, the same seed gives
/// the same simulation.
pub proof fn lemma_injector_begins_alike<A: Arithmetic>(
    math: &A,
    entity_count: nat,
    seed: u64,
    a: InjectorView,
    b: InjectorView,
)
    requires
        crate::number::deterministic(math),
        injector_begins(math, entity_count, seed, a),
        injector_begins(math, entity_count, seed, b),
    ensures
        a == b,
{
    let count = a.entities.len();
    assert forall|i: int| 0 <= i < count implies a.entities[i] == b.entities[i] by {
        assert(entity_begins(math, i, count, a.entities[i]));
        assert(entity_begins(math, i, count, b.entities[i]));
        crate::number::lemma_computes_unique(
            math,
            crate::number::e_add(
                crate::number::e_lit(0x4054_0000_0000_0000),
                crate::number::e_mul(
                    crate::number::Expr::Int(i as u64),
                    crate::number::e_lit(0x4004_0000_0000_0000),
                ),
            ),
            a.entities[i].level,
            b.entities[i].level,
        );
        crate::number::lemma_computes_unique(
            math,
            crate::number::e_mul(
                crate::number::e_div(
                    crate::number::Expr::Int(i as u64),
                    crate::number::Expr::Int(count as u64),
                ),
                crate::number::e_lit(TAU),
            ),
            a.entities[i].phase,
            b.entities[i].phase,
        );
    }
    assert(a.entities =~= b.entities);
}

proof fn lemma_entity_row_unique<A: Arithmetic>(
    math: &A,
    generation: u64,
    rng: u64,
    k: int,
    before: EntityView,
    x: EntityView,
    y: EntityView,
    observed_at_ms: i64,
    p: crate::cube::RowView,
    q: crate::cube::RowView,
)
    requires
        crate::number::deterministic(math),
        entity_row(math, generation, rng, k, before, x, observed_at_ms, p),
        entity_row(math, generation, rng, k, before, y, observed_at_ms, q),
    ensures
        x == y,
        p == q,
{
    let m = choose|m: SyntheticFields|
        {
            &&& #[trigger] entity_steps(math, generation, rng, k, before, x, m)
            &&& p == (crate::cube::RowView { key: before.key, observed_at_ms, fields: m.table() })
        };
    let n = choose|n: SyntheticFields|
        {
            &&& #[trigger] entity_steps(math, generation, rng, k, before, y, n)
            &&& q == (crate::cube::RowView { key: before.key, observed_at_ms, fields: n.table() })
        };
    let first = crate::random::drawn(rng, (2 * k + 1) as nat);
    let second = crate::random::drawn(rng, (2 * k + 2) as nat);
    crate::number::lemma_computes_unique(
        math,
        next_level(generation, before, first),
        m.level,
        n.level,
    );
    crate::number::lemma_computes_unique(
        math,
        relative_change(m.level, before.level),
        m.change,
        n.change,
    );
    crate::number::lemma_computes_unique(
        math,
        activity(generation, before.phase, second),
        m.activity,
        n.activity,
    );
    crate::number::lemma_computes_unique(
        math,
        dispersion(generation, before.phase, first),
        m.dispersion,
        n.dispersion,
    );
}

/// With an arithmetic that gives one result per operation, one state of a
/// simulation gives one next state and one set of rows.
pub proof fn lemma_injector_is_repeatable<A: Arithmetic>(
    math: &A,
    a: InjectorView,
    observed_at_ms: i64,
    b: InjectorView,
    rows: Seq<crate::cube::RowView>,
    c: InjectorView,
    again: Seq<crate::cube::RowView>,
)
    requires
        crate::number::deterministic(math),
        injector_steps(math, a, observed_at_ms, b, rows),
        injector_steps(math, a, observed_at_ms, c, again),
    ensures
        b == c,
        rows == again,
{
    assert forall|k: int|
        #![trigger b.entities[k]]
        #![trigger rows[k]]
        0 <= k < rows.len() implies b.entities[k] == c.entities[k] && rows[k] == again[k] by {
        lemma_entity_row_unique(
            math,
            b.generation,
            a.rng,
            k,
            a.entities[k],
            b.entities[k],
            c.entities[k],
            observed_at_ms,
            rows[k],
            again[k],
        );
    }
    assert(b.entities =~= c.entities);
    assert(rows =~= again);
}

/// The numbers of the simulation: the levels that it starts with, its cycles
/// and its noise.
pub proof fn lemma_simulation_constants()
    ensures
        crate::reading::exact(Double { bits: 0x4054_0000_0000_0000 }) == 80 as real,
        crate::reading::exact(Double { bits: 0x4049_0000_0000_0000 }) == 50 as real,
        crate::reading::exact(Double { bits: 0x403e_0000_0000_0000 }) == 30 as real,
        crate::reading::exact(Double { bits: 0x4020_0000_0000_0000 }) == 8 as real,
        crate::reading::exact(Double { bits: 0x40c3_8800_0000_0000 }) == 10000 as real,
        crate::reading::nearly(0x4004_0000_0000_0000, 25, 10),
        crate::reading::nearly(0x3fb7_0a3d_70a3_d70a, 9, 100),
        crate::reading::nearly(0x3f68_9374_bc6a_7efa, 3, 1000),
        crate::reading::nearly(0x3f60_624d_d2f1_a9fc, 2, 1000),
        crate::reading::nearly(0x3f58_9374_bc6a_7efa, 15, 10000),
        crate::reading::nearly(0x3fe6_6666_6666_6666, 7, 10),
{
    vstd::arithmetic::power2::lemma2_to64();
    vstd::arithmetic::power2::lemma2_to64_rest();
    crate::reading::lemma_whole(0x4054_0000_0000_0000, 46, 0x4000_0000_0000, 80);
    crate::reading::lemma_whole(0x4049_0000_0000_0000, 47, 0x8000_0000_0000, 50);
    crate::reading::lemma_whole(0x403e_0000_0000_0000, 48, 0x1_0000_0000_0000, 30);
    crate::reading::lemma_whole(0x4020_0000_0000_0000, 49, 0x2_0000_0000_0000, 8);
    crate::reading::lemma_whole(0x40c3_8800_0000_0000, 39, 0x80_0000_0000, 10000);
    crate::reading::lemma_nearly(0x4004_0000_0000_0000, 51, 0x8_0000_0000_0000, 25, 10);
    crate::reading::lemma_nearly(0x3fb7_0a3d_70a3_d70a, 56, 0x100_0000_0000_0000, 9, 100);
    crate::reading::lemma_nearly(0x3f68_9374_bc6a_7efa, 61, 0x2000_0000_0000_0000, 3, 1000);
    crate::reading::lemma_nearly(0x3f60_624d_d2f1_a9fc, 61, 0x2000_0000_0000_0000, 2, 1000);
    crate::reading::lemma_nearly(0x3f58_9374_bc6a_7efa, 62, 0x4000_0000_0000_0000, 15, 10000);
    crate::reading::lemma_nearly(0x3fe6_6666_6666_6666, 53, 0x20_0000_0000_0000, 7, 10);
}

proof fn lemma_synthetic_table(m: SyntheticFields)
    ensures
        crate::table::found(m.table(), "level"@) == Some(m.level),
        crate::table::found(m.table(), "change"@) == Some(m.change),
        crate::table::found(m.table(), "activity"@) == Some(m.activity),
        crate::table::found(m.table(), "dispersion"@) == Some(m.dispersion),
{
    reveal_strlit("level");
    reveal_strlit("change");
    reveal_strlit("activity");
    reveal_strlit("dispersion");
    assert("level"@.len() != "change"@.len());
    assert("level"@.len() != "activity"@.len());
    assert("level"@.len() != "dispersion"@.len());
    assert("change"@.len() != "activity"@.len());
    assert("change"@.len() != "dispersion"@.len());
    assert("activity"@.len() != "dispersion"@.len());
    let t0 = Seq::<(Seq<char>, Double)>::empty();
    let t1 = crate::table::entered(t0, "level"@, m.level);
    let t2 = crate::table::entered(t1, "change"@, m.change);
    let t3 = crate::table::entered(t2, "activity"@, m.activity);
    let t4 = crate::table::entered(t3, "dispersion"@, m.dispersion);
    crate::table::lemma_entered(t0, "level"@, m.level, "level"@);
    crate::table::lemma_entered(t1, "change"@, m.change, "level"@);
    crate::table::lemma_entered(t1, "change"@, m.change, "change"@);
    crate::table::lemma_entered(t2, "activity"@, m.activity, "level"@);
    crate::table::lemma_entered(t2, "activity"@, m.activity, "change"@);
    crate::table::lemma_entered(t2, "activity"@, m.activity, "activity"@);
    crate::table::lemma_entered(t3, "dispersion"@, m.dispersion, "level"@);
    crate::table::lemma_entered(t3, "dispersion"@, m.dispersion, "change"@);
    crate::table::lemma_entered(t3, "dispersion"@, m.dispersion, "activity"@);
    crate::table::lemma_entered(t3, "dispersion"@, m.dispersion, "dispersion"@);
}

proof fn lemma_entity_row_fields<A: Arithmetic>(
    math: &A,
    a: InjectorView,
    observed_at_ms: i64,
    b: InjectorView,
    rows: Seq<crate::cube::RowView>,
    k: int,
) -> (m: SyntheticFields)
    requires
        injector_steps(math, a, observed_at_ms, b, rows),
        0 <= k < rows.len(),
    ensures
        entity_steps(math, b.generation, a.rng, k, a.entities[k], b.entities[k], m),
        rows[k].key == a.entities[k].key,
        rows[k].observed_at_ms == observed_at_ms,
        rows[k].fields == m.table(),
{
    assert(entity_row(
        math,
        b.generation,
        a.rng,
        k,
        a.entities[k],
        b.entities[k],
        observed_at_ms,
        rows[k],
    ));
    choose|m: SyntheticFields|
        {
            &&& #[trigger] entity_steps(
                math,
                b.generation,
                a.rng,
                k,
                a.entities[k],
                b.entities[k],
                m,
            )
            &&& rows[k] == (crate::cube::RowView {
                key: a.entities[k].key,
                observed_at_ms,
                fields: m.table(),
            })
        }
}

proof fn lemma_change_reading(
    f: crate::reading::Functions,
    generation: u64,
    phase: Double,
    draw: u64,
)
    ensures
        ({
            let c = |bits: u64| crate::reading::exact(Double { bits });
            let angle = (generation as int as real) * c(0x3fb7_0a3d_70a3_d70a);
            let common = (f.sin)(angle) * c(0x3f68_9374_bc6a_7efa);
            &&& crate::reading::reading(f, cycle(generation)) == angle
            &&& crate::reading::reading(f, common_change(generation)) == common
            &&& crate::reading::reading(f, entity_change(generation, phase, draw)) == common + (
            f.sin)(angle + crate::reading::exact(phase)) * c(0x3f60_624d_d2f1_a9fc)
                + crate::reading::reading(f, crate::random::symmetric(draw)) * c(
                0x3f58_9374_bc6a_7efa,
            )
        }),
{
    let c = |bits: u64| crate::reading::exact(Double { bits });
    assert(crate::reading::reading(f, cycle(generation)) == (generation as int as real) * c(
        0x3fb7_0a3d_70a3_d70a,
    )) by {
        reveal_with_fuel(crate::reading::reading, 2);
    }
    let wave = crate::number::e_sin(cycle(generation));
    assert(crate::reading::reading(f, wave) == (f.sin)(
        crate::reading::reading(f, cycle(generation)),
    ));
    assert(crate::reading::reading(f, crate::number::e_lit(0x3f68_9374_bc6a_7efa)) == c(
        0x3f68_9374_bc6a_7efa,
    ));
    assert(crate::reading::reading(f, common_change(generation)) == crate::reading::reading(f, wave)
        * c(0x3f68_9374_bc6a_7efa));
    let shifted = crate::number::e_add(cycle(generation), crate::number::Expr::Lit(phase));
    assert(crate::reading::reading(f, crate::number::Expr::Lit(phase)) == crate::reading::exact(
        phase,
    ));
    assert(crate::reading::reading(f, shifted) == crate::reading::reading(f, cycle(generation))
        + crate::reading::exact(phase));
    let own = crate::number::e_sin(shifted);
    assert(crate::reading::reading(f, own) == (f.sin)(crate::reading::reading(f, shifted)));
    assert(crate::reading::reading(f, crate::number::e_lit(0x3f60_624d_d2f1_a9fc)) == c(
        0x3f60_624d_d2f1_a9fc,
    ));
    let part = crate::number::e_mul(own, crate::number::e_lit(0x3f60_624d_d2f1_a9fc));
    assert(crate::reading::reading(f, part) == crate::reading::reading(f, own) * c(
        0x3f60_624d_d2f1_a9fc,
    ));
    assert(crate::reading::reading(f, crate::number::e_lit(0x3f58_9374_bc6a_7efa)) == c(
        0x3f58_9374_bc6a_7efa,
    ));
    let noise = crate::number::e_mul(
        crate::random::symmetric(draw),
        crate::number::e_lit(0x3f58_9374_bc6a_7efa),
    );
    assert(crate::reading::reading(f, noise) == crate::reading::reading(
        f,
        crate::random::symmetric(draw),
    ) * c(0x3f58_9374_bc6a_7efa));
    let both = crate::number::e_add(common_change(generation), part);
    assert(crate::reading::reading(f, both) == crate::reading::reading(f, common_change(generation))
        + crate::reading::reading(f, part));
    assert(entity_change(generation, phase, draw) == crate::number::e_add(both, noise));
}

/// A synthetic update shows where each entity went. The level in a row is the
/// one that the simulation keeps; it comes to the level before, times one and
/// the entity's change, and to one at least. One more than the shown change,
/// times the level before, comes to the level. The activity swings around
/// fifty and is never below zero. The dispersion is the distance of the
/// entity's change from the common one, in ten thousandths.
pub proof fn lemma_synthetic_rows_mean<A: Arithmetic>(
    math: &A,
    f: crate::reading::Functions,
    injector: &mut SyntheticInjector,
    observed_at_ms: i64,
    nodes: Vec<NodeSpec>,
    update: Update,
    k: int,
)
    requires
        call_ensures(
            SyntheticInjector::next_update::<A>,
            (injector, math, observed_at_ms, nodes),
            update,
        ),
        0 <= k < old(injector)@.entities.len(),
    ensures
        update.rows@.len() == old(injector)@.entities.len(),
        update.generation == old(injector)@.generation + 1,
        update.observed_at_ms == observed_at_ms,
        update.mode == ExecutionMode::Live,
        crate::text::views(update.nodes@) == crate::text::views(nodes@),
        final(injector)@.generation == update.generation,
        final(injector)@.entities.len() == old(injector)@.entities.len(),
        ({
            let a = old(injector)@;
            let was = a.entities[k];
            let now = final(injector)@.entities[k];
            let row = update.rows@[k];
            let shown = |name: Seq<char>| crate::table::found(row.fields@, name);
            let first = crate::random::drawn(a.rng, (2 * k + 1) as nat);
            let second = crate::random::drawn(a.rng, (2 * k + 2) as nat);
            let reads = |e: crate::number::Expr| crate::reading::reading(f, e);
            let x = |d: Double| crate::reading::exact(d);
            let c = |bits: u64| crate::reading::exact(Double { bits });
            let angle = (update.generation as int as real) * c(0x3fb7_0a3d_70a3_d70a);
            let common = (f.sin)(angle) * c(0x3f68_9374_bc6a_7efa);
            let change = common + (f.sin)(angle + x(was.phase)) * c(0x3f60_624d_d2f1_a9fc) + reads(
                crate::random::symmetric(first),
            ) * c(0x3f58_9374_bc6a_7efa);
            let e_level = next_level(update.generation, was, first);
            let e_change = relative_change(now.level, was.level);
            let e_activity = activity(update.generation, was.phase, second);
            let e_dispersion = dispersion(update.generation, was.phase, first);
            &&& row.key@ == was.key
            &&& row.observed_at_ms == observed_at_ms
            &&& now.key == was.key
            &&& now.phase == was.phase
            &&& shown("level"@) == Some(now.level)
            &&& crate::number::computes(math, e_level, now.level)
            &&& reads(e_level) == crate::reading::larger(
                x(was.level) * (1 as real + change),
                1 as real,
            )
            &&& shown("change"@) is Some
            &&& crate::number::computes(math, e_change, shown("change"@)->0)
            &&& x(was.level) != 0 as real ==> (reads(e_change) + 1 as real) * x(was.level) == x(
                now.level,
            )
            &&& shown("activity"@) is Some
            &&& crate::number::computes(math, e_activity, shown("activity"@)->0)
            &&& reads(e_activity) == crate::reading::larger(
                50 as real + 30 as real * (f.cos)(angle * c(0x3fe6_6666_6666_6666) + x(was.phase))
                    + reads(crate::random::symmetric(second)) * 8 as real,
                0 as real,
            )
            &&& shown("dispersion"@) is Some
            &&& crate::number::computes(math, e_dispersion, shown("dispersion"@)->0)
            &&& reads(e_dispersion) == crate::reading::distance(change - common) * 10_000 as real
        }),
{
    let a = old(injector)@;
    let b = final(injector)@;
    let rows = update@.rows;
    let m = lemma_entity_row_fields(math, a, observed_at_ms, b, rows, k);
    let was = a.entities[k];
    let now = b.entities[k];
    assert(rows[k] == update.rows@[k]@);
    lemma_synthetic_table(m);
    lemma_simulation_constants();
    crate::reading::lemma_constants();
    let g = update.generation;
    let first = crate::random::drawn(a.rng, (2 * k + 1) as nat);
    let second = crate::random::drawn(a.rng, (2 * k + 2) as nat);
    lemma_change_reading(f, g, was.phase, first);
    let moved = entity_change(g, was.phase, first);
    let grown = crate::number::e_add(crate::number::e_lit(ONE), moved);
    assert(crate::reading::reading(f, crate::number::e_lit(ONE)) == 1 as real);
    assert(crate::reading::reading(f, grown) == 1 as real + crate::reading::reading(f, moved));
    let scaled = crate::number::e_mul(crate::number::Expr::Lit(was.level), grown);
    assert(crate::reading::reading(f, crate::number::Expr::Lit(was.level)) == crate::reading::exact(
        was.level,
    ));
    assert(crate::reading::reading(f, scaled) == crate::reading::exact(was.level)
        * crate::reading::reading(f, grown));
    assert(next_level(g, was, first) == crate::number::e_floor(scaled, Double { bits: ONE }));
    assert(crate::reading::reading(f, crate::number::Expr::Lit(Double { bits: ONE })) == 1 as real);
    if crate::reading::exact(was.level) != 0 as real {
        let change = relative_change(now.level, was.level);
        assert(crate::reading::reading(f, change) == crate::reading::exact(now.level)
            / crate::reading::exact(was.level) - 1 as real) by {
            reveal_with_fuel(crate::reading::reading, 3);
        }
        crate::reading::lemma_quotient(
            crate::reading::exact(now.level),
            crate::reading::exact(was.level),
        );
    }
    let slow = crate::number::e_mul(cycle(g), crate::number::e_lit(0x3fe6_6666_6666_6666));
    assert(crate::reading::reading(f, crate::number::e_lit(0x3fe6_6666_6666_6666))
        == crate::reading::exact(Double { bits: 0x3fe6_6666_6666_6666 }));
    assert(crate::reading::reading(f, slow) == crate::reading::reading(f, cycle(g))
        * crate::reading::exact(Double { bits: 0x3fe6_6666_6666_6666 }));
    let angle = crate::number::e_add(slow, crate::number::Expr::Lit(was.phase));
    assert(crate::reading::reading(f, crate::number::Expr::Lit(was.phase)) == crate::reading::exact(
        was.phase,
    ));
    assert(crate::reading::reading(f, angle) == crate::reading::reading(f, slow)
        + crate::reading::exact(was.phase));
    let swing = crate::number::e_cos(angle);
    assert(crate::reading::reading(f, swing) == (f.cos)(crate::reading::reading(f, angle)));
    let wave = crate::number::e_mul(crate::number::e_lit(0x403e_0000_0000_0000), swing);
    assert(crate::reading::reading(f, crate::number::e_lit(0x403e_0000_0000_0000)) == 30 as real);
    assert(crate::reading::reading(f, wave) == 30 as real * crate::reading::reading(f, swing));
    let middle = crate::number::e_add(crate::number::e_lit(0x4049_0000_0000_0000), wave);
    assert(crate::reading::reading(f, crate::number::e_lit(0x4049_0000_0000_0000)) == 50 as real);
    assert(crate::reading::reading(f, middle) == 50 as real + crate::reading::reading(f, wave));
    let noise = crate::number::e_mul(
        crate::random::symmetric(second),
        crate::number::e_lit(0x4020_0000_0000_0000),
    );
    assert(crate::reading::reading(f, crate::number::e_lit(0x4020_0000_0000_0000)) == 8 as real);
    assert(crate::reading::reading(f, noise) == crate::reading::reading(
        f,
        crate::random::symmetric(second),
    ) * 8 as real);
    let busy = crate::number::e_add(middle, noise);
    assert(crate::reading::reading(f, busy) == crate::reading::reading(f, middle)
        + crate::reading::reading(f, noise));
    assert(activity(g, was.phase, second) == crate::number::e_floor(busy, Double { bits: ZERO }));
    assert(crate::reading::reading(f, crate::number::Expr::Lit(Double { bits: ZERO }))
        == 0 as real);
    let apart = crate::number::e_sub(moved, common_change(g));
    assert(crate::reading::reading(f, apart) == crate::reading::reading(f, moved)
        - crate::reading::reading(f, common_change(g)));
    let size = crate::number::e_abs(apart);
    assert(crate::reading::reading(f, size) == crate::reading::distance(
        crate::reading::reading(f, apart),
    ));
    assert(crate::reading::reading(f, crate::number::e_lit(0x40c3_8800_0000_0000))
        == 10_000 as real);
    assert(dispersion(g, was.phase, first) == crate::number::e_mul(
        size,
        crate::number::e_lit(0x40c3_8800_0000_0000),
    ));
}

/// A simulation begins with its entities in a row: levels that start at eighty
/// and rise by two and a half, and phases that go once around.
pub proof fn lemma_simulation_begins_in_a_row<A: Arithmetic>(
    math: &A,
    f: crate::reading::Functions,
    entity_count: usize,
    seed: u64,
    injector: SyntheticInjector,
    i: int,
)
    requires
        call_ensures(SyntheticInjector::new::<A>, (math, entity_count, seed), injector),
        0 <= i < injector@.entities.len(),
    ensures
        injector@.generation == 0,
        injector@.rng == crate::random::seeded(seed),
        injector@.entities.len() == if entity_count == 0 {
            1
        } else {
            entity_count as nat
        },
        injector@.entities[i].key == "ENTITY-"@ + crate::text::zero_padded((i + 1) as nat, 3),
        ({
            let n = injector@.entities.len();
            let e_level = crate::number::e_add(
                crate::number::e_lit(0x4054_0000_0000_0000),
                crate::number::e_mul(
                    crate::number::Expr::Int(i as u64),
                    crate::number::e_lit(0x4004_0000_0000_0000),
                ),
            );
            let e_phase = crate::number::e_mul(
                crate::number::e_div(
                    crate::number::Expr::Int(i as u64),
                    crate::number::Expr::Int(n as u64),
                ),
                crate::number::e_lit(TAU),
            );
            &&& crate::number::computes(math, e_level, injector@.entities[i].level)
            &&& 2 as real * crate::reading::reading(f, e_level) == 160 as real + 5 as real * (
            i as real)
            &&& crate::number::computes(math, e_phase, injector@.entities[i].phase)
            &&& crate::reading::reading(f, e_phase) * (n as real) == (i as real)
                * crate::reading::exact(Double { bits: TAU })
        }),
{
    lemma_simulation_constants();
    vstd::arithmetic::power2::lemma2_to64_rest();
    let n = injector@.entities.len();
    assert(entity_begins(math, i, n, injector@.entities[i]));
    crate::reading::lemma_literal(0x4004_0000_0000_0000, 51);
    let step = crate::reading::exact(Double { bits: 0x4004_0000_0000_0000 });
    let s = 0x8_0000_0000_0000 as real;
    assert(2 as real * step == 5 as real) by (nonlinear_arith)
        requires
            step * s == 0x14_0000_0000_0000 as real,
            s == 0x8_0000_0000_0000 as real,
    ;
    let k = i as real;
    let turn = crate::reading::exact(Double { bits: TAU });
    let m = n as real;
    let q = k / m;
    crate::reading::lemma_quotient(k, m);
    reveal_with_fuel(crate::reading::reading, 3);
    assert(2 as real * (k * step) == 5 as real * k) by (nonlinear_arith)
        requires
            2 as real * step == 5 as real,
    ;
    assert((q * turn) * m == k * turn) by (nonlinear_arith)
        requires
            q * m == k,
    ;
}

/// An update is of the next generation, live, and of the time that it was
/// asked for, over the nodes that it was given; it has a row for every entity,
/// in their order and of that time, and the entities stay.
pub proof fn lemma_updates_follow_each_other<A: Arithmetic>(
    injector: &mut SyntheticInjector,
    math: &A,
    observed_at_ms: i64,
    nodes: Vec<NodeSpec>,
    update: Update,
    before: Vec<String>,
    after: Vec<String>,
    generation: u64,
)
    requires
        old(injector)@.generation < u64::MAX,
        call_ensures(SyntheticInjector::entity_keys, (&*old(injector),), before),
        call_ensures(SyntheticInjector::generation, (&*old(injector),), generation),
        call_ensures(
            SyntheticInjector::next_update::<A>,
            (injector, math, observed_at_ms, nodes),
            update,
        ),
        call_ensures(SyntheticInjector::entity_keys, (&*final(injector),), after),
    ensures
        update.generation == generation + 1,
        update.observed_at_ms == observed_at_ms,
        update.mode == ExecutionMode::Live,
        crate::text::views(update.nodes@) == crate::text::views(nodes@),
        update.rows@.len() == before@.len(),
        after@.len() == before@.len(),
        forall|k: int|
            0 <= k < before@.len() ==> {
                &&& (#[trigger] update.rows@[k]).key@ == before@[k]@
                &&& update.rows@[k].observed_at_ms == observed_at_ms
                &&& after@[k]@ == before@[k]@
            },
{
    let rows = update@.rows;
    assert forall|k: int| 0 <= k < before@.len() implies ({
        &&& (#[trigger] update.rows@[k]).key@ == before@[k]@
        &&& update.rows@[k].observed_at_ms == observed_at_ms
        &&& after@[k]@ == before@[k]@
    }) by {
        assert(rows[k] == update.rows@[k]@);
    }
}

/// The signal of the demonstration weighs the ranked change with 0.65, the
/// activity with 0.25 and the dispersion with -0.1, all of which it needs, over
/// nodes that read the fields of a simulation, and divides by the weights.
pub proof fn lemma_demo_signal_weighs_change(nodes: Vec<NodeSpec>)
    requires
        call_ensures(demo_nodes, (), nodes),
    ensures
        ({
            let graph = crate::text::views(nodes@);
            &&& graph.len() == 5
            &&& graph[0].kind == crate::cube::KindView::Field { field: "level"@ }
            &&& graph[1].kind == crate::cube::KindView::Field { field: "change"@ }
            &&& graph[2].kind == crate::cube::KindView::Field { field: "activity"@ }
            &&& graph[3].kind == crate::cube::KindView::Field { field: "dispersion"@ }
            &&& graph[0].transform == Transform::Identity
            &&& graph[1].transform == Transform::RankZScore
            &&& graph[2].transform == Transform::ZScore
            &&& graph[3].transform == Transform::Percentile
            &&& graph[4].transform == Transform::ZScore
            &&& graph[4].kind matches crate::cube::KindView::Linear { inputs, normalize_weights }
            &&& normalize_weights
            &&& inputs.len() == 3
            &&& inputs[0].node == graph[1].id && inputs[0].required
            &&& inputs[1].node == graph[2].id && inputs[1].required
            &&& inputs[2].node == graph[3].id && inputs[2].required
            &&& crate::reading::nearly(inputs[0].weight.bits, 65, 100)
            &&& crate::reading::nearly(inputs[1].weight.bits, 1, 4)
            &&& inputs[2].weight.negative()
            &&& crate::reading::nearly(inputs[2].weight.abs().bits, 1, 10)
        }),
{
    vstd::arithmetic::power2::lemma2_to64();
    vstd::arithmetic::power2::lemma2_to64_rest();
    crate::reading::lemma_nearly(0x3fe4_cccc_cccc_cccd, 53, 0x20_0000_0000_0000, 65, 100);
    crate::reading::lemma_nearly(0x3fd0_0000_0000_0000, 54, 0x40_0000_0000_0000, 1, 4);
    crate::reading::lemma_nearly(0x3fb9_9999_9999_999a, 56, 0x100_0000_0000_0000, 1, 10);
    let graph = crate::text::views(nodes@);
    assert(graph == demo_graph());
    assert(graph[4] == demo_graph()[4]);
}

} // verus!
