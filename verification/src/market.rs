//! A synthetic market of correlated mean-reverting prices.

use crate::cube::{copied_rows, ExecutionMode, InputRow, NodeSpec, Transform, Update, WeightedInput};
use crate::number::{Arithmetic, Double, Term, ONE, ZERO};
use crate::random::XorShift64;
use crate::text::push_zero_padded;
use vstd::prelude::*;

verus! {

#[derive(Debug)]
struct OuEntityState {
    key: String,
    anchor_log_price: Double,
    previous_price: Double,
    idiosyncratic_state: Double,
    market_beta: Double,
    sector_beta: Double,
    sector: usize,
    dollar_volume_base: Double,
}

/// One symbol of an [`OuMarketInjector`].
#[verifier::ext_equal]
pub struct SymbolState {
    /// Stable fake symbol.
    pub key: Seq<char>,
    /// Logarithm of the price around which the symbol moves.
    pub anchor_log_price: Double,
    /// Price of the last frame.
    pub previous_price: Double,
    /// The symbol's own state.
    pub idiosyncratic_state: Double,
    /// Weight of the market state.
    pub market_beta: Double,
    /// Weight of the sector state.
    pub sector_beta: Double,
    /// Sector of the symbol.
    pub sector: int,
    /// Base of the traded volume.
    pub dollar_volume_base: Double,
}

impl View for OuEntityState {
    type V = SymbolState;

    closed spec fn view(&self) -> SymbolState {
        SymbolState {
            key: self.key@,
            anchor_log_price: self.anchor_log_price,
            previous_price: self.previous_price,
            idiosyncratic_state: self.idiosyncratic_state,
            market_beta: self.market_beta,
            sector_beta: self.sector_beta,
            sector: self.sector as int,
            dollar_volume_base: self.dollar_volume_base,
        }
    }
}

impl Clone for OuEntityState {
    fn clone(&self) -> (copy: Self)
        ensures
            copy@ == self@,
    {
        OuEntityState {
            key: self.key.clone(),
            anchor_log_price: self.anchor_log_price,
            previous_price: self.previous_price,
            idiosyncratic_state: self.idiosyncratic_state,
            market_beta: self.market_beta,
            sector_beta: self.sector_beta,
            sector: self.sector,
            dollar_volume_base: self.dollar_volume_base,
        }
    }
}

/// One deterministic synthetic market frame produced by [`OuMarketInjector`].
///
/// Rows contain `price`, `return`, `cumulative_return`, `dollar_volume`,
/// `log_dollar_volume`, `model_residual`, factor betas, and `sector` fields.
/// Callers can add application-specific fields before converting the frame
/// into an [`Update`].
#[derive(Debug, PartialEq)]
pub struct OuMarketFrame {
    /// Strictly increasing synthetic generation.
    pub generation: u64,
    /// Observation time supplied by the caller.
    pub observed_at_ms: i64,
    /// Stable fake symbols and their primitive market fields.
    pub rows: Vec<InputRow>,
}

impl Clone for OuMarketFrame {
    fn clone(&self) -> (copy: Self)
        ensures
            copy.generation == self.generation,
            copy.observed_at_ms == self.observed_at_ms,
            crate::text::views(copy.rows@) == crate::text::views(self.rows@),
    {
        OuMarketFrame {
            generation: self.generation,
            observed_at_ms: self.observed_at_ms,
            rows: copied_rows(&self.rows),
        }
    }
}

impl OuMarketFrame {
    /// Convert the market frame into a live engine update.
    pub fn into_update(self, nodes: Vec<NodeSpec>) -> (update: Update)
        ensures
            update@ == (crate::cube::UpdateView {
                generation: self.generation,
                observed_at_ms: self.observed_at_ms,
                mode: ExecutionMode::Live,
                rows: crate::text::views(self.rows@),
                nodes: crate::text::views(nodes@),
            }),
    {
        Update {
            generation: self.generation,
            observed_at_ms: self.observed_at_ms,
            mode: ExecutionMode::Live,
            rows: self.rows,
            nodes,
        }
    }
}

/// Generates correlated mean-reverting log prices for financial examples.
///
/// The model is compact but financially recognizable. A shared
/// market state, one sector state, and one idiosyncratic state per symbol each
/// follow a discrete Ornstein--Uhlenbeck process. Entity log prices are a
/// weighted sum of those states around a stable anchor. The same seed always
/// produces the same frames.
#[derive(Debug)]
pub struct OuMarketInjector {
    rng: XorShift64,
    generation: u64,
    market_state: Double,
    sector_states: Vec<Double>,
    entities: Vec<OuEntityState>,
}

/// What an [`OuMarketInjector`] holds.
#[verifier::ext_equal]
pub struct MarketView {
    /// State of the generator of noise.
    pub rng: u64,
    /// Generation that was emitted last.
    pub generation: u64,
    /// State that all symbols share.
    pub market_state: Double,
    /// State of each sector.
    pub sector_states: Seq<Double>,
    /// Symbols in layout order.
    pub entities: Seq<SymbolState>,
}

impl View for OuMarketInjector {
    type V = MarketView;

    closed spec fn view(&self) -> MarketView {
        MarketView {
            rng: self.rng.state,
            generation: self.generation,
            market_state: self.market_state,
            sector_states: self.sector_states@,
            entities: crate::text::views(self.entities@),
        }
    }
}

impl MarketView {
    /// What holds of every market: there are four sectors, and each symbol is
    /// in one of them.
    pub open spec fn sound(self) -> bool {
        &&& self.sector_states.len() == 4
        &&& self.entities.len() >= 1
        &&& forall|k: int|
            0 <= k < self.entities.len() ==> 0 <= (#[trigger] self.entities[k]).sector < 4
    }
}

/// A fake symbol by its position.
pub open spec fn symbol_name(i: nat) -> Seq<char> {
    "SIM"@ + crate::text::zero_padded(i + 1, 4)
}

/// A base plus a multiple of a number.
pub open spec fn graded(base: u64, n: nat, step: u64) -> crate::number::Expr {
    crate::number::e_add(
        crate::number::e_lit(base),
        crate::number::e_mul(crate::number::Expr::Int(n as u64), crate::number::e_lit(step)),
    )
}

/// The logarithm of the anchor price of a symbol.
pub open spec fn anchor(i: nat, draw: u64) -> crate::number::Expr {
    crate::number::e_ln(
        crate::number::e_floor(
            crate::number::e_add(
                graded(0x4041_8000_0000_0000, i, 0x3fd7_ae14_7ae1_47ae),
                crate::number::e_mul(
                    crate::random::symmetric(draw),
                    crate::number::e_lit(0x4010_0000_0000_0000),
                ),
            ),
            Double { bits: 0x4014_0000_0000_0000 },
        ),
    )
}

/// Whether a symbol is the one that a market begins with at a position.
pub open spec fn symbol_begins<A: Arithmetic>(math: &A, i: int, seed: u64, symbol: SymbolState) -> bool {
    let draw = crate::random::drawn(crate::random::seeded(seed), (i + 1) as nat);
    let n = i as nat;
    &&& symbol.key == symbol_name(n)
    &&& crate::number::computes(math, anchor(n, draw), symbol.anchor_log_price)
    &&& crate::number::computes(
        math,
        crate::number::e_exp(crate::number::Expr::Lit(symbol.anchor_log_price)),
        symbol.previous_price,
    )
    &&& symbol.idiosyncratic_state == Double { bits: ZERO }
    &&& crate::number::computes(
        math,
        graded(0x3fe8_0000_0000_0000, n % 11, 0x3fac_28f5_c28f_5c29),
        symbol.market_beta,
    )
    &&& crate::number::computes(
        math,
        graded(0x3fe4_cccc_cccc_cccd, n % 7, 0x3fb1_eb85_1eb8_51ec),
        symbol.sector_beta,
    )
    &&& symbol.sector == i % 4
    &&& crate::number::computes(
        math,
        graded(0x411e_8480_0000_0000, n % 23, 0x40f5_f900_0000_0000),
        symbol.dollar_volume_base,
    )
}

/// Whether a market begins in some state.
pub open spec fn market_begins<A: Arithmetic>(
    math: &A,
    entity_count: nat,
    seed: u64,
    a: MarketView,
) -> bool {
    &&& a.generation == 0
    &&& a.market_state == Double { bits: ZERO }
    &&& a.sector_states == seq![
        Double { bits: ZERO },
        Double { bits: ZERO },
        Double { bits: ZERO },
        Double { bits: ZERO },
    ]
    &&& a.entities.len() == crate::synthetic::at_least_one(entity_count)
    &&& a.rng == crate::random::drawn(crate::random::seeded(seed), a.entities.len())
    &&& forall|i: int|
        0 <= i < a.entities.len() ==> symbol_begins(math, i, seed, #[trigger] a.entities[i])
}

/// One trading day as a part of a year.
pub open spec fn day() -> crate::number::Expr {
    crate::number::e_div(crate::number::e_lit(ONE), crate::number::e_lit(0x406f_8000_0000_0000))
}

/// A state after one day: drawn back toward zero, and shaken.
pub open spec fn reverted(
    state: Double,
    pull: u64,
    volatility: u64,
    noise: crate::number::Expr,
) -> crate::number::Expr {
    crate::number::e_add(
        crate::number::Expr::Lit(state),
        crate::number::e_add(
            crate::number::e_mul(
                crate::number::e_mul(
                    crate::number::e_lit(pull),
                    crate::number::e_neg(crate::number::Expr::Lit(state)),
                ),
                day(),
            ),
            crate::number::e_mul(
                crate::number::e_mul(
                    crate::number::e_lit(volatility),
                    crate::number::e_sqrt(day()),
                ),
                noise,
            ),
        ),
    )
}

/// The market state after one day.
pub open spec fn next_market(a: MarketView) -> crate::number::Expr {
    reverted(
        a.market_state,
        0x3ff9_9999_9999_999a,
        0x3fbe_b851_eb85_1eb8,
        crate::random::normal_after(a.rng, 0),
    )
}

/// The state of a sector after one day.
pub open spec fn next_sector(a: MarketView, s: int) -> crate::number::Expr {
    reverted(
        a.sector_states[s],
        0x4003_3333_3333_3333,
        0x3fc4_7ae1_47ae_147b,
        crate::random::normal_after(a.rng, (2 + 2 * s) as nat),
    )
}

/// The own state of a symbol after one day.
pub open spec fn next_own(a: MarketView, k: int) -> crate::number::Expr {
    reverted(
        a.entities[k].idiosyncratic_state,
        0x4010_0000_0000_0000,
        0x3fcc_28f5_c28f_5c29,
        crate::random::normal_after(a.rng, (10 + 4 * k) as nat),
    )
}

/// What moves a symbol besides its own state.
pub struct Factors {
    /// Market state after the day.
    pub market: Double,
    /// Change of the market state.
    pub market_move: crate::number::Expr,
    /// State of the symbol's sector after the day.
    pub sector: Double,
    /// Change of that state.
    pub sector_move: crate::number::Expr,
}

/// The change of a state.
pub open spec fn moved(after: Double, before: Double) -> crate::number::Expr {
    crate::number::e_sub(crate::number::Expr::Lit(after), crate::number::Expr::Lit(before))
}

/// What moves a symbol of a sector between two states of a market.
pub open spec fn factors(a: MarketView, b: MarketView, sector: int) -> Factors {
    Factors {
        market: b.market_state,
        market_move: moved(b.market_state, a.market_state),
        sector: b.sector_states[sector],
        sector_move: moved(b.sector_states[sector], a.sector_states[sector]),
    }
}

/// The price of a symbol.
pub open spec fn price(symbol: SymbolState, own: Double, f: Factors) -> crate::number::Expr {
    crate::number::e_floor(
        crate::number::e_exp(
            crate::number::e_add(
                crate::number::e_add(
                    crate::number::e_add(
                        crate::number::Expr::Lit(symbol.anchor_log_price),
                        crate::number::e_mul(
                            crate::number::Expr::Lit(symbol.market_beta),
                            crate::number::Expr::Lit(f.market),
                        ),
                    ),
                    crate::number::e_mul(
                        crate::number::Expr::Lit(symbol.sector_beta),
                        crate::number::Expr::Lit(f.sector),
                    ),
                ),
                crate::number::Expr::Lit(own),
            ),
        ),
        Double { bits: 0x3f84_7ae1_47ae_147b },
    )
}

/// The return of a symbol since its anchor price.
pub open spec fn cumulative_return(symbol: SymbolState, price: Double) -> crate::number::Expr {
    crate::number::e_sub(
        crate::number::e_div(
            crate::number::Expr::Lit(price),
            crate::number::e_exp(crate::number::Expr::Lit(symbol.anchor_log_price)),
        ),
        crate::number::e_lit(ONE),
    )
}

/// The return that the factors do not account for.
pub open spec fn residual(symbol: SymbolState, price: Double, f: Factors) -> crate::number::Expr {
    crate::number::e_sub(
        crate::synthetic::relative_change(price, symbol.previous_price),
        crate::number::e_add(
            crate::number::e_mul(crate::number::Expr::Lit(symbol.market_beta), f.market_move),
            crate::number::e_mul(crate::number::Expr::Lit(symbol.sector_beta), f.sector_move),
        ),
    )
}

/// The traded volume of a symbol.
pub open spec fn dollar_volume(
    symbol: SymbolState,
    price: Double,
    noise: crate::number::Expr,
) -> crate::number::Expr {
    crate::number::e_mul(
        crate::number::e_mul(
            crate::number::Expr::Lit(symbol.dollar_volume_base),
            crate::number::e_exp(
                crate::number::e_mul(crate::number::e_lit(0x3fd6_6666_6666_6666), noise),
            ),
        ),
        crate::number::e_add(
            crate::number::e_lit(ONE),
            crate::number::e_mul(
                crate::number::e_lit(0x4032_0000_0000_0000),
                crate::number::e_abs(
                    crate::synthetic::relative_change(price, symbol.previous_price),
                ),
            ),
        ),
    )
}

/// The computed fields of one market row.
pub struct MarketFields {
    /// Price.
    pub price: Double,
    /// Return since the last frame.
    pub tick_return: Double,
    /// Return since the anchor price.
    pub cumulative_return: Double,
    /// Traded volume.
    pub dollar_volume: Double,
    /// Logarithm of the traded volume.
    pub log_dollar_volume: Double,
    /// Return that the factors do not account for.
    pub model_residual: Double,
    /// Sector as a number.
    pub sector: Double,
}

impl MarketFields {
    /// The fields of a symbol's row by name.
    pub open spec fn table(self, symbol: SymbolState) -> Seq<(Seq<char>, Double)> {
        let f = Seq::<(Seq<char>, Double)>::empty();
        let f = crate::table::entered(f, "price"@, self.price);
        let f = crate::table::entered(f, "return"@, self.tick_return);
        let f = crate::table::entered(f, "cumulative_return"@, self.cumulative_return);
        let f = crate::table::entered(f, "dollar_volume"@, self.dollar_volume);
        let f = crate::table::entered(f, "log_dollar_volume"@, self.log_dollar_volume);
        let f = crate::table::entered(f, "model_residual"@, self.model_residual);
        let f = crate::table::entered(f, "market_beta"@, symbol.market_beta);
        let f = crate::table::entered(f, "sector_beta"@, symbol.sector_beta);
        crate::table::entered(f, "sector"@, self.sector)
    }
}

/// Whether a symbol goes from one state to another, and an arithmetic can give
/// the fields of its row.
pub open spec fn symbol_steps<A: Arithmetic>(
    math: &A,
    before: SymbolState,
    own: crate::number::Expr,
    noise: crate::number::Expr,
    f: Factors,
    after: SymbolState,
    fields: MarketFields,
) -> bool {
    &&& after == (SymbolState {
        idiosyncratic_state: after.idiosyncratic_state,
        previous_price: fields.price,
        ..before
    })
    &&& crate::number::computes(math, own, after.idiosyncratic_state)
    &&& crate::number::computes(math, price(before, after.idiosyncratic_state, f), fields.price)
    &&& crate::number::computes(
        math,
        crate::synthetic::relative_change(fields.price, before.previous_price),
        fields.tick_return,
    )
    &&& crate::number::computes(
        math,
        cumulative_return(before, fields.price),
        fields.cumulative_return,
    )
    &&& crate::number::computes(
        math,
        dollar_volume(before, fields.price, noise),
        fields.dollar_volume,
    )
    &&& crate::number::computes(
        math,
        crate::number::e_ln(dollar_volume(before, fields.price, noise)),
        fields.log_dollar_volume,
    )
    &&& crate::number::computes(math, residual(before, fields.price, f), fields.model_residual)
    &&& crate::number::computes(
        math,
        crate::number::Expr::Int(before.sector as u64),
        fields.sector,
    )
}

/// Whether a symbol goes from one state to another, and a row is the one that
/// this step gives.
pub open spec fn symbol_row<A: Arithmetic>(
    math: &A,
    before: SymbolState,
    own: crate::number::Expr,
    noise: crate::number::Expr,
    f: Factors,
    after: SymbolState,
    observed_at_ms: i64,
    row: crate::cube::RowView,
) -> bool {
    exists|fields: MarketFields|
        {
            &&& #[trigger] symbol_steps(math, before, own, noise, f, after, fields)
            &&& row == (crate::cube::RowView {
                key: before.key,
                observed_at_ms,
                fields: fields.table(before),
            })
        }
}

/// Whether a market goes from one state to another and emits some rows.
pub open spec fn market_steps<A: Arithmetic>(
    math: &A,
    a: MarketView,
    observed_at_ms: i64,
    b: MarketView,
    rows: Seq<crate::cube::RowView>,
) -> bool {
    &&& b.generation == a.generation + 1
    &&& b.rng == crate::random::drawn(a.rng, 10 + 4 * a.entities.len())
    &&& crate::number::computes(math, next_market(a), b.market_state)
    &&& b.sector_states.len() == a.sector_states.len()
    &&& forall|s: int|
        0 <= s < a.sector_states.len() ==> crate::number::computes(
            math,
            next_sector(a, s),
            #[trigger] b.sector_states[s],
        )
    &&& b.entities.len() == a.entities.len()
    &&& rows.len() == a.entities.len()
    &&& forall|k: int|
        0 <= k < rows.len() ==> symbol_row(
            math,
            a.entities[k],
            next_own(a, k),
            crate::random::normal_after(a.rng, (12 + 4 * k) as nat),
            factors(a, b, a.entities[k].sector),
            b.entities[k],
            observed_at_ms,
            #[trigger] rows[k],
        )
}

fn graded_term<A: Arithmetic>(math: &A, base: u64, n: usize, step: u64) -> (term: Term)
    ensures
        term.holds(math),
        term.expr@ == graded(base, n as nat, step),
{
    Term::constant(math, base).plus(
        math,
        Term::integer(math, n as u64).times(math, Term::constant(math, step)),
    )
}

fn reverted_term<A: Arithmetic>(
    math: &A,
    state: Double,
    pull: u64,
    volatility: u64,
    rng: &mut XorShift64,
) -> (term: Term)
    ensures
        term.holds(math),
        term.expr@ == reverted(
            state,
            pull,
            volatility,
            crate::random::normal_after(old(rng).state, 0),
        ),
        final(rng).state == crate::random::drawn(old(rng).state, 2),
{
    let dt = Term::constant(math, ONE).over(math, Term::constant(math, 0x406f_8000_0000_0000));
    let before = Term::literal(math, state);
    let drift = Term::constant(math, pull).times(math, before.negated(math)).times(math, dt);
    let shake = Term::constant(math, volatility).times(math, dt.root(math)).times(
        math,
        rng.normal(math),
    );
    before.plus(math, drift.plus(math, shake))
}

/// What moves a symbol besides its own state, as computed.
struct FactorTerms {
    market: Double,
    market_move: Term,
    sector: Double,
    sector_move: Term,
}

impl FactorTerms {
    spec fn factors(self) -> Factors {
        Factors {
            market: self.market,
            market_move: self.market_move.expr@,
            sector: self.sector,
            sector_move: self.sector_move.expr@,
        }
    }
}

impl OuEntityState {
    /// Create the symbol at a position.
    fn begin<A: Arithmetic>(math: &A, i: usize, rng: &mut XorShift64, Ghost(seed): Ghost<u64>) -> (e:
        Self)
        requires
            i < usize::MAX,
            old(rng).state == crate::random::drawn(crate::random::seeded(seed), i as nat),
        ensures
            final(rng).state == crate::random::drawn(crate::random::seeded(seed), (i + 1) as nat),
            symbol_begins(math, i as int, seed, e@),
    {
        let anchor_price = graded_term(math, 0x4041_8000_0000_0000, i, 0x3fd7_ae14_7ae1_47ae).plus(
            math,
            rng.symmetric(math).times(math, Term::constant(math, 0x4010_0000_0000_0000)),
        );
        let anchor_log_price = anchor_price.at_least(
            math,
            Double { bits: 0x4014_0000_0000_0000 },
        ).logarithm(math);
        let previous_price = Term::literal(math, anchor_log_price.value).exponential(math);
        let mut key: String = "SIM".to_owned();
        push_zero_padded(&mut key, i as u64 + 1, 4);
        let market_beta = graded_term(math, 0x3fe8_0000_0000_0000, i % 11, 0x3fac_28f5_c28f_5c29);
        let sector_beta = graded_term(math, 0x3fe4_cccc_cccc_cccd, i % 7, 0x3fb1_eb85_1eb8_51ec);
        let dollar_volume_base = graded_term(
            math,
            0x411e_8480_0000_0000,
            i % 23,
            0x40f5_f900_0000_0000,
        );
        OuEntityState {
            key,
            anchor_log_price: anchor_log_price.value,
            previous_price: previous_price.value,
            idiosyncratic_state: Double { bits: ZERO },
            market_beta: market_beta.value,
            sector_beta: sector_beta.value,
            sector: i % 4,
            dollar_volume_base: dollar_volume_base.value,
        }
    }

    /// Take one step of a day and report it as a row.
    fn step<A: Arithmetic>(
        &self,
        math: &A,
        rng: &mut XorShift64,
        f: &FactorTerms,
        observed_at_ms: i64,
    ) -> (r: (OuEntityState, InputRow))
        requires
            f.market_move.holds(math),
            f.sector_move.holds(math),
        ensures
            final(rng).state == crate::random::drawn(old(rng).state, 4),
            symbol_row(
                math,
                self@,
                reverted(
                    self@.idiosyncratic_state,
                    0x4010_0000_0000_0000,
                    0x3fcc_28f5_c28f_5c29,
                    crate::random::normal_after(old(rng).state, 0),
                ),
                crate::random::normal_after(crate::random::drawn(old(rng).state, 2), 0),
                f.factors(),
                r.0@,
                observed_at_ms,
                r.1@,
            ),
    {
        let ghost start = rng.state;
        let own = reverted_term(
            math,
            self.idiosyncratic_state,
            0x4010_0000_0000_0000,
            0x3fcc_28f5_c28f_5c29,
            rng,
        );
        let anchor_log = Term::literal(math, self.anchor_log_price);
        let market_beta = Term::literal(math, self.market_beta);
        let sector_beta = Term::literal(math, self.sector_beta);
        let log_price = anchor_log.plus(
            math,
            market_beta.times(math, Term::literal(math, f.market)),
        ).plus(math, sector_beta.times(math, Term::literal(math, f.sector))).plus(
            math,
            Term::literal(math, own.value),
        );
        let floored = log_price.exponential(math).at_least(
            math,
            Double { bits: 0x3f84_7ae1_47ae_147b },
        );
        let level: Double = floored.value;
        let shown = Term::literal(math, level);
        let one = Term::constant(math, ONE);
        let tick_return = shown.over(math, Term::literal(math, self.previous_price)).minus(
            math,
            one,
        );
        let since_anchor = shown.over(math, anchor_log.exponential(math)).minus(math, one);
        let modeled = market_beta.times(math, f.market_move).plus(
            math,
            sector_beta.times(math, f.sector_move),
        );
        let model_residual = tick_return.minus(math, modeled);
        let volume_noise = Term::constant(math, 0x3fd6_6666_6666_6666).times(
            math,
            rng.normal(math),
        ).exponential(math);
        let volume = Term::literal(math, self.dollar_volume_base).times(
            math,
            volume_noise,
        ).times(
            math,
            one.plus(
                math,
                Term::constant(math, 0x4032_0000_0000_0000).times(
                    math,
                    tick_return.absolute(math),
                ),
            ),
        );
        let log_volume = volume.logarithm(math);
        let sector_number = Term::integer(math, self.sector as u64);
        let row = InputRow::new(self.key.as_str(), observed_at_ms).with_field(
            "price",
            level,
        ).with_field("return", tick_return.value).with_field(
            "cumulative_return",
            since_anchor.value,
        ).with_field("dollar_volume", volume.value).with_field(
            "log_dollar_volume",
            log_volume.value,
        ).with_field("model_residual", model_residual.value).with_field(
            "market_beta",
            self.market_beta,
        ).with_field("sector_beta", self.sector_beta).with_field("sector", sector_number.value);
        let after = OuEntityState {
            key: self.key.clone(),
            anchor_log_price: self.anchor_log_price,
            previous_price: level,
            idiosyncratic_state: own.value,
            market_beta: self.market_beta,
            sector_beta: self.sector_beta,
            sector: self.sector,
            dollar_volume_base: self.dollar_volume_base,
        };
        proof {
            crate::random::lemma_drawn_on(start, 2, 2);
            let fields = MarketFields {
                price: level,
                tick_return: tick_return.value,
                cumulative_return: since_anchor.value,
                dollar_volume: volume.value,
                log_dollar_volume: log_volume.value,
                model_residual: model_residual.value,
                sector: sector_number.value,
            };
            let noise = crate::random::normal_after(crate::random::drawn(start, 2), 0);
            assert(volume.expr@ == dollar_volume(self@, level, noise));
            assert(symbol_steps(math, self@, own.expr@, noise, f.factors(), after@, fields));
            assert(row@.fields == fields.table(self@));
        }
        (after, row)
    }
}

impl Clone for OuMarketInjector {
    fn clone(&self) -> (copy: Self)
        ensures
            copy@ == self@,
    {
        proof {
            use_type_invariant(self);
        }
        let mut sector_states: Vec<Double> = Vec::new();
        let mut j: usize = 0;
        while j < self.sector_states.len()
            invariant
                0 <= j <= self.sector_states@.len(),
                sector_states@ == self.sector_states@.take(j as int),
            decreases self.sector_states@.len() - j,
        {
            sector_states.push(self.sector_states[j]);
            j = j + 1;
        }
        assert(sector_states@ =~= self.sector_states@);
        let mut entities: Vec<OuEntityState> = Vec::new();
        let mut i: usize = 0;
        while i < self.entities.len()
            invariant
                0 <= i <= self.entities@.len(),
                entities@.len() == i,
                forall|k: int| 0 <= k < i ==> (#[trigger] entities@[k])@ == self.entities@[k]@,
            decreases self.entities@.len() - i,
        {
            entities.push(self.entities[i].clone());
            i = i + 1;
        }
        assert(crate::text::views(entities@) =~= crate::text::views(self.entities@));
        OuMarketInjector {
            rng: self.rng,
            generation: self.generation,
            market_state: self.market_state,
            sector_states,
            entities,
        }
    }
}

impl OuMarketInjector {
    #[verifier::type_invariant]
    spec fn well_formed(self) -> bool {
        self@.sound()
    }

    /// Create a synthetic market with at least one symbol and four sectors.
    pub fn new<A: Arithmetic>(math: &A, entity_count: usize, seed: u64) -> (injector: Self)
        ensures
            market_begins(math, entity_count as nat, seed, injector@),
            injector@.sound(),
    {
        let count: usize = if entity_count == 0 {
            1
        } else {
            entity_count
        };
        let mut rng = XorShift64::new(seed);
        let mut entities: Vec<OuEntityState> = Vec::new();
        let mut i: usize = 0;
        while i < count
            invariant
                0 <= i <= count,
                entities@.len() == i,
                rng.state == crate::random::drawn(crate::random::seeded(seed), i as nat),
                forall|k: int|
                    0 <= k < i ==> symbol_begins(math, k, seed, (#[trigger] entities@[k])@),
            decreases count - i,
        {
            let entity = OuEntityState::begin(math, i, &mut rng, Ghost(seed));
            entities.push(entity);
            i = i + 1;
        }
        let zero = Double { bits: ZERO };
        let sector_states: Vec<Double> = vec![zero, zero, zero, zero];
        assert(sector_states@ =~= seq![zero, zero, zero, zero]);
        let ghost all = crate::text::views(entities@);
        assert forall|k: int| 0 <= k < all.len() implies symbol_begins(
            math,
            k,
            seed,
            #[trigger] all[k],
        ) by {
            assert(all[k] == entities@[k]@);
        }
        assert forall|k: int| 0 <= k < all.len() implies 0 <= (#[trigger] all[k]).sector < 4 by {
            assert(symbol_begins(math, k, seed, all[k]));
        }
        OuMarketInjector { rng, generation: 0, market_state: zero, sector_states, entities }
    }

    /// Return the most recently emitted generation, or zero before first use.
    pub fn generation(&self) -> (generation: u64)
        ensures
            generation == self@.generation,
    {
        self.generation
    }

    /// Return stable fake symbols in layout order.
    pub fn symbols(&self) -> (symbols: Vec<String>)
        ensures
            symbols@.len() == self@.entities.len(),
            forall|k: int|
                0 <= k < symbols@.len() ==> (#[trigger] symbols@[k])@ == self@.entities[k].key,
    {
        let mut symbols: Vec<String> = Vec::new();
        let mut i: usize = 0;
        while i < self.entities.len()
            invariant
                0 <= i <= self.entities@.len(),
                symbols@.len() == i,
                forall|k: int|
                    0 <= k < i ==> (#[trigger] symbols@[k])@ == self@.entities[k].key,
            decreases self.entities@.len() - i,
        {
            symbols.push(self.entities[i].key.clone());
            assert(self@.entities[i as int] == self.entities@[i as int]@);
            i = i + 1;
        }
        symbols
    }

    /// Advance the OU states by one simulated trading day.
    pub fn next_frame<A: Arithmetic>(&mut self, math: &A, observed_at_ms: i64) -> (frame:
        OuMarketFrame)
        requires
            old(self)@.generation < u64::MAX,
        ensures
            market_steps(
                math,
                old(self)@,
                observed_at_ms,
                final(self)@,
                crate::text::views(frame.rows@),
            ),
            frame.generation == final(self)@.generation,
            frame.observed_at_ms == observed_at_ms,
            final(self)@.sound(),
    {
        proof {
            use_type_invariant(&*self);
        }
        let ghost a = self@;
        let generation: u64 = self.generation + 1;
        let mut rng: XorShift64 = self.rng;
        let market = reverted_term(
            math,
            self.market_state,
            0x3ff9_9999_9999_999a,
            0x3fbe_b851_eb85_1eb8,
            &mut rng,
        );
        let market_state: Double = market.value;
        let market_move = Term::literal(math, market_state).minus(
            math,
            Term::literal(math, self.market_state),
        );
        let mut sector_states: Vec<Double> = Vec::new();
        let mut sector_moves: Vec<Term> = Vec::new();
        let mut s: usize = 0;
        while s < self.sector_states.len()
            invariant
                a == self@,
                a.sound(),
                0 <= s <= 4,
                sector_states@.len() == s,
                sector_moves@.len() == s,
                rng.state == crate::random::drawn(a.rng, (2 + 2 * s) as nat),
                forall|i: int|
                    0 <= i < s ==> crate::number::computes(
                        math,
                        next_sector(a, i),
                        #[trigger] sector_states@[i],
                    ),
                forall|i: int|
                    0 <= i < s ==> (#[trigger] sector_moves@[i]).holds(math)
                        && sector_moves@[i].expr@ == moved(sector_states@[i], a.sector_states[i]),
            decreases 4 - s,
        {
            let ghost here = rng.state;
            let state = reverted_term(
                math,
                self.sector_states[s],
                0x4003_3333_3333_3333,
                0x3fc4_7ae1_47ae_147b,
                &mut rng,
            );
            proof {
                let n = (2 + 2 * s) as nat;
                crate::random::lemma_drawn_on(a.rng, n, 1);
                crate::random::lemma_drawn_on(a.rng, n, 2);
                assert(crate::random::normal_after(here, 0) == crate::random::normal_after(
                    a.rng,
                    n,
                ));
            }
            let change = Term::literal(math, state.value).minus(
                math,
                Term::literal(math, self.sector_states[s]),
            );
            sector_states.push(state.value);
            sector_moves.push(change);
            s = s + 1;
        }
        let ghost b0 = MarketView {
            rng: a.rng,
            generation,
            market_state,
            sector_states: sector_states@,
            entities: a.entities,
        };
        let mut entities: Vec<OuEntityState> = Vec::new();
        let mut rows: Vec<InputRow> = Vec::new();
        let mut i: usize = 0;
        while i < self.entities.len()
            invariant
                a == self@,
                a.sound(),
                sector_states@.len() == 4,
                sector_moves@.len() == 4,
                b0.market_state == market_state,
                b0.sector_states == sector_states@,
                market_move.holds(math),
                market_move.expr@ == moved(market_state, a.market_state),
                forall|j: int|
                    0 <= j < 4 ==> (#[trigger] sector_moves@[j]).holds(math)
                        && sector_moves@[j].expr@ == moved(sector_states@[j], a.sector_states[j]),
                0 <= i <= self.entities@.len(),
                entities@.len() == i,
                rows@.len() == i,
                rng.state == crate::random::drawn(a.rng, (10 + 4 * i) as nat),
                forall|k: int|
                    0 <= k < i ==> symbol_row(
                        math,
                        a.entities[k],
                        next_own(a, k),
                        crate::random::normal_after(a.rng, (12 + 4 * k) as nat),
                        factors(a, b0, a.entities[k].sector),
                        entities@[k]@,
                        observed_at_ms,
                        (#[trigger] rows@[k])@,
                    ),
            decreases self.entities@.len() - i,
        {
            let ghost here = rng.state;
            assert(a.entities[i as int] == self.entities@[i as int]@);
            let sector: usize = self.entities[i].sector;
            assert(sector == a.entities[i as int].sector);
            let f = FactorTerms {
                market: market_state,
                market_move,
                sector: sector_states[sector],
                sector_move: sector_moves[sector],
            };
            assert(f.factors() == factors(a, b0, sector as int));
            let (entity, row) = self.entities[i].step(math, &mut rng, &f, observed_at_ms);
            proof {
                let n = (10 + 4 * i) as nat;
                crate::random::lemma_drawn_on(a.rng, n, 1);
                crate::random::lemma_drawn_on(a.rng, n, 2);
                crate::random::lemma_drawn_on(a.rng, n, 4);
                let later = crate::random::drawn(here, 2);
                crate::random::lemma_drawn_on(a.rng, n + 2, 1);
                crate::random::lemma_drawn_on(a.rng, n + 2, 2);
                assert(crate::random::normal_after(here, 0) == crate::random::normal_after(
                    a.rng,
                    n,
                ));
                assert(crate::random::normal_after(later, 0) == crate::random::normal_after(
                    a.rng,
                    n + 2,
                ));
            }
            entities.push(entity);
            rows.push(row);
            i = i + 1;
        }
        let ghost after = crate::text::views(entities@);
        let ghost shown = crate::text::views(rows@);
        proof {
            assert forall|k: int| 0 <= k < shown.len() implies symbol_row(
                math,
                a.entities[k],
                next_own(a, k),
                crate::random::normal_after(a.rng, (12 + 4 * k) as nat),
                factors(a, b0, a.entities[k].sector),
                after[k],
                observed_at_ms,
                #[trigger] shown[k],
            ) by {
                assert(shown[k] == rows@[k]@);
                assert(after[k] == entities@[k]@);
            }
            assert forall|k: int| 0 <= k < after.len() implies 0 <= (#[trigger] after[k]).sector
                < 4 by {
                assert(0 <= a.entities[k].sector < 4);
                assert(symbol_row(
                    math,
                    a.entities[k],
                    next_own(a, k),
                    crate::random::normal_after(a.rng, (12 + 4 * k) as nat),
                    factors(a, b0, a.entities[k].sector),
                    after[k],
                    observed_at_ms,
                    shown[k],
                ));
            }
        }
        *self = OuMarketInjector { rng, generation, market_state, sector_states, entities };
        proof {
            let b = self@;
            assert forall|k: int| 0 <= k < shown.len() implies symbol_row(
                math,
                a.entities[k],
                next_own(a, k),
                crate::random::normal_after(a.rng, (12 + 4 * k) as nat),
                factors(a, b, a.entities[k].sector),
                b.entities[k],
                observed_at_ms,
                #[trigger] shown[k],
            ) by {
                assert(factors(a, b, a.entities[k].sector) == factors(
                    a,
                    b0,
                    a.entities[k].sector,
                ));
            }
        }
        OuMarketFrame { generation, observed_at_ms, rows }
    }
}

/// The graph of the market demonstration.
pub open spec fn market_demo_graph() -> Seq<crate::cube::NodeView> {
    seq![
        crate::cube::NodeView {
            id: "price"@,
            transform: Transform::Identity,
            kind: crate::cube::KindView::Field { field: "price"@ },
        },
        crate::cube::NodeView {
            id: "return"@,
            transform: Transform::Identity,
            kind: crate::cube::KindView::Field { field: "return"@ },
        },
        crate::cube::NodeView {
            id: "residual_z"@,
            transform: Transform::RankZScore,
            kind: crate::cube::KindView::Field { field: "model_residual"@ },
        },
        crate::cube::NodeView {
            id: "dollar_volume_z"@,
            transform: Transform::ZScore,
            kind: crate::cube::KindView::Field { field: "log_dollar_volume"@ },
        },
        crate::cube::NodeView {
            id: "liquid_residual_score"@,
            transform: Transform::ZScore,
            kind: crate::cube::KindView::Linear {
                inputs: seq![
                    crate::cube::EdgeView {
                        node: "residual_z"@,
                        weight: Double { bits: 0x3fe8_0000_0000_0000 },
                        required: true,
                    },
                    crate::cube::EdgeView {
                        node: "dollar_volume_z"@,
                        weight: Double { bits: 0x3fd0_0000_0000_0000 },
                        required: true,
                    },
                ],
                normalize_weights: false,
            },
        },
    ]
}

/// Financial node graph used by the browser demonstration.
///
/// The simulated factor residual is
/// `epsilon_i = r_i - beta_market_i * delta_market
///                    - beta_sector_i * delta_sector`.
/// The displayed score is the cross-sectional z-score of
/// `0.75 * rank_z(epsilon_i) + 0.25 * z(log(dollar_volume_i))`.
/// It is an educational residual-move scanner, not a return forecast.
pub fn market_demo_nodes() -> (nodes: Vec<NodeSpec>)
    ensures
        crate::text::views(nodes@) == market_demo_graph(),
{
    let inputs: Vec<WeightedInput> = vec![
        WeightedInput::required("residual_z", Double { bits: 0x3fe8_0000_0000_0000 }),
        WeightedInput::required("dollar_volume_z", Double { bits: 0x3fd0_0000_0000_0000 }),
    ];
    let ghost edges = crate::text::views(inputs@);
    let nodes: Vec<NodeSpec> = vec![
        NodeSpec::field("price", "price", Transform::Identity),
        NodeSpec::field("return", "return", Transform::Identity),
        NodeSpec::field("residual_z", "model_residual", Transform::RankZScore),
        NodeSpec::field("dollar_volume_z", "log_dollar_volume", Transform::ZScore),
        NodeSpec::linear("liquid_residual_score", inputs, false, Transform::ZScore),
    ];
    assert(edges =~= market_demo_graph()[4].edges());
    assert(crate::text::views(nodes@) =~= market_demo_graph());
    nodes
}

/// The symbols of a market are all different.
pub proof fn lemma_symbols_differ<A: Arithmetic>(
    math: &A,
    entity_count: nat,
    seed: u64,
    a: MarketView,
    i: int,
    j: int,
)
    requires
        market_begins(math, entity_count, seed, a),
        0 <= i < a.entities.len(),
        0 <= j < a.entities.len(),
        i != j,
    ensures
        a.entities[i].key != a.entities[j].key,
{
    assert(symbol_begins(math, i, seed, a.entities[i]));
    assert(symbol_begins(math, j, seed, a.entities[j]));
    if a.entities[i].key == a.entities[j].key {
        let m = crate::text::zero_padded((i + 1) as nat, 4);
        let n = crate::text::zero_padded((j + 1) as nat, 4);
        assert(m =~= symbol_name(i as nat).skip("SIM"@.len() as int));
        assert(n =~= symbol_name(j as nat).skip("SIM"@.len() as int));
        crate::text::lemma_zero_padded_injective((i + 1) as nat, (j + 1) as nat, 4);
    }
}

/// A step keeps the symbols and their order, and its rows carry them.
pub proof fn lemma_symbols_are_stable<A: Arithmetic>(
    math: &A,
    a: MarketView,
    observed_at_ms: i64,
    b: MarketView,
    rows: Seq<crate::cube::RowView>,
    k: int,
)
    requires
        market_steps(math, a, observed_at_ms, b, rows),
        0 <= k < a.entities.len(),
    ensures
        b.entities[k].key == a.entities[k].key,
        rows[k].key == a.entities[k].key,
        rows[k].observed_at_ms == observed_at_ms,
{
    assert(symbol_row(
        math,
        a.entities[k],
        next_own(a, k),
        crate::random::normal_after(a.rng, (12 + 4 * k) as nat),
        factors(a, b, a.entities[k].sector),
        b.entities[k],
        observed_at_ms,
        rows[k],
    ));
}

/// With an arithmetic that gives one result per operation, the same seed gives
/// the same market.
pub proof fn lemma_market_begins_alike<A: Arithmetic>(
    math: &A,
    entity_count: nat,
    seed: u64,
    a: MarketView,
    b: MarketView,
)
    requires
        crate::number::deterministic(math),
        market_begins(math, entity_count, seed, a),
        market_begins(math, entity_count, seed, b),
    ensures
        a == b,
{
    assert forall|i: int| 0 <= i < a.entities.len() implies a.entities[i] == b.entities[i] by {
        let x = a.entities[i];
        let y = b.entities[i];
        assert(symbol_begins(math, i, seed, x));
        assert(symbol_begins(math, i, seed, y));
        let draw = crate::random::drawn(crate::random::seeded(seed), (i + 1) as nat);
        let n = i as nat;
        crate::number::lemma_computes_unique(
            math,
            anchor(n, draw),
            x.anchor_log_price,
            y.anchor_log_price,
        );
        crate::number::lemma_computes_unique(
            math,
            crate::number::e_exp(crate::number::Expr::Lit(x.anchor_log_price)),
            x.previous_price,
            y.previous_price,
        );
        crate::number::lemma_computes_unique(
            math,
            graded(0x3fe8_0000_0000_0000, n % 11, 0x3fac_28f5_c28f_5c29),
            x.market_beta,
            y.market_beta,
        );
        crate::number::lemma_computes_unique(
            math,
            graded(0x3fe4_cccc_cccc_cccd, n % 7, 0x3fb1_eb85_1eb8_51ec),
            x.sector_beta,
            y.sector_beta,
        );
        crate::number::lemma_computes_unique(
            math,
            graded(0x411e_8480_0000_0000, n % 23, 0x40f5_f900_0000_0000),
            x.dollar_volume_base,
            y.dollar_volume_base,
        );
    }
    assert(a.entities =~= b.entities);
}

proof fn lemma_symbol_row_unique<A: Arithmetic>(
    math: &A,
    before: SymbolState,
    own: crate::number::Expr,
    noise: crate::number::Expr,
    f: Factors,
    x: SymbolState,
    y: SymbolState,
    observed_at_ms: i64,
    p: crate::cube::RowView,
    q: crate::cube::RowView,
)
    requires
        crate::number::deterministic(math),
        symbol_row(math, before, own, noise, f, x, observed_at_ms, p),
        symbol_row(math, before, own, noise, f, y, observed_at_ms, q),
    ensures
        x == y,
        p == q,
{
    let m = choose|m: MarketFields|
        {
            &&& #[trigger] symbol_steps(math, before, own, noise, f, x, m)
            &&& p == (crate::cube::RowView {
                key: before.key,
                observed_at_ms,
                fields: m.table(before),
            })
        };
    let n = choose|n: MarketFields|
        {
            &&& #[trigger] symbol_steps(math, before, own, noise, f, y, n)
            &&& q == (crate::cube::RowView {
                key: before.key,
                observed_at_ms,
                fields: n.table(before),
            })
        };
    crate::number::lemma_computes_unique(
        math,
        own,
        x.idiosyncratic_state,
        y.idiosyncratic_state,
    );
    crate::number::lemma_computes_unique(
        math,
        price(before, x.idiosyncratic_state, f),
        m.price,
        n.price,
    );
    crate::number::lemma_computes_unique(
        math,
        crate::synthetic::relative_change(m.price, before.previous_price),
        m.tick_return,
        n.tick_return,
    );
    crate::number::lemma_computes_unique(
        math,
        cumulative_return(before, m.price),
        m.cumulative_return,
        n.cumulative_return,
    );
    crate::number::lemma_computes_unique(
        math,
        dollar_volume(before, m.price, noise),
        m.dollar_volume,
        n.dollar_volume,
    );
    crate::number::lemma_computes_unique(
        math,
        crate::number::e_ln(dollar_volume(before, m.price, noise)),
        m.log_dollar_volume,
        n.log_dollar_volume,
    );
    crate::number::lemma_computes_unique(
        math,
        residual(before, m.price, f),
        m.model_residual,
        n.model_residual,
    );
    crate::number::lemma_computes_unique(
        math,
        crate::number::Expr::Int(before.sector as u64),
        m.sector,
        n.sector,
    );
}

/// With an arithmetic that gives one result per operation, one market state
/// gives one next state and one frame: the same seed always produces the same
/// frames.
pub proof fn lemma_market_is_repeatable<A: Arithmetic>(
    math: &A,
    a: MarketView,
    observed_at_ms: i64,
    b: MarketView,
    rows: Seq<crate::cube::RowView>,
    c: MarketView,
    again: Seq<crate::cube::RowView>,
)
    requires
        crate::number::deterministic(math),
        a.sound(),
        market_steps(math, a, observed_at_ms, b, rows),
        market_steps(math, a, observed_at_ms, c, again),
    ensures
        b == c,
        rows == again,
{
    crate::number::lemma_computes_unique(math, next_market(a), b.market_state, c.market_state);
    assert forall|s: int| 0 <= s < b.sector_states.len() implies b.sector_states[s]
        == c.sector_states[s] by {
        crate::number::lemma_computes_unique(
            math,
            next_sector(a, s),
            b.sector_states[s],
            c.sector_states[s],
        );
    }
    assert(b.sector_states =~= c.sector_states);
    assert forall|k: int|
        #![trigger b.entities[k]]
        #![trigger rows[k]]
        0 <= k < rows.len() implies b.entities[k] == c.entities[k] && rows[k] == again[k] by {
        let sector = a.entities[k].sector;
        assert(factors(a, b, sector) == factors(a, c, sector));
        lemma_symbol_row_unique(
            math,
            a.entities[k],
            next_own(a, k),
            crate::random::normal_after(a.rng, (12 + 4 * k) as nat),
            factors(a, b, sector),
            b.entities[k],
            c.entities[k],
            observed_at_ms,
            rows[k],
            again[k],
        );
    }
    assert(b.entities =~= c.entities);
    assert(rows =~= again);
}

proof fn lemma_price_field(m: MarketFields, symbol: SymbolState)
    ensures
        crate::table::found(m.table(symbol), "price"@) == Some(m.price),
{
    reveal_strlit("price");
    reveal_strlit("return");
    reveal_strlit("cumulative_return");
    reveal_strlit("dollar_volume");
    reveal_strlit("log_dollar_volume");
    reveal_strlit("model_residual");
    reveal_strlit("market_beta");
    reveal_strlit("sector_beta");
    reveal_strlit("sector");
    assert("return"@ != "price"@) by {
        assert("return"@.len() != "price"@.len());
    }
    assert("cumulative_return"@ != "price"@) by {
        assert("cumulative_return"@.len() != "price"@.len());
    }
    assert("dollar_volume"@ != "price"@) by {
        assert("dollar_volume"@.len() != "price"@.len());
    }
    assert("log_dollar_volume"@ != "price"@) by {
        assert("log_dollar_volume"@.len() != "price"@.len());
    }
    assert("model_residual"@ != "price"@) by {
        assert("model_residual"@.len() != "price"@.len());
    }
    assert("market_beta"@ != "price"@) by {
        assert("market_beta"@.len() != "price"@.len());
    }
    assert("sector_beta"@ != "price"@) by {
        assert("sector_beta"@.len() != "price"@.len());
    }
    assert("sector"@ != "price"@) by {
        assert("sector"@.len() != "price"@.len());
    }
    let f = Seq::<(Seq<char>, Double)>::empty();
    crate::table::lemma_entered(f, "price"@, m.price, "price"@);
    let f = crate::table::entered(f, "price"@, m.price);
    crate::table::lemma_entered(f, "return"@, m.tick_return, "price"@);
    let f = crate::table::entered(f, "return"@, m.tick_return);
    crate::table::lemma_entered(f, "cumulative_return"@, m.cumulative_return, "price"@);
    let f = crate::table::entered(f, "cumulative_return"@, m.cumulative_return);
    crate::table::lemma_entered(f, "dollar_volume"@, m.dollar_volume, "price"@);
    let f = crate::table::entered(f, "dollar_volume"@, m.dollar_volume);
    crate::table::lemma_entered(f, "log_dollar_volume"@, m.log_dollar_volume, "price"@);
    let f = crate::table::entered(f, "log_dollar_volume"@, m.log_dollar_volume);
    crate::table::lemma_entered(f, "model_residual"@, m.model_residual, "price"@);
    let f = crate::table::entered(f, "model_residual"@, m.model_residual);
    crate::table::lemma_entered(f, "market_beta"@, symbol.market_beta, "price"@);
    let f = crate::table::entered(f, "market_beta"@, symbol.market_beta);
    crate::table::lemma_entered(f, "sector_beta"@, symbol.sector_beta, "price"@);
    let f = crate::table::entered(f, "sector_beta"@, symbol.sector_beta);
    crate::table::lemma_entered(f, "sector"@, m.sector, "price"@);
}

/// Every row of a frame has a price above zero, whatever the arithmetic.
pub proof fn lemma_price_is_positive<A: Arithmetic>(
    math: &A,
    a: MarketView,
    observed_at_ms: i64,
    b: MarketView,
    rows: Seq<crate::cube::RowView>,
    k: int,
)
    requires
        market_steps(math, a, observed_at_ms, b, rows),
        0 <= k < rows.len(),
    ensures
        crate::table::found(rows[k].fields, "price"@) matches Some(price) && (Double {
            bits: ZERO,
        }).lt(price),
{
    let symbol = a.entities[k];
    let own = next_own(a, k);
    let noise = crate::random::normal_after(a.rng, (12 + 4 * k) as nat);
    let f = factors(a, b, symbol.sector);
    let after = b.entities[k];
    assert(symbol_row(math, symbol, own, noise, f, after, observed_at_ms, rows[k]));
    let m = choose|m: MarketFields|
        {
            &&& #[trigger] symbol_steps(math, symbol, own, noise, f, after, m)
            &&& rows[k] == (crate::cube::RowView {
                key: symbol.key,
                observed_at_ms,
                fields: m.table(symbol),
            })
        };
    lemma_price_field(m, symbol);
    let least = Double { bits: 0x3f84_7ae1_47ae_147b };
    let e = price(symbol, after.idiosyncratic_state, f);
    assert(crate::number::computes(math, e, m.price));
    match e {
        crate::number::Expr::Floor(x, y) => {
            let (u, v) = choose|u: Double, v: Double|
                crate::number::computes(math, *x, u) && crate::number::computes(math, *y, v)
                    && m.price == #[trigger] u.floored_at(v);
            assert(*y == crate::number::Expr::Lit(least));
            assert(crate::number::computes(math, crate::number::Expr::Lit(least), v));
            assert(v == least);
        },
        _ => {
            assert(false);
        },
    }
}

/// Whether a market made for a number of symbols and a seed went through some
/// states and gave some rows, one frame for each time.
pub open spec fn market_run<A: Arithmetic>(
    math: &A,
    entity_count: nat,
    seed: u64,
    times: Seq<i64>,
    states: Seq<MarketView>,
    frames: Seq<Seq<crate::cube::RowView>>,
) -> bool {
    &&& states.len() == times.len() + 1
    &&& frames.len() == times.len()
    &&& market_begins(math, entity_count, seed, states[0])
    &&& forall|k: int|
        0 <= k < times.len() ==> market_steps(
            math,
            states[k],
            #[trigger] times[k],
            states[k + 1],
            frames[k],
        )
}

proof fn lemma_market_run_sound<A: Arithmetic>(
    math: &A,
    entity_count: nat,
    seed: u64,
    times: Seq<i64>,
    states: Seq<MarketView>,
    frames: Seq<Seq<crate::cube::RowView>>,
    k: int,
)
    requires
        market_run(math, entity_count, seed, times, states, frames),
        0 <= k <= times.len(),
    ensures
        states[k].sound(),
        states[k].generation == k,
        states[k].entities.len() == crate::synthetic::at_least_one(entity_count),
        forall|i: int|
            0 <= i < states[k].entities.len() ==> (#[trigger] states[k].entities[i]).key
                == symbol_name(i as nat),
    decreases k,
{
    if k == 0 {
        assert forall|i: int| 0 <= i < states[0].entities.len() implies {
            &&& 0 <= (#[trigger] states[0].entities[i]).sector < 4
            &&& states[0].entities[i].key == symbol_name(i as nat)
        } by {
            assert(symbol_begins(math, i, seed, states[0].entities[i]));
        }
    } else {
        lemma_market_run_sound(math, entity_count, seed, times, states, frames, k - 1);
        let a = states[k - 1];
        let b = states[k];
        assert(market_steps(math, a, times[k - 1], b, frames[k - 1]));
        assert forall|i: int| 0 <= i < b.entities.len() implies {
            &&& (#[trigger] b.entities[i]).sector == a.entities[i].sector
            &&& b.entities[i].key == a.entities[i].key
        } by {
            assert(symbol_row(
                math,
                a.entities[i],
                next_own(a, i),
                crate::random::normal_after(a.rng, (12 + 4 * i) as nat),
                factors(a, b, a.entities[i].sector),
                b.entities[i],
                times[k - 1],
                frames[k - 1][i],
            ));
        }
    }
}

/// The frames of a market count up from one and hold one row for each symbol,
/// in the order of the symbols, with the time that was asked for and a price
/// above zero.
pub proof fn lemma_market_frames<A: Arithmetic>(
    math: &A,
    entity_count: nat,
    seed: u64,
    times: Seq<i64>,
    states: Seq<MarketView>,
    frames: Seq<Seq<crate::cube::RowView>>,
    k: int,
)
    requires
        market_run(math, entity_count, seed, times, states, frames),
        0 <= k < times.len(),
    ensures
        states[k + 1].generation == k + 1,
        frames[k].len() == crate::synthetic::at_least_one(entity_count),
        forall|i: int|
            0 <= i < frames[k].len() ==> {
                &&& (#[trigger] frames[k][i]).key == symbol_name(i as nat)
                &&& frames[k][i].observed_at_ms == times[k]
                &&& crate::table::found(frames[k][i].fields, "price"@) matches Some(price)
                    && (Double { bits: ZERO }).lt(price)
            },
{
    lemma_market_run_sound(math, entity_count, seed, times, states, frames, k);
    assert(market_steps(math, states[k], times[k], states[k + 1], frames[k]));
    assert forall|i: int| 0 <= i < frames[k].len() implies {
        &&& (#[trigger] frames[k][i]).key == symbol_name(i as nat)
        &&& frames[k][i].observed_at_ms == times[k]
        &&& crate::table::found(frames[k][i].fields, "price"@) matches Some(price) && (Double {
            bits: ZERO,
        }).lt(price)
    } by {
        lemma_price_is_positive(math, states[k], times[k], states[k + 1], frames[k], i);
        lemma_symbols_are_stable(math, states[k], times[k], states[k + 1], frames[k], i);
    }
}

/// Two markets made alike and asked alike give the same frames throughout,
/// under an arithmetic that gives one result per operation.
pub proof fn lemma_same_seed_same_frames<A: Arithmetic>(
    math: &A,
    entity_count: nat,
    seed: u64,
    times: Seq<i64>,
    states: Seq<MarketView>,
    frames: Seq<Seq<crate::cube::RowView>>,
    other_states: Seq<MarketView>,
    other_frames: Seq<Seq<crate::cube::RowView>>,
    k: int,
)
    requires
        crate::number::deterministic(math),
        market_run(math, entity_count, seed, times, states, frames),
        market_run(math, entity_count, seed, times, other_states, other_frames),
        0 <= k <= times.len(),
    ensures
        states[k] == other_states[k],
        forall|i: int| 0 <= i < k ==> (#[trigger] frames[i]) == other_frames[i],
    decreases k,
{
    if k == 0 {
        lemma_market_begins_alike(math, entity_count, seed, states[0], other_states[0]);
    } else {
        lemma_same_seed_same_frames(
            math,
            entity_count,
            seed,
            times,
            states,
            frames,
            other_states,
            other_frames,
            k - 1,
        );
        lemma_market_run_sound(math, entity_count, seed, times, states, frames, k - 1);
        let time = times[k - 1];
        assert(market_steps(math, states[k - 1], time, states[k], frames[k - 1]));
        assert(market_steps(
            math,
            other_states[k - 1],
            time,
            other_states[k],
            other_frames[k - 1],
        ));
        lemma_market_is_repeatable(
            math,
            states[k - 1],
            time,
            states[k],
            frames[k - 1],
            other_states[k],
            other_frames[k - 1],
        );
    }
}

/// The numbers of the model: a year of trading days, the pulls and the
/// volatilities of the three kinds of state, the least price, what a move adds
/// to the volume, and what the symbols begin with.
pub proof fn lemma_model_constants()
    ensures
        crate::reading::exact(Double { bits: 0x406f_8000_0000_0000 }) == 252 as real,
        crate::reading::exact(Double { bits: 0x4010_0000_0000_0000 }) == 4 as real,
        crate::reading::exact(Double { bits: 0x4032_0000_0000_0000 }) == 18 as real,
        crate::reading::exact(Double { bits: 0x4041_8000_0000_0000 }) == 35 as real,
        crate::reading::exact(Double { bits: 0x4014_0000_0000_0000 }) == 5 as real,
        crate::reading::exact(Double { bits: 0x411e_8480_0000_0000 }) == 500000 as real,
        crate::reading::exact(Double { bits: 0x40f5_f900_0000_0000 }) == 90000 as real,
        crate::reading::nearly(0x3ff9_9999_9999_999a, 16, 10),
        crate::reading::nearly(0x3fbe_b851_eb85_1eb8, 12, 100),
        crate::reading::nearly(0x4003_3333_3333_3333, 24, 10),
        crate::reading::nearly(0x3fc4_7ae1_47ae_147b, 16, 100),
        crate::reading::nearly(0x3fcc_28f5_c28f_5c29, 22, 100),
        crate::reading::nearly(0x3f84_7ae1_47ae_147b, 1, 100),
        crate::reading::nearly(0x3fd6_6666_6666_6666, 35, 100),
        crate::reading::nearly(0x3fd7_ae14_7ae1_47ae, 37, 100),
        crate::reading::nearly(0x3fe8_0000_0000_0000, 75, 100),
        crate::reading::nearly(0x3fac_28f5_c28f_5c29, 55, 1000),
        crate::reading::nearly(0x3fe4_cccc_cccc_cccd, 65, 100),
        crate::reading::nearly(0x3fb1_eb85_1eb8_51ec, 7, 100),
{
    vstd::arithmetic::power2::lemma2_to64();
    vstd::arithmetic::power2::lemma2_to64_rest();
    crate::reading::lemma_whole(0x406f_8000_0000_0000, 45, 0x2000_0000_0000, 252);
    crate::reading::lemma_whole(0x4010_0000_0000_0000, 50, 0x4_0000_0000_0000, 4);
    crate::reading::lemma_whole(0x4032_0000_0000_0000, 48, 0x1_0000_0000_0000, 18);
    crate::reading::lemma_whole(0x4041_8000_0000_0000, 47, 0x8000_0000_0000, 35);
    crate::reading::lemma_whole(0x4014_0000_0000_0000, 50, 0x4_0000_0000_0000, 5);
    crate::reading::lemma_whole(0x411e_8480_0000_0000, 34, 0x4_0000_0000, 500000);
    crate::reading::lemma_whole(0x40f5_f900_0000_0000, 36, 0x10_0000_0000, 90000);
    crate::reading::lemma_nearly(0x3ff9_9999_9999_999a, 52, 0x10_0000_0000_0000, 16, 10);
    crate::reading::lemma_nearly(0x3fbe_b851_eb85_1eb8, 56, 0x100_0000_0000_0000, 12, 100);
    crate::reading::lemma_nearly(0x4003_3333_3333_3333, 51, 0x8_0000_0000_0000, 24, 10);
    crate::reading::lemma_nearly(0x3fc4_7ae1_47ae_147b, 55, 0x80_0000_0000_0000, 16, 100);
    crate::reading::lemma_nearly(0x3fcc_28f5_c28f_5c29, 55, 0x80_0000_0000_0000, 22, 100);
    crate::reading::lemma_nearly(0x3f84_7ae1_47ae_147b, 59, 0x800_0000_0000_0000, 1, 100);
    crate::reading::lemma_nearly(0x3fd6_6666_6666_6666, 54, 0x40_0000_0000_0000, 35, 100);
    crate::reading::lemma_nearly(0x3fd7_ae14_7ae1_47ae, 54, 0x40_0000_0000_0000, 37, 100);
    crate::reading::lemma_nearly(0x3fe8_0000_0000_0000, 53, 0x20_0000_0000_0000, 75, 100);
    crate::reading::lemma_nearly(0x3fac_28f5_c28f_5c29, 57, 0x200_0000_0000_0000, 55, 1000);
    crate::reading::lemma_nearly(0x3fe4_cccc_cccc_cccd, 53, 0x20_0000_0000_0000, 65, 100);
    crate::reading::lemma_nearly(0x3fb1_eb85_1eb8_51ec, 56, 0x100_0000_0000_0000, 7, 100);
}

proof fn lemma_market_table(m: MarketFields, symbol: SymbolState)
    ensures
        crate::table::found(m.table(symbol), "price"@) == Some(m.price),
        crate::table::found(m.table(symbol), "return"@) == Some(m.tick_return),
        crate::table::found(m.table(symbol), "cumulative_return"@) == Some(m.cumulative_return),
        crate::table::found(m.table(symbol), "dollar_volume"@) == Some(m.dollar_volume),
        crate::table::found(m.table(symbol), "log_dollar_volume"@) == Some(m.log_dollar_volume),
        crate::table::found(m.table(symbol), "model_residual"@) == Some(m.model_residual),
        crate::table::found(m.table(symbol), "market_beta"@) == Some(symbol.market_beta),
        crate::table::found(m.table(symbol), "sector_beta"@) == Some(symbol.sector_beta),
        crate::table::found(m.table(symbol), "sector"@) == Some(m.sector),
{
    reveal_strlit("price");
    reveal_strlit("return");
    reveal_strlit("cumulative_return");
    reveal_strlit("dollar_volume");
    reveal_strlit("log_dollar_volume");
    reveal_strlit("model_residual");
    reveal_strlit("market_beta");
    reveal_strlit("sector_beta");
    reveal_strlit("sector");
    assert("price"@.len() != "return"@.len());
    assert("price"@.len() != "cumulative_return"@.len());
    assert("price"@.len() != "dollar_volume"@.len());
    assert("price"@.len() != "log_dollar_volume"@.len());
    assert("price"@.len() != "model_residual"@.len());
    assert("price"@.len() != "market_beta"@.len());
    assert("price"@.len() != "sector_beta"@.len());
    assert("price"@.len() != "sector"@.len());
    assert("return"@.len() != "cumulative_return"@.len());
    assert("return"@.len() != "dollar_volume"@.len());
    assert("return"@.len() != "log_dollar_volume"@.len());
    assert("return"@.len() != "model_residual"@.len());
    assert("return"@.len() != "market_beta"@.len());
    assert("return"@.len() != "sector_beta"@.len());
    assert("return"@[0] != "sector"@[0]);
    assert("cumulative_return"@.len() != "dollar_volume"@.len());
    assert("cumulative_return"@[0] != "log_dollar_volume"@[0]);
    assert("cumulative_return"@.len() != "model_residual"@.len());
    assert("cumulative_return"@.len() != "market_beta"@.len());
    assert("cumulative_return"@.len() != "sector_beta"@.len());
    assert("cumulative_return"@.len() != "sector"@.len());
    assert("dollar_volume"@.len() != "log_dollar_volume"@.len());
    assert("dollar_volume"@.len() != "model_residual"@.len());
    assert("dollar_volume"@.len() != "market_beta"@.len());
    assert("dollar_volume"@.len() != "sector_beta"@.len());
    assert("dollar_volume"@.len() != "sector"@.len());
    assert("log_dollar_volume"@.len() != "model_residual"@.len());
    assert("log_dollar_volume"@.len() != "market_beta"@.len());
    assert("log_dollar_volume"@.len() != "sector_beta"@.len());
    assert("log_dollar_volume"@.len() != "sector"@.len());
    assert("model_residual"@.len() != "market_beta"@.len());
    assert("model_residual"@.len() != "sector_beta"@.len());
    assert("model_residual"@.len() != "sector"@.len());
    assert("market_beta"@[0] != "sector_beta"@[0]);
    assert("market_beta"@.len() != "sector"@.len());
    assert("sector_beta"@.len() != "sector"@.len());
    let t0 = Seq::<(Seq<char>, Double)>::empty();
    let t1 = crate::table::entered(t0, "price"@, m.price);
    let t2 = crate::table::entered(t1, "return"@, m.tick_return);
    let t3 = crate::table::entered(t2, "cumulative_return"@, m.cumulative_return);
    let t4 = crate::table::entered(t3, "dollar_volume"@, m.dollar_volume);
    let t5 = crate::table::entered(t4, "log_dollar_volume"@, m.log_dollar_volume);
    let t6 = crate::table::entered(t5, "model_residual"@, m.model_residual);
    let t7 = crate::table::entered(t6, "market_beta"@, symbol.market_beta);
    let t8 = crate::table::entered(t7, "sector_beta"@, symbol.sector_beta);
    let t9 = crate::table::entered(t8, "sector"@, m.sector);
    crate::table::lemma_entered(t0, "price"@, m.price, "price"@);
    crate::table::lemma_entered(t1, "return"@, m.tick_return, "price"@);
    crate::table::lemma_entered(t1, "return"@, m.tick_return, "return"@);
    crate::table::lemma_entered(t2, "cumulative_return"@, m.cumulative_return, "price"@);
    crate::table::lemma_entered(t2, "cumulative_return"@, m.cumulative_return, "return"@);
    crate::table::lemma_entered(t2, "cumulative_return"@, m.cumulative_return, "cumulative_return"@);
    crate::table::lemma_entered(t3, "dollar_volume"@, m.dollar_volume, "price"@);
    crate::table::lemma_entered(t3, "dollar_volume"@, m.dollar_volume, "return"@);
    crate::table::lemma_entered(t3, "dollar_volume"@, m.dollar_volume, "cumulative_return"@);
    crate::table::lemma_entered(t3, "dollar_volume"@, m.dollar_volume, "dollar_volume"@);
    crate::table::lemma_entered(t4, "log_dollar_volume"@, m.log_dollar_volume, "price"@);
    crate::table::lemma_entered(t4, "log_dollar_volume"@, m.log_dollar_volume, "return"@);
    crate::table::lemma_entered(t4, "log_dollar_volume"@, m.log_dollar_volume, "cumulative_return"@);
    crate::table::lemma_entered(t4, "log_dollar_volume"@, m.log_dollar_volume, "dollar_volume"@);
    crate::table::lemma_entered(t4, "log_dollar_volume"@, m.log_dollar_volume, "log_dollar_volume"@);
    crate::table::lemma_entered(t5, "model_residual"@, m.model_residual, "price"@);
    crate::table::lemma_entered(t5, "model_residual"@, m.model_residual, "return"@);
    crate::table::lemma_entered(t5, "model_residual"@, m.model_residual, "cumulative_return"@);
    crate::table::lemma_entered(t5, "model_residual"@, m.model_residual, "dollar_volume"@);
    crate::table::lemma_entered(t5, "model_residual"@, m.model_residual, "log_dollar_volume"@);
    crate::table::lemma_entered(t5, "model_residual"@, m.model_residual, "model_residual"@);
    crate::table::lemma_entered(t6, "market_beta"@, symbol.market_beta, "price"@);
    crate::table::lemma_entered(t6, "market_beta"@, symbol.market_beta, "return"@);
    crate::table::lemma_entered(t6, "market_beta"@, symbol.market_beta, "cumulative_return"@);
    crate::table::lemma_entered(t6, "market_beta"@, symbol.market_beta, "dollar_volume"@);
    crate::table::lemma_entered(t6, "market_beta"@, symbol.market_beta, "log_dollar_volume"@);
    crate::table::lemma_entered(t6, "market_beta"@, symbol.market_beta, "model_residual"@);
    crate::table::lemma_entered(t6, "market_beta"@, symbol.market_beta, "market_beta"@);
    crate::table::lemma_entered(t7, "sector_beta"@, symbol.sector_beta, "price"@);
    crate::table::lemma_entered(t7, "sector_beta"@, symbol.sector_beta, "return"@);
    crate::table::lemma_entered(t7, "sector_beta"@, symbol.sector_beta, "cumulative_return"@);
    crate::table::lemma_entered(t7, "sector_beta"@, symbol.sector_beta, "dollar_volume"@);
    crate::table::lemma_entered(t7, "sector_beta"@, symbol.sector_beta, "log_dollar_volume"@);
    crate::table::lemma_entered(t7, "sector_beta"@, symbol.sector_beta, "model_residual"@);
    crate::table::lemma_entered(t7, "sector_beta"@, symbol.sector_beta, "market_beta"@);
    crate::table::lemma_entered(t7, "sector_beta"@, symbol.sector_beta, "sector_beta"@);
    crate::table::lemma_entered(t8, "sector"@, m.sector, "price"@);
    crate::table::lemma_entered(t8, "sector"@, m.sector, "return"@);
    crate::table::lemma_entered(t8, "sector"@, m.sector, "cumulative_return"@);
    crate::table::lemma_entered(t8, "sector"@, m.sector, "dollar_volume"@);
    crate::table::lemma_entered(t8, "sector"@, m.sector, "log_dollar_volume"@);
    crate::table::lemma_entered(t8, "sector"@, m.sector, "model_residual"@);
    crate::table::lemma_entered(t8, "sector"@, m.sector, "market_beta"@);
    crate::table::lemma_entered(t8, "sector"@, m.sector, "sector_beta"@);
    crate::table::lemma_entered(t8, "sector"@, m.sector, "sector"@);
}

proof fn lemma_row_fields<A: Arithmetic>(
    math: &A,
    a: MarketView,
    observed_at_ms: i64,
    b: MarketView,
    rows: Seq<crate::cube::RowView>,
    k: int,
) -> (m: MarketFields)
    requires
        market_steps(math, a, observed_at_ms, b, rows),
        0 <= k < rows.len(),
    ensures
        symbol_steps(
            math,
            a.entities[k],
            next_own(a, k),
            crate::random::normal_after(a.rng, (12 + 4 * k) as nat),
            factors(a, b, a.entities[k].sector),
            b.entities[k],
            m,
        ),
        rows[k].key == a.entities[k].key,
        rows[k].observed_at_ms == observed_at_ms,
        rows[k].fields == m.table(a.entities[k]),
{
    let symbol = a.entities[k];
    let own = next_own(a, k);
    let noise = crate::random::normal_after(a.rng, (12 + 4 * k) as nat);
    let f = factors(a, b, symbol.sector);
    let after = b.entities[k];
    assert(symbol_row(math, symbol, own, noise, f, after, observed_at_ms, rows[k]));
    choose|m: MarketFields|
        {
            &&& #[trigger] symbol_steps(math, symbol, own, noise, f, after, m)
            &&& rows[k] == (crate::cube::RowView {
                key: symbol.key,
                observed_at_ms,
                fields: m.table(symbol),
            })
        }
}

proof fn lemma_relative_change(f: crate::reading::Functions, after: Double, before: Double)
    requires
        crate::reading::exact(before) != 0 as real,
    ensures
        (crate::reading::reading(f, crate::synthetic::relative_change(after, before)) + 1 as real)
            * crate::reading::exact(before) == crate::reading::exact(after),
{
    crate::reading::lemma_constants();
    reveal_with_fuel(crate::reading::reading, 3);
    crate::reading::lemma_quotient(crate::reading::exact(after), crate::reading::exact(before));
}

/// A frame reports prices and returns. The price that a row shows is the one
/// that the market keeps; it comes to the exponential of the anchor and the
/// weighted states, or to the least price. One more than the return, times
/// the price before, comes to the price; and one more than the cumulative
/// return, times the exponential of the symbol's anchor, comes to the price
/// too, whatever the prices between were. What the factors account for and the
/// residual together come to the return.
pub proof fn lemma_frame_prices_and_returns<A: Arithmetic>(
    math: &A,
    f: crate::reading::Functions,
    market: &mut OuMarketInjector,
    observed_at_ms: i64,
    frame: OuMarketFrame,
    k: int,
)
    requires
        call_ensures(OuMarketInjector::next_frame::<A>, (market, math, observed_at_ms), frame),
        f.takes_logarithms(),
        0 <= k < old(market)@.entities.len(),
    ensures
        frame.rows@.len() == old(market)@.entities.len(),
        frame.generation == old(market)@.generation + 1,
        frame.observed_at_ms == observed_at_ms,
        ({
            let a = old(market)@;
            let b = final(market)@;
            let was = a.entities[k];
            let now = b.entities[k];
            let row = frame.rows@[k];
            let x = |d: Double| crate::reading::exact(d);
            let shown = |name: Seq<char>| crate::table::found(row.fields@, name);
            let price_now = now.previous_price;
            let market_move = x(b.market_state) - x(a.market_state);
            let sector_move = x(b.sector_states[was.sector]) - x(a.sector_states[was.sector]);
            let e_price = price(was, now.idiosyncratic_state, factors(a, b, was.sector));
            let e_return = crate::synthetic::relative_change(price_now, was.previous_price);
            let e_since = cumulative_return(was, price_now);
            let e_rest = residual(was, price_now, factors(a, b, was.sector));
            &&& row.key@ == was.key
            &&& row.observed_at_ms == observed_at_ms
            &&& shown("price"@) == Some(price_now)
            &&& crate::number::computes(math, e_price, price_now)
            &&& crate::reading::reading(f, e_price) == crate::reading::larger(
                (f.exp)(
                    x(was.anchor_log_price) + x(was.market_beta) * x(b.market_state) + x(
                        was.sector_beta,
                    ) * x(b.sector_states[was.sector]) + x(now.idiosyncratic_state),
                ),
                x(Double { bits: 0x3f84_7ae1_47ae_147b }),
            )
            &&& shown("return"@) is Some
            &&& crate::number::computes(math, e_return, shown("return"@)->0)
            &&& x(was.previous_price) != 0 as real ==> (crate::reading::reading(f, e_return)
                + 1 as real) * x(was.previous_price) == x(price_now)
            &&& shown("cumulative_return"@) is Some
            &&& crate::number::computes(math, e_since, shown("cumulative_return"@)->0)
            &&& (crate::reading::reading(f, e_since) + 1 as real) * (f.exp)(
                x(was.anchor_log_price),
            ) == x(price_now)
            &&& shown("model_residual"@) is Some
            &&& crate::number::computes(math, e_rest, shown("model_residual"@)->0)
            &&& crate::reading::reading(f, e_rest) + x(was.market_beta) * market_move + x(
                was.sector_beta,
            ) * sector_move == crate::reading::reading(f, e_return)
            &&& shown("market_beta"@) == Some(was.market_beta)
            &&& shown("sector_beta"@) == Some(was.sector_beta)
            &&& now.key == was.key
            &&& now.anchor_log_price == was.anchor_log_price
            &&& now.market_beta == was.market_beta
            &&& now.sector_beta == was.sector_beta
            &&& now.sector == was.sector
            &&& now.dollar_volume_base == was.dollar_volume_base
        }),
{
    let a = old(market)@;
    let b = final(market)@;
    let rows = crate::text::views(frame.rows@);
    let m = lemma_row_fields(math, a, observed_at_ms, b, rows, k);
    let was = a.entities[k];
    let now = b.entities[k];
    assert(rows[k] == frame.rows@[k]@);
    lemma_market_table(m, was);
    crate::reading::lemma_constants();
    let p = m.price;
    let fac = factors(a, b, was.sector);
    let e = price(was, now.idiosyncratic_state, fac);
    assert(crate::reading::reading(f, e) == crate::reading::larger(
        (f.exp)(
            crate::reading::exact(was.anchor_log_price) + crate::reading::exact(was.market_beta)
                * crate::reading::exact(b.market_state) + crate::reading::exact(was.sector_beta)
                * crate::reading::exact(b.sector_states[was.sector]) + crate::reading::exact(
                now.idiosyncratic_state,
            ),
        ),
        crate::reading::exact(Double { bits: 0x3f84_7ae1_47ae_147b }),
    )) by {
        reveal_with_fuel(crate::reading::reading, 7);
    }
    if crate::reading::exact(was.previous_price) != 0 as real {
        lemma_relative_change(f, p, was.previous_price);
    }
    let anchor = (f.exp)(crate::reading::exact(was.anchor_log_price));
    assert(anchor > 0 as real);
    crate::reading::lemma_quotient(crate::reading::exact(p), anchor);
    assert(crate::reading::reading(f, cumulative_return(was, p)) == crate::reading::exact(p)
        / anchor - 1 as real) by {
        reveal_with_fuel(crate::reading::reading, 4);
    }
    let change = crate::synthetic::relative_change(p, was.previous_price);
    let modeled = crate::number::e_add(
        crate::number::e_mul(crate::number::Expr::Lit(was.market_beta), fac.market_move),
        crate::number::e_mul(crate::number::Expr::Lit(was.sector_beta), fac.sector_move),
    );
    assert(residual(was, p, fac) == crate::number::e_sub(change, modeled));
    assert(crate::reading::reading(f, modeled) == crate::reading::exact(was.market_beta) * (
    crate::reading::exact(b.market_state) - crate::reading::exact(a.market_state))
        + crate::reading::exact(was.sector_beta) * (crate::reading::exact(
        b.sector_states[was.sector],
    ) - crate::reading::exact(a.sector_states[was.sector]))) by {
        reveal_with_fuel(crate::reading::reading, 5);
    }
}

/// The cumulative return is the return since the symbol's anchor: it does not
/// depend on the price of the frame before.
pub proof fn lemma_cumulative_return_ignores_last_price(
    before: SymbolState,
    other: Double,
    now: Double,
)
    ensures
        cumulative_return(before, now) == cumulative_return(
            SymbolState { previous_price: other, ..before },
            now,
        ),
{
}

/// Over a run of frames the anchor and the weights of a symbol stay what they
/// were at the beginning, and one more than the cumulative return of every
/// frame, times the exponential of that first anchor, comes to the price of
/// the frame.
pub proof fn lemma_run_accumulates_from_anchor<A: Arithmetic>(
    math: &A,
    f: crate::reading::Functions,
    states: Seq<MarketView>,
    times: Seq<i64>,
    frames: Seq<Seq<crate::cube::RowView>>,
    n: int,
    k: int,
)
    requires
        f.takes_logarithms(),
        0 <= n < frames.len(),
        states.len() == frames.len() + 1,
        times.len() == frames.len(),
        forall|i: int|
            0 <= i < frames.len() ==> market_steps(
                math,
                states[i],
                times[i],
                states[i + 1],
                #[trigger] frames[i],
            ),
        0 <= k < states[0].entities.len(),
    ensures
        states[n].entities.len() == states[0].entities.len(),
        states[n].entities[k].anchor_log_price == states[0].entities[k].anchor_log_price,
        states[n].entities[k].market_beta == states[0].entities[k].market_beta,
        states[n].entities[k].sector_beta == states[0].entities[k].sector_beta,
        states[n].entities[k].sector == states[0].entities[k].sector,
        states[n].entities[k].dollar_volume_base == states[0].entities[k].dollar_volume_base,
        ({
            let fields = frames[n][k].fields;
            let first = states[0].entities[k];
            let shown = crate::table::found(fields, "price"@);
            let since = crate::table::found(fields, "cumulative_return"@);
            let e = cumulative_return(first, shown->0);
            &&& shown is Some
            &&& since is Some
            &&& crate::number::computes(math, e, since->0)
            &&& (crate::reading::reading(f, e) + 1 as real) * (f.exp)(
                crate::reading::exact(first.anchor_log_price),
            ) == crate::reading::exact(shown->0)
        }),
    decreases n,
{
    if n > 0 {
        lemma_run_accumulates_from_anchor(math, f, states, times, frames, n - 1, k);
        let m = lemma_row_fields(
            math,
            states[n - 1],
            times[n - 1],
            states[n],
            frames[n - 1],
            k,
        );
    }
    let m = lemma_row_fields(math, states[n], times[n], states[n + 1], frames[n], k);
    let was = states[n].entities[k];
    let first = states[0].entities[k];
    lemma_market_table(m, was);
    crate::reading::lemma_constants();
    assert(cumulative_return(was, m.price) == cumulative_return(first, m.price));
    let anchor = (f.exp)(crate::reading::exact(first.anchor_log_price));
    assert(anchor > 0 as real);
    crate::reading::lemma_quotient(crate::reading::exact(m.price), anchor);
    reveal_with_fuel(crate::reading::reading, 4);
}

/// A frame reports volumes. The volume comes to the symbol's base times the
/// exponential of its noise times one and eighteen times the size of the
/// return; its logarithm is reported beside it; and the sector is shown by its
/// number.
pub proof fn lemma_frame_volumes<A: Arithmetic>(
    math: &A,
    f: crate::reading::Functions,
    market: &mut OuMarketInjector,
    observed_at_ms: i64,
    frame: OuMarketFrame,
    k: int,
)
    requires
        call_ensures(OuMarketInjector::next_frame::<A>, (market, math, observed_at_ms), frame),
        0 <= k < old(market)@.entities.len(),
        old(market)@.sound(),
    ensures
        ({
            let a = old(market)@;
            let was = a.entities[k];
            let now = final(market)@.entities[k];
            let row = frame.rows@[k];
            let shown = |name: Seq<char>| crate::table::found(row.fields@, name);
            let noise = crate::random::normal_after(a.rng, (12 + 4 * k) as nat);
            let e = dollar_volume(was, now.previous_price, noise);
            let e_return = crate::synthetic::relative_change(
                now.previous_price,
                was.previous_price,
            );
            &&& shown("dollar_volume"@) is Some
            &&& crate::number::computes(math, e, shown("dollar_volume"@)->0)
            &&& crate::reading::reading(f, e) == crate::reading::exact(was.dollar_volume_base) * (
            f.exp)(
                crate::reading::exact(Double { bits: 0x3fd6_6666_6666_6666 })
                    * crate::reading::reading(f, noise),
            ) * (1 as real + 18 as real * crate::reading::distance(
                crate::reading::reading(f, e_return),
            ))
            &&& shown("log_dollar_volume"@) is Some
            &&& crate::number::computes(
                math,
                crate::number::e_ln(e),
                shown("log_dollar_volume"@)->0,
            )
            &&& crate::reading::reading(f, crate::number::e_ln(e)) == (f.ln)(
                crate::reading::reading(f, e),
            )
            &&& shown("sector"@) is Some
            &&& crate::number::computes(
                math,
                crate::number::Expr::Int(was.sector as u64),
                shown("sector"@)->0,
            )
        }),
{
    let a = old(market)@;
    let b = final(market)@;
    let rows = crate::text::views(frame.rows@);
    let m = lemma_row_fields(math, a, observed_at_ms, b, rows, k);
    let was = a.entities[k];
    assert(rows[k] == frame.rows@[k]@);
    lemma_market_table(m, was);
    crate::reading::lemma_constants();
    lemma_model_constants();
    let noise = crate::random::normal_after(a.rng, (12 + 4 * k) as nat);
    let change = crate::synthetic::relative_change(m.price, was.previous_price);
    let swing = crate::number::e_exp(
        crate::number::e_mul(crate::number::e_lit(0x3fd6_6666_6666_6666), noise),
    );
    assert(crate::reading::reading(f, swing) == (f.exp)(
        crate::reading::exact(Double { bits: 0x3fd6_6666_6666_6666 }) * crate::reading::reading(
            f,
            noise,
        ),
    )) by {
        reveal_with_fuel(crate::reading::reading, 3);
        assert(crate::reading::reading(
            f,
            crate::number::e_mul(crate::number::e_lit(0x3fd6_6666_6666_6666), noise),
        ) == crate::reading::exact(Double { bits: 0x3fd6_6666_6666_6666 })
            * crate::reading::reading(f, noise));
    }
    let grown = crate::number::e_add(
        crate::number::e_lit(ONE),
        crate::number::e_mul(
            crate::number::e_lit(0x4032_0000_0000_0000),
            crate::number::e_abs(change),
        ),
    );
    assert(crate::reading::reading(f, grown) == 1 as real + 18 as real * crate::reading::distance(
        crate::reading::reading(f, change),
    )) by {
        reveal_with_fuel(crate::reading::reading, 3);
        assert(crate::reading::reading(f, crate::number::e_abs(change)) == crate::reading::distance(
            crate::reading::reading(f, change),
        ));
    }
    let start = crate::number::e_mul(crate::number::Expr::Lit(was.dollar_volume_base), swing);
    assert(crate::reading::reading(f, start) == crate::reading::exact(was.dollar_volume_base)
        * crate::reading::reading(f, swing)) by {
        reveal_with_fuel(crate::reading::reading, 2);
    }
    assert(dollar_volume(was, m.price, noise) == crate::number::e_mul(start, grown));
}

proof fn lemma_reverted_reading(
    f: crate::reading::Functions,
    state: Double,
    pull: u64,
    volatility: u64,
    noise: crate::number::Expr,
)
    ensures
        ({
            let x = crate::reading::exact(state);
            let day = 1 as real / 252 as real;
            crate::reading::reading(f, reverted(state, pull, volatility, noise)) == x
                - crate::reading::exact(Double { bits: pull }) * x * day + crate::reading::exact(
                Double { bits: volatility },
            ) * (f.root)(day) * crate::reading::reading(f, noise)
        }),
{
    lemma_model_constants();
    crate::reading::lemma_constants();
    let x = crate::reading::exact(state);
    let part = 1 as real / 252 as real;
    let p = crate::reading::exact(Double { bits: pull });
    assert(crate::reading::reading(f, day()) == part) by {
        reveal_with_fuel(crate::reading::reading, 2);
    }
    let drift = crate::number::e_mul(
        crate::number::e_mul(
            crate::number::e_lit(pull),
            crate::number::e_neg(crate::number::Expr::Lit(state)),
        ),
        day(),
    );
    assert(crate::reading::reading(f, drift) == p * (-x) * part) by {
        reveal_with_fuel(crate::reading::reading, 4);
    }
    assert(p * (-x) * part == -(p * x * part)) by (nonlinear_arith);
    let width = crate::number::e_mul(
        crate::number::e_lit(volatility),
        crate::number::e_sqrt(day()),
    );
    assert(crate::reading::reading(f, crate::number::e_sqrt(day())) == (f.root)(part));
    assert(crate::reading::reading(f, width) == crate::reading::exact(Double { bits: volatility })
        * (f.root)(part)) by {
        reveal_with_fuel(crate::reading::reading, 2);
    }
    let shake = crate::number::e_mul(width, noise);
    assert(crate::reading::reading(f, shake) == crate::reading::reading(f, width)
        * crate::reading::reading(f, noise));
    let both = crate::number::e_add(drift, shake);
    assert(crate::reading::reading(f, both) == crate::reading::reading(f, drift)
        + crate::reading::reading(f, shake));
    assert(reverted(state, pull, volatility, noise) == crate::number::e_add(
        crate::number::Expr::Lit(state),
        both,
    ));
    assert(crate::reading::reading(f, crate::number::Expr::Lit(state)) == x);
}

/// Every state reverts to zero: after a day it comes to what it was, less its
/// pull for one trading day of the year, plus its volatility for that day
/// times noise of its own. The market, each sector and each symbol take their
/// noise from different draws.
pub proof fn lemma_states_revert<A: Arithmetic>(
    math: &A,
    f: crate::reading::Functions,
    market: &mut OuMarketInjector,
    observed_at_ms: i64,
    frame: OuMarketFrame,
)
    requires
        call_ensures(OuMarketInjector::next_frame::<A>, (market, math, observed_at_ms), frame),
        old(market)@.sound(),
    ensures
        ({
            let a = old(market)@;
            let b = final(market)@;
            let day = 1 as real / 252 as real;
            let x = |d: Double| crate::reading::exact(d);
            let noise = |n: nat|
                crate::reading::reading(
                    f,
                    crate::random::normal(
                        crate::random::drawn(a.rng, n),
                        crate::random::drawn(a.rng, n + 1),
                    ),
                );
            let c = |bits: u64| crate::reading::exact(Double { bits });
            &&& b.sector_states.len() == 4
            &&& crate::number::computes(math, next_market(a), b.market_state)
            &&& crate::reading::reading(f, next_market(a)) == x(a.market_state) - c(
                0x3ff9_9999_9999_999a,
            ) * x(a.market_state) * day + c(0x3fbe_b851_eb85_1eb8) * (f.root)(day) * noise(1)
            &&& forall|s: int|
                0 <= s < 4 ==> {
                    &&& crate::number::computes(
                        math,
                        next_sector(a, s),
                        #[trigger] b.sector_states[s],
                    )
                    &&& crate::reading::reading(f, next_sector(a, s)) == x(a.sector_states[s]) - c(
                        0x4003_3333_3333_3333,
                    ) * x(a.sector_states[s]) * day + c(0x3fc4_7ae1_47ae_147b) * (f.root)(day)
                        * noise((3 + 2 * s) as nat)
                }
            &&& forall|k: int|
                0 <= k < a.entities.len() ==> {
                    let own = a.entities[k].idiosyncratic_state;
                    &&& crate::number::computes(
                        math,
                        next_own(a, k),
                        (#[trigger] b.entities[k]).idiosyncratic_state,
                    )
                    &&& crate::reading::reading(f, next_own(a, k)) == x(own) - 4 as real * x(own)
                        * day + c(0x3fcc_28f5_c28f_5c29) * (f.root)(day) * noise(
                        (11 + 4 * k) as nat,
                    )
                }
            &&& b.rng == crate::random::drawn(a.rng, 10 + 4 * a.entities.len())
        }),
{
    let a = old(market)@;
    let b = final(market)@;
    let rows = crate::text::views(frame.rows@);
    lemma_model_constants();
    lemma_reverted_reading(
        f,
        a.market_state,
        0x3ff9_9999_9999_999a,
        0x3fbe_b851_eb85_1eb8,
        crate::random::normal_after(a.rng, 0),
    );
    assert forall|s: int| 0 <= s < 4 implies crate::number::computes(
        math,
        next_sector(a, s),
        #[trigger] b.sector_states[s],
    ) && crate::reading::reading(f, next_sector(a, s)) == crate::reading::exact(a.sector_states[s])
        - crate::reading::exact(Double { bits: 0x4003_3333_3333_3333 }) * crate::reading::exact(
        a.sector_states[s],
    ) * (1 as real / 252 as real) + crate::reading::exact(Double { bits: 0x3fc4_7ae1_47ae_147b })
        * (f.root)(1 as real / 252 as real) * crate::reading::reading(
        f,
        crate::random::normal(
            crate::random::drawn(a.rng, (3 + 2 * s) as nat),
            crate::random::drawn(a.rng, (3 + 2 * s) as nat + 1),
        ),
    ) by {
        lemma_reverted_reading(
            f,
            a.sector_states[s],
            0x4003_3333_3333_3333,
            0x3fc4_7ae1_47ae_147b,
            crate::random::normal_after(a.rng, (2 + 2 * s) as nat),
        );
        assert((2 + 2 * s) as nat + 1 == (3 + 2 * s) as nat);
        assert((2 + 2 * s) as nat + 2 == (3 + 2 * s) as nat + 1);
    }
    assert forall|k: int| 0 <= k < a.entities.len() implies crate::number::computes(
        math,
        next_own(a, k),
        (#[trigger] b.entities[k]).idiosyncratic_state,
    ) && crate::reading::reading(f, next_own(a, k)) == crate::reading::exact(
        a.entities[k].idiosyncratic_state,
    ) - 4 as real * crate::reading::exact(a.entities[k].idiosyncratic_state) * (1 as real
        / 252 as real) + crate::reading::exact(Double { bits: 0x3fcc_28f5_c28f_5c29 }) * (f.root)(
        1 as real / 252 as real,
    ) * crate::reading::reading(
        f,
        crate::random::normal(
            crate::random::drawn(a.rng, (11 + 4 * k) as nat),
            crate::random::drawn(a.rng, (11 + 4 * k) as nat + 1),
        ),
    ) by {
        let m = lemma_row_fields(math, a, observed_at_ms, b, rows, k);
        lemma_reverted_reading(
            f,
            a.entities[k].idiosyncratic_state,
            0x4010_0000_0000_0000,
            0x3fcc_28f5_c28f_5c29,
            crate::random::normal_after(a.rng, (10 + 4 * k) as nat),
        );
        assert((10 + 4 * k) as nat + 1 == (11 + 4 * k) as nat);
        assert((10 + 4 * k) as nat + 2 == (11 + 4 * k) as nat + 1);
    }
}

proof fn lemma_graded_reading(f: crate::reading::Functions, base: u64, n: nat, step: u64)
    requires
        n <= u64::MAX,
    ensures
        crate::reading::reading(f, graded(base, n, step)) == crate::reading::exact(
            Double { bits: base },
        ) + (n as real) * crate::reading::exact(Double { bits: step }),
{
    reveal_with_fuel(crate::reading::reading, 3);
}

/// A market begins at rest: no generation, no state, each symbol at its anchor
/// price, in the sectors in turn. The anchor price is thirty-five and a step
/// for each position, shaken by up to four, and at least five; the weights and
/// the volumes grow in steps that start over.
pub proof fn lemma_market_begins_at_rest<A: Arithmetic>(
    math: &A,
    f: crate::reading::Functions,
    entity_count: usize,
    seed: u64,
    market: OuMarketInjector,
    i: int,
)
    requires
        call_ensures(OuMarketInjector::new::<A>, (math, entity_count, seed), market),
        0 <= i < market@.entities.len(),
    ensures
        market@.entities.len() == if entity_count == 0 {
            1
        } else {
            entity_count as nat
        },
        market@.generation == 0,
        market@.market_state.bits == 0,
        market@.sector_states.len() == 4,
        forall|s: int| 0 <= s < 4 ==> (#[trigger] market@.sector_states[s]).bits == 0,
        market@.rng == crate::random::drawn(
            crate::random::seeded(seed),
            market@.entities.len(),
        ),
        ({
            let symbol = market@.entities[i];
            let n = i as nat;
            let draw = crate::random::drawn(crate::random::seeded(seed), (i + 1) as nat);
            let c = |bits: u64| crate::reading::exact(Double { bits });
            let e_anchor = anchor(n, draw);
            let e_price = crate::number::e_exp(crate::number::Expr::Lit(symbol.anchor_log_price));
            let e_market = graded(0x3fe8_0000_0000_0000, n % 11, 0x3fac_28f5_c28f_5c29);
            let e_sector = graded(0x3fe4_cccc_cccc_cccd, n % 7, 0x3fb1_eb85_1eb8_51ec);
            let e_volume = graded(0x411e_8480_0000_0000, n % 23, 0x40f5_f900_0000_0000);
            let reads = |e: crate::number::Expr| crate::reading::reading(f, e);
            &&& symbol.key == "SIM"@ + crate::text::zero_padded(n + 1, 4)
            &&& symbol.sector == i % 4
            &&& symbol.idiosyncratic_state.bits == 0
            &&& crate::number::computes(math, e_anchor, symbol.anchor_log_price)
            &&& reads(e_anchor) == (f.ln)(
                crate::reading::larger(
                    35 as real + (n as real) * c(0x3fd7_ae14_7ae1_47ae) + reads(
                        crate::random::symmetric(draw),
                    ) * 4 as real,
                    5 as real,
                ),
            )
            &&& crate::number::computes(math, e_price, symbol.previous_price)
            &&& reads(e_price) == (f.exp)(crate::reading::exact(symbol.anchor_log_price))
            &&& crate::number::computes(math, e_market, symbol.market_beta)
            &&& reads(e_market) == c(0x3fe8_0000_0000_0000) + ((n % 11) as real) * c(
                0x3fac_28f5_c28f_5c29,
            )
            &&& crate::number::computes(math, e_sector, symbol.sector_beta)
            &&& reads(e_sector) == c(0x3fe4_cccc_cccc_cccd) + ((n % 7) as real) * c(
                0x3fb1_eb85_1eb8_51ec,
            )
            &&& crate::number::computes(math, e_volume, symbol.dollar_volume_base)
            &&& reads(e_volume) == 500_000 as real + ((n % 23) as real) * 90_000 as real
        }),
{
    lemma_model_constants();
    let n = i as nat;
    let symbol = market@.entities[i];
    let draw = crate::random::drawn(crate::random::seeded(seed), (i + 1) as nat);
    assert(symbol_begins(math, i, seed, symbol));
    lemma_graded_reading(f, 0x4041_8000_0000_0000, n, 0x3fd7_ae14_7ae1_47ae);
    lemma_graded_reading(f, 0x3fe8_0000_0000_0000, n % 11, 0x3fac_28f5_c28f_5c29);
    lemma_graded_reading(f, 0x3fe4_cccc_cccc_cccd, n % 7, 0x3fb1_eb85_1eb8_51ec);
    lemma_graded_reading(f, 0x411e_8480_0000_0000, n % 23, 0x40f5_f900_0000_0000);
    let first = graded(0x4041_8000_0000_0000, n, 0x3fd7_ae14_7ae1_47ae);
    let shaken = crate::number::e_mul(
        crate::random::symmetric(draw),
        crate::number::e_lit(0x4010_0000_0000_0000),
    );
    assert(crate::reading::reading(f, shaken) == crate::reading::reading(
        f,
        crate::random::symmetric(draw),
    ) * 4 as real) by {
        reveal_with_fuel(crate::reading::reading, 2);
    }
    let level = crate::number::e_add(first, shaken);
    assert(crate::reading::reading(f, level) == crate::reading::reading(f, first)
        + crate::reading::reading(f, shaken));
    let kept = crate::number::e_floor(level, Double { bits: 0x4014_0000_0000_0000 });
    assert(crate::reading::reading(f, kept) == crate::reading::larger(
        crate::reading::reading(f, level),
        5 as real,
    )) by {
        reveal_with_fuel(crate::reading::reading, 2);
    }
    assert(anchor(n, draw) == crate::number::e_ln(kept));
    reveal_with_fuel(crate::reading::reading, 2);
}

/// The score of the demonstration weighs the ranked residual with three
/// quarters and the volume with one, both of which it needs, over nodes that
/// read the fields of a market.
pub proof fn lemma_demo_score_weighs_residual(nodes: Vec<NodeSpec>)
    requires
        call_ensures(market_demo_nodes, (), nodes),
    ensures
        ({
            let graph = crate::text::views(nodes@);
            &&& graph.len() == 5
            &&& graph[0].kind == crate::cube::KindView::Field { field: "price"@ }
            &&& graph[1].kind == crate::cube::KindView::Field { field: "return"@ }
            &&& graph[2].kind == crate::cube::KindView::Field { field: "model_residual"@ }
            &&& graph[3].kind == crate::cube::KindView::Field { field: "log_dollar_volume"@ }
            &&& graph[0].transform == Transform::Identity
            &&& graph[1].transform == Transform::Identity
            &&& graph[2].transform == Transform::RankZScore
            &&& graph[3].transform == Transform::ZScore
            &&& graph[4].transform == Transform::ZScore
            &&& graph[4].kind matches crate::cube::KindView::Linear { inputs, normalize_weights }
            &&& !normalize_weights
            &&& inputs.len() == 2
            &&& inputs[0].node == graph[2].id && inputs[0].required
            &&& inputs[1].node == graph[3].id && inputs[1].required
            &&& 4 as real * crate::reading::exact(inputs[0].weight) == 3 as real
            &&& 4 as real * crate::reading::exact(inputs[1].weight) == 1 as real
        }),
{
    vstd::arithmetic::power2::lemma2_to64();
    vstd::arithmetic::power2::lemma2_to64_rest();
    crate::reading::lemma_literal(0x3fe8_0000_0000_0000, 53);
    crate::reading::lemma_literal(0x3fd0_0000_0000_0000, 54);
    let x = crate::reading::exact(Double { bits: 0x3fe8_0000_0000_0000 });
    let y = crate::reading::exact(Double { bits: 0x3fd0_0000_0000_0000 });
    let unit = 0x8_0000_0000_0000 as real;
    assert(x * (4 as real * unit) == 3 as real * unit);
    assert(y * (8 as real * unit) == 2 as real * unit);
    assert(4 as real * x == 3 as real) by (nonlinear_arith)
        requires
            x * (4 as real * unit) == 3 as real * unit,
            unit > 0 as real,
    ;
    assert(4 as real * y == 1 as real) by (nonlinear_arith)
        requires
            y * (8 as real * unit) == 2 as real * unit,
            unit > 0 as real,
    ;
    let graph = crate::text::views(nodes@);
    assert(graph == market_demo_graph());
    assert(graph[4] == market_demo_graph()[4]);
}

/// A frame is of the next generation and of the time that it was asked for; it
/// has a row for every symbol, in their order and of that time, and the symbols
/// stay.
pub proof fn lemma_frames_follow_each_other<A: Arithmetic>(
    injector: &mut OuMarketInjector,
    math: &A,
    observed_at_ms: i64,
    frame: OuMarketFrame,
    before: Vec<String>,
    after: Vec<String>,
    generation: u64,
)
    requires
        old(injector)@.generation < u64::MAX,
        call_ensures(OuMarketInjector::symbols, (&*old(injector),), before),
        call_ensures(OuMarketInjector::generation, (&*old(injector),), generation),
        call_ensures(OuMarketInjector::next_frame::<A>, (injector, math, observed_at_ms), frame),
        call_ensures(OuMarketInjector::symbols, (&*final(injector),), after),
    ensures
        frame.generation == generation + 1,
        frame.generation == final(injector)@.generation,
        frame.observed_at_ms == observed_at_ms,
        frame.rows@.len() == before@.len(),
        after@.len() == before@.len(),
        forall|k: int|
            0 <= k < before@.len() ==> {
                &&& (#[trigger] frame.rows@[k]).key@ == before@[k]@
                &&& frame.rows@[k].observed_at_ms == observed_at_ms
                &&& after@[k]@ == before@[k]@
            },
{
    let rows = crate::text::views(frame.rows@);
    assert forall|k: int| 0 <= k < before@.len() implies ({
        &&& (#[trigger] frame.rows@[k]).key@ == before@[k]@
        &&& frame.rows@[k].observed_at_ms == observed_at_ms
        &&& after@[k]@ == before@[k]@
    }) by {
        assert(rows[k] == frame.rows@[k]@);
    }
}

/// A frame becomes a live update of its own generation, time and rows over the
/// nodes that it is given.
pub proof fn lemma_frame_becomes_update(
    frame: OuMarketFrame,
    nodes: Vec<NodeSpec>,
    update: Update,
)
    requires
        call_ensures(OuMarketFrame::into_update, (frame, nodes), update),
    ensures
        update.generation == frame.generation,
        update.observed_at_ms == frame.observed_at_ms,
        update.mode == ExecutionMode::Live,
        crate::text::views(update.rows@) == crate::text::views(frame.rows@),
        crate::text::views(update.nodes@) == crate::text::views(nodes@),
{
    assert(update@.generation == update.generation);
    assert(update@.mode == update.mode);
}

} // verus!
