//! Fixed records for shared slots.

use crate::header::ValueType;
use crate::number::{Arithmetic, Double, Term, HALF, NOT_A_NUMBER, ZERO};
use crate::slice_error::SliceError;
use crate::text::same_text;
use vstd::prelude::*;

verus! {

/// The fixed record contains a usable observation.
pub const RECORD_FLAG_VALID: u64 = 0x1;

/// The trade record was classified as buyer initiated.
pub const RECORD_FLAG_TRADE_BUY: u64 = 0x2;

/// The trade record was classified as seller initiated.
pub const RECORD_FLAG_TRADE_SELL: u64 = 0x4;

/// A TAQ record includes prevailing quote context.
pub const TAQ_FLAG_HAS_QUOTE: u64 = 0x100;

/// The attached quote exceeded the configured maximum age.
pub const TAQ_FLAG_QUOTE_STALE: u64 = 0x200;

/// The attached quote timestamp is later than the trade timestamp.
pub const TAQ_FLAG_QUOTE_AFTER_TRADE: u64 = 0x400;

/// Ten thousand, the number of basis points in one.
pub const BASIS_POINTS: u64 = 0x40c3_8800_0000_0000;

/// Whether a number is finite and above zero.
pub open spec fn positive(x: Double) -> bool {
    x.finite() && (Double { bits: ZERO }).lt(x)
}

fn is_positive(x: Double) -> (r: bool)
    ensures
        r == positive(x),
{
    x.is_finite() && (Double { bits: ZERO }).is_below(x)
}

/// Version-1 top-of-book quote payload.
///
/// The fixed, pointer-free layout is suitable for a shared slice slot. Prices
/// and quantities retain the producer's declared units.
#[derive(Debug, Clone, Copy, PartialEq)]
pub struct QuoteV1 {
    /// Source or exchange event time in Unix-epoch nanoseconds.
    pub exchange_ts_ns: i64,
    /// Local ingestion time in Unix-epoch nanoseconds.
    pub ingest_ts_ns: i64,
    /// Best bid price.
    pub bid_px: Double,
    /// Quantity available at the best bid.
    pub bid_qty: Double,
    /// Best ask price.
    pub ask_px: Double,
    /// Quantity available at the best ask.
    pub ask_qty: Double,
    /// Arithmetic midpoint when both sides are positive and finite.
    pub mid_px: Double,
    /// Bid/ask spread in basis points of midpoint.
    pub spread_bps: Double,
    /// Record-quality bits such as [`RECORD_FLAG_VALID`].
    pub flags: u64,
}

/// The number zero.
pub open spec fn zero() -> Double {
    Double { bits: ZERO }
}

/// The absent number.
pub open spec fn absent() -> Double {
    Double { bits: NOT_A_NUMBER }
}

impl Default for QuoteV1 {
    fn default() -> (quote: Self)
        ensures
            quote.exchange_ts_ns == 0,
            quote.ingest_ts_ns == 0,
            quote.bid_px == zero(),
            quote.bid_qty == zero(),
            quote.ask_px == zero(),
            quote.ask_qty == zero(),
            quote.mid_px == zero(),
            quote.spread_bps == zero(),
            quote.flags == 0,
    {
        let none = Double { bits: ZERO };
        QuoteV1 {
            exchange_ts_ns: 0,
            ingest_ts_ns: 0,
            bid_px: none,
            bid_qty: none,
            ask_px: none,
            ask_qty: none,
            mid_px: none,
            spread_bps: none,
            flags: 0,
        }
    }
}

/// Half the sum of two prices.
pub open spec fn midpoint(bid: Double, ask: Double) -> crate::number::Expr {
    crate::number::e_mul(
        crate::number::e_lit(HALF),
        crate::number::e_add(crate::number::Expr::Lit(bid), crate::number::Expr::Lit(ask)),
    )
}

/// The difference of two prices in basis points of their midpoint.
pub open spec fn spread(bid: Double, ask: Double, mid: Double) -> crate::number::Expr {
    crate::number::e_mul(
        crate::number::e_div(
            crate::number::e_sub(crate::number::Expr::Lit(ask), crate::number::Expr::Lit(bid)),
            crate::number::Expr::Lit(mid),
        ),
        crate::number::e_lit(BASIS_POINTS),
    )
}

impl QuoteV1 {
    /// Construct a valid quote and derive midpoint and spread.
    pub fn new<A: Arithmetic>(
        math: &A,
        exchange_ts_ns: i64,
        ingest_ts_ns: i64,
        bid_px: Double,
        bid_qty: Double,
        ask_px: Double,
        ask_qty: Double,
    ) -> (quote: Self)
        ensures
            quote.exchange_ts_ns == exchange_ts_ns,
            quote.ingest_ts_ns == ingest_ts_ns,
            quote.bid_px == bid_px,
            quote.bid_qty == bid_qty,
            quote.ask_px == ask_px,
            quote.ask_qty == ask_qty,
            quote.flags == RECORD_FLAG_VALID,
            if positive(bid_px) && positive(ask_px) {
                crate::number::computes(math, midpoint(bid_px, ask_px), quote.mid_px)
            } else {
                quote.mid_px == absent()
            },
            if positive(quote.mid_px) {
                crate::number::computes(
                    math,
                    spread(bid_px, ask_px, quote.mid_px),
                    quote.spread_bps,
                )
            } else {
                quote.spread_bps == absent()
            },
            quote.valid(),
    {
        let bid = Term::literal(math, bid_px);
        let ask = Term::literal(math, ask_px);
        let mid_px: Double = if is_positive(bid_px) && is_positive(ask_px) {
            let mid = Term::constant(math, HALF).times(math, bid.plus(math, ask));
            assert(mid.expr@ == midpoint(bid_px, ask_px));
            mid.value
        } else {
            Double { bits: NOT_A_NUMBER }
        };
        let spread_bps: Double = if is_positive(mid_px) {
            let width = ask.minus(math, bid).over(math, Term::literal(math, mid_px)).times(
                math,
                Term::constant(math, BASIS_POINTS),
            );
            assert(width.expr@ == spread(bid_px, ask_px, mid_px));
            width.value
        } else {
            Double { bits: NOT_A_NUMBER }
        };
        assert(1u64 & 1u64 != 0) by (bit_vector);
        QuoteV1 {
            exchange_ts_ns,
            ingest_ts_ns,
            bid_px,
            bid_qty,
            ask_px,
            ask_qty,
            mid_px,
            spread_bps,
            flags: RECORD_FLAG_VALID,
        }
    }

    /// Whether [`RECORD_FLAG_VALID`] is set.
    pub open spec fn valid(self) -> bool {
        self.flags & RECORD_FLAG_VALID != 0
    }

    /// Return whether [`RECORD_FLAG_VALID`] is set.
    pub fn is_valid(&self) -> (valid: bool)
        ensures
            valid == self.valid(),
    {
        self.flags & RECORD_FLAG_VALID != 0
    }
}

/// Version-1 trade payload.
#[derive(Debug, Clone, Copy, PartialEq)]
pub struct TradeV1 {
    /// Source or exchange event time in Unix-epoch nanoseconds.
    pub exchange_ts_ns: i64,
    /// Upstream system timestamp in Unix-epoch nanoseconds.
    pub system_ts_ns: i64,
    /// Local ingestion time in Unix-epoch nanoseconds.
    pub ingest_ts_ns: i64,
    /// Execution price.
    pub px: Double,
    /// Unsigned execution quantity.
    pub qty: Double,
    /// Positive buy, negative sell, or zero unclassified quantity.
    pub signed_qty: Double,
    /// Validity and trade-side classification bits.
    pub flags: u64,
}

impl Default for TradeV1 {
    fn default() -> (trade: Self)
        ensures
            trade.exchange_ts_ns == 0,
            trade.system_ts_ns == 0,
            trade.ingest_ts_ns == 0,
            trade.px == zero(),
            trade.qty == zero(),
            trade.signed_qty == zero(),
            trade.flags == 0,
    {
        let none = Double { bits: ZERO };
        TradeV1 {
            exchange_ts_ns: 0,
            system_ts_ns: 0,
            ingest_ts_ns: 0,
            px: none,
            qty: none,
            signed_qty: none,
            flags: 0,
        }
    }
}

/// Whether a word, trimmed and in lower case, says that the buyer acted.
pub open spec fn means_buy(word: Seq<char>) -> bool {
    word == "buy"@ || word == "b"@ || word == "bid"@ || word == "ask_lift"@ || word == "lift"@
}

/// Whether a word, trimmed and in lower case, says that the seller acted.
pub open spec fn means_sell(word: Seq<char>) -> bool {
    word == "sell"@ || word == "s"@ || word == "ask"@ || word == "bid_hit"@ || word == "hit"@
}

/// The form of a side by which it is recognized.
pub open spec fn side_word(side: Seq<char>) -> Seq<char> {
    crate::text::lowercase(crate::text::trimmed(side))
}

impl TradeV1 {
    /// Construct a valid trade and classify a recognized textual side.
    pub fn new(
        exchange_ts_ns: i64,
        system_ts_ns: i64,
        ingest_ts_ns: i64,
        px: Double,
        qty: Double,
        side: Option<&str>,
    ) -> (trade: Self)
        ensures
            trade.exchange_ts_ns == exchange_ts_ns,
            trade.system_ts_ns == system_ts_ns,
            trade.ingest_ts_ns == ingest_ts_ns,
            trade.px == px,
            trade.qty == qty,
            if side matches Some(word) && means_buy(side_word(word@)) {
                &&& trade.signed_qty == qty.abs()
                &&& trade.flags == RECORD_FLAG_VALID | RECORD_FLAG_TRADE_BUY
            } else if side matches Some(word) && means_sell(side_word(word@)) {
                &&& trade.signed_qty == qty.abs().neg()
                &&& trade.flags == RECORD_FLAG_VALID | RECORD_FLAG_TRADE_SELL
            } else {
                &&& trade.signed_qty == zero()
                &&& trade.flags == RECORD_FLAG_VALID
            },
            trade.valid(),
    {
        let mut flags: u64 = RECORD_FLAG_VALID;
        let mut signed_qty: Double = Double { bits: ZERO };
        match side {
            Some(side) => {
                let lowered: String = side.trim().to_ascii_lowercase();
                let word: &str = lowered.as_str();
                if same_text(word, "buy") || same_text(word, "b") || same_text(word, "bid")
                    || same_text(word, "ask_lift") || same_text(word, "lift") {
                    flags = flags | RECORD_FLAG_TRADE_BUY;
                    signed_qty = qty.absolute();
                } else if same_text(word, "sell") || same_text(word, "s") || same_text(word, "ask")
                    || same_text(word, "bid_hit") || same_text(word, "hit") {
                    flags = flags | RECORD_FLAG_TRADE_SELL;
                    signed_qty = qty.absolute().negated();
                }
            },
            None => {},
        }
        assert((1u64 | 2u64) & 1u64 != 0 && (1u64 | 4u64) & 1u64 != 0 && 1u64 & 1u64 != 0)
            by (bit_vector);
        TradeV1 { exchange_ts_ns, system_ts_ns, ingest_ts_ns, px, qty, signed_qty, flags }
    }

    /// Whether [`RECORD_FLAG_VALID`] is set.
    pub open spec fn valid(self) -> bool {
        self.flags & RECORD_FLAG_VALID != 0
    }

    /// Return whether [`RECORD_FLAG_VALID`] is set.
    pub fn is_valid(&self) -> (valid: bool)
        ensures
            valid == self.valid(),
    {
        self.flags & RECORD_FLAG_VALID != 0
    }
}

/// Version-1 trade-and-prevailing-quote payload.
///
/// TAQ retains both source timestamps and quality flags so a consumer can
/// decide whether the local quote-at-trade join is suitable for its purpose.
#[derive(Debug, Clone, Copy, PartialEq)]
pub struct TaqV1 {
    /// Trade source timestamp in Unix-epoch nanoseconds.
    pub trade_exchange_ts_ns: i64,
    /// Trade upstream-system timestamp in Unix-epoch nanoseconds.
    pub trade_system_ts_ns: i64,
    /// Trade local-ingestion timestamp in Unix-epoch nanoseconds.
    pub trade_ingest_ts_ns: i64,
    /// Quote source timestamp in Unix-epoch nanoseconds.
    pub quote_exchange_ts_ns: i64,
    /// Quote local-ingestion timestamp in Unix-epoch nanoseconds.
    pub quote_ingest_ts_ns: i64,
    /// Trade source time minus quote source time.
    pub quote_age_ns: i64,
    /// Execution price.
    pub trade_px: Double,
    /// Unsigned execution quantity.
    pub trade_qty: Double,
    /// Signed execution quantity copied from the trade.
    pub signed_qty: Double,
    /// Prevailing best bid price.
    pub bid_px: Double,
    /// Prevailing best bid quantity.
    pub bid_qty: Double,
    /// Prevailing best ask price.
    pub ask_px: Double,
    /// Prevailing best ask quantity.
    pub ask_qty: Double,
    /// Prevailing quote midpoint.
    pub mid_px: Double,
    /// Prevailing quote spread in basis points.
    pub spread_bps: Double,
    /// Validity, trade-side, and quote-quality bits.
    pub flags: u64,
}

impl Default for TaqV1 {
    fn default() -> (taq: Self)
        ensures
            taq == blank_taq(),
    {
        let none = Double { bits: ZERO };
        TaqV1 {
            trade_exchange_ts_ns: 0,
            trade_system_ts_ns: 0,
            trade_ingest_ts_ns: 0,
            quote_exchange_ts_ns: 0,
            quote_ingest_ts_ns: 0,
            quote_age_ns: 0,
            trade_px: none,
            trade_qty: none,
            signed_qty: none,
            bid_px: none,
            bid_qty: none,
            ask_px: none,
            ask_qty: none,
            mid_px: none,
            spread_bps: none,
            flags: 0,
        }
    }
}

/// A record of zeros.
pub open spec fn blank_taq() -> TaqV1 {
    TaqV1 {
        trade_exchange_ts_ns: 0,
        trade_system_ts_ns: 0,
        trade_ingest_ts_ns: 0,
        quote_exchange_ts_ns: 0,
        quote_ingest_ts_ns: 0,
        quote_age_ns: 0,
        trade_px: zero(),
        trade_qty: zero(),
        signed_qty: zero(),
        bid_px: zero(),
        bid_qty: zero(),
        ask_px: zero(),
        ask_qty: zero(),
        mid_px: zero(),
        spread_bps: zero(),
        flags: 0,
    }
}

/// A difference of times, kept within the range of a machine integer.
pub open spec fn time_between(a: i64, b: i64) -> i64 {
    if a - b > i64::MAX {
        i64::MAX
    } else if a - b < i64::MIN {
        i64::MIN
    } else {
        (a - b) as i64
    }
}

fn saturating_between(a: i64, b: i64) -> (d: i64)
    ensures
        d == time_between(a, b),
{
    let wide: i128 = a as i128 - b as i128;
    if wide > i64::MAX as i128 {
        i64::MAX
    } else if wide < i64::MIN as i128 {
        i64::MIN
    } else {
        wide as i64
    }
}

/// The trade's part of a joined record.
pub open spec fn trade_part(trade: TradeV1) -> TaqV1 {
    TaqV1 {
        trade_exchange_ts_ns: trade.exchange_ts_ns,
        trade_system_ts_ns: trade.system_ts_ns,
        trade_ingest_ts_ns: trade.ingest_ts_ns,
        trade_px: trade.px,
        trade_qty: trade.qty,
        signed_qty: trade.signed_qty,
        flags: RECORD_FLAG_VALID | (trade.flags & (RECORD_FLAG_TRADE_BUY | RECORD_FLAG_TRADE_SELL)),
        ..blank_taq()
    }
}

/// The quality flags of a quote of some age, beside flags that are there.
pub open spec fn quote_flags(flags: u64, age: i64, max_quote_age_ns: i64) -> u64 {
    let with_quote = flags | TAQ_FLAG_HAS_QUOTE;
    let with_order = if age < 0 {
        with_quote | TAQ_FLAG_QUOTE_AFTER_TRADE
    } else {
        with_quote
    };
    if max_quote_age_ns > 0 && age > max_quote_age_ns {
        with_order | TAQ_FLAG_QUOTE_STALE
    } else {
        with_order
    }
}

/// A trade joined to the quote that prevailed.
pub open spec fn joined(trade: TradeV1, quote: Option<QuoteV1>, max_quote_age_ns: i64) -> TaqV1 {
    let part = trade_part(trade);
    if quote matches Some(q) && q.valid() {
        let age = time_between(trade.exchange_ts_ns, quote->0.exchange_ts_ns);
        TaqV1 {
            quote_exchange_ts_ns: quote->0.exchange_ts_ns,
            quote_ingest_ts_ns: quote->0.ingest_ts_ns,
            quote_age_ns: age,
            bid_px: quote->0.bid_px,
            bid_qty: quote->0.bid_qty,
            ask_px: quote->0.ask_px,
            ask_qty: quote->0.ask_qty,
            mid_px: quote->0.mid_px,
            spread_bps: quote->0.spread_bps,
            flags: quote_flags(part.flags, age, max_quote_age_ns),
            ..part
        }
    } else {
        TaqV1 { quote_age_ns: i64::MAX, mid_px: absent(), spread_bps: absent(), ..part }
    }
}

impl TaqV1 {
    /// Join a trade to an optional prevailing quote and set age-quality flags.
    pub fn from_trade_and_quote(
        trade: TradeV1,
        quote: Option<QuoteV1>,
        max_quote_age_ns: i64,
    ) -> (taq: Self)
        ensures
            taq == joined(trade, quote, max_quote_age_ns),
    {
        let none = Double { bits: ZERO };
        let mut out = TaqV1 {
            trade_exchange_ts_ns: trade.exchange_ts_ns,
            trade_system_ts_ns: trade.system_ts_ns,
            trade_ingest_ts_ns: trade.ingest_ts_ns,
            quote_exchange_ts_ns: 0,
            quote_ingest_ts_ns: 0,
            quote_age_ns: 0,
            trade_px: trade.px,
            trade_qty: trade.qty,
            signed_qty: trade.signed_qty,
            bid_px: none,
            bid_qty: none,
            ask_px: none,
            ask_qty: none,
            mid_px: none,
            spread_bps: none,
            flags: RECORD_FLAG_VALID | (trade.flags & (RECORD_FLAG_TRADE_BUY
                | RECORD_FLAG_TRADE_SELL)),
        };
        let usable: bool = match quote {
            Some(q) => q.is_valid(),
            None => false,
        };
        match quote {
            Some(q) if usable => {
                out.quote_exchange_ts_ns = q.exchange_ts_ns;
                out.quote_ingest_ts_ns = q.ingest_ts_ns;
                out.quote_age_ns = saturating_between(trade.exchange_ts_ns, q.exchange_ts_ns);
                out.bid_px = q.bid_px;
                out.bid_qty = q.bid_qty;
                out.ask_px = q.ask_px;
                out.ask_qty = q.ask_qty;
                out.mid_px = q.mid_px;
                out.spread_bps = q.spread_bps;
                out.flags = out.flags | TAQ_FLAG_HAS_QUOTE;
                if out.quote_age_ns < 0 {
                    out.flags = out.flags | TAQ_FLAG_QUOTE_AFTER_TRADE;
                }
                if max_quote_age_ns > 0 && out.quote_age_ns > max_quote_age_ns {
                    out.flags = out.flags | TAQ_FLAG_QUOTE_STALE;
                }
            },
            _ => {
                out.quote_age_ns = i64::MAX;
                out.mid_px = Double { bits: NOT_A_NUMBER };
                out.spread_bps = Double { bits: NOT_A_NUMBER };
            },
        }
        out
    }

    /// Return whether the record contains a quote.
    pub fn has_quote(&self) -> (has: bool)
        ensures
            has == (self.flags & TAQ_FLAG_HAS_QUOTE != 0),
    {
        self.flags & TAQ_FLAG_HAS_QUOTE != 0
    }

    /// Return whether the quote exceeded the configured maximum age.
    pub fn quote_is_stale(&self) -> (stale: bool)
        ensures
            stale == (self.flags & TAQ_FLAG_QUOTE_STALE != 0),
    {
        self.flags & TAQ_FLAG_QUOTE_STALE != 0
    }

    /// Return whether the quote source timestamp follows the trade.
    pub fn quote_is_after_trade(&self) -> (after: bool)
        ensures
            after == (self.flags & TAQ_FLAG_QUOTE_AFTER_TRADE != 0),
    {
        self.flags & TAQ_FLAG_QUOTE_AFTER_TRADE != 0
    }
}

/// The flags of a joined record say exactly whether there is a usable quote,
/// whether it is older than allowed, and whether it is later than the trade;
/// and they keep the side of the trade.
pub proof fn lemma_joined_flags(trade: TradeV1, quote: Option<QuoteV1>, max_quote_age_ns: i64)
    ensures
        ({
            let taq = joined(trade, quote, max_quote_age_ns);
            let usable = quote matches Some(q) && q.valid();
            &&& taq.flags & RECORD_FLAG_VALID != 0
            &&& (taq.flags & TAQ_FLAG_HAS_QUOTE != 0) == usable
            &&& (taq.flags & TAQ_FLAG_QUOTE_AFTER_TRADE != 0) == (usable && taq.quote_age_ns < 0)
            &&& (taq.flags & TAQ_FLAG_QUOTE_STALE != 0) == (usable && max_quote_age_ns > 0
                && taq.quote_age_ns > max_quote_age_ns)
            &&& taq.flags & RECORD_FLAG_TRADE_BUY == trade.flags & RECORD_FLAG_TRADE_BUY
            &&& taq.flags & RECORD_FLAG_TRADE_SELL == trade.flags & RECORD_FLAG_TRADE_SELL
        }),
{
    let f = trade.flags;
    let base = 0x1u64 | (f & (0x2u64 | 0x4u64));
    assert(base & 0x1u64 != 0 && base & 0x100u64 == 0 && base & 0x200u64 == 0 && base & 0x400u64
        == 0 && base & 0x2u64 == f & 0x2u64 && base & 0x4u64 == f & 0x4u64) by (bit_vector)
        requires
            base == 0x1u64 | (f & (0x2u64 | 0x4u64)),
    ;
    lemma_flag_set(base, 0x100u64);
    let quoted = base | 0x100u64;
    lemma_flag_set(quoted, 0x400u64);
    let later = quoted | 0x400u64;
    lemma_flag_set(quoted, 0x200u64);
    lemma_flag_set(later, 0x200u64);
}

proof fn lemma_flag_set(flags: u64, flag: u64)
    requires
        flag == 0x100u64 || flag == 0x200u64 || flag == 0x400u64,
    ensures
        (flags | flag) & flag != 0,
        (flags | flag) & 0x1u64 == flags & 0x1u64,
        (flags | flag) & 0x2u64 == flags & 0x2u64,
        (flags | flag) & 0x4u64 == flags & 0x4u64,
        flag != 0x100u64 ==> (flags | flag) & 0x100u64 == flags & 0x100u64,
        flag != 0x200u64 ==> (flags | flag) & 0x200u64 == flags & 0x200u64,
        flag != 0x400u64 ==> (flags | flag) & 0x400u64 == flags & 0x400u64,
{
    assert((flags | flag) & flag != 0 && (flags | flag) & 0x1u64 == flags & 0x1u64 && (flags | flag)
        & 0x2u64 == flags & 0x2u64 && (flags | flag) & 0x4u64 == flags & 0x4u64 && (flag
        != 0x100u64 ==> (flags | flag) & 0x100u64 == flags & 0x100u64) && (flag != 0x200u64 ==> (
    flags | flag) & 0x200u64 == flags & 0x200u64) && (flag != 0x400u64 ==> (flags | flag)
        & 0x400u64 == flags & 0x400u64)) by (bit_vector)
        requires
            flag == 0x100u64 || flag == 0x200u64 || flag == 0x400u64,
    ;
}

/// Marker for fixed-size, pointer-free records supported by struct slices.
pub trait SliceRecord: Copy + Default + 'static {
    /// Physical schema of this record.
    spec fn schema() -> ValueType;

    /// The record as it stands in a slot behind the counter, one 64-bit word
    /// per field.
    spec fn words(&self) -> Seq<u64>;

    /// Return the physical schema of this record.
    fn value_type() -> (value_type: ValueType)
        ensures
            value_type == Self::schema(),
    ;

    /// Return the words of the record: as many as fill a slot with the
    /// counter.
    fn to_words(&self) -> (words: Vec<u64>)
        ensures
            words@ == self.words(),
            8 * (words@.len() + 1) == Self::schema().width(),
    ;

    /// Take words as a record.
    fn from_words(words: &Vec<u64>) -> (result: Result<Self, SliceError>)
        ensures
            match result {
                Ok(record) => record.words() == words@,
                Err(e) => 8 * (words@.len() + 1) != Self::schema().width() && e@
                    == crate::slice_error::SliceFault::RecordLength {
                    expected: (Self::schema().width() / 8 - 1) as usize,
                    actual: words@.len() as usize,
                },
            },
    ;

    /// Records with the same words are the same: what is read from a slot is
    /// what was written to it.
    proof fn words_determine(a: Self, b: Self)
        requires
            a.words() == b.words(),
        ensures
            a == b,
    ;
}

proof fn lemma_signed_word(w: u64)
    ensures
        (w as i64) as u64 == w,
{
    assert((w as i64) as u64 == w) by (bit_vector);
}

proof fn lemma_signed_back(n: i64)
    ensures
        (n as u64) as i64 == n,
{
    assert((n as u64) as i64 == n) by (bit_vector);
}

impl SliceRecord for QuoteV1 {
    open spec fn schema() -> ValueType {
        ValueType::QuoteV1
    }

    open spec fn words(&self) -> Seq<u64> {
        seq![
            self.exchange_ts_ns as u64,
            self.ingest_ts_ns as u64,
            self.bid_px.bits,
            self.bid_qty.bits,
            self.ask_px.bits,
            self.ask_qty.bits,
            self.mid_px.bits,
            self.spread_bps.bits,
            self.flags,
        ]
    }

    fn value_type() -> ValueType {
        ValueType::QuoteV1
    }

    fn to_words(&self) -> Vec<u64> {
        let words: Vec<u64> = vec![
            self.exchange_ts_ns as u64,
            self.ingest_ts_ns as u64,
            self.bid_px.bits,
            self.bid_qty.bits,
            self.ask_px.bits,
            self.ask_qty.bits,
            self.mid_px.bits,
            self.spread_bps.bits,
            self.flags,
        ];
        assert(words@ =~= self.words());
        words
    }

    fn from_words(words: &Vec<u64>) -> Result<Self, SliceError> {
        if words.len() != 9 {
            return Err(SliceError::RecordLength { expected: 9, actual: words.len() });
        }
        let record = QuoteV1 {
            exchange_ts_ns: words[0] as i64,
            ingest_ts_ns: words[1] as i64,
            bid_px: Double { bits: words[2] },
            bid_qty: Double { bits: words[3] },
            ask_px: Double { bits: words[4] },
            ask_qty: Double { bits: words[5] },
            mid_px: Double { bits: words[6] },
            spread_bps: Double { bits: words[7] },
            flags: words[8],
        };
        proof {
            lemma_signed_word(words@[0]);
            lemma_signed_word(words@[1]);
            assert(record.words() =~= words@);
        }
        Ok(record)
    }

    proof fn words_determine(a: Self, b: Self) {
        lemma_signed_back(a.exchange_ts_ns);
        lemma_signed_back(b.exchange_ts_ns);
        lemma_signed_back(a.ingest_ts_ns);
        lemma_signed_back(b.ingest_ts_ns);
        assert(a.words()[0] == b.words()[0]);
        assert(a.words()[1] == b.words()[1]);
        assert(a.words()[2] == b.words()[2]);
        assert(a.words()[3] == b.words()[3]);
        assert(a.words()[4] == b.words()[4]);
        assert(a.words()[5] == b.words()[5]);
        assert(a.words()[6] == b.words()[6]);
        assert(a.words()[7] == b.words()[7]);
        assert(a.words()[8] == b.words()[8]);
    }
}

impl SliceRecord for TradeV1 {
    open spec fn schema() -> ValueType {
        ValueType::TradeV1
    }

    open spec fn words(&self) -> Seq<u64> {
        seq![
            self.exchange_ts_ns as u64,
            self.system_ts_ns as u64,
            self.ingest_ts_ns as u64,
            self.px.bits,
            self.qty.bits,
            self.signed_qty.bits,
            self.flags,
        ]
    }

    fn value_type() -> ValueType {
        ValueType::TradeV1
    }

    fn to_words(&self) -> Vec<u64> {
        let words: Vec<u64> = vec![
            self.exchange_ts_ns as u64,
            self.system_ts_ns as u64,
            self.ingest_ts_ns as u64,
            self.px.bits,
            self.qty.bits,
            self.signed_qty.bits,
            self.flags,
        ];
        assert(words@ =~= self.words());
        words
    }

    fn from_words(words: &Vec<u64>) -> Result<Self, SliceError> {
        if words.len() != 7 {
            return Err(SliceError::RecordLength { expected: 7, actual: words.len() });
        }
        let record = TradeV1 {
            exchange_ts_ns: words[0] as i64,
            system_ts_ns: words[1] as i64,
            ingest_ts_ns: words[2] as i64,
            px: Double { bits: words[3] },
            qty: Double { bits: words[4] },
            signed_qty: Double { bits: words[5] },
            flags: words[6],
        };
        proof {
            lemma_signed_word(words@[0]);
            lemma_signed_word(words@[1]);
            lemma_signed_word(words@[2]);
            assert(record.words() =~= words@);
        }
        Ok(record)
    }

    proof fn words_determine(a: Self, b: Self) {
        lemma_signed_back(a.exchange_ts_ns);
        lemma_signed_back(b.exchange_ts_ns);
        lemma_signed_back(a.system_ts_ns);
        lemma_signed_back(b.system_ts_ns);
        lemma_signed_back(a.ingest_ts_ns);
        lemma_signed_back(b.ingest_ts_ns);
        assert(a.words()[0] == b.words()[0]);
        assert(a.words()[1] == b.words()[1]);
        assert(a.words()[2] == b.words()[2]);
        assert(a.words()[3] == b.words()[3]);
        assert(a.words()[4] == b.words()[4]);
        assert(a.words()[5] == b.words()[5]);
        assert(a.words()[6] == b.words()[6]);
    }
}

impl SliceRecord for TaqV1 {
    open spec fn schema() -> ValueType {
        ValueType::TaqV1
    }

    open spec fn words(&self) -> Seq<u64> {
        seq![
            self.trade_exchange_ts_ns as u64,
            self.trade_system_ts_ns as u64,
            self.trade_ingest_ts_ns as u64,
            self.quote_exchange_ts_ns as u64,
            self.quote_ingest_ts_ns as u64,
            self.quote_age_ns as u64,
            self.trade_px.bits,
            self.trade_qty.bits,
            self.signed_qty.bits,
            self.bid_px.bits,
            self.bid_qty.bits,
            self.ask_px.bits,
            self.ask_qty.bits,
            self.mid_px.bits,
            self.spread_bps.bits,
            self.flags,
        ]
    }

    fn value_type() -> ValueType {
        ValueType::TaqV1
    }

    fn to_words(&self) -> Vec<u64> {
        let words: Vec<u64> = vec![
            self.trade_exchange_ts_ns as u64,
            self.trade_system_ts_ns as u64,
            self.trade_ingest_ts_ns as u64,
            self.quote_exchange_ts_ns as u64,
            self.quote_ingest_ts_ns as u64,
            self.quote_age_ns as u64,
            self.trade_px.bits,
            self.trade_qty.bits,
            self.signed_qty.bits,
            self.bid_px.bits,
            self.bid_qty.bits,
            self.ask_px.bits,
            self.ask_qty.bits,
            self.mid_px.bits,
            self.spread_bps.bits,
            self.flags,
        ];
        assert(words@ =~= self.words());
        words
    }

    fn from_words(words: &Vec<u64>) -> Result<Self, SliceError> {
        if words.len() != 16 {
            return Err(SliceError::RecordLength { expected: 16, actual: words.len() });
        }
        let record = TaqV1 {
            trade_exchange_ts_ns: words[0] as i64,
            trade_system_ts_ns: words[1] as i64,
            trade_ingest_ts_ns: words[2] as i64,
            quote_exchange_ts_ns: words[3] as i64,
            quote_ingest_ts_ns: words[4] as i64,
            quote_age_ns: words[5] as i64,
            trade_px: Double { bits: words[6] },
            trade_qty: Double { bits: words[7] },
            signed_qty: Double { bits: words[8] },
            bid_px: Double { bits: words[9] },
            bid_qty: Double { bits: words[10] },
            ask_px: Double { bits: words[11] },
            ask_qty: Double { bits: words[12] },
            mid_px: Double { bits: words[13] },
            spread_bps: Double { bits: words[14] },
            flags: words[15],
        };
        proof {
            lemma_signed_word(words@[0]);
            lemma_signed_word(words@[1]);
            lemma_signed_word(words@[2]);
            lemma_signed_word(words@[3]);
            lemma_signed_word(words@[4]);
            lemma_signed_word(words@[5]);
            assert(record.words() =~= words@);
        }
        Ok(record)
    }

    proof fn words_determine(a: Self, b: Self) {
        lemma_signed_back(a.trade_exchange_ts_ns);
        lemma_signed_back(b.trade_exchange_ts_ns);
        lemma_signed_back(a.trade_system_ts_ns);
        lemma_signed_back(b.trade_system_ts_ns);
        lemma_signed_back(a.trade_ingest_ts_ns);
        lemma_signed_back(b.trade_ingest_ts_ns);
        lemma_signed_back(a.quote_exchange_ts_ns);
        lemma_signed_back(b.quote_exchange_ts_ns);
        lemma_signed_back(a.quote_ingest_ts_ns);
        lemma_signed_back(b.quote_ingest_ts_ns);
        lemma_signed_back(a.quote_age_ns);
        lemma_signed_back(b.quote_age_ns);
        assert(a.words()[0] == b.words()[0]);
        assert(a.words()[1] == b.words()[1]);
        assert(a.words()[2] == b.words()[2]);
        assert(a.words()[3] == b.words()[3]);
        assert(a.words()[4] == b.words()[4]);
        assert(a.words()[5] == b.words()[5]);
        assert(a.words()[6] == b.words()[6]);
        assert(a.words()[7] == b.words()[7]);
        assert(a.words()[8] == b.words()[8]);
        assert(a.words()[9] == b.words()[9]);
        assert(a.words()[10] == b.words()[10]);
        assert(a.words()[11] == b.words()[11]);
        assert(a.words()[12] == b.words()[12]);
        assert(a.words()[13] == b.words()[13]);
        assert(a.words()[14] == b.words()[14]);
        assert(a.words()[15] == b.words()[15]);
    }
}

/// A joined record holds the trade and, where there is a usable quote, that
/// quote, each under its own name; without one it holds no price of a quote.
/// The age of the quote is the trade's time less the quote's, as far as it can
/// be held.
pub proof fn lemma_join_keeps_both_sides(
    trade: TradeV1,
    quote: Option<QuoteV1>,
    max_quote_age_ns: i64,
    taq: TaqV1,
)
    requires
        call_ensures(TaqV1::from_trade_and_quote, (trade, quote, max_quote_age_ns), taq),
    ensures
        taq.trade_exchange_ts_ns == trade.exchange_ts_ns,
        taq.trade_system_ts_ns == trade.system_ts_ns,
        taq.trade_ingest_ts_ns == trade.ingest_ts_ns,
        taq.trade_px == trade.px,
        taq.trade_qty == trade.qty,
        taq.signed_qty == trade.signed_qty,
        taq.flags & 0x1 != 0,
        taq.flags & 0x2 == trade.flags & 0x2,
        taq.flags & 0x4 == trade.flags & 0x4,
        quote is Some && quote->0.flags & 0x1 != 0 ==> {
            let q = quote->0;
            let age = trade.exchange_ts_ns - q.exchange_ts_ns;
            &&& taq.quote_exchange_ts_ns == q.exchange_ts_ns
            &&& taq.quote_ingest_ts_ns == q.ingest_ts_ns
            &&& taq.bid_px == q.bid_px
            &&& taq.bid_qty == q.bid_qty
            &&& taq.ask_px == q.ask_px
            &&& taq.ask_qty == q.ask_qty
            &&& taq.mid_px == q.mid_px
            &&& taq.spread_bps == q.spread_bps
            &&& i64::MIN <= age <= i64::MAX ==> taq.quote_age_ns == age
            &&& age > i64::MAX ==> taq.quote_age_ns == i64::MAX
            &&& age < i64::MIN ==> taq.quote_age_ns == i64::MIN
            &&& taq.flags & 0x100 != 0
            &&& taq.flags & 0x400 != 0 <==> q.exchange_ts_ns > trade.exchange_ts_ns
            &&& taq.flags & 0x200 != 0 <==> max_quote_age_ns > 0 && taq.quote_age_ns
                > max_quote_age_ns
        },
        quote is None || quote->0.flags & 0x1 == 0 ==> {
            &&& taq.flags & 0x100 == 0
            &&& taq.flags & 0x200 == 0
            &&& taq.flags & 0x400 == 0
            &&& taq.quote_age_ns == i64::MAX
            &&& taq.mid_px.nan()
            &&& taq.spread_bps.nan()
            &&& taq.quote_exchange_ts_ns == 0
            &&& taq.quote_ingest_ts_ns == 0
            &&& taq.bid_px.bits == 0
            &&& taq.bid_qty.bits == 0
            &&& taq.ask_px.bits == 0
            &&& taq.ask_qty.bits == 0
        },
{
    lemma_joined_flags(trade, quote, max_quote_age_ns);
}

/// The predicates on a joined record tell what its join found.
pub proof fn lemma_join_is_told(
    trade: TradeV1,
    quote: Option<QuoteV1>,
    max_quote_age_ns: i64,
    taq: TaqV1,
    has: bool,
    stale: bool,
    later: bool,
)
    requires
        call_ensures(TaqV1::from_trade_and_quote, (trade, quote, max_quote_age_ns), taq),
        call_ensures(TaqV1::has_quote, (&taq,), has),
        call_ensures(TaqV1::quote_is_stale, (&taq,), stale),
        call_ensures(TaqV1::quote_is_after_trade, (&taq,), later),
    ensures
        has <==> quote is Some && quote->0.flags & 0x1 != 0,
        stale <==> has && max_quote_age_ns > 0 && trade.exchange_ts_ns - quote->0.exchange_ts_ns
            > max_quote_age_ns && max_quote_age_ns < i64::MAX,
        later <==> has && quote->0.exchange_ts_ns > trade.exchange_ts_ns,
{
    lemma_join_keeps_both_sides(trade, quote, max_quote_age_ns, taq);
}

/// A quote keeps what it is given. Its midpoint is half way between two usable
/// prices, and its spread is their difference in ten thousandths of the
/// midpoint.
pub proof fn lemma_quote_is_derived<A: Arithmetic>(
    math: &A,
    f: crate::reading::Functions,
    exchange_ts_ns: i64,
    ingest_ts_ns: i64,
    bid_px: Double,
    bid_qty: Double,
    ask_px: Double,
    ask_qty: Double,
    quote: QuoteV1,
)
    requires
        call_ensures(
            QuoteV1::new::<A>,
            (math, exchange_ts_ns, ingest_ts_ns, bid_px, bid_qty, ask_px, ask_qty),
            quote,
        ),
    ensures
        quote.exchange_ts_ns == exchange_ts_ns,
        quote.ingest_ts_ns == ingest_ts_ns,
        quote.bid_px == bid_px,
        quote.bid_qty == bid_qty,
        quote.ask_px == ask_px,
        quote.ask_qty == ask_qty,
        quote.flags & 0x1 != 0,
        ({
            let zero = 0 as real;
            let bid = crate::reading::exact(bid_px);
            let ask = crate::reading::exact(ask_px);
            let usable = bid_px.finite() && ask_px.finite() && bid > zero && ask > zero;
            &&& usable ==> {
                let e = midpoint(bid_px, ask_px);
                &&& crate::number::computes(math, e, quote.mid_px)
                &&& crate::reading::reading(f, e) - bid == ask - crate::reading::reading(f, e)
            }
            &&& !usable ==> quote.mid_px.nan() && quote.spread_bps.nan()
            &&& quote.mid_px.finite() && crate::reading::exact(quote.mid_px) > zero ==> {
                let e = spread(bid_px, ask_px, quote.mid_px);
                &&& crate::number::computes(math, e, quote.spread_bps)
                &&& crate::reading::reading(f, e) * crate::reading::exact(quote.mid_px)
                    == 10_000 as real * (ask - bid)
            }
        }),
{
    let zero = Double { bits: ZERO };
    crate::reading::lemma_constants();
    if bid_px.finite() {
        crate::reading::lemma_order(zero, bid_px);
    }
    if ask_px.finite() {
        crate::reading::lemma_order(zero, ask_px);
    }
    assert(1u64 & 1u64 != 0) by (bit_vector);
    let bid = crate::reading::exact(bid_px);
    let ask = crate::reading::exact(ask_px);
    let half = crate::reading::exact(Double { bits: HALF });
    reveal_with_fuel(crate::reading::reading, 4);
    assert(crate::reading::reading(f, midpoint(bid_px, ask_px)) == half * (bid + ask));
    assert(2 as real * (half * (bid + ask)) == bid + ask) by (nonlinear_arith)
        requires
            2 as real * half == 1 as real,
    ;
    if quote.mid_px.finite() {
        crate::reading::lemma_order(zero, quote.mid_px);
        let mid = crate::reading::exact(quote.mid_px);
        if mid > 0 as real {
            crate::reading::lemma_literal(BASIS_POINTS, 39);
            vstd::arithmetic::power2::lemma2_to64_rest();
            let points = crate::reading::exact(Double { bits: BASIS_POINTS });
            assert(BASIS_POINTS as int % crate::reading::binade() == 0x3_8800_0000_0000);
            let p = 0x80_0000_0000 as real;
            assert(points == 10_000 as real) by (nonlinear_arith)
                requires
                    points * p == 10_000 as real * p,
                    p > 0 as real,
            ;
            let q = (ask - bid) / mid;
            crate::reading::lemma_quotient(ask - bid, mid);
            assert((q * points) * mid == points * (q * mid)) by (nonlinear_arith);
        }
    }
}

/// A trade keeps what it is given. A word for a buy makes its signed quantity
/// the quantity's distance from zero, a word for a sell the opposite, and any
/// other word or none zero.
pub proof fn lemma_trade_is_classified(
    exchange_ts_ns: i64,
    system_ts_ns: i64,
    ingest_ts_ns: i64,
    px: Double,
    qty: Double,
    side: Option<&str>,
    trade: TradeV1,
)
    requires
        call_ensures(
            TradeV1::new,
            (exchange_ts_ns, system_ts_ns, ingest_ts_ns, px, qty, side),
            trade,
        ),
    ensures
        trade.exchange_ts_ns == exchange_ts_ns,
        trade.system_ts_ns == system_ts_ns,
        trade.ingest_ts_ns == ingest_ts_ns,
        trade.px == px,
        trade.qty == qty,
        trade.flags & 0x1 != 0,
        ({
            let signed = crate::reading::exact(trade.signed_qty);
            let size = crate::reading::distance(crate::reading::exact(qty));
            let zero = 0 as real;
            &&& side is None ==> signed == zero && trade.flags & 0x6 == 0
            &&& side is Some ==> {
                let word = crate::text::lowercase(crate::text::trimmed(side->0@));
                let buys = word == "buy"@ || word == "b"@ || word == "bid"@ || word == "ask_lift"@
                    || word == "lift"@;
                let sells = word == "sell"@ || word == "s"@ || word == "ask"@ || word == "bid_hit"@
                    || word == "hit"@;
                &&& buys ==> signed == size && trade.flags & 0x2 != 0 && trade.flags & 0x4 == 0
                &&& sells && !buys ==> signed == -size && trade.flags & 0x4 != 0 && trade.flags
                    & 0x2 == 0
                &&& !buys && !sells ==> signed == zero && trade.flags & 0x6 == 0
            }
        }),
{
    crate::reading::lemma_constants();
    crate::reading::lemma_signs(qty);
    crate::reading::lemma_signs(qty.abs());
    assert((1u64 | 2u64) & 1u64 != 0 && (1u64 | 4u64) & 1u64 != 0 && 1u64 & 1u64 != 0 && (1u64
        | 2u64) & 2u64 != 0 && (1u64 | 2u64) & 4u64 == 0 && (1u64 | 4u64) & 4u64 != 0 && (1u64
        | 4u64) & 2u64 == 0 && 1u64 & 6u64 == 0) by (bit_vector);
}

/// The words of a quote stand in the order of its fields.
pub proof fn lemma_quote_words(quote: &QuoteV1, words: Vec<u64>)
    requires
        call_ensures(<QuoteV1 as SliceRecord>::to_words, (quote,), words),
    ensures
        words@.len() == 9,
        words@[0] as i64 == quote.exchange_ts_ns,
        words@[1] as i64 == quote.ingest_ts_ns,
        words@[2] == quote.bid_px.bits,
        words@[3] == quote.bid_qty.bits,
        words@[4] == quote.ask_px.bits,
        words@[5] == quote.ask_qty.bits,
        words@[6] == quote.mid_px.bits,
        words@[7] == quote.spread_bps.bits,
        words@[8] == quote.flags,
{
    lemma_signed_back(quote.exchange_ts_ns);
    lemma_signed_back(quote.ingest_ts_ns);
}

/// The words of a trade stand in the order of its fields.
pub proof fn lemma_trade_words(trade: &TradeV1, words: Vec<u64>)
    requires
        call_ensures(<TradeV1 as SliceRecord>::to_words, (trade,), words),
    ensures
        words@.len() == 7,
        words@[0] as i64 == trade.exchange_ts_ns,
        words@[1] as i64 == trade.system_ts_ns,
        words@[2] as i64 == trade.ingest_ts_ns,
        words@[3] == trade.px.bits,
        words@[4] == trade.qty.bits,
        words@[5] == trade.signed_qty.bits,
        words@[6] == trade.flags,
{
    lemma_signed_back(trade.exchange_ts_ns);
    lemma_signed_back(trade.system_ts_ns);
    lemma_signed_back(trade.ingest_ts_ns);
}

/// The words of a joined record stand in the order of its fields.
pub proof fn lemma_taq_words(taq: &TaqV1, words: Vec<u64>)
    requires
        call_ensures(<TaqV1 as SliceRecord>::to_words, (taq,), words),
    ensures
        words@.len() == 16,
        words@[0] as i64 == taq.trade_exchange_ts_ns,
        words@[1] as i64 == taq.trade_system_ts_ns,
        words@[2] as i64 == taq.trade_ingest_ts_ns,
        words@[3] as i64 == taq.quote_exchange_ts_ns,
        words@[4] as i64 == taq.quote_ingest_ts_ns,
        words@[5] as i64 == taq.quote_age_ns,
        words@[6] == taq.trade_px.bits,
        words@[7] == taq.trade_qty.bits,
        words@[8] == taq.signed_qty.bits,
        words@[9] == taq.bid_px.bits,
        words@[10] == taq.bid_qty.bits,
        words@[11] == taq.ask_px.bits,
        words@[12] == taq.ask_qty.bits,
        words@[13] == taq.mid_px.bits,
        words@[14] == taq.spread_bps.bits,
        words@[15] == taq.flags,
{
    lemma_signed_back(taq.trade_exchange_ts_ns);
    lemma_signed_back(taq.trade_system_ts_ns);
    lemma_signed_back(taq.trade_ingest_ts_ns);
    lemma_signed_back(taq.quote_exchange_ts_ns);
    lemma_signed_back(taq.quote_ingest_ts_ns);
    lemma_signed_back(taq.quote_age_ns);
}

} // verus!
