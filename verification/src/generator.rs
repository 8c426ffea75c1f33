//! The quote generator: per-ticker price state and snapshot production.
//!
//! Prices live in fixed point (`PRICE_SCALE` units to one currency unit),
//! seeded at a default of one unit for every tracked ticker.  Each
//! perturbation draws one shared random ratio from `[0.5, 1.5)` — a single
//! shock across the whole catalog, not per-ticker noise — and clamps the
//! result to a working band so the arithmetic stays exact.  Volumes come
//! from a wider uniform range for a fixed set of high-liquidity tickers
//! and a narrower one otherwise.

use vstd::prelude::*;

use crate::stock::{contains_text, texts_view, StockQuote, PRICE_SCALE};
use crate::text::str_eq;

verus! {

/// The seed price of every tracked ticker: one currency unit.
pub const QUOTE_DEFAULT_PRICE: u64 = 10000;

/// Upper bound of the working price band, in `1 / PRICE_SCALE` units.
/// Inside the band, a price times a ratio below 15000 stays within `u64`.
pub const PRICE_CAP: u64 = 1_000_000_000_000_000;

/// One random ratio is drawn from `[RATIO_MIN, RATIO_MAX)` per
/// perturbation; `PRICE_SCALE` stands for a ratio of one.
pub const RATIO_MIN: u64 = 5000;

pub const RATIO_MAX: u64 = 15000;

/// Relies on `rand::random_range` over `lo..hi`: a value drawn uniformly
/// from the given range.  The call panics on an empty range, which the
/// bound below rules out.
#[verifier::external_body]
fn random_in_range(lo: u64, hi: u64) -> (r: u64)
    requires
        lo < hi,
    ensures
        lo <= r < hi,
{
    rand::random_range(lo..hi)
}

/// The high-liquidity tickers, whose volumes draw from the wider range.
pub open spec fn is_popular(t: Seq<char>) -> bool {
    t == "AAPL"@ || t == "MSFT"@ || t == "TSLA"@
}

/// Whether a volume lies in the range its ticker draws from.
pub open spec fn volume_in_range(t: Seq<char>, v: u32) -> bool {
    if is_popular(t) {
        1000 <= v < 6000
    } else {
        100 <= v < 1100
    }
}

/// A price after one perturbation by `ratio`: scaled multiplication,
/// clamped to the working band.
pub open spec fn perturbed(p: u64, ratio: u64) -> u64 {
    let raw = (p as int * ratio as int) / (PRICE_SCALE as int);
    if raw > PRICE_CAP as int {
        PRICE_CAP
    } else if raw < 1 {
        1
    } else {
        raw as u64
    }
}

/// Every price after one shared shock by `ratio`.
pub open spec fn shocked(prices: Seq<u64>, ratio: u64) -> Seq<u64> {
    Seq::new(prices.len(), |i: int| perturbed(prices[i], ratio))
}

/// The price state: one current price per tracked ticker, exclusively
/// owned — nothing here is shared.
pub struct QuoteGenerator {
    tickers: Vec<String>,
    prices: Vec<u64>,
}

/// The spec-level image of the generator.
pub ghost struct GeneratorView {
    pub tickers: Seq<Seq<char>>,
    pub prices: Seq<u64>,
}

impl View for QuoteGenerator {
    type V = GeneratorView;

    closed spec fn view(&self) -> GeneratorView {
        GeneratorView { tickers: texts_view(self.tickers@), prices: self.prices@ }
    }
}

/// Well-formed generator state: one price per ticker, every price in the
/// working band.
pub open spec fn gen_wf(g: GeneratorView) -> bool {
    &&& g.tickers.len() == g.prices.len()
    &&& forall|i: int| 0 <= i < g.prices.len() ==> 1 <= #[trigger] g.prices[i] <= PRICE_CAP
}

impl QuoteGenerator {
    /// A generator over the given catalog, every price at the default.
    pub fn new(tickers: &Vec<String>) -> (r: QuoteGenerator)
        ensures
            gen_wf(r@),
            r@.tickers == texts_view(tickers@),
            r@.prices.len() == tickers@.len(),
            forall|i: int| 0 <= i < r@.prices.len() ==> r@.prices[i] == QUOTE_DEFAULT_PRICE,
    {
        let owned = crate::stock::duplicate_texts(tickers);
        let mut prices: Vec<u64> = Vec::new();
        let mut i: usize = 0;
        let n = owned.len();
        while i < n
            invariant
                0 <= i <= n,
                prices@.len() == i,
                forall|j: int| 0 <= j < i ==> prices@[j] == QUOTE_DEFAULT_PRICE,
            decreases n - i,
        {
            prices.push(QUOTE_DEFAULT_PRICE);
            i = i + 1;
        }
        QuoteGenerator { tickers: owned, prices }
    }

    /// How many tickers the generator tracks.
    pub fn ticker_count(&self) -> (r: usize)
        ensures
            r == self@.tickers.len(),
    {
        self.tickers.len()
    }

    /// Multiplies every tracked price by one common random ratio from
    /// `[0.5, 1.5)`: a single shared shock per cycle.
    pub fn shuffle_prices(&mut self)
        requires
            gen_wf(old(self)@),
        ensures
            gen_wf(final(self)@),
            final(self)@.tickers == old(self)@.tickers,
            exists|ratio: u64|
                RATIO_MIN <= ratio < RATIO_MAX && final(self)@.prices == #[trigger] shocked(
                    old(self)@.prices,
                    ratio,
                ),
    {
        let ghost g0 = self@;
        let ratio = random_in_range(RATIO_MIN, RATIO_MAX);
        let mut fresh: Vec<u64> = Vec::new();
        let mut i: usize = 0;
        let n = self.prices.len();
        while i < n
            invariant
                0 <= i <= n,
                n == g0.prices.len(),
                self@ == g0,
                gen_wf(g0),
                RATIO_MIN <= ratio < RATIO_MAX,
                fresh@.len() == i,
                forall|j: int| 0 <= j < i ==> fresh@[j] == perturbed(g0.prices[j], ratio),
            decreases n - i,
        {
            let p = self.prices[i];
            proof {
                assert(1 <= p <= PRICE_CAP);
                assert(p * ratio <= PRICE_CAP * RATIO_MAX) by (nonlinear_arith)
                    requires
                        p <= PRICE_CAP,
                        ratio < RATIO_MAX,
                        1 <= p,
                        PRICE_CAP == 1_000_000_000_000_000u64,
                        RATIO_MAX == 15000u64,
                ;
            }
            let scaled = p * ratio;
            let raw = scaled / PRICE_SCALE;
            let next = if raw > PRICE_CAP {
                PRICE_CAP
            } else if raw < 1 {
                1
            } else {
                raw
            };
            proof {
                assert(next == perturbed(g0.prices[i as int], ratio));
            }
            fresh.push(next);
            i = i + 1;
        }
        self.prices = fresh;
        proof {
            assert(self@.prices =~= shocked(g0.prices, ratio));
        }
    }

    /// One quote for a tracked ticker: its current price, a volume from
    /// the range its liquidity class draws from, and the given timestamp.
    /// `None` exactly when the ticker is not tracked.
    pub fn generate_quote(&self, ticker: &str, now: u64) -> (r: Option<StockQuote>)
        requires
            gen_wf(self@),
        ensures
            match r {
                Some(q) => {
                    &&& contains_text(self@.tickers, ticker@)
                    &&& q@.ticker == ticker@
                    &&& exists|i: int|
                        0 <= i < self@.tickers.len() && #[trigger] self@.tickers[i] == ticker@
                            && q@.price == self@.prices[i]
                    &&& volume_in_range(ticker@, q@.volume)
                    &&& q@.timestamp == now
                },
                None => !contains_text(self@.tickers, ticker@),
            },
    {
        let mut i: usize = 0;
        let n = self.tickers.len();
        while i < n
            invariant
                0 <= i <= n,
                n == self@.tickers.len(),
                gen_wf(self@),
                forall|j: int| 0 <= j < i ==> self@.tickers[j] != ticker@,
            decreases n - i,
        {
            if str_eq(self.tickers[i].as_str(), ticker) {
                let volume = draw_volume(ticker);
                let q = StockQuote {
                    ticker: self.tickers[i].clone(),
                    price: self.prices[i],
                    volume,
                    timestamp: now,
                };
                proof {
                    assert(self@.tickers[i as int] == ticker@);
                }
                return Some(q);
            }
            i = i + 1;
        }
        None
    }

    /// One full snapshot: one quote per tracked ticker, in catalog order,
    /// all carrying the same timestamp.
    pub fn generate_quote_list(&self, now: u64) -> (r: Vec<StockQuote>)
        requires
            gen_wf(self@),
        ensures
            r@.len() == self@.tickers.len(),
            forall|i: int|
                0 <= i < r@.len() ==> {
                    &&& (#[trigger] r@[i])@.ticker == self@.tickers[i]
                    &&& r@[i]@.price == self@.prices[i]
                    &&& r@[i]@.timestamp == now
                    &&& volume_in_range(self@.tickers[i], r@[i]@.volume)
                },
    {
        let mut out: Vec<StockQuote> = Vec::new();
        let mut i: usize = 0;
        let n = self.tickers.len();
        while i < n
            invariant
                0 <= i <= n,
                n == self@.tickers.len(),
                gen_wf(self@),
                out@.len() == i,
                forall|j: int|
                    0 <= j < i ==> {
                        &&& (#[trigger] out@[j])@.ticker == self@.tickers[j]
                        &&& out@[j]@.price == self@.prices[j]
                        &&& out@[j]@.timestamp == now
                        &&& volume_in_range(self@.tickers[j], out@[j]@.volume)
                    },
            decreases n - i,
        {
            let volume = draw_volume(self.tickers[i].as_str());
            let q = StockQuote {
                ticker: self.tickers[i].clone(),
                price: self.prices[i],
                volume,
                timestamp: now,
            };
            out.push(q);
            i = i + 1;
        }
        out
    }
}

/// A volume from the range this ticker's liquidity class draws from.
fn draw_volume(ticker: &str) -> (r: u32)
    ensures
        volume_in_range(ticker@, r),
{
    let popular = str_eq(ticker, "AAPL") || str_eq(ticker, "MSFT") || str_eq(ticker, "TSLA");
    if popular {
        random_in_range(1000, 6000) as u32
    } else {
        random_in_range(100, 1100) as u32
    }
}

} // verus!
