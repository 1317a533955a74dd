//! The tick and aggregate record schemas.
//!
//! Prices are fixed-point: a price is a count of thousandths of one currency
//! unit, so a quote of 100.500 is stored as the integer `100_500`. Three
//! fractional digits are the precision the wire format carries.

use vstd::prelude::*;

verus! {

/// Largest representable price, in thousandths. The integer part of a price
/// never exceeds sixteen decimal digits, so every price's canonical text form
/// is also decodable.
pub const MAX_PRICE_MILLI: u64 = 9_999_999_999_999_999_999;

/// One timestamped price observation for a symbol.
///
/// `symbol` is a non-empty exchange ticker; `timestamp` is an RFC3339 string.
/// A tick is immutable once constructed and is stored verbatim in the
/// per-symbol history.
#[derive(Debug, Clone, PartialEq)]
pub struct StockPrice {
    pub symbol: String,
    pub price: u64,
    pub timestamp: String,
}

/// Mathematical model of one tick: the symbol and timestamp as character
/// sequences, the price in thousandths.
#[verifier::ext_equal]
pub ghost struct TickView {
    pub symbol: Seq<char>,
    pub price: u64,
    pub timestamp: Seq<char>,
}

impl View for StockPrice {
    type V = TickView;

    open spec fn view(&self) -> TickView {
        TickView { symbol: self.symbol@, price: self.price, timestamp: self.timestamp@ }
    }
}

/// A character the wire format carries without escaping: printable ASCII,
/// excluding the quote and the backslash.
pub open spec fn is_plain_char(c: char) -> bool {
    ' ' <= c && c <= '~' && c != '"' && c != '\\'
}

pub open spec fn is_plain_text(s: Seq<char>) -> bool {
    forall|i: int| 0 <= i < s.len() ==> is_plain_char(#[trigger] s[i])
}

/// A well-formed tick: non-empty symbol, both strings made of plain
/// characters, and a price whose canonical text form decodes back.
pub open spec fn tick_wf(t: TickView) -> bool {
    &&& t.symbol.len() > 0
    &&& is_plain_text(t.symbol)
    &&& is_plain_text(t.timestamp)
    &&& t.price <= MAX_PRICE_MILLI
}

impl StockPrice {
    pub open spec fn wf(&self) -> bool {
        tick_wf(self@)
    }

    /// An owned copy with the same view.
    pub fn duplicate(&self) -> (r: StockPrice)
        ensures
            r@ == self@,
    {
        StockPrice {
            symbol: self.symbol.clone(),
            price: self.price,
            timestamp: self.timestamp.clone(),
        }
    }
}

/// Running summary statistics for one symbol. `total`, `average` and `latest`
/// are prices in thousandths; `count` is the number of ticks folded in.
#[derive(Debug, Clone, Copy, PartialEq, Eq, Structural)]
pub struct AggregatedStats {
    pub total: u128,
    pub count: usize,
    pub average: u128,
    pub latest: u64,
}

/// Mathematical model of an aggregate, over unbounded integers.
pub ghost struct StatsView {
    pub total: int,
    pub count: int,
    pub average: int,
    pub latest: int,
}

impl View for AggregatedStats {
    type V = StatsView;

    open spec fn view(&self) -> StatsView {
        StatsView {
            total: self.total as int,
            count: self.count as int,
            average: self.average as int,
            latest: self.latest as int,
        }
    }
}

} // verus!
