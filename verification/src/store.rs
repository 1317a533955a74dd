//! The aggregation store: a mapping from symbol to raw tick history and to
//! the current running aggregate, updated in O(1) per tick.
//!
//! Entries are held as a vector with pairwise-distinct symbols; a symbol's
//! entry is created lazily on its first tick and is never evicted. Readers
//! receive independently-owned copies, never references into the store.

use vstd::prelude::*;

use crate::types::{AggregatedStats, StatsView, StockPrice, TickView};

verus! {

pub open spec fn ticks_view(s: Seq<StockPrice>) -> Seq<TickView> {
    s.map(|i: int, t: StockPrice| t@)
}

pub open spec fn prices_of(ticks: Seq<TickView>) -> Seq<u64> {
    ticks.map(|i: int, t: TickView| t.price)
}

pub open spec fn sum_of(prices: Seq<u64>) -> int
    decreases prices.len(),
{
    if prices.len() == 0 {
        0
    } else {
        sum_of(prices.drop_last()) + prices.last()
    }
}

/// The aggregate of a symbol nobody has observed yet.
pub open spec fn zero_stats() -> StatsView {
    StatsView { total: 0, count: 0, average: 0, latest: 0 }
}

/// One incremental update: add the price to the total, bump the count, take
/// the price as latest, and recompute the average as total over count.
pub open spec fn step_stats(s: StatsView, price: u64) -> StatsView {
    StatsView {
        total: s.total + price,
        count: s.count + 1,
        average: (s.total + price) / (s.count + 1),
        latest: price as int,
    }
}

/// The aggregate reached by folding a price sequence tick by tick.
pub open spec fn run_stats(prices: Seq<u64>) -> StatsView
    decreases prices.len(),
{
    if prices.len() == 0 {
        zero_stats()
    } else {
        step_stats(run_stats(prices.drop_last()), prices.last())
    }
}

/// A symbol's history after one more tick arrives.
pub open spec fn hist_after(prev: Option<Seq<TickView>>, t: TickView) -> Seq<TickView> {
    match prev {
        Some(h) => h.push(t),
        None => seq![t],
    }
}

/// A symbol's aggregate after one more tick arrives.
pub open spec fn stats_after(prev: Option<StatsView>, price: u64) -> StatsView {
    match prev {
        Some(s) => step_stats(s, price),
        None => step_stats(zero_stats(), price),
    }
}

/// One symbol's slot: its raw history, in arrival order, and its aggregate.
pub struct SymbolEntry {
    pub symbol: String,
    pub history: Vec<StockPrice>,
    pub stats: AggregatedStats,
}

/// A slot is coherent: non-empty history, every stored tick carries the
/// slot's symbol, and the aggregate is exactly the fold of the history.
pub open spec fn entry_wf(e: SymbolEntry) -> bool {
    &&& e.history@.len() > 0
    &&& forall|i: int|
        0 <= i < e.history@.len() ==> (#[trigger] e.history@[i])@.symbol == e.symbol@
    &&& e.stats@ == run_stats(prices_of(ticks_view(e.history@)))
}

/// The store. It owns both mappings; `record` is the only mutation.
pub struct AggregatedState {
    pub entries: Vec<SymbolEntry>,
}

impl AggregatedState {
    /// Symbols are pairwise distinct and every slot is coherent.
    pub open spec fn wf(&self) -> bool {
        &&& forall|i: int, j: int|
            0 <= i < j < self.entries@.len() ==> (#[trigger] self.entries@[i]).symbol@ != (
            #[trigger] self.entries@[j]).symbol@
        &&& forall|i: int| 0 <= i < self.entries@.len() ==> entry_wf(#[trigger] self.entries@[i])
    }

    pub open spec fn has_symbol(&self, sym: Seq<char>) -> bool {
        exists|i: int|
            0 <= i < self.entries@.len() && (#[trigger] self.entries@[i]).symbol@ == sym
    }

    pub open spec fn entry_for(&self, sym: Seq<char>) -> SymbolEntry {
        self.entries@[choose|i: int|
            0 <= i < self.entries@.len() && (#[trigger] self.entries@[i]).symbol@ == sym]
    }

    /// The raw history recorded for a symbol, if any tick has been observed.
    pub open spec fn raw_for(&self, sym: Seq<char>) -> Option<Seq<TickView>> {
        if self.has_symbol(sym) {
            Some(ticks_view(self.entry_for(sym).history@))
        } else {
            None
        }
    }

    /// The aggregate recorded for a symbol, if any tick has been observed.
    pub open spec fn stats_for(&self, sym: Seq<char>) -> Option<StatsView> {
        if self.has_symbol(sym) {
            Some(self.entry_for(sym).stats@)
        } else {
            None
        }
    }
}

/// In a well-formed store, the slot at index `i` is the one `entry_for`
/// denotes for its symbol.
pub proof fn lemma_entry_at(st: &AggregatedState, i: int)
    requires
        st.wf(),
        0 <= i < st.entries@.len(),
    ensures
        st.has_symbol(st.entries@[i].symbol@),
        st.entry_for(st.entries@[i].symbol@) == st.entries@[i],
{
    let sym = st.entries@[i].symbol@;
    assert(st.has_symbol(sym));
    let j = choose|j: int|
        0 <= j < st.entries@.len() && (#[trigger] st.entries@[j]).symbol@ == sym;
    if j < i {
        assert(st.entries@[j].symbol@ != st.entries@[i].symbol@);
    } else if i < j {
        assert(st.entries@[i].symbol@ != st.entries@[j].symbol@);
    }
}

/// Closed form of the incremental fold: the count is the number of prices,
/// the total their sum, the average the quotient, the latest the last price.
pub proof fn lemma_run_stats_closed(prices: Seq<u64>)
    ensures
        run_stats(prices).count == prices.len(),
        run_stats(prices).total == sum_of(prices),
        prices.len() > 0 ==> run_stats(prices).average == sum_of(prices) / (prices.len() as int),
        prices.len() > 0 ==> run_stats(prices).latest == prices.last() as int,
        prices.len() == 0 ==> run_stats(prices) == zero_stats(),
    decreases prices.len(),
{
    if prices.len() > 0 {
        lemma_run_stats_closed(prices.drop_last());
    }
}

/// A sum of `n` prices is at most `n` times the largest price.
pub proof fn lemma_sum_bound(prices: Seq<u64>)
    ensures
        0 <= sum_of(prices) <= prices.len() * (u64::MAX as int),
    decreases prices.len(),
{
    if prices.len() > 0 {
        lemma_sum_bound(prices.drop_last());
        assert((prices.len() - 1) * (u64::MAX as int) + (u64::MAX as int) == prices.len() * (
        u64::MAX as int)) by (nonlinear_arith);
    }
}

/// Changing or appending one slot leaves every other symbol's view untouched.
proof fn lemma_untouched_symbols(
    pre: &AggregatedState,
    post: &AggregatedState,
    idx: int,
    s: Seq<char>,
)
    requires
        pre.wf(),
        post.wf(),
        0 <= idx < post.entries@.len(),
        pre.entries@.len() <= post.entries@.len() <= pre.entries@.len() + 1,
        forall|i: int|
            0 <= i < post.entries@.len() && i != idx ==> i < pre.entries@.len() && (
            #[trigger] post.entries@[i]) == pre.entries@[i],
        idx < pre.entries@.len() ==> post.entries@[idx].symbol@ == pre.entries@[idx].symbol@,
        s != post.entries@[idx].symbol@,
    ensures
        post.raw_for(s) == pre.raw_for(s),
        post.stats_for(s) == pre.stats_for(s),
{
    if pre.has_symbol(s) {
        let i = choose|i: int|
            0 <= i < pre.entries@.len() && (#[trigger] pre.entries@[i]).symbol@ == s;
        assert(i != idx);
        assert(post.entries@[i] == pre.entries@[i]);
        assert(post.has_symbol(s));
        lemma_entry_at(pre, i);
        lemma_entry_at(post, i);
    } else {
        if post.has_symbol(s) {
            let i = choose|i: int|
                0 <= i < post.entries@.len() && (#[trigger] post.entries@[i]).symbol@ == s;
            assert(i != idx);
            assert(pre.entries@[i].symbol@ == s);
        }
    }
}

impl AggregatedState {
    /// An empty store: no symbol has been observed.
    pub fn new() -> (r: AggregatedState)
        ensures
            r.wf(),
            r.entries@.len() == 0,
            forall|s: Seq<char>| #[trigger] r.raw_for(s) is None,
            forall|s: Seq<char>| #[trigger] r.stats_for(s) is None,
    {
        AggregatedState { entries: Vec::new() }
    }

    /// The index of a symbol's slot, if one exists.
    fn find_index(&self, symbol: &String) -> (r: Option<usize>)
        ensures
            match r {
                Some(i) => i < self.entries@.len() && self.entries@[i as int].symbol@ == symbol@,
                None => forall|i: int|
                    0 <= i < self.entries@.len() ==> (#[trigger] self.entries@[i]).symbol@
                        != symbol@,
            },
    {
        let n: usize = self.entries.len();
        let mut i: usize = 0;
        while i < n
            invariant
                i <= n,
                n == self.entries@.len(),
                forall|j: int| 0 <= j < i ==> (#[trigger] self.entries@[j]).symbol@ != symbol@,
            decreases n - i,
        {
            if self.entries[i].symbol == *symbol {
                return Some(i);
            }
            i += 1;
        }
        None
    }

    /// Appends the tick to its symbol's history and folds its price into the
    /// symbol's aggregate, creating the slot at the zero state if the symbol
    /// has never been observed. No other symbol's view changes.
    pub fn record(&mut self, tick: StockPrice)
        requires
            old(self).wf(),
        ensures
            final(self).wf(),
            final(self).raw_for(tick@.symbol) == Some(
                hist_after(old(self).raw_for(tick@.symbol), tick@),
            ),
            final(self).stats_for(tick@.symbol) == Some(
                stats_after(old(self).stats_for(tick@.symbol), tick@.price),
            ),
            forall|s: Seq<char>|
                s != tick@.symbol ==> #[trigger] final(self).raw_for(s) == old(self).raw_for(s),
            forall|s: Seq<char>|
                s != tick@.symbol ==> #[trigger] final(self).stats_for(s) == old(self).stats_for(
                    s,
                ),
    {
        let ghost pre = *old(self);
        let ghost tv = tick@;
        let found = self.find_index(&tick.symbol);
        match found {
            Some(idx) => {
                proof {
                    lemma_entry_at(&pre, idx as int);
                }
                let mut entry = self.entries.remove(idx);
                let ghost old_hist = ticks_view(entry.history@);
                let ghost old_prices = prices_of(old_hist);
                let len_before: usize = entry.history.len();
                proof {
                    lemma_run_stats_closed(old_prices);
                    lemma_sum_bound(old_prices);
                    assert(old_prices.len() == len_before);
                    assert(entry.stats@.total <= len_before * (u64::MAX as int));
                    assert(len_before * (u64::MAX as int) + (u64::MAX as int) == (len_before + 1)
                        * (u64::MAX as int)) by (nonlinear_arith);
                    assert((len_before + 1) * (u64::MAX as int) <= 0x1_0000_0000_0000_0000
                        * (u64::MAX as int)) by (nonlinear_arith)
                        requires
                            len_before + 1 <= 0x1_0000_0000_0000_0000,
                    ;
                    assert(0x1_0000_0000_0000_0000 * (u64::MAX as int) < u128::MAX as int)
                        by (nonlinear_arith);
                }
                let price = tick.price;
                entry.history.push(tick);
                let n_hist: usize = entry.history.len();
                entry.stats.total = entry.stats.total + price as u128;
                entry.stats.count = n_hist;
                entry.stats.latest = price;
                entry.stats.average = entry.stats.total / (n_hist as u128);
                proof {
                    let new_hist = ticks_view(entry.history@);
                    assert(new_hist =~= old_hist.push(tv));
                    let new_prices = prices_of(new_hist);
                    assert(new_prices =~= old_prices.push(tv.price));
                    assert(new_prices.drop_last() =~= old_prices);
                    assert(entry.stats@ == step_stats(run_stats(old_prices), tv.price));
                    assert(entry_wf(entry));
                }
                self.entries.insert(idx, entry);
                proof {
                    assert(self.entries@ =~= pre.entries@.update(idx as int, self.entries@[idx as int]));
                    assert(self.wf());
                    lemma_entry_at(self, idx as int);
                    assert(self.raw_for(tv.symbol) == Some(hist_after(pre.raw_for(tv.symbol), tv)));
                    assert(self.stats_for(tv.symbol) == Some(
                        stats_after(pre.stats_for(tv.symbol), tv.price),
                    ));
                    assert forall|s: Seq<char>| s != tv.symbol implies #[trigger] self.raw_for(s)
                        == pre.raw_for(s) by {
                        lemma_untouched_symbols(&pre, self, idx as int, s);
                    }
                    assert forall|s: Seq<char>| s != tv.symbol implies #[trigger] self.stats_for(s)
                        == pre.stats_for(s) by {
                        lemma_untouched_symbols(&pre, self, idx as int, s);
                    }
                }
            },
            None => {
                let symbol = tick.symbol.clone();
                let price = tick.price;
                let mut history: Vec<StockPrice> = Vec::new();
                history.push(tick);
                let total: u128 = price as u128;
                let stats = AggregatedStats { total, count: 1, average: total, latest: price };
                let entry = SymbolEntry { symbol, history, stats };
                proof {
                    let new_hist = ticks_view(entry.history@);
                    assert(new_hist =~= seq![tv]);
                    let new_prices = prices_of(new_hist);
                    assert(new_prices =~= seq![price]);
                    assert(new_prices.drop_last() =~= Seq::<u64>::empty());
                    assert(run_stats(Seq::<u64>::empty()) == zero_stats());
                    assert(run_stats(new_prices) == step_stats(zero_stats(), price));
                    assert(price as int / 1int == price as int);
                    assert(entry.stats@ == run_stats(new_prices));
                    assert(entry_wf(entry));
                    assert(!pre.has_symbol(tv.symbol));
                }
                let ghost idx = self.entries@.len() as int;
                self.entries.push(entry);
                proof {
                    assert(self.wf());
                    lemma_entry_at(self, idx);
                    assert(self.raw_for(tv.symbol) == Some(hist_after(pre.raw_for(tv.symbol), tv)));
                    assert(self.stats_for(tv.symbol) == Some(
                        stats_after(pre.stats_for(tv.symbol), tv.price),
                    ));
                    assert forall|s: Seq<char>| s != tv.symbol implies #[trigger] self.raw_for(s)
                        == pre.raw_for(s) by {
                        lemma_untouched_symbols(&pre, self, idx, s);
                    }
                    assert forall|s: Seq<char>| s != tv.symbol implies #[trigger] self.stats_for(s)
                        == pre.stats_for(s) by {
                        lemma_untouched_symbols(&pre, self, idx, s);
                    }
                }
            },
        }
    }

    /// A consistent copy of one symbol's aggregate, or nothing if the symbol
    /// has never been observed.
    pub fn snapshot_aggregate(&self, symbol: &String) -> (r: Option<AggregatedStats>)
        requires
            self.wf(),
        ensures
            match r {
                Some(st) => self.stats_for(symbol@) == Some(st@),
                None => self.stats_for(symbol@) is None,
            },
    {
        match self.find_index(symbol) {
            Some(i) => {
                proof {
                    lemma_entry_at(self, i as int);
                }
                Some(self.entries[i].stats)
            },
            None => {
                proof {
                    assert(!self.has_symbol(symbol@));
                }
                None
            },
        }
    }

    /// A consistent copy of one symbol's raw history, or nothing if the
    /// symbol has never been observed.
    pub fn snapshot_raw(&self, symbol: &String) -> (r: Option<Vec<StockPrice>>)
        requires
            self.wf(),
        ensures
            match r {
                Some(h) => self.raw_for(symbol@) == Some(ticks_view(h@)),
                None => self.raw_for(symbol@) is None,
            },
    {
        match self.find_index(symbol) {
            Some(i) => {
                proof {
                    lemma_entry_at(self, i as int);
                }
                Some(copy_ticks(&self.entries[i].history))
            },
            None => {
                proof {
                    assert(!self.has_symbol(symbol@));
                }
                None
            },
        }
    }

    /// A point-in-time copy of every symbol's aggregate: one pair per
    /// observed symbol, distinct symbols, each pair consistent with the store.
    pub fn snapshot_all_aggregates(&self) -> (r: Vec<(String, AggregatedStats)>)
        requires
            self.wf(),
        ensures
            forall|i: int|
                0 <= i < r@.len() ==> self.stats_for((#[trigger] r@[i]).0@) == Some(r@[i].1@),
            forall|i: int, j: int| 0 <= i < j < r@.len() ==> r@[i].0@ != r@[j].0@,
            forall|s: Seq<char>|
                #[trigger] self.stats_for(s) is Some ==> exists|i: int|
                    0 <= i < r@.len() && (#[trigger] r@[i]).0@ == s,
    {
        let n: usize = self.entries.len();
        let mut r: Vec<(String, AggregatedStats)> = Vec::new();
        let mut i: usize = 0;
        while i < n
            invariant
                i <= n,
                n == self.entries@.len(),
                r@.len() == i,
                forall|j: int|
                    0 <= j < i ==> (#[trigger] r@[j]).0@ == self.entries@[j].symbol@ && r@[j].1
                        == self.entries@[j].stats,
            decreases n - i,
        {
            r.push((self.entries[i].symbol.clone(), self.entries[i].stats));
            i += 1;
        }
        proof {
            assert forall|i2: int| 0 <= i2 < r@.len() implies self.stats_for(
                (#[trigger] r@[i2]).0@,
            ) == Some(r@[i2].1@) by {
                lemma_entry_at(self, i2);
            }
            assert forall|s: Seq<char>| #[trigger] self.stats_for(s) is Some implies exists|k: int|
                0 <= k < r@.len() && (#[trigger] r@[k]).0@ == s by {
                let k = choose|k: int|
                    0 <= k < self.entries@.len() && (#[trigger] self.entries@[k]).symbol@ == s;
                assert(r@[k].0@ == s);
            }
        }
        r
    }

    /// A point-in-time copy of every symbol's raw history, one pair per
    /// observed symbol.
    pub fn snapshot_all_raw(&self) -> (r: Vec<(String, Vec<StockPrice>)>)
        requires
            self.wf(),
        ensures
            forall|i: int|
                0 <= i < r@.len() ==> self.raw_for((#[trigger] r@[i]).0@) == Some(
                    ticks_view(r@[i].1@),
                ),
            forall|i: int, j: int| 0 <= i < j < r@.len() ==> r@[i].0@ != r@[j].0@,
            forall|s: Seq<char>|
                #[trigger] self.raw_for(s) is Some ==> exists|i: int|
                    0 <= i < r@.len() && (#[trigger] r@[i]).0@ == s,
    {
        let n: usize = self.entries.len();
        let mut r: Vec<(String, Vec<StockPrice>)> = Vec::new();
        let mut i: usize = 0;
        while i < n
            invariant
                i <= n,
                n == self.entries@.len(),
                r@.len() == i,
                forall|j: int|
                    0 <= j < i ==> (#[trigger] r@[j]).0@ == self.entries@[j].symbol@ && ticks_view(
                        r@[j].1@,
                    ) == ticks_view(self.entries@[j].history@),
            decreases n - i,
        {
            r.push((self.entries[i].symbol.clone(), copy_ticks(&self.entries[i].history)));
            i += 1;
        }
        proof {
            assert forall|i2: int| 0 <= i2 < r@.len() implies self.raw_for((#[trigger] r@[i2]).0@)
                == Some(ticks_view(r@[i2].1@)) by {
                lemma_entry_at(self, i2);
            }
            assert forall|s: Seq<char>| #[trigger] self.raw_for(s) is Some implies exists|k: int|
                0 <= k < r@.len() && (#[trigger] r@[k]).0@ == s by {
                let k = choose|k: int|
                    0 <= k < self.entries@.len() && (#[trigger] self.entries@[k]).symbol@ == s;
                assert(r@[k].0@ == s);
            }
        }
        r
    }
}

impl Default for AggregatedState {
    /// An empty store, as [`AggregatedState::new`] builds it.
    fn default() -> (r: AggregatedState)
        ensures
            r.wf(),
            r.entries@.len() == 0,
    {
        AggregatedState::new()
    }
}

/// An owned copy of a tick history with the same view.
fn copy_ticks(v: &Vec<StockPrice>) -> (r: Vec<StockPrice>)
    ensures
        ticks_view(r@) == ticks_view(v@),
        r@.len() == v@.len(),
{
    let n: usize = v.len();
    let mut out: Vec<StockPrice> = Vec::new();
    let mut i: usize = 0;
    while i < n
        invariant
            i <= n,
            n == v@.len(),
            out@.len() == i,
            forall|j: int| 0 <= j < i ==> (#[trigger] out@[j])@ == v@[j]@,
        decreases n - i,
    {
        out.push(v[i].duplicate());
        i += 1;
    }
    proof {
        assert(ticks_view(out@) =~= ticks_view(v@));
    }
    out
}

} // verus!
