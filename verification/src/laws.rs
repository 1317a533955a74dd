//! General laws of the aggregation core, stated and proved once for all
//! inputs.

use vstd::prelude::*;

use crate::store::{
    lemma_entry_at, lemma_run_stats_closed, prices_of, run_stats, sum_of, ticks_view, zero_stats,
    AggregatedState,
};

verus! {

/// Incremental correctness: after folding any sequence of prices tick by
/// tick, the count is the number of ticks, the total is their sum, the
/// average is the total over the count, and the latest is the last price.
pub proof fn lemma_incremental_correctness(prices: Seq<u64>)
    ensures
        run_stats(prices).count == prices.len(),
        run_stats(prices).total == sum_of(prices),
        prices.len() > 0 ==> run_stats(prices).average == sum_of(prices) / (prices.len() as int),
        prices.len() > 0 ==> run_stats(prices).latest == prices.last() as int,
        prices.len() == 0 ==> run_stats(prices) == zero_stats(),
{
    lemma_run_stats_closed(prices);
}

/// Snapshot coherence: in a well-formed store a symbol has an aggregate
/// exactly when it has a history, that aggregate is exactly the fold of that
/// history, and it counts at least one tick — a reader can never observe a
/// history without its matching aggregate, nor a zeroed record.
pub proof fn lemma_store_coherence(st: &AggregatedState, sym: Seq<char>)
    requires
        st.wf(),
    ensures
        st.stats_for(sym) is Some <==> st.raw_for(sym) is Some,
        st.raw_for(sym) is Some ==> st.raw_for(sym)->Some_0.len() > 0,
        st.stats_for(sym) is Some ==> st.stats_for(sym)->Some_0 == run_stats(
            prices_of(st.raw_for(sym)->Some_0),
        ) && st.stats_for(sym)->Some_0.count > 0,
{
    if st.has_symbol(sym) {
        let i = choose|i: int|
            0 <= i < st.entries@.len() && (#[trigger] st.entries@[i]).symbol@ == sym;
        lemma_entry_at(st, i);
        lemma_run_stats_closed(prices_of(ticks_view(st.entries@[i].history@)));
    }
}

} // verus!
