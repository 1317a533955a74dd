//! The ingestion step: decode one feed payload and fold it into the store.
//!
//! The feed subscription itself — connecting, waiting for the next message —
//! is the surrounding process's concern; this step is the whole per-message
//! behaviour of the ingestion loop.

use vstd::prelude::*;

use crate::codec::{decode_tick, spec_decode};
use crate::store::{hist_after, stats_after, AggregatedState};

verus! {

/// Feeds one raw feed payload to the store.
///
/// A payload that decodes as a tick is recorded for its symbol; anything else
/// is dropped and the store is left exactly as it was, so one malformed
/// message never disturbs the aggregation of any other message.
pub fn process_message(state: &mut AggregatedState, payload: &str) -> (accepted: bool)
    requires
        old(state).wf(),
    ensures
        final(state).wf(),
        match spec_decode(payload@) {
            Some(t) => accepted && final(state).raw_for(t.symbol) == Some(
                hist_after(old(state).raw_for(t.symbol), t),
            ) && final(state).stats_for(t.symbol) == Some(
                stats_after(old(state).stats_for(t.symbol), t.price),
            ) && (forall|s: Seq<char>|
                s != t.symbol ==> #[trigger] final(state).raw_for(s) == old(state).raw_for(s))
                && (forall|s: Seq<char>|
                s != t.symbol ==> #[trigger] final(state).stats_for(s) == old(state).stats_for(
                    s,
                )),
            None => !accepted && *final(state) == *old(state),
        },
{
    match decode_tick(payload) {
        Ok(t) => {
            state.record(t);
            true
        },
        Err(_) => false,
    }
}

} // verus!
