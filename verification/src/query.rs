//! The log queries of a run: for each exchange one for each window of its block range.

use crate::dex::Dex;
use crate::error::CFFMError;
use crate::window::{block_windows, windows_of, BlockWindow, BLOCK_STEP};
use ethers::providers::ProviderError;
use ethers::types::{BlockNumber, Filter, ValueOrArray, H160, H256, U64};
use vstd::prelude::*;

verus! {

/// `ethers::types::Filter`, carried through as an opaque value.
#[verifier::external_type_specification]
#[verifier::external_body]
pub struct ExFilter(Filter);

/// The filter that `Filter::new()` becomes once `topic0`, `address`, `from_block`
/// and `to_block` have set, in this order, the topic, the address and the two edges
/// of the block range, both as block numbers.
pub uninterp spec fn window_filter(
    address: Seq<u8>,
    topic: Seq<u8>,
    from_block: u64,
    to_block: u64,
) -> Filter;

/// Builds a filter with `Filter::new`, `Filter::topic0`, `Filter::address`,
/// `Filter::from_block` and `Filter::to_block` of `ethers`. The contract claims
/// only that the filter is a function of the four values handed in: each of the
/// five calls sets fields from its arguments and reads nothing else.
#[verifier::external_body]
fn build_filter(address: [u8; 20], topic: [u8; 32], from_block: u64, to_block: u64) -> (filter:
    Filter)
    ensures
        filter == window_filter(address@, topic@, from_block, to_block),
{
    Filter::new()
        .topic0(ValueOrArray::Value(H256(topic)))
        .address(H160(address))
        .from_block(BlockNumber::Number(U64([from_block])))
        .to_block(BlockNumber::Number(U64([to_block])))
}

/// The query of one window: the logs that the factory at `address` emitted under
/// `topic` in the blocks of `window`, both edges included.
pub fn window_query(address: [u8; 20], topic: [u8; 32], window: BlockWindow) -> (filter: Filter)
    ensures
        filter == window_filter(address@, topic@, window.from_block, window.to_block),
{
    build_filter(address, topic, window.from_block, window.to_block)
}

/// The queries of the crawl of `dex`, lowest window first: one for each window of
/// the range from its creation block to `current_block`, each for its factory
/// address and its creation topic.
pub open spec fn queries_of(dex: Dex, current_block: u64) -> Seq<Filter> {
    Seq::new(
        windows_of(dex.creation_block, current_block).len(),
        |i: int|
            window_filter(
                dex.factory_address@,
                dex.pool_created_event_signature@,
                windows_of(dex.creation_block, current_block)[i].from_block,
                windows_of(dex.creation_block, current_block)[i].to_block,
            ),
    )
}

/// The queries that the crawl of one exchange sends, one for each worker.
pub fn log_queries(dex: &Dex, current_block: u64) -> (queries: Vec<Filter>)
    requires
        current_block <= u64::MAX - BLOCK_STEP,
    ensures
        queries@ == queries_of(*dex, current_block),
{
    let windows = block_windows(dex.creation_block, current_block);
    let mut queries: Vec<Filter> = Vec::new();
    let mut i: usize = 0;
    while i < windows.len()
        invariant
            i <= windows.len(),
            windows@ == windows_of(dex.creation_block, current_block),
            queries.len() == i,
            forall|k: int|
                0 <= k < i ==> (#[trigger] queries[k]) == queries_of(*dex, current_block)[k],
        decreases windows.len() - i,
    {
        queries.push(
            window_query(dex.factory_address, dex.pool_created_event_signature, windows[i]),
        );
        i = i + 1;
    }
    assert(queries@ =~= queries_of(*dex, current_block));
    queries
}

/// The fan-out of a run, from the answer to its opening height query: for each
/// exchange the queries of its crawl, every crawl with the height that was answered
/// as its upper bound. A query that failed fails the run with `ProviderError` before
/// anything is sent.
pub fn crawl_plan<C>(dexes: &Vec<Dex>, current_block: Result<u64, ProviderError>) -> (plan: Result<
    Vec<Vec<Filter>>,
    CFFMError<C>,
>)
    requires
        current_block is Ok ==> current_block->Ok_0 <= u64::MAX - BLOCK_STEP,
    ensures
        match current_block {
            Ok(height) => plan is Ok && plan->Ok_0.len() == dexes.len() && forall|i: int|
                0 <= i < dexes.len() ==> (#[trigger] plan->Ok_0[i])@ == queries_of(
                    dexes[i],
                    height,
                ),
            Err(e) => plan is Err && plan->Err_0 == CFFMError::<C>::ProviderError(e),
        },
{
    match current_block {
        Ok(height) => {
            let mut plan: Vec<Vec<Filter>> = Vec::new();
            let mut i: usize = 0;
            while i < dexes.len()
                invariant
                    i <= dexes.len(),
                    height <= u64::MAX - BLOCK_STEP,
                    plan.len() == i,
                    forall|k: int|
                        0 <= k < i ==> (#[trigger] plan[k])@ == queries_of(dexes[k], height),
                decreases dexes.len() - i,
            {
                plan.push(log_queries(&dexes[i], height));
                i = i + 1;
            }
            Ok(plan)
        },
        Err(e) => Err(CFFMError::ProviderError(e)),
    }
}

} // verus!
