//! What a synchronisation run makes of the answers it gets: which pools it keeps,
//! and which failure ends it.
//!
//! The functions here take what the workers of a run handed back, in the order in
//! which the workers were started, and give what the run returns. The pool type `T`
//! is the caller's: the engine carries pools and never looks inside.

use crate::dex::Dex;
use crate::error::CFFMError;
use crate::join::{all_or_first_failure, failed, first_index, joined, successes};
use crate::join::{lemma_first_index_is, lemma_first_index_of_prefix};
use crate::join::{lemma_joined_all, lemma_same_parts_same_set};
use crate::join::{lemma_successes_concat, lemma_successes_of_all};
use crate::window::{lemma_partition_equivalence, lower_edge, pools_between, upper_edge};
use crate::window::{window_count, CreationLog};
use ethers::providers::ProviderError;
use tokio::task::JoinError;
use vstd::prelude::*;

verus! {

/// Units that one log query costs.
pub const LOG_QUERY_WEIGHT: usize = 1;

/// Units that the refresh of one pool's data costs: it sends several requests.
pub const POOL_DATA_WEIGHT: usize = 4;

/// Units that the refresh of one pool's reserves costs.
pub const POOL_SYNC_WEIGHT: usize = 1;

/// A result with a `Vec` in it, seen as one with a `Seq`.
pub open spec fn viewed<T, E>(r: Result<Vec<T>, E>) -> Result<Seq<T>, E> {
    match r {
        Ok(v) => Ok(v@),
        Err(e) => Err(e),
    }
}

/// Each result of `results` seen as one with a `Seq`.
pub open spec fn all_viewed<T, E>(results: Seq<Result<Vec<T>, E>>) -> Seq<Result<Seq<T>, E>> {
    Seq::new(results.len(), |i: int| viewed(results[i]))
}

/// The pools of one window: every log has to decode, and the first that does not
/// fails the window with its error.
pub fn pools_from_logs<T, C>(decoded: Vec<Result<T, CFFMError<C>>>) -> (pools: Result<
    Vec<T>,
    CFFMError<C>,
>)
    ensures
        viewed(pools) == all_or_first_failure(decoded@),
{
    let mut pools: Vec<T> = Vec::new();
    for log in iter: decoded.into_iter()
        invariant
            iter.seq() == decoded@,
            first_index(decoded@.take(iter.index()), failed()) == iter.index(),
            pools@ == successes(decoded@.take(iter.index())),
    {
        let ghost i = iter.index();
        proof {
            assert(decoded@.take(i + 1).drop_last() =~= decoded@.take(i));
        }
        match log {
            Ok(pool) => {
                pools.push(pool);
            },
            Err(e) => {
                proof {
                    lemma_first_index_of_prefix(decoded@, failed(), i + 1);
                }
                return Err(e);
            },
        }
    }
    assert(decoded@.take(decoded@.len() as int) =~= decoded@);
    Ok(pools)
}

/// What the joiner of a fan-out makes of its tasks' results, taken in the order in
/// which the tasks were started: the pools of all of them, or the error of the first
/// that failed. No pool of a task that succeeded is handed out once one has failed.
pub fn join_pools<T, E>(results: Vec<Result<Vec<T>, E>>) -> (pools: Result<Vec<T>, E>)
    ensures
        viewed(pools) == joined(all_viewed(results@)),
{
    let ghost parts = all_viewed(results@);
    let mut pools: Vec<T> = Vec::new();
    for result in iter: results.into_iter()
        invariant
            iter.seq() == results@,
            parts == all_viewed(results@),
            first_index(parts.take(iter.index()), failed()) == iter.index(),
            pools@ == crate::join::concat(successes(parts.take(iter.index()))),
    {
        let ghost i = iter.index();
        proof {
            assert(parts.take(i + 1).drop_last() =~= parts.take(i));
            assert(parts[i] == viewed(result));
        }
        match result {
            Ok(mut part) => {
                proof {
                    assert(successes(parts.take(i + 1)).drop_last() =~= successes(
                        parts.take(i),
                    ));
                }
                pools.append(&mut part);
            },
            Err(e) => {
                proof {
                    lemma_first_index_of_prefix(parts, failed(), i + 1);
                }
                return Err(e);
            },
        }
    }
    assert(parts.take(parts.len() as int) =~= parts);
    Ok(pools)
}

/// What the worker of one window handed back.
pub enum WindowReport<T, C> {
    /// The log query was answered; each log decoded to a pool, or failed to.
    Logs(Vec<Result<T, CFFMError<C>>>),
    /// The log query failed.
    QueryFailed(ProviderError),
    /// The worker ended without a report.
    Faulted(JoinError),
}

impl<T, C> WindowReport<T, C> {
    /// The pools of the window, or the error it failed with.
    pub open spec fn pools(self) -> Result<Seq<T>, CFFMError<C>> {
        match self {
            WindowReport::Logs(decoded) => all_or_first_failure(decoded@),
            WindowReport::QueryFailed(e) => Err(CFFMError::ProviderError(e)),
            WindowReport::Faulted(e) => Err(CFFMError::JoinError(e)),
        }
    }

    pub fn into_pools(self) -> (pools: Result<Vec<T>, CFFMError<C>>)
        ensures
            viewed(pools) == self.pools(),
    {
        match self {
            WindowReport::Logs(decoded) => pools_from_logs(decoded),
            WindowReport::QueryFailed(e) => Err(CFFMError::ProviderError(e)),
            WindowReport::Faulted(e) => Err(CFFMError::JoinError(e)),
        }
    }
}

/// What each window of `reports` came to.
pub open spec fn window_results<T, C>(reports: Seq<WindowReport<T, C>>) -> Seq<
    Result<Seq<T>, CFFMError<C>>,
> {
    Seq::new(reports.len(), |i: int| reports[i].pools())
}

/// The pools of one exchange, from the reports of its windows in window order: the
/// pools of all windows, lowest window first, or the error of the first window that
/// failed. A query that failed comes back as `ProviderError`, a worker that ended
/// without a report as `JoinError`, a log that did not decode as its own error.
pub fn get_all_pools_from_dex<T, C>(reports: Vec<WindowReport<T, C>>) -> (pools: Result<
    Vec<T>,
    CFFMError<C>,
>)
    ensures
        viewed(pools) == joined(window_results(reports@)),
{
    let mut results: Vec<Result<Vec<T>, CFFMError<C>>> = Vec::new();
    for report in iter: reports.into_iter()
        invariant
            iter.seq() == reports@,
            results.len() == iter.index(),
            forall|k: int|
                0 <= k < results.len() ==> viewed(#[trigger] results@[k]) == reports@[k].pools(),
    {
        results.push(report.into_pools());
    }
    assert(all_viewed(results@) =~= window_results(reports@));
    join_pools(results)
}

/// Windowing changes nothing in what a crawl finds: where the chain holds no event
/// above the current block, and every window's query is answered with events that
/// all decode, to the pools of the events between its two edges, the crawl succeeds,
/// and the set of its pools is that of one query over the whole range.
pub proof fn lemma_crawl_finds_the_range<T, C>(
    logs: Seq<CreationLog<T>>,
    creation_block: u64,
    current_block: u64,
    reports: Seq<WindowReport<T, C>>,
)
    requires
        forall|i: int| 0 <= i < logs.len() ==> (#[trigger] logs[i]).block <= current_block,
        reports.len() == window_count(creation_block, current_block),
        forall|k: int| 0 <= k < reports.len() ==> (#[trigger] reports[k]).pools() is Ok,
        forall|k: int|
            0 <= k < reports.len() ==> (#[trigger] reports[k]).pools()->Ok_0.to_set()
                == pools_between(
                logs,
                lower_edge(creation_block, k),
                upper_edge(creation_block, k),
            ),
    ensures
        joined(window_results(reports)) is Ok,
        joined(window_results(reports))->Ok_0.to_set() == pools_between(
            logs,
            creation_block as int,
            current_block as int,
        ),
{
    let results = window_results(reports);
    let answers = Seq::new(results.len(), |i: int| results[i]->Ok_0);
    assert forall|i: int| 0 <= i < results.len() implies (#[trigger] results[i]) is Ok by {
        assert(reports[i].pools() is Ok);
    }
    lemma_joined_all(results);
    assert forall|k: int| 0 <= k < answers.len() implies (#[trigger] answers[k]).to_set()
        == pools_between(logs, lower_edge(creation_block, k), upper_edge(creation_block, k)) by {
        assert(answers[k] == reports[k].pools()->Ok_0);
    }
    lemma_partition_equivalence(logs, creation_block, current_block, answers);
}

/// What the joiner gets from the task of one exchange: its pools, the error it
/// reported, or the join error of a task that ended without a report.
pub open spec fn task_pools<T, C>(report: Result<Result<Vec<T>, CFFMError<C>>, JoinError>) -> Result<
    Seq<T>,
    CFFMError<C>,
> {
    match report {
        Ok(reported) => viewed(reported),
        Err(e) => Err(CFFMError::JoinError(e)),
    }
}

/// What each task of `reports` came to.
pub open spec fn task_results<T, C>(
    reports: Seq<Result<Result<Vec<T>, CFFMError<C>>, JoinError>>,
) -> Seq<Result<Seq<T>, CFFMError<C>>> {
    Seq::new(reports.len(), |i: int| task_pools(reports[i]))
}

/// The pools of all exchanges, from the reports of their tasks in the order of the
/// exchanges: the pools of all of them, or the error of the first task that failed.
/// A task that ended without a report fails the call with `JoinError`; its pools are
/// never passed over in silence.
pub fn get_all_pools<T, C>(reports: Vec<Result<Result<Vec<T>, CFFMError<C>>, JoinError>>) -> (pools:
    Result<Vec<T>, CFFMError<C>>)
    ensures
        viewed(pools) == joined(task_results(reports@)),
{
    let mut results: Vec<Result<Vec<T>, CFFMError<C>>> = Vec::new();
    for report in iter: reports.into_iter()
        invariant
            iter.seq() == reports@,
            results.len() == iter.index(),
            forall|k: int|
                0 <= k < results.len() ==> viewed(#[trigger] results@[k]) == task_pools(
                    reports@[k],
                ),
    {
        let result = match report {
            Ok(reported) => reported,
            Err(e) => Err(CFFMError::JoinError(e)),
        };
        results.push(result);
    }
    assert(all_viewed(results@) =~= task_results(reports@));
    join_pools(results)
}

/// Discovery repeats: two runs whose tasks all succeeded and found, exchange by
/// exchange, the same pools in whatever order, return the same set of pools.
pub proof fn lemma_discovery_repeats<T, C>(
    first: Seq<Result<Result<Vec<T>, CFFMError<C>>, JoinError>>,
    second: Seq<Result<Result<Vec<T>, CFFMError<C>>, JoinError>>,
)
    requires
        first.len() == second.len(),
        forall|k: int| 0 <= k < first.len() ==> task_pools(#[trigger] first[k]) is Ok,
        forall|k: int| 0 <= k < second.len() ==> task_pools(#[trigger] second[k]) is Ok,
        forall|k: int|
            0 <= k < first.len() ==> task_pools(#[trigger] first[k])->Ok_0.to_set() == task_pools(
                second[k],
            )->Ok_0.to_set(),
    ensures
        joined(task_results(first)) is Ok,
        joined(task_results(second)) is Ok,
        joined(task_results(first))->Ok_0.to_set() == joined(task_results(second))->Ok_0.to_set(),
{
    let a = task_results(first);
    let b = task_results(second);
    assert forall|i: int| 0 <= i < a.len() implies (#[trigger] a[i]) is Ok by {
        assert(task_pools(first[i]) is Ok);
    }
    assert forall|i: int| 0 <= i < b.len() implies (#[trigger] b[i]) is Ok by {
        assert(task_pools(second[i]) is Ok);
    }
    lemma_joined_all(a);
    lemma_joined_all(b);
    let pa = Seq::new(a.len(), |i: int| a[i]->Ok_0);
    let pb = Seq::new(b.len(), |i: int| b[i]->Ok_0);
    assert forall|k: int| 0 <= k < pa.len() implies (#[trigger] pa[k]).to_set()
        == pb[k].to_set() by {
        assert(pa[k] == task_pools(first[k])->Ok_0);
        assert(pb[k] == task_pools(second[k])->Ok_0);
    }
    lemma_same_parts_same_set(pa, pb);
}

/// One task that failed fails discovery: whatever the other exchanges found, the
/// run returns an error and no pool.
pub proof fn lemma_discovery_fails_as_a_whole<T, C>(
    reports: Seq<Result<Result<Vec<T>, CFFMError<C>>, JoinError>>,
    k: int,
)
    requires
        0 <= k < reports.len(),
        task_pools(reports[k]) is Err,
    ensures
        joined(task_results(reports)) is Err,
        (forall|i: int|
            0 <= i < reports.len() && i != k ==> task_pools(#[trigger] reports[i]) is Ok)
            ==> joined(task_results(reports)) == Err::<Seq<T>, CFFMError<C>>(
            task_pools(reports[k])->Err_0,
        ),
{
    let results = task_results(reports);
    assert(results[k] is Err);
    if forall|i: int| 0 <= i < reports.len() && i != k ==> task_pools(#[trigger] reports[i]) is Ok {
        assert forall|i: int| 0 <= i < results.len() && i != k implies (#[trigger] results[i])
            is Ok by {
            assert(task_pools(reports[i]) is Ok);
        }
    }
    crate::join::lemma_one_failure_fails_all(results, k);
}

/// One window that failed fails the crawl: whatever the other windows found, the
/// crawl returns an error and no pool.
pub proof fn lemma_crawl_fails_as_a_whole<T, C>(reports: Seq<WindowReport<T, C>>, k: int)
    requires
        0 <= k < reports.len(),
        reports[k].pools() is Err,
    ensures
        joined(window_results(reports)) is Err,
        (forall|i: int| 0 <= i < reports.len() && i != k ==> (#[trigger] reports[i]).pools() is Ok)
            ==> joined(window_results(reports)) == Err::<Seq<T>, CFFMError<C>>(
            reports[k].pools()->Err_0,
        ),
{
    let results = window_results(reports);
    assert(results[k] is Err);
    if forall|i: int| 0 <= i < reports.len() && i != k ==> (#[trigger] reports[i]).pools() is Ok {
        assert forall|i: int| 0 <= i < results.len() && i != k implies (#[trigger] results[i])
            is Ok by {
            assert(reports[i].pools() is Ok);
        }
    }
    crate::join::lemma_one_failure_fails_all(results, k);
}

/// Holds of an outcome that failed because the endpoint or the transport did.
pub open spec fn infrastructure_failed<T, C>() -> spec_fn(Result<T, CFFMError<C>>) -> bool {
    |r: Result<T, CFFMError<C>>| r is Err && r->Err_0.infrastructure()
}

/// What a refresh pass makes of the outcomes of its pools, taken in order: the pools
/// that were refreshed, without those whose refresh failed; or, if the endpoint or
/// the transport failed, the error of the first outcome in which it did. No other
/// failure ends the pass.
pub open spec fn pool_data_kept<T, C>(outcomes: Seq<Result<T, CFFMError<C>>>) -> Result<
    Seq<T>,
    CFFMError<C>,
> {
    if first_index(outcomes, infrastructure_failed()) == outcomes.len() {
        Ok(successes(outcomes))
    } else {
        Err(outcomes[first_index(outcomes, infrastructure_failed())]->Err_0)
    }
}

/// Takes in the outcome of one pool's refresh: a refreshed pool is added to
/// `updated`, a failure of the infrastructure is handed back to end the pass, and a
/// pool that failed in any other way is dropped.
pub fn keep_pool_data<T, C>(updated: &mut Vec<T>, outcome: Result<T, CFFMError<C>>) -> (step:
    Result<(), CFFMError<C>>)
    ensures
        outcome is Ok ==> step is Ok && final(updated)@ == old(updated)@.push(outcome->Ok_0),
        outcome is Err ==> final(updated)@ == old(updated)@,
        outcome is Err && outcome->Err_0.infrastructure() ==> step == Err::<(), CFFMError<C>>(
            outcome->Err_0,
        ),
        outcome is Err && !outcome->Err_0.infrastructure() ==> step is Ok,
{
    match outcome {
        Ok(pool) => {
            updated.push(pool);
            Ok(())
        },
        Err(e) => {
            if e.is_infrastructure() {
                Err(e)
            } else {
                Ok(())
            }
        },
    }
}

/// The pools of a refresh pass, from the outcome of each pool's refresh in order:
/// a pool that was refreshed stays, a pool whose refresh failed is dropped, and the
/// first failure of the infrastructure ends the pass with its error and without any
/// pool. The pass fails in no other way.
pub fn get_all_pool_data<T, C>(outcomes: Vec<Result<T, CFFMError<C>>>) -> (pools: Result<
    Vec<T>,
    CFFMError<C>,
>)
    ensures
        viewed(pools) == pool_data_kept(outcomes@),
{
    let mut updated: Vec<T> = Vec::new();
    for outcome in iter: outcomes.into_iter()
        invariant
            iter.seq() == outcomes@,
            first_index(outcomes@.take(iter.index()), infrastructure_failed()) == iter.index(),
            updated@ == successes(outcomes@.take(iter.index())),
    {
        let ghost i = iter.index();
        proof {
            assert(outcomes@.take(i + 1).drop_last() =~= outcomes@.take(i));
        }
        match keep_pool_data(&mut updated, outcome) {
            Ok(()) => {},
            Err(e) => {
                proof {
                    lemma_first_index_of_prefix(outcomes@, infrastructure_failed(), i + 1);
                }
                return Err(e);
            },
        }
    }
    assert(outcomes@.take(outcomes@.len() as int) =~= outcomes@);
    Ok(updated)
}

/// The pools of a pass in which every pool but the `k`-th was refreshed.
pub open spec fn all_but<T, C>(outcomes: Seq<Result<T, CFFMError<C>>>, k: int) -> Seq<T> {
    Seq::new(
        (outcomes.len() - 1) as nat,
        |i: int|
            if i < k {
                outcomes[i]->Ok_0
            } else {
                outcomes[i + 1]->Ok_0
            },
    )
}

/// Skip on error: of a pass in which one pool alone failed, all other pools stay,
/// in order; but if it failed because the infrastructure did, the pass fails with
/// that error and no pool stays.
pub proof fn lemma_refresh_skips_one<T, C>(outcomes: Seq<Result<T, CFFMError<C>>>, k: int)
    requires
        0 <= k < outcomes.len(),
        outcomes[k] is Err,
        forall|i: int| 0 <= i < outcomes.len() && i != k ==> (#[trigger] outcomes[i]) is Ok,
    ensures
        !outcomes[k]->Err_0.infrastructure() ==> pool_data_kept(outcomes) == Ok::<
            Seq<T>,
            CFFMError<C>,
        >(all_but(outcomes, k)),
        outcomes[k]->Err_0.infrastructure() ==> pool_data_kept(outcomes) == Err::<
            Seq<T>,
            CFFMError<C>,
        >(outcomes[k]->Err_0),
{
    if outcomes[k]->Err_0.infrastructure() {
        lemma_first_index_is(outcomes, infrastructure_failed(), k);
    } else {
        lemma_first_index_is(outcomes, infrastructure_failed(), outcomes.len() as int);
        let below = outcomes.take(k);
        let at = outcomes.subrange(k, k + 1);
        let above = outcomes.skip(k + 1);
        assert(outcomes =~= below + at + above);
        lemma_successes_concat(below + at, above);
        lemma_successes_concat(below, at);
        lemma_successes_of_all(below);
        lemma_successes_of_all(above);
        assert(at.len() == 1 && at.last() == outcomes[k]);
        assert(successes(at.drop_last()) =~= Seq::<T>::empty());
        assert(successes(at) =~= Seq::<T>::empty());
        assert(successes(outcomes) =~= all_but(outcomes, k));
    }
}

/// A pass in which every pool was refreshed keeps them all, in order.
pub proof fn lemma_refresh_keeps_all<T, C>(outcomes: Seq<Result<T, CFFMError<C>>>)
    requires
        forall|i: int| 0 <= i < outcomes.len() ==> (#[trigger] outcomes[i]) is Ok,
    ensures
        pool_data_kept(outcomes) == Ok::<Seq<T>, CFFMError<C>>(
            Seq::new(outcomes.len(), |i: int| outcomes[i]->Ok_0),
        ),
{
    lemma_first_index_is(outcomes, infrastructure_failed(), outcomes.len() as int);
    lemma_successes_of_all(outcomes);
    assert(successes(outcomes) =~= Seq::new(outcomes.len(), |i: int| outcomes[i]->Ok_0));
}

/// A pass fails with the first failure of the infrastructure among its outcomes,
/// whatever came before it and whatever would have come after.
pub proof fn lemma_refresh_stops_at_infrastructure<T, C>(
    outcomes: Seq<Result<T, CFFMError<C>>>,
    k: int,
)
    requires
        0 <= k < outcomes.len(),
        outcomes[k] is Err,
        outcomes[k]->Err_0.infrastructure(),
        forall|i: int|
            0 <= i < k ==> !((#[trigger] outcomes[i]) is Err
                && outcomes[i]->Err_0.infrastructure()),
    ensures
        pool_data_kept(outcomes) == Err::<Seq<T>, CFFMError<C>>(outcomes[k]->Err_0),
{
    lemma_first_index_is(outcomes, infrastructure_failed(), k);
}

/// A pass fails if and only if the refresh of one of its pools failed because the
/// infrastructure did: failures of any other kind, however many, never fail it.
pub proof fn lemma_refresh_fails_only_on_infrastructure<T, C>(
    outcomes: Seq<Result<T, CFFMError<C>>>,
)
    ensures
        pool_data_kept(outcomes) is Err <==> exists|i: int|
            0 <= i < outcomes.len() && (#[trigger] outcomes[i]) is Err
                && outcomes[i]->Err_0.infrastructure(),
        pool_data_kept(outcomes) is Err ==> pool_data_kept(outcomes)->Err_0.infrastructure(),
{
    crate::join::lemma_first_index(outcomes, infrastructure_failed());
    let first = first_index(outcomes, infrastructure_failed());
    if first < outcomes.len() {
        assert(outcomes[first] is Err && outcomes[first]->Err_0.infrastructure());
    }
}

/// Takes in the outcome of one pool's reserves refresh: a refreshed pool is added
/// to `synced`, and any failure is handed back to end the pass.
pub fn keep_synced_pool<T, C>(synced: &mut Vec<T>, outcome: Result<T, CFFMError<C>>) -> (step:
    Result<(), CFFMError<C>>)
    ensures
        outcome is Ok ==> step is Ok && final(synced)@ == old(synced)@.push(outcome->Ok_0),
        outcome is Err ==> final(synced)@ == old(synced)@ && step == Err::<(), CFFMError<C>>(
            outcome->Err_0,
        ),
{
    match outcome {
        Ok(pool) => {
            synced.push(pool);
            Ok(())
        },
        Err(e) => Err(e),
    }
}

/// The pools of a reserves pass, from the outcome of each pool's refresh in order:
/// all of them if every refresh succeeded, else the error of the first that failed,
/// of whatever class, and no pool.
pub fn sync_all_pools<T, C>(outcomes: Vec<Result<T, CFFMError<C>>>) -> (pools: Result<
    Vec<T>,
    CFFMError<C>,
>)
    ensures
        viewed(pools) == all_or_first_failure(outcomes@),
{
    let mut synced: Vec<T> = Vec::new();
    for outcome in iter: outcomes.into_iter()
        invariant
            iter.seq() == outcomes@,
            first_index(outcomes@.take(iter.index()), failed()) == iter.index(),
            synced@ == successes(outcomes@.take(iter.index())),
    {
        let ghost i = iter.index();
        proof {
            assert(outcomes@.take(i + 1).drop_last() =~= outcomes@.take(i));
        }
        match keep_synced_pool(&mut synced, outcome) {
            Ok(()) => {},
            Err(e) => {
                proof {
                    lemma_first_index_of_prefix(outcomes@, failed(), i + 1);
                }
                return Err(e);
            },
        }
    }
    assert(outcomes@.take(outcomes@.len() as int) =~= outcomes@);
    Ok(synced)
}

/// What the task of one exchange saw: the reports of its windows, then the outcome
/// of each discovered pool's data refresh, then the outcome of each kept pool's
/// reserves refresh.
pub struct TaskRecord<T, C> {
    pub windows: Seq<WindowReport<T, C>>,
    pub pool_data: Seq<Result<T, CFFMError<C>>>,
    pub reserves: Seq<Result<T, CFFMError<C>>>,
}

impl<T, C> TaskRecord<T, C> {
    /// The pools that the crawl found.
    pub open spec fn discovered(self) -> Seq<T> {
        joined(window_results(self.windows))->Ok_0
    }

    /// The pools that the data pass kept.
    pub open spec fn kept(self) -> Seq<T> {
        pool_data_kept(self.pool_data)->Ok_0
    }

    /// What the task comes to: its three stages in sequence, each of which has to
    /// succeed for the next to run.
    pub open spec fn synced(self) -> Result<Seq<T>, CFFMError<C>> {
        dex_synced(self.windows, self.pool_data, self.reserves)
    }

    /// The record of a task whose crawl succeeded, whose data pass saw one outcome
    /// for each discovered pool, all of them the pool as `data` leaves it but for
    /// the pools of `failing`, and whose reserves pass left each kept pool as
    /// `reserves` leaves it.
    pub open spec fn refreshes(
        self,
        data: spec_fn(T) -> T,
        reserves: spec_fn(T) -> T,
        failing: Set<int>,
    ) -> bool {
        &&& joined(window_results(self.windows)) is Ok
        &&& self.pool_data.len() == self.discovered().len()
        &&& forall|i: int|
            0 <= i < self.pool_data.len() && !failing.contains(i) ==> (
            #[trigger] self.pool_data[i]) == Ok::<T, CFFMError<C>>(data(self.discovered()[i]))
        &&& forall|i: int|
            0 <= i < self.pool_data.len() && failing.contains(i) ==> (
            #[trigger] self.pool_data[i]) is Err && !self.pool_data[i]->Err_0.infrastructure()
        &&& self.reserves.len() == self.kept().len()
        &&& forall|j: int|
            0 <= j < self.reserves.len() ==> (#[trigger] self.reserves[j]) == Ok::<
                T,
                CFFMError<C>,
            >(reserves(self.kept()[j]))
    }
}

/// The pools as the data refresh and then the reserves refresh leave them.
pub open spec fn twice_refreshed<T>(
    pools: Seq<T>,
    data: spec_fn(T) -> T,
    reserves: spec_fn(T) -> T,
) -> Seq<T> {
    Seq::new(pools.len(), |i: int| reserves(data(pools[i])))
}

/// What the task of one exchange comes to, from what its three stages saw: the
/// error of the crawl; else the error of the data pass; else what the reserves pass
/// comes to.
pub open spec fn dex_synced<T, C>(
    windows: Seq<WindowReport<T, C>>,
    pool_data: Seq<Result<T, CFFMError<C>>>,
    reserves: Seq<Result<T, CFFMError<C>>>,
) -> Result<Seq<T>, CFFMError<C>> {
    match joined(window_results(windows)) {
        Err(e) => Err(e),
        Ok(_) => match pool_data_kept(pool_data) {
            Err(e) => Err(e),
            Ok(_) => all_or_first_failure(reserves),
        },
    }
}

/// The pools of one exchange's task, from what its three stages saw.
pub fn sync_dex<T, C>(
    windows: Vec<WindowReport<T, C>>,
    pool_data: Vec<Result<T, CFFMError<C>>>,
    reserves: Vec<Result<T, CFFMError<C>>>,
) -> (pools: Result<Vec<T>, CFFMError<C>>)
    ensures
        viewed(pools) == dex_synced(windows@, pool_data@, reserves@),
{
    match get_all_pools_from_dex(windows) {
        Err(e) => Err(e),
        Ok(_) => match get_all_pool_data(pool_data) {
            Err(e) => Err(e),
            Ok(_) => sync_all_pools(reserves),
        },
    }
}

/// A task in which every refresh succeeded returns every discovered pool, in
/// order, as its two refreshes left it.
pub proof fn lemma_task_keeps_all<T, C>(
    record: TaskRecord<T, C>,
    data: spec_fn(T) -> T,
    reserves: spec_fn(T) -> T,
)
    requires
        record.refreshes(data, reserves, Set::empty()),
    ensures
        record.synced() == Ok::<Seq<T>, CFFMError<C>>(
            twice_refreshed(record.discovered(), data, reserves),
        ),
{
    lemma_refresh_keeps_all(record.pool_data);
    lemma_first_index_is(record.reserves, failed(), record.reserves.len() as int);
    lemma_successes_of_all(record.reserves);
    assert(successes(record.reserves) =~= twice_refreshed(record.discovered(), data, reserves));
}

/// Skip on error, for the task of one exchange: if the data refresh of one pool
/// alone failed, and not because the infrastructure did, the task returns every
/// other discovered pool, in order, as its two refreshes left it, and not that one.
pub proof fn lemma_task_skips_one<T, C>(
    record: TaskRecord<T, C>,
    data: spec_fn(T) -> T,
    reserves: spec_fn(T) -> T,
    k: int,
)
    requires
        0 <= k < record.discovered().len(),
        record.refreshes(data, reserves, set![k]),
    ensures
        record.synced() == Ok::<Seq<T>, CFFMError<C>>(
            twice_refreshed(record.discovered().remove(k), data, reserves),
        ),
        record.synced()->Ok_0.len() == record.discovered().len() - 1,
{
    assert(set![k].contains(k));
    assert(record.pool_data[k] is Err);
    assert forall|i: int| 0 <= i < record.pool_data.len() && i != k implies (
    #[trigger] record.pool_data[i]) is Ok by {
        assert(!set![k].contains(i));
    }
    lemma_refresh_skips_one(record.pool_data, k);
    lemma_first_index_is(record.reserves, failed(), record.reserves.len() as int);
    lemma_successes_of_all(record.reserves);
    assert(successes(record.reserves) =~= twice_refreshed(
        record.discovered().remove(k),
        data,
        reserves,
    )) by {
        assert forall|j: int| 0 <= j < record.reserves.len() implies successes(
            record.reserves,
        )[j] == reserves(data(record.discovered().remove(k)[j])) by {
            if j < k {
                assert(!set![k].contains(j));
            } else {
                assert(!set![k].contains(j + 1));
            }
        }
    }
}

/// What each exchange's crawl found.
pub open spec fn all_discovered<T, C>(records: Seq<TaskRecord<T, C>>) -> Seq<Seq<T>> {
    Seq::new(records.len(), |d: int| records[d].discovered())
}

/// What each exchange's task is to return where the data refresh of the `k`-th pool
/// of the exchange `at` is the only refresh that failed: every discovered pool but
/// that one, in order, as its two refreshes left it.
pub open spec fn all_but_one_refreshed<T, C>(
    records: Seq<TaskRecord<T, C>>,
    data: spec_fn(T) -> T,
    reserves: spec_fn(T) -> T,
    at: int,
    k: int,
) -> Seq<Seq<T>> {
    Seq::new(
        records.len(),
        |d: int|
            if d == at {
                twice_refreshed(records[d].discovered().remove(k), data, reserves)
            } else {
                twice_refreshed(records[d].discovered(), data, reserves)
            },
    )
}

/// Skip on error, for the whole run: where every task ran to its end and nothing
/// failed but the data refresh of one pool, and that not because the infrastructure
/// did, the run succeeds and returns every discovered pool but that one, exchange
/// by exchange and in order, as its two refreshes left it: one pool fewer than were
/// discovered.
pub proof fn lemma_run_skips_one<T, C>(
    records: Seq<TaskRecord<T, C>>,
    reports: Seq<Result<Result<Vec<T>, CFFMError<C>>, JoinError>>,
    data: spec_fn(T) -> T,
    reserves: spec_fn(T) -> T,
    at: int,
    k: int,
)
    requires
        reports.len() == records.len(),
        forall|d: int|
            0 <= d < reports.len() ==> task_pools(#[trigger] reports[d]) == records[d].synced(),
        0 <= at < records.len(),
        0 <= k < records[at].discovered().len(),
        records[at].refreshes(data, reserves, set![k]),
        forall|d: int|
            0 <= d < records.len() && d != at ==> (#[trigger] records[d]).refreshes(
                data,
                reserves,
                Set::empty(),
            ),
    ensures
        joined(task_results(reports)) == Ok::<Seq<T>, CFFMError<C>>(
            crate::join::concat(all_but_one_refreshed(records, data, reserves, at, k)),
        ),
        joined(task_results(reports))->Ok_0.len() + 1 == crate::join::concat(
            all_discovered(records),
        ).len(),
{
    let results = task_results(reports);
    let expected = all_but_one_refreshed(records, data, reserves, at, k);
    assert forall|d: int| 0 <= d < results.len() implies (#[trigger] results[d]) == Ok::<
        Seq<T>,
        CFFMError<C>,
    >(expected[d]) by {
        assert(task_pools(reports[d]) == records[d].synced());
        if d == at {
            lemma_task_skips_one(records[d], data, reserves, k);
        } else {
            assert(records[d].refreshes(data, reserves, Set::empty()));
            lemma_task_keeps_all(records[d], data, reserves);
        }
    }
    lemma_joined_all(results);
    assert(Seq::new(results.len(), |i: int| results[i]->Ok_0) =~= expected);
    crate::join::lemma_concat_one_shorter(expected, all_discovered(records), at);
}

/// How a run that refreshed its pools ends.
pub enum SyncEnd<T> {
    /// The run returns these pools.
    Done(Vec<T>),
    /// A checkpoint of these pools is due before the run returns them.
    CheckpointDue(Vec<T>),
}

/// The end of a run that discovers and refreshes, from the reports of the tasks of
/// its exchanges in order: the error of the first task that failed, else the pools
/// of all of them, with a checkpoint due if and only if `save_checkpoint` is set.
pub fn sync_pairs_with_throttle<T, C>(
    reports: Vec<Result<Result<Vec<T>, CFFMError<C>>, JoinError>>,
    save_checkpoint: bool,
) -> (end: Result<SyncEnd<T>, CFFMError<C>>)
    ensures
        match joined(task_results(reports@)) {
            Ok(pools) => end is Ok && (if save_checkpoint {
                end->Ok_0 is CheckpointDue && end->Ok_0->CheckpointDue_0@ == pools
            } else {
                end->Ok_0 is Done && end->Ok_0->Done_0@ == pools
            }),
            Err(e) => end is Err && end->Err_0 == e,
        },
{
    match get_all_pools(reports) {
        Ok(pools) => {
            if save_checkpoint {
                Ok(SyncEnd::CheckpointDue(pools))
            } else {
                Ok(SyncEnd::Done(pools))
            }
        },
        Err(e) => Err(e),
    }
}

/// The snapshot that a later run can start from.
pub struct SyncCheckpoint<T> {
    pub dexes: Vec<Dex>,
    pub pools: Vec<T>,
    pub block_number: u64,
}

/// The name under which the checkpoint is written.
pub fn checkpoint_path() -> (path: String)
    ensures
        path@ == "pool_sync_checkpoint.json"@,
{
    "pool_sync_checkpoint.json".to_owned()
}

/// The checkpoint of a run that ended with `pools`, from the answer to the closing
/// height query: it holds the exchanges and the pools as they are, and the height
/// that was answered. A query that failed fails the run with `ProviderError`.
pub fn construct_checkpoint<T, C>(
    dexes: Vec<Dex>,
    pools: Vec<T>,
    latest_block: Result<u64, ProviderError>,
) -> (checkpoint: Result<SyncCheckpoint<T>, CFFMError<C>>)
    ensures
        match latest_block {
            Ok(height) => checkpoint is Ok && checkpoint->Ok_0.dexes@ == dexes@
                && checkpoint->Ok_0.pools@ == pools@ && checkpoint->Ok_0.block_number == height,
            Err(e) => checkpoint is Err && checkpoint->Err_0 == CFFMError::<C>::ProviderError(e),
        },
{
    match latest_block {
        Ok(block_number) => Ok(SyncCheckpoint { dexes, pools, block_number }),
        Err(e) => Err(CFFMError::ProviderError(e)),
    }
}

} // verus!
