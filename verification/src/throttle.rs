//! The request throttle: a budget of weighted units per second, shared by every
//! worker of a run.
//!
//! The throttle never sleeps. A worker tells it the time and the weight of the
//! request it is about to send, and is told how long to wait before sending it.
//! Units are issued in bursts: a burst holds at most the limit, and a new burst
//! begins no sooner than one period after the last issue of the burst before it.

use vstd::prelude::*;

verus! {

/// Length of the rate period in milliseconds.
pub const PERIOD_MS: u64 = 1000;

/// What the throttle remembers, as plain numbers.
pub struct ThrottleState {
    /// Units per period; 0 switches the throttle off.
    pub limit: nat,
    /// Whether anything was issued yet.
    pub started: bool,
    /// Units issued in the current burst.
    pub issued: nat,
    /// Time of the most recent issue.
    pub last_issue: nat,
}

/// One answered request: `weight` units, to be sent at time `at`.
pub struct Issue {
    pub at: nat,
    pub weight: nat,
}

impl ThrottleState {
    /// The state of a throttle that has issued nothing.
    pub open spec fn initial(limit: nat) -> ThrottleState {
        ThrottleState { limit, started: false, issued: 0, last_issue: 0 }
    }

    /// The time from which a request that arrives at `now` is looked at: requests
    /// are answered in the order they arrive, so never before the last issue.
    pub open spec fn arrival(self, now: nat) -> nat {
        if self.started && now < self.last_issue {
            self.last_issue
        } else {
            now
        }
    }

    /// When a request of `weight` units that arrives at `now` is issued.
    pub open spec fn issue_time(self, weight: nat, now: nat) -> nat {
        if self.limit == 0 || !self.started {
            now
        } else if self.arrival(now) - self.last_issue >= PERIOD_MS {
            self.arrival(now)
        } else if self.issued + weight <= self.limit {
            self.arrival(now)
        } else {
            self.last_issue + PERIOD_MS as nat
        }
    }

    /// Whether that request joins the current burst rather than opening a new one.
    pub open spec fn joins_burst(self, weight: nat, now: nat) -> bool {
        self.started && self.arrival(now) - self.last_issue < PERIOD_MS && self.issued + weight
            <= self.limit
    }

    /// The state after that request was answered. A throttle that is switched off
    /// keeps no books.
    pub open spec fn after(self, weight: nat, now: nat) -> ThrottleState {
        if self.limit == 0 {
            self
        } else {
            ThrottleState {
                limit: self.limit,
                started: true,
                issued: if self.joins_burst(weight, now) {
                    self.issued + weight
                } else {
                    weight
                },
                last_issue: self.issue_time(weight, now),
            }
        }
    }
}

/// Bounds the weight of requests sent per second across all workers of a run.
#[derive(Debug)]
pub struct RequestThrottle {
    requests_per_second_limit: usize,
    started: bool,
    issued: usize,
    last_issue: u64,
}

impl View for RequestThrottle {
    type V = ThrottleState;

    closed spec fn view(&self) -> ThrottleState {
        ThrottleState {
            limit: self.requests_per_second_limit as nat,
            started: self.started,
            issued: self.issued as nat,
            last_issue: self.last_issue as nat,
        }
    }
}

impl RequestThrottle {
    /// Whether the clock leaves room to answer a request that arrives at `now`.
    pub open spec fn in_clock_range(&self, now: u64) -> bool {
        now <= u64::MAX - PERIOD_MS && self@.last_issue <= u64::MAX - PERIOD_MS
    }

    /// A throttle of `requests_per_second_limit` units per second; 0 switches it off.
    pub fn new(requests_per_second_limit: usize) -> (throttle: RequestThrottle)
        ensures
            throttle@ == ThrottleState::initial(requests_per_second_limit as nat),
    {
        RequestThrottle { requests_per_second_limit, started: false, issued: 0, last_issue: 0 }
    }

    pub fn limit(&self) -> (limit: usize)
        ensures
            limit == self@.limit,
    {
        self.requests_per_second_limit
    }

    /// Tests `in_clock_range`.
    pub fn clock_in_range(&self, now: u64) -> (b: bool)
        ensures
            b == self.in_clock_range(now),
    {
        now <= u64::MAX - PERIOD_MS && self.last_issue <= u64::MAX - PERIOD_MS
    }

    /// Books `weight` units for a request that arrives at `now` (milliseconds on a
    /// clock that does not run backwards) and returns how many milliseconds the
    /// caller has to wait before sending it. A throttle that is switched off never
    /// asks for a wait.
    pub fn reserve(&mut self, weight: usize, now: u64) -> (wait: u64)
        requires
            old(self).in_clock_range(now),
        ensures
            final(self)@ == old(self)@.after(weight as nat, now as nat),
            wait == old(self)@.issue_time(weight as nat, now as nat) - now,
            old(self)@.limit == 0 ==> wait == 0,
    {
        if self.requests_per_second_limit == 0 {
            return 0;
        }
        if !self.started {
            self.started = true;
            self.issued = weight;
            self.last_issue = now;
            return 0;
        }
        let arrival: u64 = if now < self.last_issue {
            self.last_issue
        } else {
            now
        };
        if arrival - self.last_issue >= PERIOD_MS {
            self.issued = weight;
            self.last_issue = arrival;
        } else if self.issued <= self.requests_per_second_limit && weight
            <= self.requests_per_second_limit - self.issued {
            self.issued = self.issued + weight;
            self.last_issue = arrival;
        } else {
            self.issued = weight;
            self.last_issue = self.last_issue + PERIOD_MS;
        }
        self.last_issue - now
    }
}

/// One call of `reserve`: `weight` units, asked for at time `now`.
pub struct Request {
    pub weight: nat,
    pub now: nat,
}

/// The state of a throttle of `limit` units per period after it answered `requests`
/// in order.
pub open spec fn state_after(limit: nat, requests: Seq<Request>) -> ThrottleState
    decreases requests.len(),
{
    if requests.len() == 0 {
        ThrottleState::initial(limit)
    } else {
        state_after(limit, requests.drop_last()).after(
            requests.last().weight,
            requests.last().now,
        )
    }
}

/// What that throttle issued, in order.
pub open spec fn issues_of(limit: nat, requests: Seq<Request>) -> Seq<Issue>
    decreases requests.len(),
{
    if requests.len() == 0 {
        Seq::empty()
    } else {
        issues_of(limit, requests.drop_last()).push(
            Issue {
                at: state_after(limit, requests.drop_last()).issue_time(
                    requests.last().weight,
                    requests.last().now,
                ),
                weight: requests.last().weight,
            },
        )
    }
}

/// The units among `issues` that are sent at `from` or later and before `until`.
pub open spec fn issued_between(issues: Seq<Issue>, from: int, until: int) -> nat
    decreases issues.len(),
{
    if issues.len() == 0 {
        0
    } else if from <= issues.last().at < until {
        issued_between(issues.drop_last(), from, until) + issues.last().weight
    } else {
        issued_between(issues.drop_last(), from, until)
    }
}

/// The units among `issues` that are sent at `from` or later.
pub open spec fn issued_since(issues: Seq<Issue>, from: int) -> nat
    decreases issues.len(),
{
    if issues.len() == 0 {
        0
    } else if from <= issues.last().at {
        issued_since(issues.drop_last(), from) + issues.last().weight
    } else {
        issued_since(issues.drop_last(), from)
    }
}

proof fn lemma_nothing_since(issues: Seq<Issue>, from: int)
    requires
        forall|k: int| 0 <= k < issues.len() ==> (#[trigger] issues[k]).at < from,
    ensures
        issued_since(issues, from) == 0,
    decreases issues.len(),
{
    if issues.len() > 0 {
        lemma_nothing_since(issues.drop_last(), from);
    }
}

proof fn lemma_between_is_since(issues: Seq<Issue>, from: int, until: int)
    requires
        forall|k: int| 0 <= k < issues.len() ==> (#[trigger] issues[k]).at < until,
    ensures
        issued_between(issues, from, until) == issued_since(issues, from),
    decreases issues.len(),
{
    if issues.len() > 0 {
        lemma_between_is_since(issues.drop_last(), from, until);
    }
}

/// The books of a throttle that is switched on: one issue for each request, none
/// later than the last, and a burst that stays within the limit.
proof fn lemma_books(limit: nat, requests: Seq<Request>)
    requires
        limit > 0,
        forall|i: int| 0 <= i < requests.len() ==> (#[trigger] requests[i]).weight <= limit,
    ensures
        state_after(limit, requests).limit == limit,
        state_after(limit, requests).started == (requests.len() > 0),
        state_after(limit, requests).issued <= limit,
        issues_of(limit, requests).len() == requests.len(),
        forall|k: int|
            0 <= k < requests.len() ==> (#[trigger] issues_of(limit, requests)[k]).at
                <= state_after(limit, requests).last_issue,
    decreases requests.len(),
{
    if requests.len() > 0 {
        lemma_books(limit, requests.drop_last());
    }
}

/// Whatever was issued less than a period before the last issue belongs to the
/// current burst.
proof fn lemma_recent_is_current_burst(limit: nat, requests: Seq<Request>, from: int)
    requires
        limit > 0,
        forall|i: int| 0 <= i < requests.len() ==> (#[trigger] requests[i]).weight <= limit,
        from + PERIOD_MS > state_after(limit, requests).last_issue,
    ensures
        issued_since(issues_of(limit, requests), from) <= state_after(limit, requests).issued,
    decreases requests.len(),
{
    if requests.len() > 0 {
        let before = requests.drop_last();
        let state = state_after(limit, before);
        let weight = requests.last().weight;
        let now = requests.last().now;
        lemma_books(limit, before);
        lemma_books(limit, requests);
        assert(issues_of(limit, requests).drop_last() =~= issues_of(limit, before));
        if state.joins_burst(weight, now) {
            lemma_recent_is_current_burst(limit, before, from);
        } else {
            assert forall|k: int| 0 <= k < before.len() implies (#[trigger] issues_of(
                limit,
                before,
            )[k]).at < from by {}
            lemma_nothing_since(issues_of(limit, before), from);
        }
    }
}

/// Throttle bound: a throttle of `limit > 0` units per second that is never asked
/// for more than `limit` units at once issues no more than `limit` units in any
/// span of one second, however the requests arrive.
pub proof fn lemma_throttle_bound(limit: nat, requests: Seq<Request>, from: int)
    requires
        limit > 0,
        forall|i: int| 0 <= i < requests.len() ==> (#[trigger] requests[i]).weight <= limit,
    ensures
        issued_between(issues_of(limit, requests), from, from + PERIOD_MS) <= limit,
    decreases requests.len(),
{
    if requests.len() > 0 {
        let before = requests.drop_last();
        let issues = issues_of(limit, requests);
        lemma_throttle_bound(limit, before, from);
        lemma_books(limit, before);
        lemma_books(limit, requests);
        assert(issues.drop_last() =~= issues_of(limit, before));
        if from <= issues.last().at < from + PERIOD_MS {
            lemma_between_is_since(issues, from, from + PERIOD_MS);
            lemma_recent_is_current_burst(limit, requests, from);
        }
    }
}

/// Issues leave in the order of the requests: none is sent before the one that was
/// answered before it, nor before it was asked for.
pub proof fn lemma_issues_in_order(limit: nat, requests: Seq<Request>, i: int, j: int)
    requires
        0 <= i <= j < requests.len(),
    ensures
        issues_of(limit, requests).len() == requests.len(),
        issues_of(limit, requests)[j].at >= requests[j].now,
        issues_of(limit, requests)[j].weight == requests[j].weight,
        limit > 0 ==> issues_of(limit, requests)[i].at <= issues_of(limit, requests)[j].at,
    decreases requests.len(),
{
    let before = requests.drop_last();
    lemma_issue_count(limit, requests);
    lemma_issue_count(limit, before);
    if j < requests.len() - 1 {
        lemma_issues_in_order(limit, before, i, j);
    } else if i < j && limit > 0 {
        lemma_last_issue_is_latest(limit, before, i);
        lemma_limit_kept(limit, before);
    }
}

proof fn lemma_limit_kept(limit: nat, requests: Seq<Request>)
    ensures
        state_after(limit, requests).limit == limit,
    decreases requests.len(),
{
    if requests.len() > 0 {
        lemma_limit_kept(limit, requests.drop_last());
    }
}

proof fn lemma_issue_count(limit: nat, requests: Seq<Request>)
    ensures
        issues_of(limit, requests).len() == requests.len(),
    decreases requests.len(),
{
    if requests.len() > 0 {
        lemma_issue_count(limit, requests.drop_last());
    }
}

proof fn lemma_last_issue_is_latest(limit: nat, requests: Seq<Request>, k: int)
    requires
        limit > 0,
        0 <= k < requests.len(),
    ensures
        issues_of(limit, requests).len() == requests.len(),
        state_after(limit, requests).started,
        issues_of(limit, requests)[k].at <= state_after(limit, requests).last_issue,
    decreases requests.len(),
{
    lemma_issue_count(limit, requests);
    lemma_issue_count(limit, requests.drop_last());
    lemma_limit_kept(limit, requests.drop_last());
    if k < requests.len() - 1 {
        lemma_last_issue_is_latest(limit, requests.drop_last(), k);
    }
}

/// A throttle that is switched off sends every request at the time it is asked for.
pub proof fn lemma_unthrottled_never_waits(requests: Seq<Request>, i: int)
    requires
        0 <= i < requests.len(),
    ensures
        issues_of(0, requests).len() == requests.len(),
        issues_of(0, requests)[i].at == requests[i].now,
    decreases requests.len(),
{
    lemma_issue_count(0, requests);
    lemma_issue_count(0, requests.drop_last());
    if i < requests.len() - 1 {
        lemma_unthrottled_never_waits(requests.drop_last(), i);
    } else {
        lemma_unthrottled_state(requests.drop_last());
    }
}

proof fn lemma_unthrottled_state(requests: Seq<Request>)
    ensures
        state_after(0, requests) == ThrottleState::initial(0),
    decreases requests.len(),
{
    if requests.len() > 0 {
        lemma_unthrottled_state(requests.drop_last());
    }
}

/// How many bursts that throttle has opened.
spec fn bursts_of(limit: nat, requests: Seq<Request>) -> nat
    decreases requests.len(),
{
    if requests.len() == 0 {
        0
    } else if state_after(limit, requests.drop_last()).joins_burst(
        requests.last().weight,
        requests.last().now,
    ) {
        bursts_of(limit, requests.drop_last())
    } else {
        bursts_of(limit, requests.drop_last()) + 1
    }
}

/// What a throttle issued for the first requests is what it issued first.
pub proof fn lemma_issues_of_prefix(limit: nat, requests: Seq<Request>, n: int)
    requires
        0 <= n <= requests.len(),
    ensures
        issues_of(limit, requests.take(n)) == issues_of(limit, requests).take(n),
    decreases requests.len(),
{
    lemma_issue_count(limit, requests);
    if n == requests.len() {
        assert(requests.take(n) =~= requests);
        assert(issues_of(limit, requests).take(n) =~= issues_of(limit, requests));
    } else {
        lemma_issues_of_prefix(limit, requests.drop_last(), n);
        lemma_issue_count(limit, requests.drop_last());
        assert(requests.drop_last().take(n) =~= requests.take(n));
        assert(issues_of(limit, requests.drop_last()).take(n) =~= issues_of(limit, requests).take(
            n,
        ));
    }
}

/// Bursts of unit requests: each burst but the last holds at most the limit, and
/// each begins a period or more after the one before it.
proof fn lemma_unit_bursts(limit: nat, requests: Seq<Request>)
    requires
        limit > 0,
        requests.len() > 0,
        forall|i: int| 0 <= i < requests.len() ==> (#[trigger] requests[i]).weight == 1,
    ensures
        bursts_of(limit, requests) >= 1,
        1 <= state_after(limit, requests).issued <= limit,
        state_after(limit, requests).started,
        requests.len() <= (bursts_of(limit, requests) - 1) * limit + state_after(
            limit,
            requests,
        ).issued,
        state_after(limit, requests).last_issue >= requests[0].now + (bursts_of(limit, requests)
            - 1) * PERIOD_MS,
    decreases requests.len(),
{
    let before = requests.drop_last();
    lemma_limit_kept(limit, before);
    if before.len() > 0 {
        lemma_unit_bursts(limit, before);
        let b = bursts_of(limit, before) as int;
        let l = limit as int;
        assert(b * l == (b - 1) * l + l) by (nonlinear_arith);
        assert(before[0] == requests[0]);
        assert(requests.last().weight == 1);
    } else {
        assert(requests.last() == requests[0]);
        assert(bursts_of(limit, before) == 0);
    }
}

/// Pace: of requests of one unit each, the one that `q * limit` others came before
/// is sent no sooner than `q` periods after the first was asked for.
pub proof fn lemma_unit_requests_take_their_time(
    limit: nat,
    requests: Seq<Request>,
    q: nat,
    k: int,
)
    requires
        limit > 0,
        forall|i: int| 0 <= i < requests.len() ==> (#[trigger] requests[i]).weight == 1,
        0 <= k < requests.len(),
        k >= q * limit,
    ensures
        issues_of(limit, requests).len() == requests.len(),
        issues_of(limit, requests)[k].at >= requests[0].now + q * PERIOD_MS,
{
    let first = requests.take(k + 1);
    lemma_issue_count(limit, requests);
    lemma_issues_of_prefix(limit, requests, k + 1);
    lemma_issue_count(limit, first);
    lemma_unit_bursts(limit, first);
    lemma_limit_kept(limit, first.drop_last());
    assert(issues_of(limit, first)[k] == issues_of(limit, requests)[k]);
    assert(issues_of(limit, first)[k].at == state_after(limit, first).last_issue);
    let b = bursts_of(limit, first) as int;
    let l = limit as int;
    let issued = state_after(limit, first).issued as int;
    assert(q < b) by (nonlinear_arith)
        requires
            k >= q * l,
            k + 1 <= (b - 1) * l + issued,
            issued <= l,
            l > 0,
    ;
    assert((b - 1) * PERIOD_MS >= q * PERIOD_MS);
}

} // verus!
