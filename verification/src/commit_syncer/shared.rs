//! What regular and fast commit synchronization have in common.
use rand::prelude::SliceRandom;
use vstd::prelude::*;

use crate::refs::{AuthorityIndex, CommitIndex, CommitRange, Key};
use crate::sorted::{SortedMap, SortedSet};

verus! {

/// How many vote headers of one authority a response may hold.
pub const MAX_COMMIT_VOTE_HEADERS_PER_AUTHORITY: usize = 2;

/// How many rounds of transactions a commit is expected to take in at most: at
/// least one commit is made per wave of three rounds, and one round is slack.
pub const AVG_TX_ROUNDS_PER_COMMIT: usize = 4;

/// The limits that synchronization keeps to.
#[derive(Clone, Copy, Debug)]
pub struct SyncParameters {
    pub commit_sync_batch_size: u32,
    pub fast_commit_sync_batch_size: u32,
    pub commit_sync_batches_ahead: usize,
    pub commit_sync_parallel_fetches: usize,
    pub commit_sync_gap_threshold: u32,
    pub enable_fast_commit_syncer: bool,
    pub max_headers_per_commit_sync_fetch: usize,
    pub max_transactions_per_commit_sync_fetch: usize,
    /// 0 for no limit.
    pub fast_commit_sync_max_fetch_bytes: usize,
}

impl SyncParameters {
    /// Are the batches big enough to make progress, and small enough to count?
    pub open spec fn wf(self) -> bool {
        &&& self.commit_sync_batch_size > 0
        &&& self.fast_commit_sync_batch_size > 0
        &&& 2 * self.fast_commit_sync_batch_size <= usize::MAX
        &&& self.commit_sync_batch_size <= usize::MAX
        &&& self.commit_sync_batch_size * self.commit_sync_batches_ahead <= CommitIndex::MAX
        &&& self.max_headers_per_commit_sync_fetch > 0
        &&& self.max_transactions_per_commit_sync_fetch > 0
    }

    /// How far fetching may run ahead of the commits that have been handled.
    pub fn unhandled_commits_threshold(&self) -> (r: CommitIndex)
        requires
            self.wf(),
        ensures
            r == self.commit_sync_batch_size * self.commit_sync_batches_ahead,
    {
        proof {
            let a = self.commit_sync_batch_size as int;
            let b = self.commit_sync_batches_ahead as int;
            assert(b <= a * b) by (nonlinear_arith)
                requires
                    a >= 1,
                    b >= 0,
            ;
        }
        self.commit_sync_batch_size * (self.commit_sync_batches_ahead as u32)
    }
}

/// The two ways to catch up.
#[derive(Clone, Copy, Debug, PartialEq, Eq, Structural)]
pub enum CommitSyncType {
    Fast,
    Regular,
}

impl CommitSyncType {
    pub open spec fn spec_batch_size(self, p: SyncParameters) -> u32 {
        match self {
            CommitSyncType::Fast => p.fast_commit_sync_batch_size,
            CommitSyncType::Regular => p.commit_sync_batch_size,
        }
    }

    /// How many commits to ask for at a time.
    pub fn commit_sync_batch_size(&self, parameters: &SyncParameters) -> (r: u32)
        ensures
            r == self.spec_batch_size(*parameters),
    {
        match self {
            CommitSyncType::Fast => parameters.fast_commit_sync_batch_size,
            CommitSyncType::Regular => parameters.commit_sync_batch_size,
        }
    }

    /// How many commits a peer may return at a time. A fast response reaches on
    /// to a commit that can be certified, so it may be twice as long.
    pub open spec fn spec_max_commits(self, p: SyncParameters) -> int {
        match self {
            CommitSyncType::Fast => 2 * self.spec_batch_size(p),
            CommitSyncType::Regular => self.spec_batch_size(p) as int,
        }
    }

    pub fn max_commits_per_response(&self, parameters: &SyncParameters) -> (r: usize)
        requires
            parameters.wf(),
        ensures
            r == self.spec_max_commits(*parameters),
    {
        let batch_size: usize = self.commit_sync_batch_size(parameters) as usize;
        match self {
            CommitSyncType::Fast => 2 * batch_size,
            CommitSyncType::Regular => batch_size,
        }
    }

    pub open spec fn spec_as_str(&self) -> &'static str {
        match self {
            CommitSyncType::Fast => "fast_commit_sync",
            CommitSyncType::Regular => "commit_sync",
        }
    }

    /// The label used in metrics.
    pub fn as_str(&self) -> (r: &'static str)
        ensures
            r == self.spec_as_str(),
    {
        match self {
            CommitSyncType::Fast => "fast_commit_sync",
            CommitSyncType::Regular => "commit_sync",
        }
    }

    /// Is a gap for this way of catching up to close? Where fast
    /// synchronization is enabled, it takes the wide gaps.
    pub open spec fn spec_should_schedule(
        self,
        gap: u32,
        commit_sync_gap_threshold: u32,
        fast_commit_sync_enabled: bool,
    ) -> bool {
        let wide = fast_commit_sync_enabled && gap > commit_sync_gap_threshold;
        self == CommitSyncType::Fast <==> wide
    }

    pub fn should_schedule(
        &self,
        gap: u32,
        commit_sync_gap_threshold: u32,
        fast_commit_sync_enabled: bool,
    ) -> (r: bool)
        ensures
            r == self.spec_should_schedule(
                gap,
                commit_sync_gap_threshold,
                fast_commit_sync_enabled,
            ),
    {
        match self {
            CommitSyncType::Fast => fast_commit_sync_enabled && gap > commit_sync_gap_threshold,
            CommitSyncType::Regular => !fast_commit_sync_enabled || gap
                <= commit_sync_gap_threshold,
        }
    }
}

/// Each gap is for exactly one of the two ways to close.
pub proof fn law_one_way_per_gap(gap: u32, threshold: u32, fast_enabled: bool)
    ensures
        CommitSyncType::Fast.spec_should_schedule(gap, threshold, fast_enabled)
            != CommitSyncType::Regular.spec_should_schedule(gap, threshold, fast_enabled),
{
}

/// The ranges to fetch next.
#[derive(Debug)]
pub struct ScheduleResult {
    /// The end of the last of the ranges, if there are any.
    pub new_highest_scheduled: Option<CommitIndex>,
    pub ranges_scheduled: Vec<CommitRange>,
}

/// How many full batches of `step` commits fit after `after`, up to `limit`.
pub open spec fn batches_within(after: int, limit: int, step: int) -> int {
    if limit < after {
        0
    } else {
        (limit - after) / step
    }
}

/// The last commit that may be fetched: one that a quorum has made, and not too
/// far ahead of the commits that have been handled.
pub open spec fn fetch_limit(quorum: int, handled: int, threshold: int) -> int {
    if quorum <= handled + threshold {
        quorum
    } else {
        handled + threshold
    }
}

/// The `i`-th batch of `step` commits after `after`.
pub open spec fn batch(after: int, step: int, i: int) -> CommitRange {
    CommitRange {
        start: (after + i * step + 1) as CommitIndex,
        end: (after + (i + 1) * step) as CommitIndex,
    }
}

/// The full batches after `after` within the limit.
pub open spec fn batches(after: int, limit: int, step: int) -> Seq<CommitRange> {
    Seq::new(batches_within(after, limit, step) as nat, |i: int| batch(after, step, i))
}

/// Divides the commits after `fetch_after_index` into full batches, as far as a
/// quorum has made them and the handler keeps up.
pub fn schedule_commit_ranges(
    sync_type: CommitSyncType,
    parameters: &SyncParameters,
    fetch_after_index: CommitIndex,
    quorum_commit_index: CommitIndex,
    highest_handled_index: CommitIndex,
    unhandled_commits_threshold: CommitIndex,
) -> (r: ScheduleResult)
    requires
        parameters.wf(),
        quorum_commit_index + sync_type.spec_batch_size(*parameters) <= CommitIndex::MAX,
        highest_handled_index + unhandled_commits_threshold <= CommitIndex::MAX,
    ensures
        ({
            let step = sync_type.spec_batch_size(*parameters) as int;
            let limit = fetch_limit(
                quorum_commit_index as int,
                highest_handled_index as int,
                unhandled_commits_threshold as int,
            );
            let ranges = batches(fetch_after_index as int, limit, step);
            &&& r.ranges_scheduled@ == ranges
            &&& r.new_highest_scheduled == if ranges.len() == 0 {
                None
            } else {
                Some(ranges.last().end)
            }
        }),
{
    let step: u32 = sync_type.commit_sync_batch_size(parameters);
    let ghost after = fetch_after_index as int;
    let ghost limit = fetch_limit(
        quorum_commit_index as int,
        highest_handled_index as int,
        unhandled_commits_threshold as int,
    );
    let mut ranges: Vec<CommitRange> = Vec::new();
    let mut highest: Option<CommitIndex> = None;
    let mut prev_end: CommitIndex = fetch_after_index;
    let mut going = true;
    proof {
        assert(0 * step == 0);
    }
    while going && prev_end <= quorum_commit_index
        invariant
            step > 0,
            quorum_commit_index + step <= CommitIndex::MAX,
            highest_handled_index + unhandled_commits_threshold <= CommitIndex::MAX,
            after == fetch_after_index,
            limit == fetch_limit(
                quorum_commit_index as int,
                highest_handled_index as int,
                unhandled_commits_threshold as int,
            ),
            prev_end == after + ranges@.len() * step,
            ranges@.len() > 0 ==> prev_end <= limit,
            !going ==> prev_end + step > limit,
            forall|i: int| 0 <= i < ranges@.len() ==> #[trigger] ranges@[i] == batch(
                after,
                step as int,
                i,
            ),
            highest == if ranges@.len() == 0 {
                None
            } else {
                Some(prev_end)
            },
        decreases quorum_commit_index - prev_end + 1, (if going { 1int } else { 0int }),
    {
        let range_start: CommitIndex = prev_end + 1;
        let range_end: CommitIndex = prev_end + step;
        if quorum_commit_index < range_end {
            going = false;
        } else if highest_handled_index + unhandled_commits_threshold < range_end {
            going = false;
        } else {
            proof {
                let n = ranges@.len() as int;
                let s = step as int;
                assert((n + 1) * s == n * s + s) by (nonlinear_arith);
            }
            ranges.push(CommitRange::new(range_start, range_end));
            highest = Some(range_end);
            prev_end = range_end;
        }
    }
    proof {
        let n = ranges@.len() as int;
        let s = step as int;
        assert(n == batches_within(after, limit, s)) by {
            if limit < after {
                if n > 0 {
                    assert(n * s >= 0) by (nonlinear_arith)
                        requires
                            n >= 0,
                            s > 0,
                    ;
                }
            } else {
                assert(after + n * s <= limit);
                assert(after + n * s + s > limit);
                let d = limit - after;
                assert(d / s == n) by (nonlinear_arith)
                    requires
                        n * s <= d,
                        d < n * s + s,
                        s > 0,
                        n >= 0,
                ;
            }
        }
        assert(ranges@ =~= batches(after, limit, s));
        if n > 0 {
            assert(ranges@.last() == batch(after, s, n - 1));
            assert((n - 1 + 1) * s == n * s);
        }
    }
    ScheduleResult { new_highest_scheduled: highest, ranges_scheduled: ranges }
}

/// The batches are full, follow one another without a gap from the first commit
/// after `after`, and end within the limit; one more would not.
pub proof fn law_batches(after: int, limit: int, step: int)
    requires
        step > 0,
        0 <= after,
        0 <= limit <= CommitIndex::MAX,
    ensures
        forall|i: int|
            0 <= i < batches(after, limit, step).len() ==> {
                let b = #[trigger] batches(after, limit, step)[i];
                &&& b.end - b.start + 1 == step
                &&& b.end <= limit
                &&& i == 0 ==> b.start == after + 1
                &&& i > 0 ==> b.start == batches(after, limit, step)[i - 1].end + 1
            },
        after <= limit ==> after + (batches(after, limit, step).len() + 1) * step > limit,
{
    let n = batches_within(after, limit, step);
    if after <= limit {
        let d = limit - after;
        assert(n == d / step);
        assert(n >= 0 && n * step <= d && d < n * step + step) by (nonlinear_arith)
            requires
                n == d / step,
                d >= 0,
                step > 0,
        ;
        assert((n + 1) * step == n * step + step) by (nonlinear_arith);
        assert forall|i: int| 0 <= i < n implies {
            let b = #[trigger] batches(after, limit, step)[i];
            &&& b.end - b.start + 1 == step
            &&& b.end <= limit
            &&& i == 0 ==> b.start == after + 1
            &&& i > 0 ==> b.start == batches(after, limit, step)[i - 1].end + 1
        } by {
            assert((i + 1) * step == i * step + step) by (nonlinear_arith);
            assert((i + 1) * step <= n * step && 0 <= i * step) by (nonlinear_arith)
                requires
                    0 <= i,
                    i + 1 <= n,
                    step > 0,
            ;
            assert(batches(after, limit, step)[i] == batch(after, step, i));
            if i == 0 {
                assert(0 * step == 0);
            } else {
                assert(batches(after, limit, step)[i - 1] == batch(after, step, i - 1));
                assert((i - 1 + 1) * step == i * step);
                assert((i - 1) * step >= 0) by (nonlinear_arith)
                    requires
                        i >= 1,
                        step > 0,
                ;
            }
        }
    }
}

/// How many fetches may run at once: no more than configured and than the
/// committee bears, fewer the more results wait to be processed, one at least.
pub open spec fn target_parallel_fetches(
    parameters: SyncParameters,
    committee_size: int,
    fetched_ranges_count: int,
) -> int {
    let ahead = parameters.commit_sync_batches_ahead - fetched_ranges_count;
    let share = committee_size * 2 / 3;
    let a = if parameters.commit_sync_parallel_fetches <= share {
        parameters.commit_sync_parallel_fetches as int
    } else {
        share
    };
    let b = if a <= ahead {
        a
    } else {
        ahead
    };
    if b < 1 {
        1
    } else {
        b
    }
}

/// Takes the earliest pending ranges, as many as may be fetched now.
pub fn try_start_fetches(
    parameters: &SyncParameters,
    committee_size: usize,
    pending_fetches: &mut SortedSet<CommitRange>,
    fetched_ranges_count: usize,
    inflight_fetches_count: usize,
) -> (started: Vec<CommitRange>)
    requires
        old(pending_fetches).wf(),
        committee_size <= 256,
    ensures
        final(pending_fetches).wf(),
        started@ + final(pending_fetches).items() == old(pending_fetches).items(),
        final(pending_fetches)@ == old(pending_fetches)@.difference(started@.to_set()),
        ({
            let free = target_parallel_fetches(
                *parameters,
                committee_size as int,
                fetched_ranges_count as int,
            ) - inflight_fetches_count;
            let pending = old(pending_fetches).items().len();
            started@.len() == if free <= 0 {
                0
            } else if free < pending {
                free
            } else {
                pending as int
            }
        }),
{
    let mut target: usize = parameters.commit_sync_parallel_fetches;
    let share: usize = committee_size * 2 / 3;
    if share < target {
        target = share;
    }
    let ahead: usize = parameters.commit_sync_batches_ahead.saturating_sub(fetched_ranges_count);
    if ahead < target {
        target = ahead;
    }
    if target < 1 {
        target = 1;
    }
    let ghost before = *pending_fetches;
    let mut started: Vec<CommitRange> = Vec::new();
    let mut inflight: usize = inflight_fetches_count;
    let mut more = true;
    assert(started@ + pending_fetches.items() =~= before.items());
    assert(before@.difference(started@.to_set()) =~= before@);
    while more && inflight < target
        invariant
            pending_fetches.wf(),
            inflight == inflight_fetches_count + started@.len(),
            started@.len() > 0 ==> inflight <= target,
            started@ + pending_fetches.items() == before.items(),
            pending_fetches@ == before@.difference(started@.to_set()),
            !more ==> pending_fetches.items().len() == 0,
        decreases target - inflight, (if more { 1int } else { 0int }),
    {
        let ghost items = pending_fetches.items();
        let ghost s = started@;
        match pending_fetches.pop_first() {
            Some(range) => {
                started.push(range);
                inflight = inflight + 1;
                proof {
                    assert(started@ + pending_fetches.items() =~= s + items);
                    assert(started@.to_set() =~= s.to_set().insert(range)) by {
                        assert forall|r: CommitRange| started@.contains(r) <==> (s.contains(r) || r
                            == range) by {
                            if s.contains(r) {
                                let k = choose|k: int| 0 <= k < s.len() && s[k] == r;
                                assert(started@[k] == r);
                            }
                            assert(started@[s.len() as int] == range);
                        }
                    }
                    assert(pending_fetches@ =~= before@.difference(started@.to_set()));
                }
            },
            None => {
                more = false;
            },
        }
    }
    started
}

/// Puts back the part of a range that was not fetched.
pub fn requeue_partial_range(
    pending_fetches: &mut SortedSet<CommitRange>,
    commit_end: CommitIndex,
    target_end: CommitIndex,
)
    requires
        old(pending_fetches).wf(),
    ensures
        final(pending_fetches).wf(),
        final(pending_fetches)@ == if commit_end < target_end {
            old(pending_fetches)@.insert(
                CommitRange { start: (commit_end + 1) as CommitIndex, end: target_end },
            )
        } else {
            old(pending_fetches)@
        },
{
    if commit_end < target_end {
        pending_fetches.insert(CommitRange::new(commit_end + 1, target_end));
    }
}

/// Puts a list into a random order.
///
/// Calls `shuffle` of `rand::prelude::SliceRandom` with the thread's random
/// number generator. It swaps elements, so they stay the same ones; their order
/// is left open.
#[verifier::external_body]
pub(crate) fn shuffle_list<T>(list: &mut Vec<T>)
    ensures
        final(list)@.to_multiset() == old(list)@.to_multiset(),
{
    list.shuffle(&mut rand::thread_rng());
}

/// The authorities but for one, in order.
pub open spec fn others(size: int, own_index: AuthorityIndex) -> Seq<AuthorityIndex>
    decreases size,
{
    if size <= 0 {
        Seq::empty()
    } else if size - 1 == own_index {
        others(size - 1, own_index)
    } else {
        others(size - 1, own_index).push((size - 1) as AuthorityIndex)
    }
}

/// Each of the other authorities is there once.
pub proof fn lemma_others(size: int, own_index: AuthorityIndex)
    requires
        0 <= size <= 256,
    ensures
        others(size, own_index).no_duplicates(),
        forall|a: AuthorityIndex| #[trigger]
            others(size, own_index).contains(a) <==> a < size && a != own_index,
        others(size, own_index).len() == if own_index < size {
            size - 1
        } else {
            size
        },
    decreases size,
{
    if size > 0 {
        lemma_others(size - 1, own_index);
        let before = others(size - 1, own_index);
        let s = others(size, own_index);
        if size - 1 != own_index {
            let last = (size - 1) as AuthorityIndex;
            assert(!before.contains(last));
            assert forall|a: AuthorityIndex| #[trigger] s.contains(a) <==> a < size && a
                != own_index by {
                if before.contains(a) {
                    let k = choose|k: int| 0 <= k < before.len() && before[k] == a;
                    assert(s[k] == a);
                }
                if a == last {
                    assert(s[before.len() as int] == last);
                }
                if s.contains(a) {
                    let k = choose|k: int| 0 <= k < s.len() && s[k] == a;
                    if k < before.len() {
                        assert(before[k] == a);
                        assert(before.contains(a));
                    }
                }
            }
            assert forall|i: int, j: int| 0 <= i < s.len() && 0 <= j < s.len() && i != j implies s[i]
                != s[j] by {
                if i < before.len() && j < before.len() {
                    assert(before[i] != before[j]);
                } else if i < before.len() {
                    assert(before.contains(before[i]));
                } else {
                    assert(before.contains(before[j]));
                }
            }
        }
    }
}

/// Lists the authorities but for one.
pub fn other_authorities(size: usize, own_index: AuthorityIndex) -> (r: Vec<AuthorityIndex>)
    requires
        size <= 256,
    ensures
        r@ == others(size as int, own_index),
{
    let mut r: Vec<AuthorityIndex> = Vec::new();
    let mut i: usize = 0;
    while i < size
        invariant
            i <= size <= 256,
            r@ == others(i as int, own_index),
        decreases size - i,
    {
        if i != own_index as usize {
            r.push(i as AuthorityIndex);
        }
        i = i + 1;
    }
    r
}

/// How much longer than the base timeout a request may take at most.
pub const MAX_TIMEOUT_MULTIPLIER: u32 = 12;

/// How many peers to try before waiting.
pub const MAX_NUM_TARGETS: usize = 24;

/// What to do next to fetch a range.
#[derive(Clone, Copy, Debug, PartialEq, Eq, Structural)]
pub enum FetchStep {
    /// Ask this authority; give each request, and the whole fetch, this long.
    Ask { authority: AuthorityIndex, request_timeout_ms: u64, fetch_timeout_ms: u64 },
    /// All have been tried: wait this long before the next pass.
    Wait { millis: u64 },
}

/// Fetching one range: peers are tried one after the other, in passes with ever
/// longer timeouts, until one delivers.
#[derive(Debug)]
pub struct FetchLoop {
    pub committee_size: usize,
    pub own_index: AuthorityIndex,
    /// The timeout of a request in the first pass.
    pub base_timeout_ms: u64,
    /// How many requests one fetch is given time for.
    pub fetch_timeout_multiplier: u32,
    pub timeout_multiplier: u32,
    /// The authorities left to try in this pass, the next one last.
    pub remaining: Vec<AuthorityIndex>,
}

/// Can these be the authorities of one pass? They are different authorities
/// other than the node itself, as many as there are up to the limit.
pub open spec fn is_pass(size: int, own_index: AuthorityIndex, targets: Seq<AuthorityIndex>) -> bool {
    &&& targets.no_duplicates()
    &&& forall|i: int| 0 <= i < targets.len() ==> (#[trigger] targets[i]) < size && targets[i]
        != own_index
    &&& targets.len() == if others(size, own_index).len() < MAX_NUM_TARGETS {
        others(size, own_index).len()
    } else {
        MAX_NUM_TARGETS as nat
    }
}

/// A part of a list without repetitions that was put in another order.
proof fn lemma_shuffled_prefix(before: Seq<AuthorityIndex>, after: Seq<AuthorityIndex>, n: int)
    requires
        before.to_multiset() == after.to_multiset(),
        before.no_duplicates(),
        0 <= n <= after.len(),
    ensures
        after.len() == before.len(),
        after.take(n).no_duplicates(),
        forall|i: int| 0 <= i < n ==> before.contains(#[trigger] after.take(n)[i]),
{
    broadcast use vstd::seq_lib::group_to_multiset_ensures;

    before.to_multiset_ensures();
    after.to_multiset_ensures();
    before.lemma_multiset_has_no_duplicates();
    after.lemma_multiset_has_no_duplicates_conv();
    assert forall|i: int| 0 <= i < n implies before.contains(#[trigger] after.take(n)[i]) by {
        assert(after.contains(after[i]));
        assert(after.to_multiset().count(after[i]) > 0);
    }
}

impl FetchLoop {
    pub open spec fn wf(self) -> bool {
        &&& 0 < self.committee_size <= 256
        &&& self.timeout_multiplier <= MAX_TIMEOUT_MULTIPLIER
        &&& self.base_timeout_ms * MAX_TIMEOUT_MULTIPLIER * self.fetch_timeout_multiplier
            <= u64::MAX
        &&& self.base_timeout_ms * MAX_TIMEOUT_MULTIPLIER <= u64::MAX
    }

    /// The timeout of a request in the current pass.
    pub open spec fn request_timeout(self) -> int {
        self.base_timeout_ms * self.timeout_multiplier
    }

    /// Starts a pass: picks the authorities to try, and lengthens the timeout.
    fn start_pass(&mut self)
        requires
            old(self).wf(),
        ensures
            final(self).wf(),
            *final(self) == (FetchLoop {
                timeout_multiplier: final(self).timeout_multiplier,
                remaining: final(self).remaining,
                ..*old(self)
            }),
            final(self).timeout_multiplier == if old(self).timeout_multiplier
                < MAX_TIMEOUT_MULTIPLIER {
                old(self).timeout_multiplier + 1
            } else {
                MAX_TIMEOUT_MULTIPLIER as int
            },
            is_pass(
                old(self).committee_size as int,
                old(self).own_index,
                final(self).remaining@,
            ),
    {
        let mut targets = other_authorities(self.committee_size, self.own_index);
        let ghost before = targets@;
        shuffle_list(&mut targets);
        let ghost after = targets@;
        let n: usize = if targets.len() < MAX_NUM_TARGETS {
            targets.len()
        } else {
            MAX_NUM_TARGETS
        };
        targets.truncate(MAX_NUM_TARGETS);
        proof {
            lemma_others(self.committee_size as int, self.own_index);
            lemma_shuffled_prefix(before, after, n as int);
            assert(targets@ =~= after.take(n as int));
            assert forall|i: int| 0 <= i < targets@.len() implies (#[trigger] targets@[i])
                < self.committee_size && targets@[i] != self.own_index by {
                assert(before.contains(after.take(n as int)[i]));
            }
        }
        self.remaining = targets;
        if self.timeout_multiplier < MAX_TIMEOUT_MULTIPLIER {
            self.timeout_multiplier = self.timeout_multiplier + 1;
        }
    }

    /// A loop at the start of its first pass.
    pub fn new(
        committee_size: usize,
        own_index: AuthorityIndex,
        base_timeout_ms: u64,
        fetch_timeout_multiplier: u32,
    ) -> (r: Self)
        requires
            0 < committee_size <= 256,
            base_timeout_ms * MAX_TIMEOUT_MULTIPLIER * fetch_timeout_multiplier <= u64::MAX,
            base_timeout_ms * MAX_TIMEOUT_MULTIPLIER <= u64::MAX,
        ensures
            r.wf(),
            r.committee_size == committee_size,
            r.own_index == own_index,
            r.base_timeout_ms == base_timeout_ms,
            r.fetch_timeout_multiplier == fetch_timeout_multiplier,
            r.timeout_multiplier == 1,
            is_pass(committee_size as int, own_index, r.remaining@),
    {
        let mut r = FetchLoop {
            committee_size,
            own_index,
            base_timeout_ms,
            fetch_timeout_multiplier,
            timeout_multiplier: 0,
            remaining: Vec::new(),
        };
        r.start_pass();
        r
    }

    /// Tells what to do next, after the last attempt has failed.
    pub fn next_step(&mut self) -> (r: FetchStep)
        requires
            old(self).wf(),
        ensures
            final(self).wf(),
            if old(self).remaining@.len() > 0 {
                &&& r == (FetchStep::Ask {
                    authority: old(self).remaining@.last(),
                    request_timeout_ms: old(self).request_timeout() as u64,
                    fetch_timeout_ms: (old(self).request_timeout() * old(self).fetch_timeout_multiplier) as u64,
                })
                &&& 0 <= old(self).request_timeout() <= u64::MAX
                &&& 0 <= old(self).request_timeout() * old(self).fetch_timeout_multiplier
                    <= u64::MAX
                &&& final(self).remaining@ == old(self).remaining@.drop_last()
                &&& *final(self) == (FetchLoop {
                    remaining: final(self).remaining,
                    ..*old(self)
                })
            } else {
                &&& r == (FetchStep::Wait { millis: old(self).base_timeout_ms })
                &&& is_pass(
                    old(self).committee_size as int,
                    old(self).own_index,
                    final(self).remaining@,
                )
                &&& final(self).timeout_multiplier == if old(self).timeout_multiplier
                    < MAX_TIMEOUT_MULTIPLIER {
                    old(self).timeout_multiplier + 1
                } else {
                    MAX_TIMEOUT_MULTIPLIER as int
                }
                &&& *final(self) == (FetchLoop {
                    timeout_multiplier: final(self).timeout_multiplier,
                    remaining: final(self).remaining,
                    ..*old(self)
                })
            },
    {
        let next = self.remaining.pop();
        match next {
            Some(authority) => {
                proof {
                    let b = self.base_timeout_ms as int;
                    let m = self.timeout_multiplier as int;
                    let x = MAX_TIMEOUT_MULTIPLIER as int;
                    let f = self.fetch_timeout_multiplier as int;
                    assert(0 <= b * m <= b * x && 0 <= (b * m) * f <= (b * x) * f)
                        by (nonlinear_arith)
                        requires
                            b >= 0,
                            f >= 0,
                            0 <= m <= x,
                    ;
                }
                let request_timeout_ms: u64 = self.base_timeout_ms * self.timeout_multiplier as u64;
                let fetch_timeout_ms: u64 = request_timeout_ms * self.fetch_timeout_multiplier
                    as u64;
                FetchStep::Ask { authority, request_timeout_ms, fetch_timeout_ms }
            },
            None => {
                self.start_pass();
                FetchStep::Wait { millis: self.base_timeout_ms }
            },
        }
    }
}

/// What the synchronizer knows of the ranges under way, mathematically.
pub ghost struct SyncView<T> {
    pub pending: Set<CommitRange>,
    pub fetched: Map<CommitRange, T>,
    pub highest_scheduled: Option<CommitIndex>,
    pub highest_fetched: CommitIndex,
    pub synced: CommitIndex,
}

impl<T> SyncView<T> {
    /// The index after which new ranges are scheduled.
    pub open spec fn fetch_after(self) -> CommitIndex {
        match self.highest_scheduled {
            Some(h) => if h > self.synced {
                h
            } else {
                self.synced
            },
            None => self.synced,
        }
    }

    /// The state once it is known that commits up to `local` are there.
    pub open spec fn raise_synced(self, local: CommitIndex) -> SyncView<T> {
        SyncView {
            synced: if local > self.synced {
                local
            } else {
                self.synced
            },
            ..self
        }
    }

    /// The state after these ranges have been scheduled.
    pub open spec fn schedule(self, ranges: Seq<CommitRange>) -> SyncView<T> {
        if ranges.len() == 0 {
            self
        } else {
            SyncView {
                pending: self.pending.union(ranges.to_set()),
                highest_scheduled: Some(ranges.last().end),
                ..self
            }
        }
    }

    /// The state after commits `range` have come in for a fetch up to
    /// `target_end`: what is missing is put back, and what is new is kept.
    pub open spec fn receive(
        self,
        target_end: CommitIndex,
        range: CommitRange,
        data: T,
        local: CommitIndex,
    ) -> SyncView<T> {
        let s = self.raise_synced(local);
        SyncView {
            pending: if range.end < target_end {
                s.pending.insert(
                    CommitRange { start: (range.end + 1) as CommitIndex, end: target_end },
                )
            } else {
                s.pending
            },
            fetched: if s.synced < range.end {
                s.fetched.insert(range, data)
            } else {
                s.fetched
            },
            highest_fetched: if range.end > s.highest_fetched {
                range.end
            } else {
                s.highest_fetched
            },
            ..s
        }
    }

    /// Is everything that was fetched too far ahead to be handed on?
    pub open spec fn is_blocked(self) -> bool {
        forall|r: CommitRange| #[trigger]
            self.fetched.dom().contains(r) ==> r.start > self.synced + 1
    }
}

/// The ranges of commits to fetch, under way and fetched.
#[derive(Debug)]
pub struct SyncState<T> {
    pub pending_fetches: SortedSet<CommitRange>,
    pub fetched_ranges: SortedMap<CommitRange, T>,
    /// The end of the last range that was scheduled.
    pub highest_scheduled_index: Option<CommitIndex>,
    pub highest_fetched_commit_index: CommitIndex,
    /// Commits up to this one are there, or on their way to the core.
    pub synced_commit_index: CommitIndex,
}

impl<T> SyncState<T> {
    pub open spec fn wf(self) -> bool {
        self.pending_fetches.wf() && self.fetched_ranges.wf()
    }

    pub open spec fn view(self) -> SyncView<T> {
        SyncView {
            pending: self.pending_fetches@,
            fetched: self.fetched_ranges@,
            highest_scheduled: self.highest_scheduled_index,
            highest_fetched: self.highest_fetched_commit_index,
            synced: self.synced_commit_index,
        }
    }

    pub fn new(synced_commit_index: CommitIndex) -> (r: Self)
        ensures
            r.wf(),
            r@ == (SyncView::<T> {
                pending: Set::empty(),
                fetched: Map::empty(),
                highest_scheduled: None,
                highest_fetched: 0,
                synced: synced_commit_index,
            }),
    {
        SyncState {
            pending_fetches: SortedSet::new(),
            fetched_ranges: SortedMap::new(),
            highest_scheduled_index: None,
            highest_fetched_commit_index: 0,
            synced_commit_index,
        }
    }

    /// Notes that commits up to `local` are there.
    pub fn raise_synced(&mut self, local: CommitIndex)
        requires
            old(self).wf(),
        ensures
            final(self).wf(),
            final(self)@ == old(self)@.raise_synced(local),
    {
        if self.synced_commit_index < local {
            self.synced_commit_index = local;
        }
    }

    /// The index after which to schedule.
    pub fn fetch_after_index(&self) -> (r: CommitIndex)
        ensures
            r == self@.fetch_after(),
    {
        match self.highest_scheduled_index {
            Some(h) => if h > self.synced_commit_index {
                h
            } else {
                self.synced_commit_index
            },
            None => self.synced_commit_index,
        }
    }

    /// Adds ranges to fetch.
    pub fn add_scheduled(&mut self, scheduled: ScheduleResult)
        requires
            old(self).wf(),
            scheduled.new_highest_scheduled == if scheduled.ranges_scheduled@.len() == 0 {
                None
            } else {
                Some(scheduled.ranges_scheduled@.last().end)
            },
        ensures
            final(self).wf(),
            final(self)@ == old(self)@.schedule(scheduled.ranges_scheduled@),
    {
        let ghost before = *self;
        let ranges = &scheduled.ranges_scheduled;
        let mut i: usize = 0;
        while i < ranges.len()
            invariant
                self.wf(),
                i <= ranges@.len(),
                *self == (SyncState { pending_fetches: self.pending_fetches, ..before }),
                forall|r: CommitRange| #[trigger]
                    self.pending_fetches@.contains(r) <==> (before.pending_fetches@.contains(r)
                        || ranges@.take(i as int).contains(r)),
            decreases ranges@.len() - i,
        {
            let ghost mid = self.pending_fetches@;
            self.pending_fetches.insert(ranges[i]);
            proof {
                let x = ranges@.take(i as int);
                let y = ranges@.take(i + 1);
                assert forall|r: CommitRange| y.contains(r) <==> (x.contains(r) || r
                    == ranges@[i as int]) by {
                    if x.contains(r) {
                        let k = choose|k: int| 0 <= k < x.len() && x[k] == r;
                        assert(y[k] == r);
                    }
                    assert(y[i as int] == ranges@[i as int]);
                    if y.contains(r) {
                        let k = choose|k: int| 0 <= k < y.len() && y[k] == r;
                        if k < i {
                            assert(x[k] == r);
                        }
                    }
                }
            }
            i = i + 1;
        }
        proof {
            assert(ranges@.take(i as int) =~= ranges@);
        }
        match scheduled.new_highest_scheduled {
            Some(h) => {
                self.highest_scheduled_index = Some(h);
            },
            None => {},
        }
        proof {
            let target = before@.schedule(ranges@);
            assert(self.pending_fetches@ =~= target.pending) by {
                assert forall|r: CommitRange| self.pending_fetches@.contains(r)
                    <==> target.pending.contains(r) by {
                    assert(ranges@.contains(r) <==> ranges@.to_set().contains(r));
                }
            }
        }
    }

    /// Takes in the commits of a fetch up to `target_end`.
    pub fn receive(
        &mut self,
        target_end: CommitIndex,
        range: CommitRange,
        data: T,
        local: CommitIndex,
    )
        requires
            old(self).wf(),
        ensures
            final(self).wf(),
            final(self)@ == old(self)@.receive(target_end, range, data, local),
    {
        if self.highest_fetched_commit_index < range.end {
            self.highest_fetched_commit_index = range.end;
        }
        requeue_partial_range(&mut self.pending_fetches, range.end, target_end);
        self.raise_synced(local);
        if self.synced_commit_index < range.end {
            self.fetched_ranges.insert(range, data);
        }
    }

    /// Takes the next fetched range that can be handed on: one that leaves no
    /// gap to what is synced, and brings something new. Ranges that bring
    /// nothing new are dropped.
    pub fn next_to_dispatch(&mut self) -> (r: Option<(CommitRange, T)>)
        requires
            old(self).wf(),
            old(self).synced_commit_index < CommitIndex::MAX,
        ensures
            final(self).wf(),
            final(self)@ == (SyncView { fetched: final(self)@.fetched, ..old(self)@ }),
            match r {
                Some((range, data)) => {
                    &&& old(self)@.fetched.dom().contains(range)
                    &&& data == old(self)@.fetched[range]
                    &&& range.start <= old(self)@.synced + 1
                    &&& range.end > old(self)@.synced
                    // What came before it in order brought nothing new, and is
                    // gone; what comes after it is still there.
                    &&& forall|q: CommitRange| #[trigger]
                        old(self)@.fetched.dom().contains(q) && q.rank() < range.rank() ==> q.end
                            <= old(self)@.synced
                    &&& final(self)@.fetched == old(self)@.fetched.restrict(
                        old(self)@.fetched.dom().filter(
                            |q: CommitRange| q.rank() > range.rank(),
                        ),
                    )
                },
                None => {
                    // What is left is too far ahead; the rest brought nothing
                    // new.
                    &&& final(self)@.is_blocked()
                    &&& forall|q: CommitRange| #[trigger]
                        old(self)@.fetched.dom().contains(q) ==> final(self)@.fetched.dom().contains(q) || q.end <= old(self)@.synced
                    &&& forall|q: CommitRange| #[trigger]
                        final(self)@.fetched.dom().contains(q) ==> old(self)@.fetched.dom().contains(q) && final(self)@.fetched[q] == old(self)@.fetched[q]
                },
            },
    {
        let ghost before = *self;
        while self.fetched_ranges.entries.len() > 0
            invariant
                before == *old(self),
                before.wf(),
                self.wf(),
                self.synced_commit_index < CommitIndex::MAX,
                *self == (SyncState { fetched_ranges: self.fetched_ranges, ..before }),
                forall|q: CommitRange| #[trigger]
                    self.fetched_ranges@.dom().contains(q) ==> before.fetched_ranges@.dom().contains(
                        q,
                    ) && self.fetched_ranges@[q] == before.fetched_ranges@[q],
                forall|q: CommitRange| #[trigger]
                    before.fetched_ranges@.dom().contains(q)
                        && !self.fetched_ranges@.dom().contains(q) ==> q.end
                        <= before.synced_commit_index,
                forall|q: CommitRange, p: CommitRange|
                    #![trigger self.fetched_ranges@.dom().contains(q), before.fetched_ranges@.dom().contains(p)]
                    self.fetched_ranges@.dom().contains(q) && before.fetched_ranges@.dom().contains(
                        p,
                    ) && !self.fetched_ranges@.dom().contains(p) ==> p.rank() < q.rank(),
            decreases self.fetched_ranges.entries@.len(),
        {
            let ghost mid = self.fetched_ranges;
            let first = self.fetched_ranges.entries[0].0;
            proof {
                mid.lemma_entry(0);
                assert forall|q: CommitRange| #[trigger] mid@.dom().contains(q) implies first.rank()
                    <= q.rank() by {
                    let k = mid.lemma_key(q);
                    if k > 0 {
                        assert(mid.keys()[0].rank() < mid.keys()[k].rank());
                    }
                }
            }
            if first.start > self.synced_commit_index + 1 {
                proof {
                    assert forall|r: CommitRange| #[trigger]
                        self@.fetched.dom().contains(r) implies r.start > self@.synced + 1 by {}
                }
                return None;
            }
            let entry = self.fetched_ranges.remove_at(0);
            let (range, data) = entry;
            proof {
                assert forall|q: CommitRange| #[trigger]
                    self.fetched_ranges@.dom().contains(q) implies range.rank() < q.rank() by {
                    assert(mid@.dom().contains(q));
                    if q.rank() == range.rank() {
                        CommitRange::lemma_rank_injective(q, range);
                    }
                }
            }
            if range.end > self.synced_commit_index {
                proof {
                    let rest = before@.fetched.restrict(
                        before@.fetched.dom().filter(|q: CommitRange| q.rank() > range.rank()),
                    );
                    assert forall|q: CommitRange| #[trigger]
                        self@.fetched.dom().contains(q) <==> rest.dom().contains(q) by {
                        if rest.dom().contains(q) {
                            assert(before.fetched_ranges@.dom().contains(q));
                            if !mid@.dom().contains(q) {
                                assert(mid@.dom().contains(range));
                            }
                        }
                    }
                    assert(self@.fetched =~= rest);
                    assert forall|q: CommitRange| #[trigger]
                        before@.fetched.dom().contains(q) && q.rank() < range.rank() implies q.end
                        <= before@.synced by {
                        if mid@.dom().contains(q) {
                            assert(first.rank() <= q.rank());
                        }
                    }
                }
                return Some((range, data));
            }
        }
        proof {
            assert forall|r: CommitRange| !self@.fetched.dom().contains(r) by {
                if self@.fetched.dom().contains(r) {
                    let k = self.fetched_ranges.lemma_key(r);
                }
            }
        }
        None
    }
}

/// Nothing that happens lowers the index up to which commits are synced.
pub proof fn law_synced_never_falls<T>(
    s: SyncView<T>,
    target_end: CommitIndex,
    range: CommitRange,
    data: T,
    local: CommitIndex,
    ranges: Seq<CommitRange>,
)
    ensures
        s.raise_synced(local).synced >= s.synced,
        s.raise_synced(local).synced >= local,
        s.receive(target_end, range, data, local).synced >= s.synced,
        s.schedule(ranges).synced == s.synced,
{
}

/// What is handed on leaves no gap to what is synced, and moves it on.
pub proof fn law_dispatch_leaves_no_gap<T>(s: SyncView<T>, range: CommitRange)
    requires
        range.start <= s.synced + 1,
        range.end > s.synced,
    ensures
        s.raise_synced(range.end).synced == range.end,
        forall|i: CommitIndex|
            s.synced < i <= s.raise_synced(range.end).synced ==> #[trigger] in_range(i, range),
{
}

/// Is the commit in the range?
pub open spec fn in_range(i: CommitIndex, range: CommitRange) -> bool {
    range.start <= i <= range.end
}

/// No commit that was asked for is forgotten: what a fetch did not bring is
/// pending again.
pub proof fn law_nothing_forgotten<T>(
    s: SyncView<T>,
    asked: CommitRange,
    got: CommitRange,
    data: T,
    local: CommitIndex,
    i: CommitIndex,
)
    requires
        got.start == asked.start,
        got.end <= asked.end,
        in_range(i, asked),
    ensures
        ({
            let after = s.receive(asked.end, got, data, local);
            ||| i <= after.synced
            ||| in_range(i, got) && after.fetched.dom().contains(got)
            ||| exists|p: CommitRange| after.pending.contains(p) && #[trigger] in_range(i, p)
        }),
{
    let after = s.receive(asked.end, got, data, local);
    if i > got.end {
        let p = CommitRange { start: (got.end + 1) as CommitIndex, end: asked.end };
        assert(after.pending.contains(p));
        assert(in_range(i, p));
    }
}

/// What is scheduled anew lies beyond all that was scheduled before, and
/// scheduling again at once adds nothing.
pub proof fn law_schedule_settles<T>(s: SyncView<T>, limit: int, step: int)
    requires
        step > 0,
        0 <= limit <= CommitIndex::MAX,
    ensures
        ({
            let ranges = batches(s.fetch_after() as int, limit, step);
            let after = s.schedule(ranges);
            &&& after.fetch_after() >= s.fetch_after()
            &&& forall|i: int|
                0 <= i < ranges.len() ==> (#[trigger] ranges[i]).start > s.fetch_after()
                    && ranges[i].end <= after.fetch_after()
            &&& batches(after.fetch_after() as int, limit, step).len() == 0
        }),
{
    let a = s.fetch_after() as int;
    let ranges = batches(a, limit, step);
    let after = s.schedule(ranges);
    let n = ranges.len() as int;
    law_batches(a, limit, step);
    if n > 0 {
        assert(ranges.last() == batch(a, step, n - 1));
        assert(ranges[n - 1].end <= limit);
        let d = limit - a;
        assert(n == d / step);
        assert(n * step <= d && d < n * step + step) by (nonlinear_arith)
            requires
                n == d / step,
                d >= 0,
                step > 0,
        ;
        assert((n - 1 + 1) * step == n * step);
        assert(n * step >= 0) by (nonlinear_arith)
            requires
                n >= 0,
                step > 0,
        ;
        assert(after.fetch_after() == a + n * step);
        let rest = limit - (a + n * step);
        assert(rest / step == 0) by (nonlinear_arith)
            requires
                0 <= rest < step,
        ;
        assert forall|i: int| 0 <= i < n implies (#[trigger] ranges[i]).start > s.fetch_after()
            && ranges[i].end <= after.fetch_after() by {
            assert(ranges[i] == batch(a, step, i));
            assert(0 <= i * step && (i + 1) * step <= n * step && i * step <= (i + 1) * step)
                by (nonlinear_arith)
                requires
                    0 <= i,
                    i + 1 <= n,
                    step > 0,
            ;
            assert(i * step + 1 <= n * step) by (nonlinear_arith)
                requires
                    0 <= i,
                    i + 1 <= n,
                    step > 0,
            ;
        }
    }
}

} // verus!
