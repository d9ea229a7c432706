//! What catching up on commits comes to, in terms of what goes in and comes out.
use std::sync::Arc;

use vstd::prelude::*;

use crate::commit::{Commit, CommitVersion, TrustedCommit};
use crate::commit_syncer::regular::{
    all_block_refs, all_transaction_refs, chunk, chunk_count, covered_range, gap_between,
    is_assembled, is_available, is_missing, is_requested, left, pause, payloads, taken,
    CertifiedCommit, RegularCommitSyncer,
};
use crate::commit_syncer::shared::{
    batches, fetch_limit, is_pass, law_batches, lemma_others, others, target_parallel_fetches,
    CommitSyncType, FetchLoop, SyncParameters, SyncView,
};
use crate::commit_syncer::verify::{
    checked_header, checked_transactions, commit_fault, commits_fine, first_invalid,
    is_certified_chain, is_rejection, is_trusted, named_authorities, version_name, vote_fault,
    voters, CommitMessage, Rejection, VoteMessage,
};
use crate::commit_syncer::wire::{
    bcs_byte_lists, bcs_transactions_message, big_endian, contents, digest_of, message_of,
};
use crate::committee::{stake_of, Committee};
use crate::error::{ConsensusError, ConsensusResult};
use crate::header::{Bytes, VerifiedBlockHeader, VerifiedTransactions};
use crate::refs::{
    AuthorityIndex, BlockRef, CommitIndex, CommitRange, CommitRef, GenericTransactionRef,
    TransactionsCommitment,
};

verus! {

/// Where fast synchronization is enabled, it closes the gaps above the threshold
/// and regular synchronization the others; where it is not, regular synchronization
/// closes them all.
pub proof fn law_who_closes_a_gap(gap: u32, threshold: u32)
    ensures
        gap <= threshold ==> CommitSyncType::Regular.spec_should_schedule(gap, threshold, true)
            && !CommitSyncType::Fast.spec_should_schedule(gap, threshold, true),
        gap > threshold ==> CommitSyncType::Fast.spec_should_schedule(gap, threshold, true)
            && !CommitSyncType::Regular.spec_should_schedule(gap, threshold, true),
        CommitSyncType::Regular.spec_should_schedule(gap, threshold, false),
        !CommitSyncType::Fast.spec_should_schedule(gap, threshold, false),
{
}

/// The regular synchronizer is in charge exactly where the quorum is at most the
/// threshold ahead, or fast synchronization is not enabled. It has to wait exactly
/// while fast synchronization is at work.
pub proof fn law_when_regular_synchronization_schedules(
    s: RegularCommitSyncer,
    quorum: CommitIndex,
    local: CommitIndex,
)
    ensures
        s.is_in_charge(quorum, local) <==> !s.parameters.enable_fast_commit_syncer || quorum
            <= local + s.parameters.commit_sync_gap_threshold,
        s.may_schedule(quorum, local, None) <==> s.is_in_charge(quorum, local),
        s.may_schedule(quorum, local, Some(false)) <==> s.is_in_charge(quorum, local),
        !s.may_schedule(quorum, local, Some(true)),
{
}

/// What is ahead of what is there.
pub proof fn law_gap(a: CommitIndex, b: CommitIndex)
    ensures
        a >= b ==> b + gap_between(a, b) == a,
        a <= b ==> gap_between(a, b) == 0,
{
}

/// Each way of catching up has its own size of batches. A response to the fast one
/// may hold twice as many commits as a batch, one to the regular one as many.
pub proof fn law_batch_sizes(p: SyncParameters)
    ensures
        CommitSyncType::Fast.spec_batch_size(p) == p.fast_commit_sync_batch_size,
        CommitSyncType::Regular.spec_batch_size(p) == p.commit_sync_batch_size,
        CommitSyncType::Fast.spec_max_commits(p) == p.fast_commit_sync_batch_size
            + p.fast_commit_sync_batch_size,
        CommitSyncType::Regular.spec_max_commits(p) == p.commit_sync_batch_size,
{
}

/// Nothing is fetched that no quorum has made, nor what is more than the threshold
/// ahead of what has been handled; all else may be.
pub proof fn law_fetch_limit(quorum: int, handled: int, threshold: int, i: int)
    ensures
        i <= fetch_limit(quorum, handled, threshold) <==> i <= quorum && i - handled <= threshold,
{
}

/// The batches hold exactly the commits after the given one, up to the end of the
/// last batch that is full; less than a batch is left over.
pub proof fn law_batches_hold_what_is_due(after: int, limit: int, step: int, i: int)
    requires
        step > 0,
        0 <= after,
        0 <= limit <= CommitIndex::MAX,
        after < i <= limit,
    ensures
        ({
            let b = batches(after, limit, step);
            ||| exists|k: int|
                0 <= k < b.len() && (#[trigger] b[k]).start <= i <= b[k].end
            ||| limit - i < step && (b.len() == 0 || i > b.last().end)
        }),
{
    law_batches(after, limit, step);
    let b = batches(after, limit, step);
    let n = b.len() as int;
    let k = (i - after - 1) / step;
    assert(0 <= k && k * step <= i - after - 1 && i - after - 1 < (k + 1) * step)
        by (nonlinear_arith)
        requires
            k == (i - after - 1) / step,
            step > 0,
            i - after - 1 >= 0,
    ;
    lemma_batch_ends(after, limit, step, n);
    assert((n + 1) * step == n * step + step) by (nonlinear_arith);
    if k < n {
        lemma_batch_ends(after, limit, step, k);
        lemma_batch_ends(after, limit, step, k + 1);
        assert((k + 1) * step == k * step + step) by (nonlinear_arith);
        assert(b[k].start <= i <= b[k].end);
    } else {
        assert(n * step <= k * step) by (nonlinear_arith)
            requires
                n <= k,
                step > 0,
        ;
    }
}

/// The `n`-th batch ends `n` batches behind the start.
proof fn lemma_batch_ends(after: int, limit: int, step: int, n: int)
    requires
        step > 0,
        0 <= after,
        0 <= limit <= CommitIndex::MAX,
        0 <= n <= batches(after, limit, step).len(),
    ensures
        n > 0 ==> batches(after, limit, step)[n - 1].end == after + n * step,
        n > 0 ==> batches(after, limit, step)[n - 1].start == after + n * step - step + 1,
    decreases n,
{
    law_batches(after, limit, step);
    if n > 0 {
        lemma_batch_ends(after, limit, step, n - 1);
        let b = batches(after, limit, step);
        assert(b[n - 1].end - b[n - 1].start + 1 == step);
        if n == 1 {
            vstd::arithmetic::mul::lemma_mul_basics(step);
        } else {
            assert(b[n - 1].start == b[n - 2].end + 1);
        }
        assert(n * step == (n - 1) * step + step) by (nonlinear_arith);
    }
}

/// There is always room for one fetch. Beyond it there is room for as many as are
/// configured, as two thirds of the committee, and as batches may be waiting, and
/// for no more.
pub proof fn law_room_for_fetches(p: SyncParameters, committee_size: int, waiting: int, n: int)
    requires
        committee_size >= 0,
    ensures
        n <= target_parallel_fetches(p, committee_size, waiting) <==> n <= 1 || (n
            <= p.commit_sync_parallel_fetches && 3 * n <= 2 * committee_size && n + waiting
            <= p.commit_sync_batches_ahead),
{
    let share = committee_size * 2 / 3;
    assert(n <= share <==> 3 * n <= 2 * committee_size);
}

/// One pass asks different authorities, never the node itself, and as many of them as
/// there are, up to twenty-four.
pub proof fn law_pass(size: int, own_index: AuthorityIndex, targets: Seq<AuthorityIndex>)
    requires
        0 <= size <= 256,
        own_index < size,
        is_pass(size, own_index, targets),
    ensures
        targets.no_duplicates(),
        forall|i: int|
            0 <= i < targets.len() ==> (#[trigger] targets[i]) < size && targets[i] != own_index,
        size <= 25 ==> targets.len() == size - 1,
        size > 25 ==> targets.len() == 24,
{
    lemma_count_others(size, own_index);
}

/// All authorities but one are one fewer.
proof fn lemma_count_others(size: int, own_index: AuthorityIndex)
    requires
        0 <= size <= 256,
    ensures
        others(size, own_index).len() == if own_index < size {
            size - 1
        } else {
            size
        },
    decreases size,
{
    if size > 0 {
        lemma_count_others(size - 1, own_index);
    }
}

/// The other authorities are listed in ascending order, all of them and not the node
/// itself.
pub proof fn law_others(size: int, own_index: AuthorityIndex)
    requires
        0 <= size <= 256,
    ensures
        forall|a: AuthorityIndex| #[trigger]
            others(size, own_index).contains(a) <==> a < size && a != own_index,
        forall|i: int, j: int|
            0 <= i < j < others(size, own_index).len() ==> #[trigger] others(size, own_index)[i]
                < #[trigger] others(size, own_index)[j],
    decreases size,
{
    lemma_others(size, own_index);
    if size > 0 {
        law_others(size - 1, own_index);
        let rest = others(size - 1, own_index);
        let all = others(size, own_index);
        assert forall|i: int, j: int| 0 <= i < j < all.len() implies #[trigger] all[i]
            < #[trigger] all[j] by {
            assert(i < rest.len());
            assert(all[i] == rest[i]);
            assert(rest.contains(rest[i]));
            if j < rest.len() {
                assert(all[j] == rest[j]);
            }
        }
    }
}

/// New ranges are scheduled after all that is synced and all that is scheduled.
pub proof fn law_fetch_after<T>(s: SyncView<T>, i: CommitIndex)
    ensures
        i <= s.fetch_after() <==> i <= s.synced || (s.highest_scheduled is Some && i
            <= s.highest_scheduled->Some_0),
{
}

/// What is known to be there counts as synced, and nothing else changes.
pub proof fn law_raise_synced<T>(s: SyncView<T>, local: CommitIndex, i: CommitIndex)
    ensures
        i <= s.raise_synced(local).synced <==> i <= s.synced || i <= local,
        s.raise_synced(local).pending == s.pending,
        s.raise_synced(local).fetched == s.fetched,
        s.raise_synced(local).highest_scheduled == s.highest_scheduled,
        s.raise_synced(local).highest_fetched == s.highest_fetched,
{
}

/// Scheduled ranges are pending, and so is what was pending before; nothing else is.
/// The last of them is the highest that is scheduled.
pub proof fn law_schedule<T>(s: SyncView<T>, ranges: Seq<CommitRange>, r: CommitRange)
    ensures
        s.schedule(ranges).pending.contains(r) <==> s.pending.contains(r) || ranges.contains(r),
        ranges.len() > 0 ==> s.schedule(ranges).highest_scheduled == Some(ranges.last().end),
        ranges.len() == 0 ==> s.schedule(ranges).highest_scheduled == s.highest_scheduled,
        s.schedule(ranges).fetched == s.fetched,
        s.schedule(ranges).highest_fetched == s.highest_fetched,
        s.schedule(ranges).synced == s.synced,
{
}

/// What a fetch brings is kept exactly where it reaches beyond what is synced; what
/// was kept stays. Of what was asked for, exactly the part behind what came is
/// pending again.
pub proof fn law_receive<T>(
    s: SyncView<T>,
    target_end: CommitIndex,
    range: CommitRange,
    data: T,
    local: CommitIndex,
    i: CommitIndex,
)
    ensures
        ({
            let after = s.receive(target_end, range, data, local);
            &&& after.fetched.dom().contains(range) <==> (range.end > s.synced && range.end > local)
                || s.fetched.dom().contains(range)
            &&& range.end > s.synced && range.end > local ==> after.fetched[range] == data
            &&& forall|r: CommitRange|
                r != range ==> (#[trigger] after.fetched.dom().contains(r)
                    <==> s.fetched.dom().contains(r)) && (s.fetched.dom().contains(r)
                    ==> after.fetched[r] == s.fetched[r])
            &&& forall|r: CommitRange| #[trigger]
                after.pending.contains(r) <==> s.pending.contains(r) || (range.end < target_end
                    && r.start == range.end + 1 && r.end == target_end)
            &&& i <= after.highest_fetched <==> i <= s.highest_fetched || i <= range.end
            &&& i <= after.synced <==> i <= s.synced || i <= local
            &&& after.highest_scheduled == s.highest_scheduled
        }),
{
    let after = s.receive(target_end, range, data, local);
    assert forall|r: CommitRange| #[trigger] after.pending.contains(r) <==> s.pending.contains(r)
        || (range.end < target_end && r.start == range.end + 1 && r.end == target_end) by {
        if range.end < target_end && r.start == range.end + 1 && r.end == target_end {
            assert(r == CommitRange { start: (range.end + 1) as CommitIndex, end: target_end });
        }
    }
}

/// The commits that follow one another name what the first ones name and then what
/// the others do; one commit names what it lists.
pub proof fn law_named_in_order(a: Seq<TrustedCommit>, b: Seq<TrustedCommit>, c: TrustedCommit)
    ensures
        all_transaction_refs(a + b) == all_transaction_refs(a) + all_transaction_refs(b),
        all_transaction_refs(seq![c]) == c.commit.committed_transactions@,
        all_block_refs(a + b) == all_block_refs(a) + all_block_refs(b),
        all_block_refs(seq![c]) == c.commit.block_headers@,
    decreases b.len(),
{
    reveal_with_fuel(all_transaction_refs, 2);
    reveal_with_fuel(all_block_refs, 2);
    assert(seq![c].drop_last() =~= Seq::empty());
    assert(all_transaction_refs(seq![c]) =~= c.commit.committed_transactions@);
    assert(all_block_refs(seq![c]) =~= c.commit.block_headers@);
    if b.len() == 0 {
        assert(a + b =~= a);
        assert(all_transaction_refs(a) + all_transaction_refs(b) =~= all_transaction_refs(a));
        assert(all_block_refs(a) + all_block_refs(b) =~= all_block_refs(a));
    } else {
        law_named_in_order(a, b.drop_last(), c);
        assert((a + b).drop_last() =~= a + b.drop_last());
        assert((a + b).last() == b.last());
        assert(all_transaction_refs(a + b) =~= all_transaction_refs(a) + all_transaction_refs(b));
        assert(all_block_refs(a + b) =~= all_block_refs(a) + all_block_refs(b));
    }
}

/// Each chunk but the last is full, and none is empty or too long.
pub proof fn law_chunk_sizes<T>(s: Seq<T>, size: int, i: int)
    requires
        size > 0,
        0 <= i < chunk_count(s.len() as int, size),
    ensures
        0 < chunk(s, size, i).len() <= size,
        i < chunk_count(s.len() as int, size) - 1 ==> chunk(s, size, i).len() == size,
{
    let l = s.len() as int;
    let c = chunk_count(l, size);
    assert(c * size <= l + size - 1 && (i + 1) * size <= c * size && i * size + size == (i + 1)
        * size && 0 <= i * size) by (nonlinear_arith)
        requires
            c == (l + size - 1) / size,
            l >= 0,
            size > 0,
            0 <= i < c,
    ;
    if i < c - 1 {
        assert((i + 1) * size + size <= c * size) by (nonlinear_arith)
            requires
                i + 2 <= c,
                size > 0,
        ;
    }
}

/// The requests are spread over the time given, but never more than a second apart.
pub proof fn law_pause(timeout_nanos: int, n: int, p: int)
    requires
        n > 0,
        timeout_nanos >= 0,
        p >= 0,
    ensures
        p <= pause(timeout_nanos, n) <==> p * n <= timeout_nanos && p <= 1_000_000_000,
{
    let d = timeout_nanos / n;
    assert(p <= d <==> p * n <= timeout_nanos) by (nonlinear_arith)
        requires
            d == timeout_nanos / n,
            n > 0,
            timeout_nanos >= 0,
            p >= 0,
    ;
}

/// Transactions are missing exactly where a commit names them and no commit came
/// with them.
pub proof fn law_missing(commits: Seq<CertifiedCommit>, k: GenericTransactionRef)
    ensures
        is_missing(commits, k) <==> {
            &&& exists|i: int, x: int|
                0 <= i < commits.len() && 0 <= x
                    < commits[i].commit.commit.committed_transactions@.len()
                    && #[trigger] commits[i].commit.commit.committed_transactions@[x] == k
            &&& forall|i: int, j: int|
                0 <= i < commits.len() && 0 <= j < commits[i].transactions@.len() ==> k
                    != GenericTransactionRef::TransactionRef(
                    (#[trigger] commits[i].transactions@[j]).transaction_ref,
                )
        },
{
    if is_missing(commits, k) {
        let i = choose|i: int|
            0 <= i < commits.len() && (
            #[trigger] commits[i]).commit.commit.committed_transactions@.contains(k);
        let refs = commits[i].commit.commit.committed_transactions@;
        let x = choose|x: int| 0 <= x < refs.len() && refs[x] == k;
        assert(commits[i].commit.commit.committed_transactions@[x] == k);
        assert(!is_available(commits, k));
    }
    if exists|i: int, x: int|
        0 <= i < commits.len() && 0 <= x < commits[i].commit.commit.committed_transactions@.len()
            && #[trigger] commits[i].commit.commit.committed_transactions@[x] == k {
        let (i, x) = choose|i: int, x: int|
            0 <= i < commits.len() && 0 <= x
                < commits[i].commit.commit.committed_transactions@.len()
                && #[trigger] commits[i].commit.commit.committed_transactions@[x] == k;
        assert(commits[i].commit.commit.committed_transactions@.contains(k));
    }
}

/// Of the messages, the last one of some transactions gives their payload.
pub proof fn law_payloads(messages: Seq<Bytes>, k: GenericTransactionRef)
    ensures
        payloads(messages).dom().contains(k) <==> exists|i: int|
            0 <= i < messages.len() && is_message_of(#[trigger] messages[i], k),
        payloads(messages).dom().contains(k) ==> exists|i: int|
            {
                &&& 0 <= i < messages.len()
                &&& is_message_of(#[trigger] messages[i], k)
                &&& payloads(messages)[k] == bcs_transactions_message(messages[i]@)->Some_0.3
                &&& forall|j: int|
                    i < j < messages.len() ==> !is_message_of(#[trigger] messages[j], k)
            },
    decreases messages.len(),
{
    if messages.len() > 0 {
        let d = messages.drop_last();
        let n = messages.len() - 1;
        law_payloads(d, k);
        if is_message_of(messages[n], k) {
            assert(message_of(messages.last()@) is Some);
            assert(payloads(messages)[k] == bcs_transactions_message(messages[n]@)->Some_0.3);
        } else {
            assert(payloads(messages).dom().contains(k) <==> payloads(d).dom().contains(k));
            if payloads(d).dom().contains(k) {
                let i = choose|i: int|
                    {
                        &&& 0 <= i < d.len()
                        &&& is_message_of(#[trigger] d[i], k)
                        &&& payloads(d)[k] == bcs_transactions_message(d[i]@)->Some_0.3
                        &&& forall|j: int| i < j < d.len() ==> !is_message_of(#[trigger] d[j], k)
                    };
                assert(messages[i] == d[i]);
                assert forall|j: int| i < j < messages.len() implies !is_message_of(
                    #[trigger] messages[j],
                    k,
                ) by {
                    if j < n {
                        assert(messages[j] == d[j]);
                    }
                }
            }
            if exists|i: int| 0 <= i < messages.len() && is_message_of(#[trigger] messages[i], k) {
                let i = choose|i: int|
                    0 <= i < messages.len() && is_message_of(#[trigger] messages[i], k);
                assert(d[i] == messages[i]);
            }
        }
    }
}

/// Can the message be decoded, and does it name these transactions by their round,
/// their author and their commitment?
pub open spec fn is_message_of(m: Bytes, k: GenericTransactionRef) -> bool {
    match (bcs_transactions_message(m@), k) {
        (Some(content), GenericTransactionRef::TransactionRef(t)) => {
            &&& content.0 == t.round
            &&& content.1 == t.author
            &&& digest_of(content.2) == t.transactions_commitment
        },
        _ => false,
    }
}

/// A message is what was asked for exactly where it names transactions that were.
pub proof fn law_requested(requested: Seq<GenericTransactionRef>, m: Bytes)
    ensures
        is_requested(requested, m) <==> exists|i: int|
            0 <= i < requested.len() && is_message_of(m, #[trigger] requested[i]),
{
    if is_requested(requested, m) {
        let t = message_of(m@)->Some_0.0;
        let k = GenericTransactionRef::TransactionRef(t);
        let i = choose|i: int| 0 <= i < requested.len() && requested[i] == k;
        assert(is_message_of(m, requested[i]));
    }
    if exists|i: int| 0 <= i < requested.len() && is_message_of(m, #[trigger] requested[i]) {
        let i = choose|i: int| 0 <= i < requested.len() && is_message_of(m, #[trigger] requested[i]);
        assert(message_of(m@) is Some);
        assert(requested[i] == GenericTransactionRef::TransactionRef(message_of(m@)->Some_0.0));
        assert(requested.contains(requested[i]));
    }
}

/// Taking some and then others takes them one after the other, and nothing twice;
/// taking one takes it where it is there.
pub proof fn law_taking<V>(
    m: Map<GenericTransactionRef, V>,
    a: Seq<GenericTransactionRef>,
    b: Seq<GenericTransactionRef>,
    k: GenericTransactionRef,
)
    ensures
        taken(m, a + b) == taken(m, a) + taken(left(m, a), b),
        taken(m, seq![k]) == if m.dom().contains(k) {
            seq![m[k]]
        } else {
            Seq::empty()
        },
        left(m, a).dom().contains(k) <==> m.dom().contains(k) && !a.contains(k),
        left(m, a).dom().contains(k) ==> left(m, a)[k] == m[k],
    decreases b.len(),
{
    assert(seq![k].drop_last() =~= Seq::empty());
    assert(left(m, Seq::empty()) =~= m);
    assert(taken(m, Seq::empty()) =~= Seq::empty());
    assert(taken(m, seq![k]) =~= if m.dom().contains(k) {
        seq![m[k]]
    } else {
        Seq::empty()
    });
    if b.len() == 0 {
        assert(a + b =~= a);
        assert(taken(m, a) + taken(left(m, a), b) =~= taken(m, a));
    } else {
        let d = b.drop_last();
        law_taking(m, a, d, k);
        assert((a + b).drop_last() =~= a + d);
        assert((a + b).last() == b.last());
        assert(left(m, a + d) =~= left(left(m, a), d)) by {
            vstd::seq_lib::seq_to_set_distributes_over_add(a, d);
        }
        assert(taken(m, a + b) =~= taken(m, a) + taken(left(m, a), b));
    }
}

/// The commits come with their headers in order, and with no transactions twice:
/// where transactions are there, they are with the first commit that names them.
pub proof fn law_assembled(
    commits: Seq<TrustedCommit>,
    headers: Map<BlockRef, VerifiedBlockHeader>,
    transactions: Map<GenericTransactionRef, VerifiedTransactions>,
    out: Seq<CertifiedCommit>,
    i: int,
)
    requires
        is_assembled(commits, headers, transactions, out),
        0 <= i < commits.len(),
    ensures
        out.len() == commits.len(),
        out[i].commit == commits[i],
        out[i].block_headers@.len() == commits[i].commit.block_headers@.len(),
        forall|j: int|
            0 <= j < out[i].block_headers@.len() ==> (#[trigger] out[i].block_headers@[j])
                == headers[commits[i].commit.block_headers@[j]],
        forall|j: int|
            0 <= j < commits[i].commit.committed_transactions@.len() && transactions.dom().contains(
                #[trigger] commits[i].commit.committed_transactions@[j],
            ) && (forall|x: int|
                0 <= x < i ==> !(#[trigger] commits[x]).commit.committed_transactions@.contains(
                    commits[i].commit.committed_transactions@[j],
                )) ==> out[i].transactions@.contains(
                transactions[commits[i].commit.committed_transactions@[j]],
            ),
        forall|v: VerifiedTransactions| #[trigger]
            out[i].transactions@.contains(v) ==> exists|k: GenericTransactionRef|
                {
                    &&& #[trigger] commits[i].commit.committed_transactions@.contains(k)
                    &&& transactions.dom().contains(k)
                    &&& transactions[k] == v
                    &&& forall|x: int|
                        0 <= x < i ==> !(
                        #[trigger] commits[x]).commit.committed_transactions@.contains(k)
                },
{
    let refs = commits[i].commit.committed_transactions@;
    let before = all_transaction_refs(commits.take(i));
    let m = left(transactions, before);
    assert(out[i].transactions@ == taken(m, refs));
    assert forall|k: GenericTransactionRef| #[trigger] before.contains(k) <==> exists|x: int|
        0 <= x < i && (#[trigger] commits[x]).commit.committed_transactions@.contains(k) by {
        lemma_named(commits.take(i), k);
        if before.contains(k) {
            let x = choose|x: int|
                0 <= x < i && (
                #[trigger] commits.take(i)[x]).commit.committed_transactions@.contains(k);
            assert(commits[x].commit.committed_transactions@.contains(k));
        }
        if exists|x: int|
            0 <= x < i && (#[trigger] commits[x]).commit.committed_transactions@.contains(k) {
            let x = choose|x: int|
                0 <= x < i && (#[trigger] commits[x]).commit.committed_transactions@.contains(k);
            assert(commits.take(i)[x].commit.committed_transactions@.contains(k));
        }
    }
    assert forall|j: int|
        0 <= j < refs.len() && transactions.dom().contains(#[trigger] refs[j]) && (forall|x: int|
            0 <= x < i ==> !(#[trigger] commits[x]).commit.committed_transactions@.contains(
                refs[j],
            )) implies out[i].transactions@.contains(transactions[refs[j]]) by {
        assert(!before.contains(refs[j]));
        assert(!before.to_set().contains(refs[j]));
        assert(m.dom().contains(refs[j]));
        lemma_taken_contains(m, refs, j);
    }
    assert forall|v: VerifiedTransactions| #[trigger]
        out[i].transactions@.contains(v) implies exists|k: GenericTransactionRef|
        {
            &&& #[trigger] refs.contains(k)
            &&& transactions.dom().contains(k)
            &&& transactions[k] == v
            &&& forall|x: int|
                0 <= x < i ==> !(#[trigger] commits[x]).commit.committed_transactions@.contains(k)
        } by {
        let k = lemma_taken_from(m, refs, v);
        assert(!before.to_set().contains(k));
        assert(!before.contains(k));
    }
}

/// What some commits name is what one of them names.
proof fn lemma_named(commits: Seq<TrustedCommit>, k: GenericTransactionRef)
    ensures
        all_transaction_refs(commits).contains(k) <==> exists|x: int|
            0 <= x < commits.len() && (
            #[trigger] commits[x]).commit.committed_transactions@.contains(k),
    decreases commits.len(),
{
    if commits.len() > 0 {
        let d = commits.drop_last();
        lemma_named(d, k);
        let a = all_transaction_refs(d);
        let b = commits.last().commit.committed_transactions@;
        assert((a + b).contains(k) <==> a.contains(k) || b.contains(k)) by {
            if a.contains(k) {
                let z = choose|z: int| 0 <= z < a.len() && a[z] == k;
                assert((a + b)[z] == k);
            }
            if b.contains(k) {
                let z = choose|z: int| 0 <= z < b.len() && b[z] == k;
                assert((a + b)[a.len() + z] == k);
            }
        }
        if a.contains(k) {
            let x = choose|x: int|
                0 <= x < d.len() && (#[trigger] d[x]).commit.committed_transactions@.contains(k);
            assert(commits[x].commit.committed_transactions@.contains(k));
        }
        if b.contains(k) {
            assert(commits[commits.len() - 1].commit.committed_transactions@.contains(k));
        }
        if exists|x: int|
            0 <= x < commits.len() && (
            #[trigger] commits[x]).commit.committed_transactions@.contains(k) {
            let x = choose|x: int|
                0 <= x < commits.len() && (
                #[trigger] commits[x]).commit.committed_transactions@.contains(k);
            if x < d.len() {
                assert(d[x].commit.committed_transactions@.contains(k));
            }
        }
    }
}

proof fn lemma_taken_contains<V>(
    m: Map<GenericTransactionRef, V>,
    refs: Seq<GenericTransactionRef>,
    j: int,
)
    requires
        0 <= j < refs.len(),
        m.dom().contains(refs[j]),
    ensures
        taken(m, refs).contains(m[refs[j]]),
    decreases refs.len(),
{
    let d = refs.drop_last();
    let t = taken(m, d);
    let all = taken(m, refs);
    if j < d.len() || d.contains(refs.last()) {
        let i = if j < d.len() {
            j
        } else {
            choose|i: int| 0 <= i < d.len() && d[i] == refs.last()
        };
        assert(d[i] == refs[j]);
        lemma_taken_contains(m, d, i);
        let z = choose|z: int| 0 <= z < t.len() && t[z] == m[refs[j]];
        assert(all[z] == t[z]);
    } else {
        assert(!d.to_set().contains(refs.last()));
        assert(left(m, d).dom().contains(refs.last()));
        assert(all[t.len() as int] == m[refs[j]]);
    }
}

proof fn lemma_taken_from<V>(
    m: Map<GenericTransactionRef, V>,
    refs: Seq<GenericTransactionRef>,
    v: V,
) -> (k: GenericTransactionRef)
    requires
        taken(m, refs).contains(v),
    ensures
        refs.contains(k),
        m.dom().contains(k),
        m[k] == v,
    decreases refs.len(),
{
    let all = taken(m, refs);
    let z = choose|z: int| 0 <= z < all.len() && all[z] == v;
    let d = refs.drop_last();
    let t = taken(m, d);
    if z < t.len() {
        assert(t[z] == v);
        assert(t.contains(v));
        let k = lemma_taken_from(m, d, v);
        let i = choose|i: int| 0 <= i < d.len() && d[i] == k;
        assert(refs[i] == k);
        k
    } else {
        assert(refs[refs.len() - 1] == refs.last());
        refs.last()
    }
}

/// A commit is voted for by exactly the authors of those headers that have it
/// anywhere among their votes.
pub proof fn law_voters(votes: Seq<VoteMessage>, target: CommitRef, a: AuthorityIndex)
    ensures
        voters(votes, target).contains(a) <==> exists|i: int, j: int|
            0 <= i < votes.len() && votes[i].decoded is Ok
                && votes[i].decoded->Ok_0.reference.author == a && 0 <= j
                < votes[i].decoded->Ok_0.commit_votes@.len()
                && #[trigger] votes[i].decoded->Ok_0.commit_votes@[j] == target,
    decreases votes.len(),
{
    if votes.len() > 0 {
        let d = votes.drop_last();
        let n = votes.len() - 1;
        law_voters(d, target, a);
        if voters(d, target).contains(a) {
            let (i, j) = choose|i: int, j: int|
                0 <= i < d.len() && d[i].decoded is Ok && d[i].decoded->Ok_0.reference.author == a
                    && 0 <= j < d[i].decoded->Ok_0.commit_votes@.len()
                    && #[trigger] d[i].decoded->Ok_0.commit_votes@[j] == target;
            assert(votes[i] == d[i]);
            assert(votes[i].decoded->Ok_0.commit_votes@[j] == target);
        }
        let list = votes[n].decoded->Ok_0.commit_votes@;
        if votes[n].decoded is Ok && list.contains(target) {
            let j = choose|j: int| 0 <= j < list.len() && list[j] == target;
            assert(votes[n].decoded->Ok_0.commit_votes@[j] == target);
        }
        if exists|i: int, j: int|
            0 <= i < votes.len() && votes[i].decoded is Ok
                && votes[i].decoded->Ok_0.reference.author == a && 0 <= j
                < votes[i].decoded->Ok_0.commit_votes@.len()
                && #[trigger] votes[i].decoded->Ok_0.commit_votes@[j] == target {
            let (i, j) = choose|i: int, j: int|
                0 <= i < votes.len() && votes[i].decoded is Ok
                    && votes[i].decoded->Ok_0.reference.author == a && 0 <= j
                    < votes[i].decoded->Ok_0.commit_votes@.len()
                    && #[trigger] votes[i].decoded->Ok_0.commit_votes@[j] == target;
            if i < n {
                assert(d[i] == votes[i]);
                assert(d[i].decoded->Ok_0.commit_votes@[j] == target);
            } else {
                assert(list.contains(target));
            }
        }
    }
}

/// Is everybody whom the commit names in the committee: its leader, the authors of
/// its headers and of its transactions, and those with a score?
pub open spec fn names_only(committee: Committee, c: Arc<Commit>) -> bool {
    let n = committee.stakes@.len();
    &&& c.leader.author < n
    &&& forall|i: int|
        0 <= i < c.block_headers@.len() ==> (#[trigger] c.block_headers@[i]).author < n
    &&& forall|i: int|
        0 <= i < c.committed_transactions@.len() ==> match #[trigger] c.committed_transactions@[i] {
            GenericTransactionRef::BlockRef(b) => b.author < n,
            GenericTransactionRef::TransactionRef(t) => t.author < n,
        }
    &&& forall|i: int|
        0 <= i < c.reputation_scores@.len() ==> (#[trigger] c.reputation_scores@[i]).0 < n
}

/// Everybody whom the commit names.
spec fn named_by(c: Arc<Commit>) -> Seq<AuthorityIndex> {
    named_authorities(*c)
}

/// A commit is checked for everybody whom it names, and the first stranger is the
/// error.
pub proof fn law_strangers_are_found(committee: Committee, peer: AuthorityIndex, c: Arc<Commit>)
    ensures
        first_invalid(committee, peer, named_authorities(*c)) is None <==> names_only(committee, c),
        match first_invalid(committee, peer, named_authorities(*c)) {
            None => true,
            Some(e) => match e {
                ConsensusError::InvalidAuthorityIndexRequested { index, max, peer: blamed } => {
                    &&& index >= committee.stakes@.len()
                    &&& max == committee.stakes@.len() as usize
                    &&& blamed == peer
                },
                _ => false,
            },
        },
{
    let named = named_by(c);
    let h = c.block_headers@;
    let t = c.committed_transactions@;
    let s = c.reputation_scores@;
    let n = committee.stakes@.len();
    lemma_first_invalid(committee, peer, named);
    assert(named.len() == 1 + h.len() + t.len() + s.len());
    assert(named[0] == c.leader.author);
    assert forall|i: int| 0 <= i < h.len() implies named[1 + i] == (#[trigger] h[i]).author by {}
    assert forall|i: int| 0 <= i < t.len() implies named[1 + h.len() + i] == (
    #[trigger] t[i]).spec_author() by {}
    assert forall|i: int| 0 <= i < s.len() implies named[1 + h.len() + t.len() + i] == (
    #[trigger] s[i]).0 by {}
    if names_only(committee, c) {
        assert forall|i: int| 0 <= i < named.len() implies #[trigger] named[i] < n by {
            if i == 0 {
            } else if i < 1 + h.len() {
                assert(h[i - 1].author < n);
            } else if i < 1 + h.len() + t.len() {
                assert(named[i] == t[i - 1 - h.len()].spec_author());
            } else {
                assert(s[i - 1 - h.len() - t.len()].0 < n);
            }
        }
    }
    if forall|i: int| 0 <= i < named.len() ==> #[trigger] named[i] < n {
        assert forall|i: int| 0 <= i < h.len() implies (#[trigger] h[i]).author < n by {
            assert(named[1 + i] < n);
        }
        assert forall|i: int| 0 <= i < t.len() implies match #[trigger] t[i] {
            GenericTransactionRef::BlockRef(b) => b.author < n,
            GenericTransactionRef::TransactionRef(q) => q.author < n,
        } by {
            assert(named[1 + h.len() + i] < n);
        }
        assert forall|i: int| 0 <= i < s.len() implies (#[trigger] s[i]).0 < n by {
            assert(named[1 + h.len() + t.len() + i] < n);
        }
        assert(named[0] < n);
    }
}

/// The first of these that is not of the committee is the error.
proof fn lemma_first_invalid(
    committee: Committee,
    peer: AuthorityIndex,
    named: Seq<AuthorityIndex>,
)
    ensures
        first_invalid(committee, peer, named) is None <==> forall|i: int|
            0 <= i < named.len() ==> #[trigger] named[i] < committee.stakes@.len(),
        match first_invalid(committee, peer, named) {
            None => true,
            Some(e) => exists|i: int|
                {
                    &&& 0 <= i < named.len()
                    &&& #[trigger] named[i] >= committee.stakes@.len()
                    &&& e == (ConsensusError::InvalidAuthorityIndexRequested {
                        index: named[i],
                        max: committee.stakes@.len() as usize,
                        peer,
                    })
                    &&& forall|j: int|
                        0 <= j < i ==> #[trigger] named[j] < committee.stakes@.len()
                },
        },
    decreases named.len(),
{
    let size = committee.stakes@.len();
    if named.len() > 0 {
        let d = named.drop_last();
        let n = named.len() - 1;
        lemma_first_invalid(committee, peer, d);
        match first_invalid(committee, peer, d) {
            Some(e) => {
                let i = choose|i: int|
                    {
                        &&& 0 <= i < d.len()
                        &&& #[trigger] d[i] >= size
                        &&& e == (ConsensusError::InvalidAuthorityIndexRequested {
                            index: d[i],
                            max: size as usize,
                            peer,
                        })
                        &&& forall|j: int| 0 <= j < i ==> #[trigger] d[j] < size
                    };
                assert(named[i] == d[i]);
                assert forall|j: int| 0 <= j < i implies #[trigger] named[j] < size by {
                    assert(d[j] == named[j]);
                }
            },
            None => {
                assert forall|j: int| 0 <= j < n implies #[trigger] named[j] < size by {
                    assert(d[j] == named[j]);
                }
                assert(named[n] == named.last());
            },
        }
    }
}

/// Is the commit in the layout in use, and does it name only the committee?
pub open spec fn is_sound(committee: Committee, starfish_speed: bool, c: Arc<Commit>) -> bool {
    &&& c.version == if starfish_speed {
        CommitVersion::V3
    } else {
        CommitVersion::V2
    }
    &&& names_only(committee, c)
}

/// What is wrong with a commit in a response: it cannot be decoded, it is in another
/// layout, it names strangers, or it does not follow on the one before it or start
/// where it was asked for.
pub proof fn law_commit_faults(
    committee: Committee,
    starfish_speed: bool,
    peer: AuthorityIndex,
    start: CommitIndex,
    messages: Seq<CommitMessage>,
    i: int,
)
    requires
        0 <= i < messages.len(),
        i > 0 ==> messages[i - 1].decoded is Ok,
    ensures
        ({
            let fault = commit_fault(committee, starfish_speed, peer, start, messages, i);
            match messages[i].decoded {
                Err(e) => fault == Some(ConsensusError::MalformedCommit(e)),
                Ok(c) => {
                    let follows = if i == 0 {
                        c.index == start
                    } else {
                        c.index == messages[i - 1].decoded->Ok_0.index + 1 && c.previous_digest
                            == messages[i - 1].digest
                    };
                    &&& fault is None <==> is_sound(committee, starfish_speed, c) && follows
                    &&& fault matches Some(e) ==> {
                        ||| e is WrongCommitVersionForFlags && c.version != if starfish_speed {
                            CommitVersion::V3
                        } else {
                            CommitVersion::V2
                        }
                        ||| e is InvalidAuthorityIndexRequested && !names_only(committee, c)
                        ||| i == 0 && !follows && e == (ConsensusError::UnexpectedStartCommit {
                            peer,
                            start,
                            commit: c,
                        })
                        ||| i > 0 && !follows && e == (ConsensusError::UnexpectedCommitSequence {
                            peer,
                            prev_commit: messages[i - 1].decoded->Ok_0,
                            curr_commit: c,
                        })
                    }
                },
            }
        }),
{
    if let Ok(c) = messages[i].decoded {
        law_strangers_are_found(committee, peer, c);
    }
}

/// Whoever sends a header that cannot be decoded is to blame for it; else its author
/// is, where it did not pass.
pub proof fn law_vote_faults(peer: AuthorityIndex, m: VoteMessage)
    ensures
        vote_fault(peer, m) is None <==> m.decoded is Ok && m.verdict is Ok,
        m.decoded is Err ==> vote_fault(peer, m)->Some_0.faulty_header_author == Some(peer),
        m.decoded is Ok && m.verdict is Err ==> vote_fault(peer, m)->Some_0.faulty_header_author
            == Some(m.decoded->Ok_0.reference.author) && vote_fault(peer, m)->Some_0.error
            == m.verdict->Err_0,
{
}

/// The authors of headers that have the commit among their votes.
pub open spec fn authors_voting_for(votes: Seq<VoteMessage>, target: CommitRef) -> Set<
    AuthorityIndex,
> {
    Set::new(
        |a: AuthorityIndex|
            exists|i: int|
                {
                    &&& 0 <= i < votes.len()
                    &&& (#[trigger] votes[i]).decoded matches Ok(h)
                    &&& h.reference.author == a
                    &&& h.commit_votes@.contains(target)
                },
    )
}

/// A response is accepted exactly where it is of a fair size, its commits are sound
/// and follow one another by index and digest from the start, all its headers pass,
/// and the stake of the authors who vote for the last commit makes a quorum.
pub proof fn law_which_responses_are_accepted(
    committee: Committee,
    starfish_speed: bool,
    peer: AuthorityIndex,
    start: CommitIndex,
    messages: Seq<CommitMessage>,
    votes: Seq<VoteMessage>,
    max_commits: int,
)
    ensures
        is_certified_chain(
            committee,
            starfish_speed,
            peer,
            start,
            messages,
            votes,
            max_commits,
        ) <==> {
            &&& 0 < messages.len() <= max_commits
            &&& votes.len() <= 2 * committee.stakes@.len()
            &&& forall|i: int|
                0 <= i < messages.len() ==> {
                    &&& (#[trigger] messages[i]).decoded matches Ok(c)
                    &&& is_sound(committee, starfish_speed, c)
                    &&& c.index == start + i
                }
            &&& forall|i: int, j: int|
                0 <= i < messages.len() && j == i + 1 && j < messages.len() ==> (
                #[trigger] messages[j]).decoded->Ok_0.previous_digest == (
                #[trigger] messages[i]).digest
            &&& forall|i: int|
                0 <= i < votes.len() ==> (#[trigger] votes[i]).decoded is Ok && votes[i].verdict is Ok
            &&& stake_of(
                committee.stakes@,
                authors_voting_for(
                    votes,
                    CommitRef {
                        index: messages.last().decoded->Ok_0.index,
                        digest: messages.last().digest,
                    },
                ),
            ) >= committee.quorum_threshold
        },
{
    let n = messages.len() as int;
    let target = CommitRef {
        index: messages.last().decoded->Ok_0.index,
        digest: messages.last().digest,
    };
    assert(voters(votes, target) =~= authors_voting_for(votes, target)) by {
        assert forall|a: AuthorityIndex|
            voters(votes, target).contains(a) <==> authors_voting_for(votes, target).contains(
                a,
            ) by {
            law_voters(votes, target, a);
            if voters(votes, target).contains(a) {
                let (i, j) = choose|i: int, j: int|
                    0 <= i < votes.len() && votes[i].decoded is Ok
                        && votes[i].decoded->Ok_0.reference.author == a && 0 <= j
                        < votes[i].decoded->Ok_0.commit_votes@.len()
                        && #[trigger] votes[i].decoded->Ok_0.commit_votes@[j] == target;
                assert(votes[i].decoded->Ok_0.commit_votes@.contains(target));
            }
            if authors_voting_for(votes, target).contains(a) {
                let i = choose|i: int|
                    {
                        &&& 0 <= i < votes.len()
                        &&& (#[trigger] votes[i]).decoded matches Ok(h)
                        &&& h.reference.author == a
                        &&& h.commit_votes@.contains(target)
                    };
                let list = votes[i].decoded->Ok_0.commit_votes@;
                let j = choose|j: int| 0 <= j < list.len() && list[j] == target;
                assert(votes[i].decoded->Ok_0.commit_votes@[j] == target);
            }
        }
    }
    assert forall|i: int| 0 <= i < votes.len() implies (vote_fault(
        peer,
        #[trigger] votes[i],
    ) is None <==> votes[i].decoded is Ok && votes[i].verdict is Ok) by {}
    if commits_fine(committee, starfish_speed, peer, start, messages, n) {
        assert forall|i: int| 0 <= i < n implies {
            &&& (#[trigger] messages[i]).decoded matches Ok(c)
            &&& is_sound(committee, starfish_speed, c)
            &&& c.index == start + i
        } by {
            lemma_fine_prefix(committee, starfish_speed, peer, start, messages, i);
        }
        assert forall|i: int, j: int| 0 <= i < n && j == i + 1 && j < n implies (
        #[trigger] messages[j]).decoded->Ok_0.previous_digest == (
        #[trigger] messages[i]).digest by {
            assert(messages[i].decoded is Ok);
            law_commit_faults(committee, starfish_speed, peer, start, messages, j);
            assert(commit_fault(committee, starfish_speed, peer, start, messages, j) is None);
        }
    }
    if (forall|i: int|
        0 <= i < n ==> {
            &&& (#[trigger] messages[i]).decoded matches Ok(c)
            &&& is_sound(committee, starfish_speed, c)
            &&& c.index == start + i
        }) && (forall|i: int, j: int|
        0 <= i < n && j == i + 1 && j < n ==> (
        #[trigger] messages[j]).decoded->Ok_0.previous_digest == (#[trigger] messages[i]).digest) {
        assert forall|i: int| 0 <= i < n implies (#[trigger] commit_fault(
            committee,
            starfish_speed,
            peer,
            start,
            messages,
            i,
        )) is None by {
            assert(messages[i].decoded is Ok);
            if i > 0 {
                assert(messages[i - 1].decoded is Ok);
            }
            law_commit_faults(committee, starfish_speed, peer, start, messages, i);
        }
    }
}

/// Commits that are fine are sound and counted on from the start.
proof fn lemma_fine_prefix(
    committee: Committee,
    starfish_speed: bool,
    peer: AuthorityIndex,
    start: CommitIndex,
    messages: Seq<CommitMessage>,
    i: int,
)
    requires
        0 <= i < messages.len(),
        commits_fine(committee, starfish_speed, peer, start, messages, messages.len() as int),
    ensures
        messages[i].decoded is Ok,
        is_sound(committee, starfish_speed, messages[i].decoded->Ok_0),
        messages[i].decoded->Ok_0.index == start + i,
    decreases i,
{
    if i > 0 {
        lemma_fine_prefix(committee, starfish_speed, peer, start, messages, i - 1);
    }
    law_commit_faults(committee, starfish_speed, peer, start, messages, i);
    assert(commit_fault(committee, starfish_speed, peer, start, messages, i) is None);
}

/// A response that is accepted is not rejected for any reason. One that lacks nothing
/// but votes is rejected with the stake of the votes that it has.
pub proof fn law_why_responses_are_rejected(
    committee: Committee,
    starfish_speed: bool,
    peer: AuthorityIndex,
    start: CommitIndex,
    messages: Seq<CommitMessage>,
    votes: Seq<VoteMessage>,
    max_commits: int,
    r: Rejection,
)
    requires
        is_rejection(
            committee,
            starfish_speed,
            peer,
            start,
            messages,
            votes,
            max_commits,
            r,
        ),
    ensures
        !is_certified_chain(
            committee,
            starfish_speed,
            peer,
            start,
            messages,
            votes,
            max_commits,
        ),
        messages.len() > max_commits ==> r.error is TooManyCommitsFromPeer,
        messages.len() <= max_commits && votes.len() > 2 * committee.stakes@.len()
            ==> r.error is TooManyCommitVoteHeaders,
        messages.len() == 0 && 0 <= max_commits && votes.len() <= 2 * committee.stakes@.len()
            ==> r.error == (ConsensusError::NoCommitReceived { peer }),
        messages.len() > 0 && messages.len() <= max_commits && votes.len() <= 2
            * committee.stakes@.len() && messages[0].decoded is Err ==> r.error is MalformedCommit,
        is_certified_chain(
            Committee { quorum_threshold: 0, ..committee },
            starfish_speed,
            peer,
            start,
            messages,
            votes,
            max_commits,
        ) ==> r.error == (ConsensusError::NotEnoughCommitVotes {
            stake: stake_of(
                committee.stakes@,
                voters(
                    votes,
                    CommitRef {
                        index: messages.last().decoded->Ok_0.index,
                        digest: messages.last().digest,
                    },
                ),
            ) as u64,
            peer,
            commit: messages.last().decoded->Ok_0,
        }),
{
    let lax = Committee { quorum_threshold: 0, ..committee };
    assert forall|i: int| 0 <= i < messages.len() implies commit_fault(
        committee,
        starfish_speed,
        peer,
        start,
        messages,
        i,
    ) == #[trigger] commit_fault(lax, starfish_speed, peer, start, messages, i) by {
        if let Ok(c) = messages[i].decoded {
            lemma_same_strangers(committee, lax, peer, named_by(c));
        }
    }
    if is_certified_chain(lax, starfish_speed, peer, start, messages, votes, max_commits) {
        assert forall|i: int| 0 <= i < messages.len() implies (#[trigger] commit_fault(
            committee,
            starfish_speed,
            peer,
            start,
            messages,
            i,
        )) is None by {
            assert(commit_fault(lax, starfish_speed, peer, start, messages, i) is None);
        }
    }
    if messages.len() > 0 && messages.len() <= max_commits && votes.len() <= 2
        * committee.stakes@.len() && messages[0].decoded is Err {
        assert(commit_fault(committee, starfish_speed, peer, start, messages, 0) is Some);
        let j = choose|j: int|
            {
                &&& 0 <= j < messages.len()
                &&& commits_fine(committee, starfish_speed, peer, start, messages, j)
                &&& Some(r.error) == #[trigger] commit_fault(
                    committee,
                    starfish_speed,
                    peer,
                    start,
                    messages,
                    j,
                )
                &&& r.faulty_header_author is None
            };
        if j > 0 {
            assert(commit_fault(committee, starfish_speed, peer, start, messages, 0) is None);
        }
    }
}

proof fn lemma_same_strangers(
    a: Committee,
    b: Committee,
    peer: AuthorityIndex,
    named: Seq<AuthorityIndex>,
)
    requires
        a.stakes == b.stakes,
    ensures
        first_invalid(a, peer, named) == first_invalid(b, peer, named),
    decreases named.len(),
{
    if named.len() > 0 {
        lemma_same_strangers(a, b, peer, named.drop_last());
    }
}

/// A header passes exactly where it is read and is the one that was asked for.
pub proof fn law_header_passes<F: Fn(Bytes) -> ConsensusResult<VerifiedBlockHeader>>(
    parse: &F,
    peer: AuthorityIndex,
    requested: BlockRef,
    bytes: Bytes,
    h: VerifiedBlockHeader,
    e: ConsensusError,
)
    ensures
        checked_header(parse, peer, requested, bytes, Ok(h)) <==> parse.ensures((bytes,), Ok(h))
            && h.reference == requested,
        checked_header(parse, peer, requested, bytes, Err(e)) ==> parse.ensures((bytes,), Err(e))
            || (e is UnexpectedBlockHeaderForCommit && exists|other: VerifiedBlockHeader|
            #[trigger] parse.ensures((bytes,), Ok(other)) && other.reference != requested),
{
    if checked_header(parse, peer, requested, bytes, Err(e)) {
        let parsed = choose|parsed: ConsensusResult<VerifiedBlockHeader>| #[trigger]
            parse.ensures((bytes,), parsed) && Err::<VerifiedBlockHeader, ConsensusError>(e)
                == match parsed {
                Ok(header) => if header.reference == requested {
                    Ok(header)
                } else {
                    Err(
                        ConsensusError::UnexpectedBlockHeaderForCommit {
                            peer,
                            requested,
                            received: header.reference,
                        },
                    )
                },
                Err(e) => Err(e),
            };
        if let Ok(other) = parsed {
            assert(parse.ensures((bytes,), Ok(other)));
        }
    }
}

/// Transactions pass exactly where they are named by their commitment, their author
/// is of the committee, they are not of genesis nor too large, they have the
/// commitment and can be decoded.
pub proof fn law_transactions_pass<F: Fn(Bytes) -> ConsensusResult<TransactionsCommitment>>(
    committee: Committee,
    peer: AuthorityIndex,
    size_limit: usize,
    commitment_of: &F,
    k: GenericTransactionRef,
    bytes: Bytes,
    v: VerifiedTransactions,
    e: ConsensusError,
)
    ensures
        checked_transactions(committee, peer, size_limit, commitment_of, k, bytes, Ok(v)) <==> {
            &&& k matches GenericTransactionRef::TransactionRef(t)
            &&& t.author < committee.stakes@.len()
            &&& t.round > 0
            &&& bytes@.len() <= size_limit
            &&& commitment_of.ensures((bytes,), Ok(t.transactions_commitment))
            &&& bcs_byte_lists(bytes@) == Some(contents(v.transactions@))
            &&& v.transaction_ref == t
            &&& v.block_digest is None
            &&& v.serialized == bytes
        },
        checked_transactions(committee, peer, size_limit, commitment_of, k, bytes, Err(e)) ==> {
            ||| k is BlockRef && e is TransactionRefVariantMismatch
            ||| k is TransactionRef && k->TransactionRef_0.author >= committee.stakes@.len()
                && e is InvalidAuthorityIndexRequested
            ||| k is TransactionRef && k->TransactionRef_0.round == 0
                && e is UnexpectedGenesisRequested
            ||| k is TransactionRef && bytes@.len() > size_limit
                && e is SerializedTransactionsTooLarge
            ||| k is TransactionRef && commitment_of.ensures((bytes,), Err(e))
            ||| k is TransactionRef && e is TransactionCommitmentFailure && exists|
                d: TransactionsCommitment,
            | #[trigger]
                commitment_of.ensures((bytes,), Ok(d)) && d
                    != k->TransactionRef_0.transactions_commitment
            ||| k is TransactionRef && e is MalformedTransactions && bcs_byte_lists(bytes@) is None
        },
{
}

/// The first byte of a number weighs most.
pub proof fn law_big_endian(b: u8, rest: Seq<u8>)
    ensures
        big_endian(Seq::empty()) == 0,
        big_endian(seq![b] + rest) == b * vstd::arithmetic::power::pow(256, rest.len())
            + big_endian(rest),
    decreases rest.len(),
{
    let s = seq![b] + rest;
    if rest.len() == 0 {
        vstd::arithmetic::power::lemma_pow0(256);
        reveal_with_fuel(big_endian, 2);
        assert(s.drop_last() =~= Seq::empty());
    } else {
        let d = rest.drop_last();
        law_big_endian(b, d);
        assert(s.drop_last() =~= seq![b] + d);
        assert(s.last() == rest.last());
        let p = vstd::arithmetic::power::pow(256, d.len());
        vstd::arithmetic::power::lemma_pow_adds(256, 1, d.len());
        vstd::arithmetic::power::lemma_pow1(256);
        assert((b * p + big_endian(d)) * 256 == b * (256 * p) + big_endian(d) * 256)
            by (nonlinear_arith);
    }
}

/// A message names its transactions by their round, their author and the commitment
/// whose halves are the halves of its bytes, and holds their payload.
pub proof fn law_messages(bytes: Seq<u8>)
    ensures
        message_of(bytes) is Some <==> bcs_transactions_message(bytes) is Some,
        message_of(bytes) matches Some((t, payload)) ==> {
            let m = bcs_transactions_message(bytes)->Some_0;
            &&& t.round == m.0
            &&& t.author == m.1
            &&& t.transactions_commitment.hi == big_endian(m.2.take(16)) as u128
            &&& t.transactions_commitment.lo == big_endian(m.2.subrange(16, 32)) as u128
            &&& payload == m.3
        },
{
    if let Some(m) = bcs_transactions_message(bytes) {
        assert(m.2.take(16) == m.2.subrange(0, 16));
    }
}

/// A trusted commit is the one that came in, with its digest and its bytes, and is
/// referred to by its index and its digest.
pub proof fn law_trusted_commit(m: CommitMessage, c: TrustedCommit)
    ensures
        is_trusted(m, c) <==> {
            &&& m.decoded matches Ok(commit)
            &&& commit == c.commit
            &&& c.digest == m.digest
            &&& c.serialized == m.serialized
        },
        c.spec_reference().index == c.commit.index,
        c.spec_reference().digest == c.digest,
{
}

/// Commits that came in go from the first of them to the last. Nothing can be handed on
/// exactly where each range kept starts behind the commit after the synced ones.
pub proof fn law_what_can_be_handed_on(
    commits: Seq<CertifiedCommit>,
    s: SyncView<Vec<CertifiedCommit>>,
)
    requires
        commits.len() > 0,
    ensures
        covered_range(commits).start == commits[0].commit.commit.index,
        covered_range(commits).end == commits[commits.len() - 1].commit.commit.index,
        s.is_blocked() <==> forall|r: CommitRange| #[trigger]
            s.fetched.dom().contains(r) ==> s.synced + 1 < r.start,
{
}

/// Each further pass over the authorities gives a request the base timeout more.
pub proof fn law_timeouts_grow(a: FetchLoop, b: FetchLoop)
    requires
        a.base_timeout_ms == b.base_timeout_ms,
        b.timeout_multiplier == a.timeout_multiplier + 1,
    ensures
        b.request_timeout() == a.request_timeout() + a.base_timeout_ms,
        a.timeout_multiplier == 0 ==> a.request_timeout() == 0,
{
    let x = a.base_timeout_ms as int;
    let n = a.timeout_multiplier as int;
    assert(x * (n + 1) == x * n + x) by (nonlinear_arith);
    vstd::arithmetic::mul::lemma_mul_basics(x);
}

/// The two ways of catching up, and the layouts of commits, are told apart by their
/// names.
pub proof fn law_names_differ(a: CommitSyncType, b: CommitSyncType, v: CommitVersion, w: CommitVersion)
    ensures
        a.spec_as_str()@ == b.spec_as_str()@ ==> a == b,
        version_name(v)@ == version_name(w)@ ==> v == w,
{
    reveal_strlit("fast_commit_sync");
    reveal_strlit("commit_sync");
    reveal_strlit("V1");
    reveal_strlit("V2");
    reveal_strlit("V3");
    assert("V1"@[1] == '1');
    assert("V2"@[1] == '2');
    assert("V3"@[1] == '3');
    assert("fast_commit_sync"@.len() == 16);
    assert("commit_sync"@.len() == 11);
}

} // verus!
