//! What a fetch over a wide gap brings, whatever the order in which it comes.
use vstd::prelude::*;

use crate::commit::{MisbehaviorTotals, TrustedCommit};
use crate::commit_syncer::fast::{
    covered_prefix, decoded_refs, due_transactions, is_covered, is_subdag,
    law_covered_prefix_is_longest, named_transactions, names_ref, output_range, payload_of,
    total_bytes, transactions_envelope, FastCommitSyncer, FastFetch, FastSyncOutput,
    FastSyncPauseSource, FastSyncView, PauseCounts,
};
use crate::commit_syncer::laws::is_message_of;
use crate::commit_syncer::regular::{all_transaction_refs, left, taken};
use crate::commit_syncer::verify::{checked_transactions, holds_transactions};
use crate::commit_syncer::wire::{bcs_transactions_message, contents, message_of};
use crate::committee::Committee;
use crate::error::{ConsensusError, ConsensusResult};
use crate::header::{Bytes, VerifiedTransactions};
use crate::refs::{
    AuthorityIndex, CommitIndex, CommitRange, GenericTransactionRef, TransactionRef,
    TransactionsCommitment,
};

verus! {

/// The references of transactions, in order.
pub open spec fn transaction_names(s: Seq<VerifiedTransactions>) -> Seq<GenericTransactionRef> {
    s.map_values(
        |v: VerifiedTransactions| GenericTransactionRef::TransactionRef(v.transaction_ref),
    )
}

/// Those of `refs` that are not among `before`, each where it stands first.
pub open spec fn first_named(
    refs: Seq<GenericTransactionRef>,
    before: Set<GenericTransactionRef>,
) -> Seq<GenericTransactionRef>
    decreases refs.len(),
{
    if refs.len() == 0 {
        Seq::empty()
    } else {
        let rest = first_named(refs.drop_last(), before);
        if before.contains(refs.last()) || refs.drop_last().contains(refs.last()) {
            rest
        } else {
            rest.push(refs.last())
        }
    }
}

proof fn lemma_all_new(refs: Seq<GenericTransactionRef>, before: Set<GenericTransactionRef>)
    requires
        refs.no_duplicates(),
        forall|i: int| 0 <= i < refs.len() ==> !before.contains(#[trigger] refs[i]),
    ensures
        first_named(refs, before) == refs,
    decreases refs.len(),
{
    if refs.len() > 0 {
        let d = refs.drop_last();
        assert forall|i: int| 0 <= i < d.len() implies !before.contains(#[trigger] d[i]) by {
            assert(d[i] == refs[i]);
        }
        lemma_all_new(d, before);
        assert(d.push(refs.last()) =~= refs);
    } else {
        assert(refs =~= Seq::empty());
    }
}

/// Where everything is there, what is taken is what is named for the first time.
proof fn lemma_taken_names(
    m: Map<GenericTransactionRef, VerifiedTransactions>,
    before: Seq<GenericTransactionRef>,
    refs: Seq<GenericTransactionRef>,
)
    requires
        forall|k: GenericTransactionRef| #[trigger]
            m.dom().contains(k) ==> k == GenericTransactionRef::TransactionRef(
                m[k].transaction_ref,
            ),
        forall|i: int| 0 <= i < refs.len() ==> m.dom().contains(#[trigger] refs[i]),
    ensures
        transaction_names(taken(left(m, before), refs)) == first_named(refs, before.to_set()),
    decreases refs.len(),
{
    if refs.len() > 0 {
        let d = refs.drop_last();
        let last = refs.last();
        assert forall|i: int| 0 <= i < d.len() implies m.dom().contains(#[trigger] d[i]) by {
            assert(d[i] == refs[i]);
        }
        lemma_taken_names(m, before, d);
        assert(m.dom().contains(refs[refs.len() - 1]));
        let rest = left(left(m, before), d);
        assert(d.contains(last) <==> d.to_set().contains(last));
        let t = taken(left(m, before), d);
        if rest.dom().contains(last) {
            assert(transaction_names(t.push(rest[last])) =~= transaction_names(t).push(last));
        }
    } else {
        assert(transaction_names(taken(left(m, before), refs)) =~= Seq::empty());
    }
}

/// The transactions of the first commits stand first among those of all.
proof fn lemma_refs_prefix(commits: Seq<TrustedCommit>, n: int)
    requires
        0 <= n <= commits.len(),
    ensures
        all_transaction_refs(commits.take(n)).len() <= all_transaction_refs(commits).len(),
        all_transaction_refs(commits).take(all_transaction_refs(commits.take(n)).len() as int)
            == all_transaction_refs(commits.take(n)),
    decreases commits.len() - n,
{
    let all = all_transaction_refs(commits);
    if n == commits.len() {
        assert(commits.take(n) =~= commits);
        assert(all.take(all.len() as int) =~= all);
    } else {
        lemma_refs_prefix(commits, n + 1);
        let a = all_transaction_refs(commits.take(n));
        let b = all_transaction_refs(commits.take(n + 1));
        assert(commits.take(n + 1).drop_last() =~= commits.take(n));
        assert(b.take(a.len() as int) =~= a);
        assert(all.take(a.len() as int) =~= all.take(b.len() as int).take(a.len() as int));
    }
}

/// What a commit names stands among what all name, behind what the earlier ones do.
proof fn lemma_refs_of_commit(commits: Seq<TrustedCommit>, i: int, j: int)
    requires
        0 <= i < commits.len(),
        0 <= j < commits[i].commit.committed_transactions@.len(),
    ensures
        ({
            let n = all_transaction_refs(commits.take(i)).len() + j;
            &&& n < all_transaction_refs(commits).len()
            &&& all_transaction_refs(commits)[n] == commits[i].commit.committed_transactions@[j]
        }),
{
    lemma_refs_prefix(commits, i + 1);
    let a = all_transaction_refs(commits.take(i));
    let b = all_transaction_refs(commits.take(i + 1));
    let all = all_transaction_refs(commits);
    assert(commits.take(i + 1).drop_last() =~= commits.take(i));
    assert(b[a.len() + j] == commits[i].commit.committed_transactions@[j]);
    assert(all.take(b.len() as int)[a.len() + j] == b[a.len() + j]);
}

/// The commits that the fetch keeps.
spec fn kept_commits(fetch: FastFetch) -> Seq<TrustedCommit> {
    if fetch.outstanding@ == Set::<TransactionRef>::empty() {
        fetch.commits@
    } else {
        fetch.commits@.take(covered_prefix(fetch.commits@, fetch.transactions@.dom()) as int)
    }
}

/// The transactions that the sub-DAGs are made of.
spec fn kept_transactions(fetch: FastFetch) -> Map<GenericTransactionRef, VerifiedTransactions> {
    if fetch.outstanding@ == Set::<TransactionRef>::empty() {
        fetch.transactions@
    } else {
        fetch.transactions@.restrict(
            fetch.transactions@.dom().intersect(named_transactions(kept_commits(fetch))),
        )
    }
}

/// Each sub-DAG holds all transactions of its commit, in the order in which the
/// commit names them; those that were named before are with the commit that named
/// them first.
pub proof fn law_subdags_are_complete(
    fetch: FastFetch,
    misbehavior_counts: MisbehaviorTotals,
    output: FastSyncOutput,
)
    requires
        fetch.wf(),
        fetch.finished(misbehavior_counts, Ok(output)),
        forall|i: int|
            0 <= i < all_transaction_refs(fetch.commits@).len() ==> #[trigger] all_transaction_refs(
                fetch.commits@,
            )[i] is TransactionRef,
    ensures
        output.committed_subdags@.len() == output.commits@.len(),
        forall|i: int|
            0 <= i < output.commits@.len() ==> transaction_names(
                (#[trigger] output.committed_subdags@[i]).transactions@,
            ) == first_named(
                output.commits@[i].commit.committed_transactions@,
                named_transactions(output.commits@.take(i)),
            ),
        all_transaction_refs(output.commits@).no_duplicates() ==> forall|i: int|
            0 <= i < output.commits@.len() ==> transaction_names(
                (#[trigger] output.committed_subdags@[i]).transactions@,
            ) == output.commits@[i].commit.committed_transactions@,
{
    let commits = fetch.commits@;
    let kept = kept_commits(fetch);
    let m = kept_transactions(fetch);
    law_covered_prefix_is_longest(commits, fetch.transactions@.dom());
    assert(output.commits@ == kept);
    assert forall|i: int| 0 <= i < kept.len() implies transaction_names(
        (#[trigger] output.committed_subdags@[i]).transactions@,
    ) == first_named(
        kept[i].commit.committed_transactions@,
        named_transactions(kept.take(i)),
    ) && (all_transaction_refs(kept).no_duplicates() ==> transaction_names(
        output.committed_subdags@[i].transactions@,
    ) == kept[i].commit.committed_transactions@) by {
        let refs = kept[i].commit.committed_transactions@;
        let before = all_transaction_refs(kept.take(i));
        assert(kept[i] == commits[i]);
        assert forall|j: int| 0 <= j < refs.len() implies m.dom().contains(#[trigger] refs[j]) by {
            lemma_refs_of_commit(commits, i, j);
            lemma_refs_of_commit(kept, i, j);
            let r = refs[j];
            assert(all_transaction_refs(commits).contains(r));
            assert(all_transaction_refs(kept).contains(r));
            assert(named_transactions(kept).contains(r));
            if fetch.outstanding@ == Set::<TransactionRef>::empty() {
                let t = r->TransactionRef_0;
                assert(due_transactions(commits).contains(t));
                assert(!fetch.outstanding@.contains(t));
                assert(fetch.has(t));
            } else {
                assert(is_covered(commits[i], fetch.transactions@.dom()));
                assert(fetch.transactions@.dom().contains(
                    commits[i].commit.committed_transactions@[j],
                ));
            }
        }
        assert forall|k: GenericTransactionRef| #[trigger] m.dom().contains(k) implies k
            == GenericTransactionRef::TransactionRef(m[k].transaction_ref) by {
            assert(fetch.transactions@.dom().contains(k));
        }
        lemma_taken_names(m, before, refs);
        assert(is_subdag(
            kept[i],
            taken(left(m, before), refs),
            misbehavior_counts,
            output.committed_subdags@[i],
        ));
        if all_transaction_refs(kept).no_duplicates() {
            let all = all_transaction_refs(kept);
            assert forall|x: int, y: int|
                0 <= x < refs.len() && 0 <= y < refs.len() && x != y implies refs[x]
                != refs[y] by {
                lemma_refs_of_commit(kept, i, x);
                lemma_refs_of_commit(kept, i, y);
            }
            assert forall|x: int| 0 <= x < refs.len() implies !before.to_set().contains(
                #[trigger] refs[x],
            ) by {
                lemma_refs_of_commit(kept, i, x);
                lemma_refs_prefix(kept, i);
                if before.contains(refs[x]) {
                    let y = choose|y: int| 0 <= y < before.len() && before[y] == refs[x];
                    assert(all.take(before.len() as int)[y] == all[y]);
                    assert(all[y] == all[before.len() + x]);
                }
            }
            lemma_all_new(refs, before.to_set());
        }
    }
}

/// Do the fetches follow from one another by taking in the chunks one after the
/// other, with no limit on their size?
pub open spec fn is_run<F: Fn(Bytes) -> ConsensusResult<TransactionsCommitment>>(
    committee: Committee,
    size_limit: usize,
    commitment_of: &F,
    chunks: Seq<Seq<Bytes>>,
    fetches: Seq<FastFetch>,
) -> bool {
    &&& fetches.len() == chunks.len() + 1
    &&& forall|i: int|
        0 <= i < chunks.len() ==> fetches[i].accepts(
            committee,
            size_limit,
            0,
            commitment_of,
            #[trigger] chunks[i],
            Ok((fetches[i + 1], false)),
        )
}

/// Does what the payloads commit to depend on their bytes alone?
pub open spec fn depends_on_bytes<F: Fn(Bytes) -> ConsensusResult<TransactionsCommitment>>(
    commitment_of: &F,
) -> bool {
    forall|
        a: Bytes,
        b: Bytes,
        c: ConsensusResult<TransactionsCommitment>,
        d: ConsensusResult<TransactionsCommitment>,
    |
        #![trigger commitment_of.ensures((a,), c), commitment_of.ensures((b,), d)]
        a@ == b@ && commitment_of.ensures((a,), c) && commitment_of.ensures((b,), d)
            ==> match c {
            Ok(x) => d == Ok::<TransactionsCommitment, ConsensusError>(x),
            Err(_) => d is Err,
        }
}

/// Are these the same chunks in another order, each from its place in the first one?
pub open spec fn is_reordering(
    chunks: Seq<Seq<Bytes>>,
    places: Seq<int>,
    reordered: Seq<Seq<Bytes>>,
) -> bool {
    &&& reordered.len() == chunks.len()
    &&& places.len() == chunks.len()
    &&& places.no_duplicates()
    &&& forall|i: int| 0 <= i < places.len() ==> 0 <= #[trigger] places[i] < chunks.len()
    &&& forall|i: int| 0 <= i < reordered.len() ==> #[trigger] reordered[i] == chunks[places[i]]
}

/// Are these the same transactions?
pub open spec fn are_same_transactions(a: VerifiedTransactions, b: VerifiedTransactions) -> bool {
    &&& contents(a.transactions@) == contents(b.transactions@)
    &&& a.transaction_ref == b.transaction_ref
    &&& a.block_digest == b.block_digest
    &&& a.serialized@ == b.serialized@
}

/// Is the transaction in one of the first `n` chunks?
spec fn is_brought(chunks: Seq<Seq<Bytes>>, n: int, t: TransactionRef) -> bool {
    exists|i: int| 0 <= i < n && decoded_refs(#[trigger] chunks[i]).contains(t)
}

/// Do the messages hold transactions that pass as those of `k` and give `v`?
spec fn gives<F: Fn(Bytes) -> ConsensusResult<TransactionsCommitment>>(
    committee: Committee,
    peer: AuthorityIndex,
    size_limit: usize,
    commitment_of: &F,
    messages: Seq<Bytes>,
    k: GenericTransactionRef,
    v: VerifiedTransactions,
) -> bool {
    exists|payload: Bytes| #[trigger]
        payload_of(messages, k, payload) && checked_transactions(
            committee,
            peer,
            size_limit,
            commitment_of,
            k,
            payload,
            Ok(v),
        )
}

/// A message that can be decoded is one of the decoded ones.
proof fn lemma_decoded(messages: Seq<Bytes>, i: int) -> (x: int)
    requires
        0 <= i < messages.len(),
        message_of(messages[i]@) is Some,
    ensures
        0 <= x < decoded_refs(messages).len(),
        decoded_refs(messages)[x] == message_of(messages[i]@)->Some_0.0,
        i == messages.len() - 1 ==> x == decoded_refs(messages).len() - 1,
        i < messages.len() - 1 ==> x < decoded_refs(messages.drop_last()).len(),
    decreases messages.len(),
{
    if i == messages.len() - 1 {
        decoded_refs(messages).len() - 1
    } else {
        let d = messages.drop_last();
        assert(d[i] == messages[i]);
        let x = lemma_decoded(d, i);
        assert(decoded_refs(messages)[x] == decoded_refs(d)[x]);
        x
    }
}

/// Where no transactions come twice, only one message is of each.
proof fn lemma_one_message(messages: Seq<Bytes>, i: int, j: int)
    requires
        decoded_refs(messages).no_duplicates(),
        0 <= i < messages.len(),
        0 <= j < messages.len(),
        message_of(messages[i]@) is Some,
        message_of(messages[j]@) is Some,
        message_of(messages[i]@)->Some_0.0 == message_of(messages[j]@)->Some_0.0,
    ensures
        i == j,
    decreases messages.len(),
{
    let d = messages.drop_last();
    let refs = decoded_refs(messages);
    let last = messages.len() - 1;
    if i < last && j < last {
        assert(decoded_refs(d).no_duplicates()) by {
            assert forall|x: int, y: int|
                0 <= x < decoded_refs(d).len() && 0 <= y < decoded_refs(d).len() && x
                    != y implies decoded_refs(d)[x] != decoded_refs(d)[y] by {
                assert(refs[x] == decoded_refs(d)[x]);
                assert(refs[y] == decoded_refs(d)[y]);
            }
        }
        assert(d[i] == messages[i] && d[j] == messages[j]);
        lemma_one_message(d, i, j);
    } else {
        let x = lemma_decoded(messages, i);
        let y = lemma_decoded(messages, j);
        assert(refs[x] == refs[y]);
        assert(x == y);
    }
}

/// Where no transactions come twice, what comes under a name is one payload.
proof fn lemma_one_payload(messages: Seq<Bytes>, k: GenericTransactionRef, a: Bytes, b: Bytes)
    requires
        decoded_refs(messages).no_duplicates(),
        payload_of(messages, k, a),
        payload_of(messages, k, b),
    ensures
        a@ == b@,
        names_ref(messages, k),
{
    let t = k->TransactionRef_0;
    let i = choose|i: int|
        0 <= i < messages.len() && message_of((#[trigger] messages[i])@) == Some((t, a@));
    let j = choose|j: int|
        0 <= j < messages.len() && message_of((#[trigger] messages[j])@) == Some((t, b@));
    lemma_one_message(messages, i, j);
    let x = lemma_decoded(messages, i);
}

/// What a run has come to after `n` chunks.
proof fn lemma_run<F: Fn(Bytes) -> ConsensusResult<TransactionsCommitment>>(
    committee: Committee,
    size_limit: usize,
    commitment_of: &F,
    chunks: Seq<Seq<Bytes>>,
    fetches: Seq<FastFetch>,
    n: int,
)
    requires
        is_run(committee, size_limit, commitment_of, chunks, fetches),
        0 <= n <= chunks.len(),
    ensures
        fetches[n].peer == fetches[0].peer,
        fetches[n].commits == fetches[0].commits,
        fetches[n].voting_block_headers == fetches[0].voting_block_headers,
        forall|t: TransactionRef| #[trigger]
            fetches[n].outstanding@.contains(t) <==> fetches[0].outstanding@.contains(t)
                && !is_brought(chunks, n, t),
        forall|k: GenericTransactionRef| #[trigger]
            fetches[n].transactions@.dom().contains(k) <==> fetches[0].transactions@.dom().contains(
                k,
            ) || (k is TransactionRef && is_brought(chunks, n, k->TransactionRef_0)),
        forall|k: GenericTransactionRef| #[trigger]
            fetches[n].transactions@.dom().contains(k) ==> if k is TransactionRef && is_brought(
                chunks,
                n,
                k->TransactionRef_0,
            ) {
                exists|i: int|
                    0 <= i < n && gives(
                        committee,
                        fetches[0].peer,
                        size_limit,
                        commitment_of,
                        #[trigger] chunks[i],
                        k,
                        fetches[n].transactions@[k],
                    )
            } else {
                fetches[n].transactions@[k] == fetches[0].transactions@[k]
            },
    decreases n,
{
    if n > 0 {
        lemma_run(committee, size_limit, commitment_of, chunks, fetches, n - 1);
        let was = fetches[n - 1];
        let now = fetches[n];
        let c = chunks[n - 1];
        let refs = decoded_refs(c);
        assert(was.accepts(committee, size_limit, 0, commitment_of, c, Ok((now, false))));
        assert forall|t: TransactionRef| #[trigger] is_brought(chunks, n, t) <==> is_brought(
            chunks,
            n - 1,
            t,
        ) || refs.contains(t) by {
            if is_brought(chunks, n, t) {
                let i = choose|i: int|
                    0 <= i < n && decoded_refs(#[trigger] chunks[i]).contains(t);
                assert(decoded_refs(chunks[i]).contains(t));
            }
        }
        assert forall|t: TransactionRef| #[trigger] now.outstanding@.contains(t) <==> fetches[
        0].outstanding@.contains(t) && !is_brought(chunks, n, t) by {
            assert(refs.contains(t) <==> refs.to_set().contains(t));
            assert(was.outstanding@.contains(t) <==> fetches[0].outstanding@.contains(t)
                && !is_brought(chunks, n - 1, t));
        }
        assert forall|k: GenericTransactionRef| #[trigger]
            now.transactions@.dom().contains(k) implies if k is TransactionRef && is_brought(
            chunks,
            n,
            k->TransactionRef_0,
        ) {
            exists|i: int|
                0 <= i < n && gives(
                    committee,
                    fetches[0].peer,
                    size_limit,
                    commitment_of,
                    #[trigger] chunks[i],
                    k,
                    now.transactions@[k],
                )
        } else {
            now.transactions@[k] == fetches[0].transactions@[k]
        } by {
            if names_ref(c, k) {
                assert(gives(
                    committee,
                    fetches[0].peer,
                    size_limit,
                    commitment_of,
                    chunks[n - 1],
                    k,
                    now.transactions@[k],
                ));
            } else {
                assert(was.transactions@.dom().contains(k));
                if k is TransactionRef && is_brought(chunks, n, k->TransactionRef_0) {
                    let i = choose|i: int|
                        0 <= i < n - 1 && gives(
                            committee,
                            fetches[0].peer,
                            size_limit,
                            commitment_of,
                            #[trigger] chunks[i],
                            k,
                            was.transactions@[k],
                        );
                    assert(gives(
                        committee,
                        fetches[0].peer,
                        size_limit,
                        commitment_of,
                        chunks[i],
                        k,
                        now.transactions@[k],
                    ));
                }
            }
        }
    }
}

/// No transactions come in two chunks of a run.
proof fn lemma_run_disjoint<F: Fn(Bytes) -> ConsensusResult<TransactionsCommitment>>(
    committee: Committee,
    size_limit: usize,
    commitment_of: &F,
    chunks: Seq<Seq<Bytes>>,
    fetches: Seq<FastFetch>,
    i: int,
    j: int,
    t: TransactionRef,
)
    requires
        is_run(committee, size_limit, commitment_of, chunks, fetches),
        0 <= i < chunks.len(),
        0 <= j < chunks.len(),
        decoded_refs(chunks[i]).contains(t),
        decoded_refs(chunks[j]).contains(t),
    ensures
        i == j,
        fetches[0].outstanding@.contains(t),
{
    lemma_run(committee, size_limit, commitment_of, chunks, fetches, i);
    lemma_run(committee, size_limit, commitment_of, chunks, fetches, j);
    let a = decoded_refs(chunks[i]);
    let b = decoded_refs(chunks[j]);
    assert(fetches[i].expects(chunks[i]));
    assert(fetches[j].expects(chunks[j]));
    let x = choose|x: int| 0 <= x < a.len() && a[x] == t;
    let y = choose|y: int| 0 <= y < b.len() && b[y] == t;
    assert(fetches[i].outstanding@.contains(a[x]));
    assert(fetches[j].outstanding@.contains(b[y]));
    if i < j {
        assert(is_brought(chunks, j, t));
    }
    if j < i {
        assert(is_brought(chunks, i, t));
    }
}

/// Where the chunks are taken in in one order, none of them is refused in another.
pub proof fn law_chunks_are_accepted_in_any_order<
    F: Fn(Bytes) -> ConsensusResult<TransactionsCommitment>,
>(
    committee: Committee,
    size_limit: usize,
    commitment_of: &F,
    chunks: Seq<Seq<Bytes>>,
    fetches: Seq<FastFetch>,
    places: Seq<int>,
    reordered: Seq<Seq<Bytes>>,
    others: Seq<FastFetch>,
    n: int,
    r: ConsensusResult<(FastFetch, bool)>,
)
    requires
        depends_on_bytes(commitment_of),
        is_run(committee, size_limit, commitment_of, chunks, fetches),
        is_reordering(chunks, places, reordered),
        0 <= n < reordered.len(),
        is_run(committee, size_limit, commitment_of, reordered.take(n), others),
        others[0] == fetches[0],
        others[n].accepts(committee, size_limit, 0, commitment_of, reordered[n], r),
    ensures
        r is Ok,
        !r->Ok_0.1,
{
    let c = reordered[n];
    let p = places[n];
    let refs = decoded_refs(c);
    let fetch = others[n];
    let first = reordered.take(n);
    lemma_run(committee, size_limit, commitment_of, chunks, fetches, p);
    lemma_run(committee, size_limit, commitment_of, first, others, n);
    assert(chunks[p] == c);
    assert(fetches[p].accepts(
        committee,
        size_limit,
        0,
        commitment_of,
        chunks[p],
        Ok((fetches[p + 1], false)),
    ));
    assert(fetch.expects(c)) by {
        assert forall|x: int| 0 <= x < refs.len() implies fetch.outstanding@.contains(
            #[trigger] refs[x],
        ) by {
            let t = refs[x];
            assert(refs.contains(t));
            lemma_run_disjoint(committee, size_limit, commitment_of, chunks, fetches, p, p, t);
            if is_brought(first, n, t) {
                let i = choose|i: int|
                    0 <= i < n && decoded_refs(#[trigger] first[i]).contains(t);
                assert(first[i] == reordered[i]);
                assert(reordered[i] == chunks[places[i]]);
                lemma_run_disjoint(
                    committee,
                    size_limit,
                    commitment_of,
                    chunks,
                    fetches,
                    places[i],
                    p,
                    t,
                );
                assert(places[i] == places[n]);
            }
        }
    }
    if let Err(e) = r {
        let (k, payload) = choose|k: GenericTransactionRef, payload: Bytes|
            #![trigger payload_of(c, k, payload)]
            payload_of(c, k, payload) && checked_transactions(
                committee,
                fetch.peer,
                size_limit,
                commitment_of,
                k,
                payload,
                Err(e),
            );
        lemma_one_payload(c, k, payload, payload);
        let v = fetches[p + 1].transactions@[k];
        assert(fetches[p + 1].transactions@.dom().contains(k));
        let passed = choose|passed: Bytes|
            #![trigger payload_of(c, k, passed)]
            payload_of(c, k, passed) && checked_transactions(
                committee,
                fetches[p].peer,
                size_limit,
                commitment_of,
                k,
                passed,
                Ok(v),
            );
        lemma_one_payload(c, k, payload, passed);
        assert(false);
    }
}

/// All places are taken.
proof fn lemma_each_place(chunks: Seq<Seq<Bytes>>, places: Seq<int>, reordered: Seq<Seq<Bytes>>, i: int)
    -> (j: int)
    requires
        is_reordering(chunks, places, reordered),
        0 <= i < chunks.len(),
    ensures
        0 <= j < reordered.len(),
        places[j] == i,
        reordered[j] == chunks[i],
{
    let n = chunks.len() as int;
    let all = vstd::set_lib::set_int_range(0, n);
    vstd::set_lib::lemma_int_range(0, n);
    vstd::seq_lib::seq_to_set_is_finite(places);
    places.unique_seq_to_set();
    assert(places.to_set().subset_of(all)) by {
        assert forall|x: int| places.to_set().contains(x) implies all.contains(x) by {
            let j = choose|j: int| 0 <= j < places.len() && places[j] == x;
            assert(0 <= places[j] < n);
        }
    }
    vstd::set_lib::lemma_subset_equality(places.to_set(), all);
    assert(places.to_set().contains(i));
    let j = choose|j: int| 0 <= j < places.len() && places[j] == i;
    assert(reordered[j] == chunks[places[j]]);
    j
}

/// What a payload gives under a name is fixed by its bytes.
proof fn lemma_same_gift<F: Fn(Bytes) -> ConsensusResult<TransactionsCommitment>>(
    committee: Committee,
    peer: AuthorityIndex,
    size_limit: usize,
    commitment_of: &F,
    messages: Seq<Bytes>,
    k: GenericTransactionRef,
    v: VerifiedTransactions,
    w: VerifiedTransactions,
)
    requires
        decoded_refs(messages).no_duplicates(),
        gives(committee, peer, size_limit, commitment_of, messages, k, v),
        gives(committee, peer, size_limit, commitment_of, messages, k, w),
    ensures
        are_same_transactions(v, w),
        names_ref(messages, k),
{
    let a = choose|payload: Bytes| #[trigger]
        payload_of(messages, k, payload) && checked_transactions(
            committee,
            peer,
            size_limit,
            commitment_of,
            k,
            payload,
            Ok(v),
        );
    let b = choose|payload: Bytes| #[trigger]
        payload_of(messages, k, payload) && checked_transactions(
            committee,
            peer,
            size_limit,
            commitment_of,
            k,
            payload,
            Ok(w),
        );
    lemma_one_payload(messages, k, a, b);
    let t = k->TransactionRef_0;
    assert(holds_transactions(v, t, a));
    assert(holds_transactions(w, t, b));
}

/// Do the maps hold the same transactions?
spec fn are_same_maps(
    a: Map<GenericTransactionRef, VerifiedTransactions>,
    b: Map<GenericTransactionRef, VerifiedTransactions>,
) -> bool {
    &&& a.dom() == b.dom()
    &&& forall|k: GenericTransactionRef| #[trigger]
        a.dom().contains(k) ==> are_same_transactions(a[k], b[k])
}

/// Are these the same transactions, in the same order?
pub open spec fn are_same_lists(
    a: Seq<VerifiedTransactions>,
    b: Seq<VerifiedTransactions>,
) -> bool {
    &&& a.len() == b.len()
    &&& forall|i: int| 0 <= i < a.len() ==> are_same_transactions(#[trigger] a[i], b[i])
}

proof fn lemma_same_taken(
    a: Map<GenericTransactionRef, VerifiedTransactions>,
    b: Map<GenericTransactionRef, VerifiedTransactions>,
    refs: Seq<GenericTransactionRef>,
)
    requires
        are_same_maps(a, b),
    ensures
        are_same_lists(taken(a, refs), taken(b, refs)),
    decreases refs.len(),
{
    if refs.len() > 0 {
        lemma_same_taken(a, b, refs.drop_last());
        assert(left(a, refs.drop_last()).dom() =~= left(b, refs.drop_last()).dom());
    }
}

/// The order in which the chunks come does not matter: a fetch that ends well in one
/// order ends well in another, with the same commits and, commit by commit, the
/// same transactions in the same order.
pub proof fn law_order_of_chunks_does_not_matter<
    F: Fn(Bytes) -> ConsensusResult<TransactionsCommitment>,
>(
    committee: Committee,
    size_limit: usize,
    commitment_of: &F,
    chunks: Seq<Seq<Bytes>>,
    fetches: Seq<FastFetch>,
    places: Seq<int>,
    reordered: Seq<Seq<Bytes>>,
    others: Seq<FastFetch>,
    misbehavior_counts: MisbehaviorTotals,
    output: FastSyncOutput,
    r: ConsensusResult<FastSyncOutput>,
)
    requires
        is_run(committee, size_limit, commitment_of, chunks, fetches),
        is_reordering(chunks, places, reordered),
        is_run(committee, size_limit, commitment_of, reordered, others),
        others[0] == fetches[0],
        fetches.last().finished(misbehavior_counts, Ok(output)),
        others.last().finished(misbehavior_counts, r),
    ensures
        r is Ok,
        r->Ok_0.commits@ == output.commits@,
        r->Ok_0.voting_block_headers == output.voting_block_headers,
        r->Ok_0.committed_subdags@.len() == output.committed_subdags@.len(),
        forall|i: int|
            0 <= i < output.committed_subdags@.len() ==> are_same_lists(
                (#[trigger] output.committed_subdags@[i]).transactions@,
                r->Ok_0.committed_subdags@[i].transactions@,
            ),
{
    let n = chunks.len() as int;
    let a = fetches[n];
    let b = others[n];
    let start = fetches[0];
    lemma_run(committee, size_limit, commitment_of, chunks, fetches, n);
    lemma_run(committee, size_limit, commitment_of, reordered, others, n);
    assert forall|t: TransactionRef| #[trigger] is_brought(chunks, n, t) <==> is_brought(
        reordered,
        n,
        t,
    ) by {
        if is_brought(chunks, n, t) {
            let i = choose|i: int| 0 <= i < n && decoded_refs(#[trigger] chunks[i]).contains(t);
            let j = lemma_each_place(chunks, places, reordered, i);
            assert(decoded_refs(reordered[j]).contains(t));
        }
        if is_brought(reordered, n, t) {
            let j = choose|j: int|
                0 <= j < n && decoded_refs(#[trigger] reordered[j]).contains(t);
            assert(0 <= places[j] < n);
            assert(decoded_refs(chunks[places[j]]).contains(t));
        }
    }
    assert(a.outstanding@ =~= b.outstanding@);
    assert(a.transactions@.dom() =~= b.transactions@.dom());
    assert forall|k: GenericTransactionRef| #[trigger]
        a.transactions@.dom().contains(k) implies are_same_transactions(
        a.transactions@[k],
        b.transactions@[k],
    ) by {
        assert(b.transactions@.dom().contains(k));
        if k is TransactionRef && is_brought(chunks, n, k->TransactionRef_0) {
            let t = k->TransactionRef_0;
            assert(is_brought(reordered, n, t));
            let v = a.transactions@[k];
            let w = b.transactions@[k];
            let i = choose|i: int|
                0 <= i < n && gives(
                    committee,
                    start.peer,
                    size_limit,
                    commitment_of,
                    #[trigger] chunks[i],
                    k,
                    v,
                );
            let j = choose|j: int|
                0 <= j < n && gives(
                    committee,
                    start.peer,
                    size_limit,
                    commitment_of,
                    #[trigger] reordered[j],
                    k,
                    w,
                );
            assert(reordered[j] == chunks[places[j]]);
            assert(0 <= places[j] < n);
            assert(fetches[i].expects(chunks[i]));
            assert(fetches[places[j]].expects(chunks[places[j]]));
            lemma_same_gift(committee, start.peer, size_limit, commitment_of, chunks[i], k, v, v);
            lemma_same_gift(
                committee,
                start.peer,
                size_limit,
                commitment_of,
                chunks[places[j]],
                k,
                w,
                w,
            );
            lemma_run_disjoint(
                committee,
                size_limit,
                commitment_of,
                chunks,
                fetches,
                i,
                places[j],
                t,
            );
            lemma_same_gift(committee, start.peer, size_limit, commitment_of, chunks[i], k, v, w);
        } else {
            assert(a.transactions@[k] == start.transactions@[k]);
            assert(b.transactions@[k] == start.transactions@[k]);
        }
    }
    assert(kept_commits(a) == kept_commits(b));
    assert(r is Ok);
    let other = r->Ok_0;
    let kept = kept_commits(a);
    let x = kept_transactions(a);
    let y = kept_transactions(b);
    assert(x.dom() =~= y.dom());
    assert(are_same_maps(x, y));
    law_covered_prefix_is_longest(a.commits@, a.transactions@.dom());
    assert forall|i: int| 0 <= i < output.committed_subdags@.len() implies are_same_lists(
        (#[trigger] output.committed_subdags@[i]).transactions@,
        other.committed_subdags@[i].transactions@,
    ) by {
        let before = all_transaction_refs(kept.take(i));
        let refs = kept[i].commit.committed_transactions@;
        assert(is_subdag(
            kept[i],
            taken(left(x, before), refs),
            misbehavior_counts,
            output.committed_subdags@[i],
        ));
        assert(is_subdag(
            kept[i],
            taken(left(y, before), refs),
            misbehavior_counts,
            other.committed_subdags@[i],
        ));
        assert(left(x, before).dom() =~= left(y, before).dom());
        assert(are_same_maps(left(x, before), left(y, before)));
        lemma_same_taken(left(x, before), left(y, before), refs);
    }
}

/// A step that was skipped is counted once under its own name, and under no other; a
/// step that was not is not counted.
pub proof fn law_pauses_are_counted(
    before: PauseCounts,
    after: PauseCounts,
    source: FastSyncPauseSource,
    paused: bool,
)
    requires
        after.follows(before, source, paused),
        before.regular_schedule < u64::MAX,
        before.regular_start_fetches < u64::MAX,
        before.header_command < u64::MAX,
        before.header_scheduler < u64::MAX,
    ensures
        after.regular_schedule - before.regular_schedule == if paused && source
            == FastSyncPauseSource::RegularSchedule {
            1int
        } else {
            0int
        },
        after.regular_start_fetches - before.regular_start_fetches == if paused && source
            == FastSyncPauseSource::RegularStartFetches {
            1int
        } else {
            0int
        },
        after.header_command - before.header_command == if paused && source
            == FastSyncPauseSource::HeaderCommand {
            1int
        } else {
            0int
        },
        after.header_scheduler - before.header_scheduler == if paused && source
            == FastSyncPauseSource::HeaderScheduler {
            1int
        } else {
            0int
        },
{
    assert(after.spec_get(FastSyncPauseSource::RegularSchedule) == after.regular_schedule);
    assert(after.spec_get(FastSyncPauseSource::RegularStartFetches)
        == after.regular_start_fetches);
    assert(after.spec_get(FastSyncPauseSource::HeaderCommand) == after.header_command);
    assert(after.spec_get(FastSyncPauseSource::HeaderScheduler) == after.header_scheduler);
}

/// The kept prefix goes up to the first commit that lacks any of its transactions.
pub proof fn law_prefix_ends_where_transactions_lack(
    commits: Seq<TrustedCommit>,
    have: Set<GenericTransactionRef>,
)
    ensures
        ({
            let n = covered_prefix(commits, have) as int;
            &&& n <= commits.len()
            &&& forall|i: int, j: int|
                0 <= i < n && 0 <= j < commits[i].commit.committed_transactions@.len()
                    ==> have.contains(#[trigger] commits[i].commit.committed_transactions@[j])
            &&& n < commits.len() ==> exists|j: int|
                0 <= j < commits[n].commit.committed_transactions@.len() && !have.contains(
                    #[trigger] commits[n].commit.committed_transactions@[j],
                )
        }),
{
    law_covered_prefix_is_longest(commits, have);
    let n = covered_prefix(commits, have) as int;
    assert forall|i: int, j: int|
        0 <= i < n && 0 <= j < commits[i].commit.committed_transactions@.len() implies have.contains(
        #[trigger] commits[i].commit.committed_transactions@[j],
    ) by {
        assert(is_covered(commits[i], have));
    }
}

/// What commits name is what any of them lists; what is due is what they name by its
/// commitment.
pub proof fn law_named_and_due(commits: Seq<TrustedCommit>, k: GenericTransactionRef)
    ensures
        named_transactions(commits).contains(k) <==> exists|i: int, j: int|
            0 <= i < commits.len() && 0 <= j < commits[i].commit.committed_transactions@.len()
                && #[trigger] commits[i].commit.committed_transactions@[j] == k,
        k matches GenericTransactionRef::TransactionRef(t) ==> (due_transactions(commits).contains(
            t,
        ) <==> named_transactions(commits).contains(k)),
{
    let all = all_transaction_refs(commits);
    if exists|i: int, j: int|
        0 <= i < commits.len() && 0 <= j < commits[i].commit.committed_transactions@.len()
            && #[trigger] commits[i].commit.committed_transactions@[j] == k {
        let (i, j) = choose|i: int, j: int|
            0 <= i < commits.len() && 0 <= j < commits[i].commit.committed_transactions@.len()
                && #[trigger] commits[i].commit.committed_transactions@[j] == k;
        lemma_refs_of_commit(commits, i, j);
        assert(all.contains(k));
    }
    if all.contains(k) {
        lemma_named_by_one(commits, k);
    }
}

proof fn lemma_named_by_one(commits: Seq<TrustedCommit>, k: GenericTransactionRef)
    requires
        all_transaction_refs(commits).contains(k),
    ensures
        exists|i: int, j: int|
            0 <= i < commits.len() && 0 <= j < commits[i].commit.committed_transactions@.len()
                && #[trigger] commits[i].commit.committed_transactions@[j] == k,
    decreases commits.len(),
{
    let d = commits.drop_last();
    let a = all_transaction_refs(d);
    let b = commits.last().commit.committed_transactions@;
    let z = choose|z: int| 0 <= z < (a + b).len() && (a + b)[z] == k;
    if z < a.len() {
        assert(a[z] == k);
        lemma_named_by_one(d, k);
        let (i, j) = choose|i: int, j: int|
            0 <= i < d.len() && 0 <= j < d[i].commit.committed_transactions@.len()
                && #[trigger] d[i].commit.committed_transactions@[j] == k;
        assert(commits[i].commit.committed_transactions@[j] == k);
    } else {
        assert(commits[commits.len() - 1].commit.committed_transactions@[z - a.len()] == k);
    }
}

/// Honest commits name at most four rounds of the whole committee each, and those of
/// the rounds that they reach back.
pub proof fn law_envelope(committee_size: int, num_commits: int, gc_depth: int)
    ensures
        transactions_envelope(committee_size, num_commits, gc_depth) == 4 * (committee_size
            * num_commits) + committee_size * gc_depth,
{
    assert(committee_size * (4 * num_commits + gc_depth) == 4 * (committee_size * num_commits)
        + committee_size * gc_depth) by (nonlinear_arith);
}

/// Messages are counted and decoded one by one.
pub proof fn law_messages_one_by_one(a: Seq<Bytes>, b: Seq<Bytes>, m: Bytes)
    ensures
        total_bytes(a + b) == total_bytes(a) + total_bytes(b),
        total_bytes(seq![m]) == m@.len(),
        decoded_refs(a + b) == decoded_refs(a) + decoded_refs(b),
        decoded_refs(seq![m]) == match message_of(m@) {
            Some((t, _)) => seq![t],
            None => Seq::empty(),
        },
    decreases b.len(),
{
    reveal_with_fuel(total_bytes, 2);
    reveal_with_fuel(decoded_refs, 2);
    assert(seq![m].drop_last() =~= Seq::empty());
    assert(decoded_refs(seq![m]) =~= match message_of(m@) {
        Some((t, _)) => seq![t],
        None => Seq::empty(),
    });
    if b.len() == 0 {
        assert(a + b =~= a);
        assert(decoded_refs(a) + decoded_refs(b) =~= decoded_refs(a));
    } else {
        law_messages_one_by_one(a, b.drop_last(), m);
        assert((a + b).drop_last() =~= a + b.drop_last());
        assert((a + b).last() == b.last());
        assert(decoded_refs(a + b) =~= decoded_refs(a) + decoded_refs(b));
    }
}

/// Once data has come in and less than a batch is missing to the quorum, exactly what
/// is missing is scheduled, once.
pub proof fn law_approach_quorum(v: FastSyncView, quorum: CommitIndex, step: u32)
    requires
        step > 0,
    ensures
        ({
            let after = v.approach_quorum(quorum, step);
            let done = v.ranges.fetch_after();
            let close = v.has_fetched_data && !v.close_to_quorum && quorum < done + step;
            &&& after.has_fetched_data == v.has_fetched_data
            &&& after.ranges.fetched == v.ranges.fetched
            &&& after.ranges.synced == v.ranges.synced
            &&& after.ranges.highest_fetched == v.ranges.highest_fetched
            &&& !close ==> after == v
            &&& close ==> after.close_to_quorum
            &&& close && quorum > done ==> after.ranges.highest_scheduled == Some(quorum)
                && forall|r: CommitRange| #[trigger]
                after.ranges.pending.contains(r) <==> v.ranges.pending.contains(r) || (r.start
                    == done + 1 && r.end == quorum)
            &&& close && quorum <= done ==> after.ranges == v.ranges
        }),
{
    let after = v.approach_quorum(quorum, step);
    let done = v.ranges.fetch_after();
    if v.has_fetched_data && !v.close_to_quorum && quorum < done + step && quorum > done {
        assert forall|r: CommitRange| #[trigger]
            after.ranges.pending.contains(r) <==> v.ranges.pending.contains(r) || (r.start == done
                + 1 && r.end == quorum) by {
            if r.start == done + 1 && r.end == quorum {
                assert(r == CommitRange { start: (done + 1) as CommitIndex, end: quorum });
            }
        }
    }
}

/// Fast synchronization is in charge exactly where it has begun to bring data, or is
/// enabled and the quorum is more than the threshold ahead.
pub proof fn law_when_fast_synchronization_schedules(
    s: FastCommitSyncer,
    quorum: CommitIndex,
    last_solid: CommitIndex,
)
    ensures
        s.may_schedule(quorum, last_solid) <==> s.has_fetched_data || (
        s.parameters.enable_fast_commit_syncer && quorum > last_solid
            + s.parameters.commit_sync_gap_threshold),
{
}

/// What came in goes from the first commit of its sub-DAGs to the last.
pub proof fn law_output_range(output: FastSyncOutput)
    requires
        output.committed_subdags@.len() > 0,
    ensures
        output_range(output).start == output.committed_subdags@[0].base.commit_ref.index,
        output_range(output).end == output.committed_subdags@[output.committed_subdags@.len()
            - 1].base.commit_ref.index,
{
}

/// A chunk is taken in only where each message that can be decoded brings transactions
/// that are outstanding. Then they are there, and no longer outstanding; nothing else
/// changes but the bytes counted. The fetch stops exactly where a limit is set, it is
/// reached, and the first commit has all its transactions.
pub proof fn law_what_a_chunk_brings<F: Fn(Bytes) -> ConsensusResult<TransactionsCommitment>>(
    fetch: FastFetch,
    committee: Committee,
    size_limit: usize,
    max_fetch_bytes: usize,
    commitment_of: &F,
    messages: Seq<Bytes>,
    after: FastFetch,
    stop: bool,
    t: TransactionRef,
)
    requires
        fetch.wf(),
        fetch.accepts(
            committee,
            size_limit,
            max_fetch_bytes,
            commitment_of,
            messages,
            Ok((after, stop)),
        ),
    ensures
        ({
            let k = GenericTransactionRef::TransactionRef(t);
            let brought = exists|i: int|
                0 <= i < messages.len() && is_message_of(#[trigger] messages[i], k);
            &&& brought ==> fetch.outstanding@.contains(t)
            &&& after.outstanding@.contains(t) <==> fetch.outstanding@.contains(t) && !brought
            &&& after.transactions@.dom().contains(k) <==> fetch.transactions@.dom().contains(k)
                || brought
            &&& after.transactions@.dom().contains(k) && !brought ==> after.transactions@[k]
                == fetch.transactions@[k]
            &&& brought ==> exists|i: int|
                {
                    &&& 0 <= i < messages.len()
                    &&& is_message_of(#[trigger] messages[i], k)
                    &&& after.transactions@[k].serialized@ == bcs_transactions_message(
                        messages[i]@,
                    )->Some_0.3
                }
            &&& brought ==> after.transactions@[k].transaction_ref == t && after.transactions@[k].serialized@.len()
                <= size_limit && t.author < committee.stakes@.len() && t.round > 0
        }),
        after.commits == fetch.commits,
        after.peer == fetch.peer,
        after.voting_block_headers == fetch.voting_block_headers,
        after.received_bytes == fetch.received_bytes + total_bytes(messages),
        stop <==> max_fetch_bytes > 0 && fetch.received_bytes + total_bytes(messages)
            >= max_fetch_bytes && (fetch.commits@.len() > 0 ==> forall|j: int|
            0 <= j < fetch.commits@[0].commit.committed_transactions@.len()
                ==> after.transactions@.dom().contains(
                #[trigger] fetch.commits@[0].commit.committed_transactions@[j],
            )),
{
    let k = GenericTransactionRef::TransactionRef(t);
    let refs = decoded_refs(messages);
    let brought = exists|i: int|
        0 <= i < messages.len() && is_message_of(#[trigger] messages[i], k);
    assert(refs.contains(t) <==> refs.to_set().contains(t));
    assert(refs.contains(t) <==> brought) by {
        lemma_decoded_names(messages, t);
        if brought {
            let i = choose|i: int|
                0 <= i < messages.len() && is_message_of(#[trigger] messages[i], k);
            assert(message_of(messages[i]@)->Some_0.0 == t);
            let x = lemma_decoded(messages, i);
            assert(refs[x] == t);
        }
    }
    assert(names_ref(messages, k) <==> brought);
    if brought {
        let x = choose|x: int| 0 <= x < refs.len() && refs[x] == t;
        assert(fetch.outstanding@.contains(refs[x]));
        assert(after.transactions@.dom().contains(k));
        let payload = choose|payload: Bytes|
            #![trigger payload_of(messages, k, payload)]
            payload_of(messages, k, payload) && checked_transactions(
                committee,
                fetch.peer,
                size_limit,
                commitment_of,
                k,
                payload,
                Ok(after.transactions@[k]),
            );
        assert(holds_transactions(after.transactions@[k], t, payload));
        let i = choose|i: int|
            0 <= i < messages.len() && message_of((#[trigger] messages[i])@) == Some(
                (t, payload@),
            );
        assert(is_message_of(messages[i], k));
    }
}

proof fn lemma_decoded_names(messages: Seq<Bytes>, t: TransactionRef)
    ensures
        decoded_refs(messages).contains(t) ==> exists|i: int|
            0 <= i < messages.len() && is_message_of(
                #[trigger] messages[i],
                GenericTransactionRef::TransactionRef(t),
            ),
    decreases messages.len(),
{
    let k = GenericTransactionRef::TransactionRef(t);
    if decoded_refs(messages).contains(t) {
        let refs = decoded_refs(messages);
        let x = choose|x: int| 0 <= x < refs.len() && refs[x] == t;
        let d = messages.drop_last();
        if x < decoded_refs(d).len() {
            assert(decoded_refs(d)[x] == t);
            lemma_decoded_names(d, t);
            let i = choose|i: int| 0 <= i < d.len() && is_message_of(#[trigger] d[i], k);
            assert(is_message_of(messages[i], k));
        } else {
            assert(is_message_of(messages[messages.len() - 1], k));
        }
    }
}

/// A fetch ends with the commits up to the first one that lacks transactions, and with
/// a sub-DAG for each that says what the commit says. It fails only where the first
/// commit lacks some already.
pub proof fn law_how_a_fetch_ends(
    fetch: FastFetch,
    misbehavior_counts: MisbehaviorTotals,
    r: ConsensusResult<FastSyncOutput>,
)
    requires
        fetch.wf(),
        fetch.finished(misbehavior_counts, r),
        forall|i: int|
            0 <= i < all_transaction_refs(fetch.commits@).len() ==> #[trigger] all_transaction_refs(
                fetch.commits@,
            )[i] is TransactionRef,
    ensures
        match r {
            Ok(output) => {
                let n = output.commits@.len() as int;
                &&& n <= fetch.commits@.len()
                &&& output.commits@ == fetch.commits@.take(n)
                &&& output.committed_subdags@.len() == n
                &&& output.voting_block_headers == fetch.voting_block_headers
                &&& n < fetch.commits@.len() ==> n > 0 && exists|j: int|
                    0 <= j < fetch.commits@[n].commit.committed_transactions@.len()
                        && !fetch.transactions@.dom().contains(
                        #[trigger] fetch.commits@[n].commit.committed_transactions@[j],
                    )
                &&& forall|i: int, j: int|
                    0 <= i < n && 0 <= j < fetch.commits@[i].commit.committed_transactions@.len()
                        ==> fetch.transactions@.dom().contains(
                        #[trigger] fetch.commits@[i].commit.committed_transactions@[j],
                    )
                &&& forall|i: int|
                    0 <= i < n ==> {
                        let base = (#[trigger] output.committed_subdags@[i]).base;
                        let c = fetch.commits@[i];
                        &&& base.leader == c.commit.leader
                        &&& base.headers@.len() == 0
                        &&& base.committed_header_refs@ == c.commit.block_headers@
                        &&& base.timestamp_ms == c.commit.timestamp_ms
                        &&& base.commit_ref.index == c.commit.index
                        &&& base.commit_ref.digest == c.digest
                        &&& base.reputation_scores_desc@ == c.commit.reputation_scores@
                        &&& output.committed_subdags@[i].misbehavior_counts == misbehavior_counts
                    }
            },
            Err(e) => {
                &&& e is FetchedTransactionsMismatch
                &&& fetch.commits@.len() > 0
                &&& exists|j: int|
                    0 <= j < fetch.commits@[0].commit.committed_transactions@.len()
                        && !fetch.transactions@.dom().contains(
                        #[trigger] fetch.commits@[0].commit.committed_transactions@[j],
                    )
            },
        },
{
    let commits = fetch.commits@;
    let have = fetch.transactions@.dom();
    let complete = fetch.outstanding@ == Set::<TransactionRef>::empty();
    law_prefix_ends_where_transactions_lack(commits, have);
    if complete {
        assert(commits.take(commits.len() as int) =~= commits);
        assert forall|i: int, j: int|
            0 <= i < commits.len() && 0 <= j < commits[i].commit.committed_transactions@.len() implies have.contains(
            #[trigger] commits[i].commit.committed_transactions@[j],
        ) by {
            lemma_refs_of_commit(commits, i, j);
            let k = commits[i].commit.committed_transactions@[j];
            let t = k->TransactionRef_0;
            assert(all_transaction_refs(commits).contains(k));
            assert(due_transactions(commits).contains(t));
            assert(!fetch.outstanding@.contains(t));
            assert(fetch.has(t));
        }
    } else if commits.len() == 0 {
        assert forall|t: TransactionRef| !fetch.outstanding@.contains(t) by {
            if fetch.outstanding@.contains(t) {
                assert(due_transactions(commits).contains(t));
            }
        }
        assert(fetch.outstanding@ =~= Set::<TransactionRef>::empty());
    }
    if let Ok(output) = r {
        let kept = kept_commits(fetch);
        assert(output.commits@ == kept);
        assert forall|i: int| 0 <= i < kept.len() implies {
            let base = (#[trigger] output.committed_subdags@[i]).base;
            let c = commits[i];
            &&& base.leader == c.commit.leader
            &&& base.headers@.len() == 0
            &&& base.committed_header_refs@ == c.commit.block_headers@
            &&& base.timestamp_ms == c.commit.timestamp_ms
            &&& base.commit_ref.index == c.commit.index
            &&& base.commit_ref.digest == c.digest
            &&& base.reputation_scores_desc@ == c.commit.reputation_scores@
            &&& output.committed_subdags@[i].misbehavior_counts == misbehavior_counts
        } by {
            assert(kept[i] == commits[i]);
        }
    }
}

/// A chunk is refused where a message brings transactions that are not outstanding, or
/// brings them a second time, and the error names those. Else it is refused where
/// transactions do not pass, and for no other reason.
pub proof fn law_why_a_chunk_is_refused<F: Fn(Bytes) -> ConsensusResult<TransactionsCommitment>>(
    fetch: FastFetch,
    committee: Committee,
    size_limit: usize,
    max_fetch_bytes: usize,
    commitment_of: &F,
    messages: Seq<Bytes>,
    e: ConsensusError,
)
    requires
        fetch.accepts(
            committee,
            size_limit,
            max_fetch_bytes,
            commitment_of,
            messages,
            Err(e),
        ),
    ensures
        ({
            ||| exists|j: int, t: TransactionRef|
                {
                    &&& 0 <= j < messages.len()
                    &&& #[trigger] is_message_of(
                        messages[j],
                        GenericTransactionRef::TransactionRef(t),
                    )
                    &&& !fetch.outstanding@.contains(t) || exists|i: int|
                        0 <= i < j && is_message_of(
                            #[trigger] messages[i],
                            GenericTransactionRef::TransactionRef(t),
                        )
                    &&& e == (ConsensusError::UnexpectedTransactionForCommit {
                        peer: fetch.peer,
                        received: GenericTransactionRef::TransactionRef(t),
                    })
                }
            ||| exists|j: int, t: TransactionRef, payload: Bytes|
                {
                    &&& 0 <= j < messages.len()
                    &&& #[trigger] is_message_of(
                        messages[j],
                        GenericTransactionRef::TransactionRef(t),
                    )
                    &&& payload@ == bcs_transactions_message(messages[j]@)->Some_0.3
                    &&& #[trigger] checked_transactions(
                        committee,
                        fetch.peer,
                        size_limit,
                        commitment_of,
                        GenericTransactionRef::TransactionRef(t),
                        payload,
                        Err(e),
                    )
                }
        }),
{
    if !fetch.expects(messages) {
        let j = choose|j: int|
            {
                &&& 0 <= j < messages.len()
                &&& fetch.expects(messages.take(j))
                &&& match message_of((#[trigger] messages[j])@) {
                    Some((t, _)) => {
                        &&& !fetch.outstanding@.contains(t) || decoded_refs(
                            messages.take(j),
                        ).contains(t)
                        &&& e == (ConsensusError::UnexpectedTransactionForCommit {
                            peer: fetch.peer,
                            received: GenericTransactionRef::TransactionRef(t),
                        })
                    },
                    None => false,
                }
            };
        let t = message_of(messages[j]@)->Some_0.0;
        let k = GenericTransactionRef::TransactionRef(t);
        assert(is_message_of(messages[j], k));
        if fetch.outstanding@.contains(t) {
            lemma_decoded_names(messages.take(j), t);
            let i = choose|i: int|
                0 <= i < messages.take(j).len() && is_message_of(
                    #[trigger] messages.take(j)[i],
                    k,
                );
            assert(is_message_of(messages[i], k));
        }
    } else {
        let (k, payload) = choose|k: GenericTransactionRef, payload: Bytes|
            #![trigger payload_of(messages, k, payload)]
            payload_of(messages, k, payload) && checked_transactions(
                committee,
                fetch.peer,
                size_limit,
                commitment_of,
                k,
                payload,
                Err(e),
            );
        let t = k->TransactionRef_0;
        let j = choose|j: int|
            0 <= j < messages.len() && message_of((#[trigger] messages[j])@) == Some(
                (t, payload@),
            );
        assert(is_message_of(messages[j], GenericTransactionRef::TransactionRef(t)));
    }
}

/// The steps that can be skipped are told apart by their names.
pub proof fn law_pause_names_differ(a: FastSyncPauseSource, b: FastSyncPauseSource)
    ensures
        a.spec_as_str()@ == b.spec_as_str()@ ==> a == b,
{
    reveal_strlit("regular_schedule");
    reveal_strlit("regular_start_fetches");
    reveal_strlit("header_command");
    reveal_strlit("header_scheduler");
    assert("regular_schedule"@[0] == 'r');
    assert("header_scheduler"@[0] == 'h');
    assert("regular_schedule"@.len() == 16);
    assert("regular_start_fetches"@.len() == 21);
    assert("header_command"@.len() == 14);
    assert("header_scheduler"@.len() == 16);
}

} // verus!
