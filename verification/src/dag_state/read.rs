//! Looking things up: in memory first, then, through what the caller hands in,
//! in storage.
use vstd::prelude::*;

use crate::dag_state::state::DagState;
use crate::header::{share, Bytes, VerifiedBlock, VerifiedBlockHeader, VerifiedTransactions};
use crate::refs::{
    BlockRef, CommitmentKey, Digest, GenericTransactionRef, Key, TransactionRef,
    TransactionsCommitment, lemma_triple_rank, GENESIS_ROUND,
};

verus! {

/// Is `out` the commitment that a look-up of the header at `r` gives, with these
/// headers in memory? Genesis has none to speak of.
pub open spec fn found_commitment<F: Fn(BlockRef) -> Option<VerifiedBlockHeader>>(
    headers: Map<BlockRef, VerifiedBlockHeader>,
    read: &F,
    r: BlockRef,
    out: Option<TransactionsCommitment>,
) -> bool {
    if r.round == GENESIS_ROUND {
        out is None
    } else if headers.dom().contains(r) {
        out == Some(headers[r].transactions_commitment)
    } else {
        exists|h: Option<VerifiedBlockHeader>| #[trigger]
            read.ensures((r,), h) && out == match h {
                Some(h) => Some(h.transactions_commitment),
                None => None,
            }
    }
}

impl DagState {
    /// The header at `r`, as far as memory tells.
    pub open spec fn cached_header(self, r: BlockRef) -> Option<VerifiedBlockHeader> {
        if r.round == GENESIS_ROUND {
            if self.genesis@.dom().contains(r) {
                Some(self.genesis@[r].verified_block_header)
            } else {
                None
            }
        } else if self@.headers.dom().contains(r) {
            Some(self@.headers[r])
        } else {
            None
        }
    }

    /// Is `out` what a look-up of the header at `r` gives? Genesis headers and
    /// headers in memory are found there; for others storage is asked.
    pub open spec fn found_header<F: Fn(BlockRef) -> Option<VerifiedBlockHeader>>(
        self,
        read: &F,
        r: BlockRef,
        out: Option<VerifiedBlockHeader>,
    ) -> bool {
        if r.round == GENESIS_ROUND || self@.headers.dom().contains(r) {
            out == self.cached_header(r)
        } else {
            read.ensures((r,), out)
        }
    }

    fn get_cached_block_header(&self, r: &BlockRef) -> (out: Option<VerifiedBlockHeader>)
        requires
            self.wf(),
        ensures
            out == self.cached_header(*r),
    {
        if r.round == GENESIS_ROUND {
            match self.genesis.get(r) {
                Some(block) => Some(share(&block.verified_block_header)),
                None => None,
            }
        } else {
            match self.recent_block_headers.get(r) {
                Some(header) => Some(share(header)),
                None => None,
            }
        }
    }

    /// Gets a header from genesis, from memory, or else from storage.
    pub fn get_verified_block_header<F: Fn(BlockRef) -> Option<VerifiedBlockHeader>>(
        &self,
        reference: &BlockRef,
        read: &F,
    ) -> (out: Option<VerifiedBlockHeader>)
        requires
            self.wf(),
            read.requires((*reference,)),
        ensures
            self.found_header(read, *reference, out),
    {
        let cached = self.get_cached_block_header(reference);
        if reference.round == GENESIS_ROUND || cached.is_some() {
            cached
        } else {
            read(*reference)
        }
    }

    /// Gets headers from genesis, from memory, or else from storage. An element
    /// is `None` where no header was found.
    pub fn get_verified_block_headers<F: Fn(BlockRef) -> Option<VerifiedBlockHeader>>(
        &self,
        block_refs: &[BlockRef],
        read: &F,
    ) -> (out: Vec<Option<VerifiedBlockHeader>>)
        requires
            self.wf(),
            forall|r: BlockRef| #[trigger] read.requires((r,)),
        ensures
            out@.len() == block_refs@.len(),
            forall|i: int|
                0 <= i < out@.len() ==> self.found_header(read, block_refs@[i], #[trigger] out@[i]),
    {
        let mut out: Vec<Option<VerifiedBlockHeader>> = Vec::new();
        let mut i: usize = 0;
        while i < block_refs.len()
            invariant
                self.wf(),
                forall|r: BlockRef| #[trigger] read.requires((r,)),
                i <= block_refs@.len(),
                out@.len() == i,
                forall|k: int|
                    0 <= k < i ==> self.found_header(read, block_refs@[k], #[trigger] out@[k]),
            decreases block_refs@.len() - i,
        {
            out.push(self.get_verified_block_header(&block_refs[i], read));
            i = i + 1;
        }
        out
    }

    /// Gets headers from genesis or from memory; storage is not asked.
    pub fn get_cached_block_headers(&self, block_refs: &[BlockRef]) -> (out: Vec<
        Option<VerifiedBlockHeader>,
    >)
        requires
            self.wf(),
        ensures
            out@ == block_refs@.map_values(|r: BlockRef| self.cached_header(r)),
    {
        let mut out: Vec<Option<VerifiedBlockHeader>> = Vec::new();
        let mut i: usize = 0;
        while i < block_refs.len()
            invariant
                self.wf(),
                i <= block_refs@.len(),
                out@.len() == i,
                forall|k: int|
                    0 <= k < i ==> #[trigger] out@[k] == self.cached_header(block_refs@[k]),
            decreases block_refs@.len() - i,
        {
            out.push(self.get_cached_block_header(&block_refs[i]));
            i = i + 1;
        }
        assert(out@ =~= block_refs@.map_values(|r: BlockRef| self.cached_header(r)));
        out
    }

    /// Is `out` what a look-up of the serialized header at `r` gives?
    pub open spec fn found_serialized_header<F: Fn(BlockRef) -> Option<Bytes>>(
        self,
        read: &F,
        r: BlockRef,
        out: Option<Bytes>,
    ) -> bool {
        match self.cached_header(r) {
            Some(h) => out == Some(h.serialized),
            None => if r.round == GENESIS_ROUND {
                out is None
            } else {
                read.ensures((r,), out)
            },
        }
    }

    /// Gets serialized headers from genesis, from memory, or else from storage.
    pub fn get_serialized_block_headers<F: Fn(BlockRef) -> Option<Bytes>>(
        &self,
        block_refs: &[BlockRef],
        read: &F,
    ) -> (out: Vec<Option<Bytes>>)
        requires
            self.wf(),
            forall|r: BlockRef| #[trigger] read.requires((r,)),
        ensures
            out@.len() == block_refs@.len(),
            forall|i: int|
                0 <= i < out@.len() ==> self.found_serialized_header(
                    read,
                    block_refs@[i],
                    #[trigger] out@[i],
                ),
    {
        let mut out: Vec<Option<Bytes>> = Vec::new();
        let mut i: usize = 0;
        while i < block_refs.len()
            invariant
                self.wf(),
                forall|r: BlockRef| #[trigger] read.requires((r,)),
                i <= block_refs@.len(),
                out@.len() == i,
                forall|k: int|
                    0 <= k < i ==> self.found_serialized_header(
                        read,
                        block_refs@[k],
                        #[trigger] out@[k],
                    ),
            decreases block_refs@.len() - i,
        {
            let r = block_refs[i];
            let found = match self.get_cached_block_header(&r) {
                Some(header) => Some(share(&header.serialized)),
                None => if r.round == GENESIS_ROUND {
                    None
                } else {
                    read(r)
                },
            };
            out.push(found);
            i = i + 1;
        }
        out
    }

    /// Gets the transactions commitments of headers that are in memory or in
    /// storage. An element is `None` where no header was found, and for genesis.
    pub fn get_transactions_commitments_batch<F: Fn(BlockRef) -> Option<VerifiedBlockHeader>>(
        &self,
        block_refs: &[BlockRef],
        read: &F,
    ) -> (out: Vec<Option<TransactionsCommitment>>)
        requires
            self.wf(),
            forall|r: BlockRef| #[trigger] read.requires((r,)),
        ensures
            out@.len() == block_refs@.len(),
            forall|i: int|
                0 <= i < out@.len() ==> found_commitment(
                    self@.headers,
                    read,
                    block_refs@[i],
                    #[trigger] out@[i],
                ),
    {
        let mut out: Vec<Option<TransactionsCommitment>> = Vec::new();
        let mut i: usize = 0;
        while i < block_refs.len()
            invariant
                self.wf(),
                forall|r: BlockRef| #[trigger] read.requires((r,)),
                i <= block_refs@.len(),
                out@.len() == i,
                forall|k: int|
                    0 <= k < i ==> found_commitment(
                        self@.headers,
                        read,
                        block_refs@[k],
                        #[trigger] out@[k],
                    ),
            decreases block_refs@.len() - i,
        {
            let r = block_refs[i];
            let found = if r.round == GENESIS_ROUND {
                None
            } else {
                let header = self.get_verified_block_header(&r, read);
                assert(self.found_header(read, r, header));
                match header {
                    Some(header) => Some(header.transactions_commitment),
                    None => None,
                }
            };
            assert(found_commitment(self@.headers, read, r, found));
            out.push(found);
            i = i + 1;
        }
        out
    }

    /// The genesis block with these transactions.
    pub open spec fn genesis_of(self, t: TransactionRef) -> Option<VerifiedBlock> {
        if t.round == GENESIS_ROUND && self.config.committee.is_valid_index(t.author)
            && self.genesis.entries@[t.author as int].1.verified_block_header.transactions_commitment
            == t.transactions_commitment {
            Some(self.genesis.entries@[t.author as int].1)
        } else {
            None
        }
    }

    /// Finds the genesis block with the given transactions.
    pub fn find_genesis_by_transaction_ref(&self, tx_ref: &TransactionRef) -> (out: Option<
        &VerifiedBlock,
    >)
        requires
            self.wf(),
        ensures
            match out {
                Some(b) => self.genesis_of(*tx_ref) == Some(*b),
                None => self.genesis_of(*tx_ref) is None,
            },
    {
        let first = BlockRef::new(tx_ref.round, tx_ref.author, Digest::min());
        let i: usize = self.genesis.lower_bound(&first);
        proof {
            if tx_ref.round == GENESIS_ROUND {
                assert forall|j: int| 0 <= j < self.genesis.entries@.len() implies (
                #[trigger] self.genesis.entries@[j]).0.rank() < first.rank() <==> j
                    < tx_ref.author by {
                    let k = self.genesis.entries@[j].0;
                    lemma_triple_rank(
                        k.round,
                        k.author,
                        k.digest,
                        first.round,
                        first.author,
                        first.digest,
                    );
                }
            }
        }
        if i < self.genesis.entries.len() {
            let entry = &self.genesis.entries[i];
            if entry.0.round == tx_ref.round && entry.0.author == tx_ref.author
                && entry.1.verified_block_header.transactions_commitment
                == tx_ref.transactions_commitment {
                return Some(&entry.1);
            }
        }
        None
    }

    /// The genesis block that `k` names.
    pub open spec fn genesis_named(self, k: GenericTransactionRef) -> Option<VerifiedBlock> {
        match k {
            GenericTransactionRef::BlockRef(b) => if self.genesis@.dom().contains(b) {
                Some(self.genesis@[b])
            } else {
                None
            },
            GenericTransactionRef::TransactionRef(t) => self.genesis_of(t),
        }
    }

    /// Finds the genesis block that a reference names.
    pub fn get_genesis_block(&self, tx_ref: GenericTransactionRef) -> (out: Option<&VerifiedBlock>)
        requires
            self.wf(),
        ensures
            match out {
                Some(b) => self.genesis_named(tx_ref) == Some(*b),
                None => self.genesis_named(tx_ref) is None,
            },
    {
        match tx_ref {
            GenericTransactionRef::BlockRef(block_ref) => self.genesis.get(&block_ref),
            GenericTransactionRef::TransactionRef(tx_ref) => self.find_genesis_by_transaction_ref(
                &tx_ref,
            ),
        }
    }

    /// Can `k` be looked up? Its author has to be in the committee.
    pub open spec fn can_look_up(self, k: GenericTransactionRef) -> bool {
        k.spec_round() == GENESIS_ROUND || self.config.committee.is_valid_index(k.spec_author())
    }

    /// The transactions that `k` names, as far as memory tells.
    pub open spec fn cached_transactions(self, k: GenericTransactionRef) -> Option<
        VerifiedTransactions,
    > {
        if k.spec_round() == GENESIS_ROUND {
            match self.genesis_named(k) {
                Some(b) => Some(b.verified_transactions),
                None => None,
            }
        } else if self@.has_transactions(k) {
            Some(self@.transactions[k.spec_author() as int][k])
        } else {
            None
        }
    }

    fn get_cached_transactions(&self, k: &GenericTransactionRef) -> (out: Option<
        VerifiedTransactions,
    >)
        requires
            self.wf(),
            self.can_look_up(*k),
        ensures
            out == self.cached_transactions(*k),
    {
        if k.round() == GENESIS_ROUND {
            match self.get_genesis_block(*k) {
                Some(block) => Some(share(&block.verified_transactions)),
                None => None,
            }
        } else {
            match self.recent_transactions_by_authority[k.author() as usize].get(k) {
                Some(t) => Some(share(t)),
                None => None,
            }
        }
    }

    /// Is `out` what a look-up of the transactions that `k` names gives?
    pub open spec fn found_transactions<
        F: Fn(GenericTransactionRef) -> Option<VerifiedTransactions>,
    >(self, read: &F, k: GenericTransactionRef, out: Option<VerifiedTransactions>) -> bool {
        if k.spec_round() == GENESIS_ROUND || self@.has_transactions(k) {
            out == self.cached_transactions(k)
        } else {
            read.ensures((k,), out)
        }
    }

    /// Gets transactions from genesis, from memory, or else from storage. An
    /// element is `None` where none were found.
    pub fn get_verified_transactions<
        F: Fn(GenericTransactionRef) -> Option<VerifiedTransactions>,
    >(&self, transactions_refs: &[GenericTransactionRef], read: &F) -> (out: Vec<
        Option<VerifiedTransactions>,
    >)
        requires
            self.wf(),
            forall|i: int|
                0 <= i < transactions_refs@.len() ==> self.can_look_up(
                    #[trigger] transactions_refs@[i],
                ),
            forall|k: GenericTransactionRef| #[trigger] read.requires((k,)),
        ensures
            out@.len() == transactions_refs@.len(),
            forall|i: int|
                0 <= i < out@.len() ==> self.found_transactions(
                    read,
                    transactions_refs@[i],
                    #[trigger] out@[i],
                ),
    {
        let mut out: Vec<Option<VerifiedTransactions>> = Vec::new();
        let mut i: usize = 0;
        while i < transactions_refs.len()
            invariant
                self.wf(),
                forall|j: int|
                    0 <= j < transactions_refs@.len() ==> self.can_look_up(
                        #[trigger] transactions_refs@[j],
                    ),
                forall|k: GenericTransactionRef| #[trigger] read.requires((k,)),
                i <= transactions_refs@.len(),
                out@.len() == i,
                forall|j: int|
                    0 <= j < i ==> self.found_transactions(
                        read,
                        transactions_refs@[j],
                        #[trigger] out@[j],
                    ),
            decreases transactions_refs@.len() - i,
        {
            let k = transactions_refs[i];
            let cached = self.get_cached_transactions(&k);
            let found = if k.round() == GENESIS_ROUND || cached.is_some() {
                cached
            } else {
                read(k)
            };
            assert(self.found_transactions(read, k, found));
            out.push(found);
            i = i + 1;
        }
        out
    }

    /// Gets all of the transactions, or else the references of those that were
    /// not found, in the order asked for.
    pub fn try_get_all_verified_transactions<
        F: Fn(GenericTransactionRef) -> Option<VerifiedTransactions>,
    >(&self, tx_refs: &[GenericTransactionRef], read: &F) -> (out: Result<
        Vec<VerifiedTransactions>,
        Vec<GenericTransactionRef>,
    >)
        requires
            self.wf(),
            forall|i: int|
                0 <= i < tx_refs@.len() ==> self.can_look_up(#[trigger] tx_refs@[i]),
            forall|k: GenericTransactionRef| #[trigger] read.requires((k,)),
        ensures
            exists|found: Seq<Option<VerifiedTransactions>>|
                {
                    &&& found.len() == tx_refs@.len()
                    &&& forall|i: int|
                        0 <= i < found.len() ==> self.found_transactions(
                            read,
                            tx_refs@[i],
                            #[trigger] found[i],
                        )
                    &&& #[trigger] all_or_missing(tx_refs@, found) == match out {
                        Ok(v) => Ok(v@),
                        Err(v) => Err(v@),
                    }
                },
    {
        let results = self.get_verified_transactions(tx_refs, read);
        let mut all: Vec<VerifiedTransactions> = Vec::new();
        let mut missing: Vec<GenericTransactionRef> = Vec::new();
        let mut i: usize = 0;
        assert(results@.take(0) =~= Seq::empty());
        while i < tx_refs.len()
            invariant
                i <= tx_refs@.len(),
                results@.len() == tx_refs@.len(),
                missing@ == missing_refs(tx_refs@.take(i as int), results@.take(i as int)),
                missing@.len() == 0 ==> all@ == present(results@.take(i as int)),
            decreases tx_refs@.len() - i,
        {
            proof {
                let a = tx_refs@.take(i as int);
                let b = results@.take(i as int);
                assert(tx_refs@.take(i + 1).drop_last() =~= a);
                assert(results@.take(i + 1).drop_last() =~= b);
            }
            match &results[i] {
                Some(t) => all.push(share(t)),
                None => missing.push(tx_refs[i]),
            }
            i = i + 1;
        }
        proof {
            assert(tx_refs@.take(i as int) =~= tx_refs@);
            assert(results@.take(i as int) =~= results@);
            assert forall|j: int| 0 <= j < results@.len() implies self.found_transactions(
                read,
                tx_refs@[j],
                #[trigger] results@[j],
            ) by {}
        }
        if missing.len() == 0 {
            let out = Ok(all);
            assert(all_or_missing(tx_refs@, results@) == Ok::<
                Seq<VerifiedTransactions>,
                Seq<GenericTransactionRef>,
            >(all@));
            out
        } else {
            assert(all_or_missing(tx_refs@, results@) == Err::<
                Seq<VerifiedTransactions>,
                Seq<GenericTransactionRef>,
            >(missing@));
            Err(missing)
        }
    }

    /// Is `out` what a look-up of the serialized transactions gives?
    pub open spec fn found_serialized_transactions<F: Fn(GenericTransactionRef) -> Option<Bytes>>(
        self,
        read: &F,
        k: GenericTransactionRef,
        out: Option<Bytes>,
    ) -> bool {
        match self.cached_transactions(k) {
            Some(t) => out == Some(t.serialized),
            None => if k.spec_round() == GENESIS_ROUND {
                out is None
            } else {
                read.ensures((k,), out)
            },
        }
    }

    /// Gets serialized transactions from genesis, from memory, or else from
    /// storage.
    pub fn get_serialized_transactions<F: Fn(GenericTransactionRef) -> Option<Bytes>>(
        &self,
        transactions_refs: &[GenericTransactionRef],
        read: &F,
    ) -> (out: Vec<Option<Bytes>>)
        requires
            self.wf(),
            forall|i: int|
                0 <= i < transactions_refs@.len() ==> self.can_look_up(
                    #[trigger] transactions_refs@[i],
                ),
            forall|k: GenericTransactionRef| #[trigger] read.requires((k,)),
        ensures
            out@.len() == transactions_refs@.len(),
            forall|i: int|
                0 <= i < out@.len() ==> self.found_serialized_transactions(
                    read,
                    transactions_refs@[i],
                    #[trigger] out@[i],
                ),
    {
        let mut out: Vec<Option<Bytes>> = Vec::new();
        let mut i: usize = 0;
        while i < transactions_refs.len()
            invariant
                self.wf(),
                forall|j: int|
                    0 <= j < transactions_refs@.len() ==> self.can_look_up(
                        #[trigger] transactions_refs@[j],
                    ),
                forall|k: GenericTransactionRef| #[trigger] read.requires((k,)),
                i <= transactions_refs@.len(),
                out@.len() == i,
                forall|j: int|
                    0 <= j < i ==> self.found_serialized_transactions(
                        read,
                        transactions_refs@[j],
                        #[trigger] out@[j],
                    ),
            decreases transactions_refs@.len() - i,
        {
            let k = transactions_refs[i];
            let found = match self.get_cached_transactions(&k) {
                Some(t) => Some(share(&t.serialized)),
                None => if k.round() == GENESIS_ROUND {
                    None
                } else {
                    read(k)
                },
            };
            assert(self.found_serialized_transactions(read, k, found));
            out.push(found);
            i = i + 1;
        }
        out
    }

    /// Is `out` what is known of whether there are transactions named by `k`?
    pub open spec fn known_transactions<F: Fn(GenericTransactionRef) -> bool>(
        self,
        contains: &F,
        k: GenericTransactionRef,
        out: bool,
    ) -> bool {
        if k.spec_round() == GENESIS_ROUND {
            out == (self.genesis_named(k) is Some)
        } else if self@.has_transactions(k) {
            out
        } else {
            contains.ensures((k,), out)
        }
    }

    /// Checks which transactions are in memory or else in storage.
    pub fn contains_transactions<F: Fn(GenericTransactionRef) -> bool>(
        &self,
        transaction_refs: &[GenericTransactionRef],
        contains: &F,
    ) -> (out: Vec<bool>)
        requires
            self.wf(),
            forall|i: int|
                0 <= i < transaction_refs@.len() ==> self.can_look_up(
                    #[trigger] transaction_refs@[i],
                ),
            forall|k: GenericTransactionRef| #[trigger] contains.requires((k,)),
        ensures
            out@.len() == transaction_refs@.len(),
            forall|i: int|
                0 <= i < out@.len() ==> self.known_transactions(
                    contains,
                    transaction_refs@[i],
                    #[trigger] out@[i],
                ),
    {
        let mut out: Vec<bool> = Vec::new();
        let mut i: usize = 0;
        while i < transaction_refs.len()
            invariant
                self.wf(),
                forall|j: int|
                    0 <= j < transaction_refs@.len() ==> self.can_look_up(
                        #[trigger] transaction_refs@[j],
                    ),
                forall|k: GenericTransactionRef| #[trigger] contains.requires((k,)),
                i <= transaction_refs@.len(),
                out@.len() == i,
                forall|j: int|
                    0 <= j < i ==> self.known_transactions(
                        contains,
                        transaction_refs@[j],
                        #[trigger] out@[j],
                    ),
            decreases transaction_refs@.len() - i,
        {
            let k = transaction_refs[i];
            let found = if k.round() == GENESIS_ROUND {
                self.get_genesis_block(k).is_some()
            } else if self.recent_transactions_by_authority[k.author() as usize].contains_key(&k) {
                true
            } else {
                contains(k)
            };
            assert(self.known_transactions(contains, k, found));
            out.push(found);
            i = i + 1;
        }
        out
    }

    /// Resolves a transaction reference to that of a header.
    pub fn resolve_block_ref(&self, tx_ref: &TransactionRef) -> (out: Option<BlockRef>)
        requires
            self.wf(),
            self.config.committee.is_valid_index(tx_ref.author),
        ensures
            out == self@.resolve(*tx_ref),
    {
        let key = CommitmentKey {
            round: tx_ref.round,
            transactions_commitment: tx_ref.transactions_commitment,
        };
        match self.tx_ref_to_block_digest_by_authority[tx_ref.author as usize].get(&key) {
            Some(digest) => Some(BlockRef::new(tx_ref.round, tx_ref.author, *digest)),
            None => None,
        }
    }

    /// The header with these transactions, as far as memory tells.
    pub open spec fn cached_header_of(self, t: TransactionRef) -> Option<VerifiedBlockHeader> {
        if t.round == GENESIS_ROUND {
            match self.genesis_of(t) {
                Some(b) => Some(b.verified_block_header),
                None => None,
            }
        } else {
            match self@.resolve(t) {
                Some(r) => if self@.headers.dom().contains(r) {
                    Some(self@.headers[r])
                } else {
                    None
                },
                None => None,
            }
        }
    }

    fn get_cached_header_of(&self, t: &TransactionRef) -> (out: Option<VerifiedBlockHeader>)
        requires
            self.wf(),
            self.can_look_up(GenericTransactionRef::TransactionRef(*t)),
        ensures
            out == self.cached_header_of(*t),
    {
        if t.round == GENESIS_ROUND {
            match self.find_genesis_by_transaction_ref(t) {
                Some(block) => Some(share(&block.verified_block_header)),
                None => None,
            }
        } else {
            match self.resolve_block_ref(t) {
                Some(r) => match self.recent_block_headers.get(&r) {
                    Some(header) => Some(share(header)),
                    None => None,
                },
                None => None,
            }
        }
    }

    /// Gets the headers with the given transactions, as far as they are in
    /// memory.
    pub fn get_cached_block_headers_for_transaction_refs(&self, tx_refs: &[TransactionRef]) -> (out:
        Vec<Option<VerifiedBlockHeader>>)
        requires
            self.wf(),
            forall|i: int|
                0 <= i < tx_refs@.len() ==> self.can_look_up(
                    GenericTransactionRef::TransactionRef(#[trigger] tx_refs@[i]),
                ),
        ensures
            out@ == tx_refs@.map_values(|t: TransactionRef| self.cached_header_of(t)),
    {
        let mut out: Vec<Option<VerifiedBlockHeader>> = Vec::new();
        let mut i: usize = 0;
        while i < tx_refs.len()
            invariant
                self.wf(),
                forall|j: int|
                    0 <= j < tx_refs@.len() ==> self.can_look_up(
                        GenericTransactionRef::TransactionRef(#[trigger] tx_refs@[j]),
                    ),
                i <= tx_refs@.len(),
                out@.len() == i,
                forall|j: int|
                    0 <= j < i ==> #[trigger] out@[j] == self.cached_header_of(tx_refs@[j]),
            decreases tx_refs@.len() - i,
        {
            out.push(self.get_cached_header_of(&tx_refs[i]));
            i = i + 1;
        }
        assert(out@ =~= tx_refs@.map_values(|t: TransactionRef| self.cached_header_of(t)));
        out
    }

    /// Is `out` what is known of whether there is a header with these
    /// transactions? Storage is asked only where memory still tells the
    /// header's digest.
    pub open spec fn known_header_of<F: Fn(BlockRef) -> bool>(
        self,
        contains: &F,
        t: TransactionRef,
        out: bool,
    ) -> bool {
        if self.cached_header_of(t) is Some {
            out
        } else if !self.config.committee.is_valid_index(t.author) {
            !out
        } else {
            match self@.resolve(t) {
                Some(r) => contains.ensures((r,), out),
                None => !out,
            }
        }
    }

    /// Checks for which transactions there is a header, in memory or else in
    /// storage.
    pub fn contains_verified_block_headers_for_transaction_refs<F: Fn(BlockRef) -> bool>(
        &self,
        tx_refs: &[TransactionRef],
        contains: &F,
    ) -> (out: Vec<bool>)
        requires
            self.wf(),
            forall|i: int|
                0 <= i < tx_refs@.len() ==> self.config.committee.is_valid_index(
                    (#[trigger] tx_refs@[i]).author,
                ),
            forall|r: BlockRef| #[trigger] contains.requires((r,)),
        ensures
            out@.len() == tx_refs@.len(),
            forall|i: int|
                0 <= i < out@.len() ==> self.known_header_of(
                    contains,
                    tx_refs@[i],
                    #[trigger] out@[i],
                ),
    {
        let mut out: Vec<bool> = Vec::new();
        let mut i: usize = 0;
        while i < tx_refs.len()
            invariant
                self.wf(),
                forall|j: int|
                    0 <= j < tx_refs@.len() ==> self.config.committee.is_valid_index(
                        (#[trigger] tx_refs@[j]).author,
                    ),
                forall|r: BlockRef| #[trigger] contains.requires((r,)),
                i <= tx_refs@.len(),
                out@.len() == i,
                forall|j: int|
                    0 <= j < i ==> self.known_header_of(
                        contains,
                        tx_refs@[j],
                        #[trigger] out@[j],
                    ),
            decreases tx_refs@.len() - i,
        {
            let t = tx_refs[i];
            let found = if self.get_cached_header_of(&t).is_some() {
                true
            } else {
                match self.resolve_block_ref(&t) {
                    Some(r) => contains(r),
                    None => false,
                }
            };
            assert(self.known_header_of(contains, t, found));
            out.push(found);
            i = i + 1;
        }
        out
    }

    /// The own shard that `k` names, if it is in memory.
    pub open spec fn cached_shard(self, k: GenericTransactionRef) -> Option<Bytes> {
        let m = self@.shards[k.spec_author() as int];
        if m.dom().contains(k) {
            Some(m[k])
        } else {
            None
        }
    }

    /// Gets own shards from memory.
    pub fn get_cached_shards(&self, gen_tran_refs: &[GenericTransactionRef]) -> (out: Vec<
        Option<Bytes>,
    >)
        requires
            self.wf(),
            forall|i: int|
                0 <= i < gen_tran_refs@.len() ==> self.config.committee.is_valid_index(
                    (#[trigger] gen_tran_refs@[i]).spec_author(),
                ),
        ensures
            out@ == gen_tran_refs@.map_values(|k: GenericTransactionRef| self.cached_shard(k)),
    {
        let mut out: Vec<Option<Bytes>> = Vec::new();
        let mut i: usize = 0;
        while i < gen_tran_refs.len()
            invariant
                self.wf(),
                forall|j: int|
                    0 <= j < gen_tran_refs@.len() ==> self.config.committee.is_valid_index(
                        (#[trigger] gen_tran_refs@[j]).spec_author(),
                    ),
                i <= gen_tran_refs@.len(),
                out@.len() == i,
                forall|j: int|
                    0 <= j < i ==> #[trigger] out@[j] == self.cached_shard(gen_tran_refs@[j]),
            decreases gen_tran_refs@.len() - i,
        {
            let k = gen_tran_refs[i];
            let found = match self.recent_shards_by_authority[k.author() as usize].get(&k) {
                Some(shard) => Some(share(shard)),
                None => None,
            };
            out.push(found);
            i = i + 1;
        }
        assert(out@ =~= gen_tran_refs@.map_values(
            |k: GenericTransactionRef| self.cached_shard(k),
        ));
        out
    }
}

/// The references for which nothing was found.
pub open spec fn missing_refs(
    refs: Seq<GenericTransactionRef>,
    found: Seq<Option<VerifiedTransactions>>,
) -> Seq<GenericTransactionRef>
    decreases found.len(),
{
    if found.len() == 0 || refs.len() != found.len() {
        Seq::empty()
    } else {
        let before = missing_refs(refs.drop_last(), found.drop_last());
        if found.last() is None {
            before.push(refs.last())
        } else {
            before
        }
    }
}

/// What was found.
pub open spec fn present(found: Seq<Option<VerifiedTransactions>>) -> Seq<VerifiedTransactions>
    decreases found.len(),
{
    if found.len() == 0 {
        Seq::empty()
    } else {
        match found.last() {
            Some(t) => present(found.drop_last()).push(t),
            None => present(found.drop_last()),
        }
    }
}

/// What was found where everything was, and the references of the rest
/// otherwise.
pub open spec fn all_or_missing(
    refs: Seq<GenericTransactionRef>,
    found: Seq<Option<VerifiedTransactions>>,
) -> Result<Seq<VerifiedTransactions>, Seq<GenericTransactionRef>> {
    if missing_refs(refs, found).len() == 0 {
        Ok(present(found))
    } else {
        Err(missing_refs(refs, found))
    }
}

} // verus!
