//! What a peer does not know yet: references by author and round, in hash sets.
use ahash::AHashSet;
use vstd::prelude::*;

use crate::refs::{
    AuthorityIndex, BlockRef, Digest, GenericTransactionRef, Key, Round, TransactionRef,
};
use crate::sorted::SortedMap;
use crate::unordered::{
    has_no_items, insert_item, items_of, list_items, new_item_set, remove_item, Item,
};

verus! {

/// The part of a reference that is left when its author and round are known.
pub open spec fn item_of(g: GenericTransactionRef) -> Item {
    match g {
        GenericTransactionRef::BlockRef(b) => (0u8, b.digest.hi, b.digest.lo),
        GenericTransactionRef::TransactionRef(t) => (
            1u8,
            t.transactions_commitment.hi,
            t.transactions_commitment.lo,
        ),
    }
}

/// The reference with this author, round and rest.
pub open spec fn ref_of(round: Round, author: AuthorityIndex, item: Item) -> GenericTransactionRef {
    let digest = Digest { hi: item.1, lo: item.2 };
    if item.0 == 0 {
        GenericTransactionRef::BlockRef(BlockRef { round, author, digest })
    } else {
        GenericTransactionRef::TransactionRef(
            TransactionRef { round, author, transactions_commitment: digest },
        )
    }
}

fn to_item(g: &GenericTransactionRef) -> (r: Item)
    ensures
        r == item_of(*g),
{
    match g {
        GenericTransactionRef::BlockRef(b) => (0u8, b.digest.hi, b.digest.lo),
        GenericTransactionRef::TransactionRef(t) => (
            1u8,
            t.transactions_commitment.hi,
            t.transactions_commitment.lo,
        ),
    }
}

fn to_ref(round: Round, author: AuthorityIndex, item: &Item) -> (r: GenericTransactionRef)
    ensures
        r == ref_of(round, author, *item),
{
    let digest = Digest { hi: item.1, lo: item.2 };
    if item.0 == 0 {
        GenericTransactionRef::BlockRef(BlockRef { round, author, digest })
    } else {
        GenericTransactionRef::TransactionRef(
            TransactionRef { round, author, transactions_commitment: digest },
        )
    }
}

/// Are these the items of one author and round? There is one at least.
pub open spec fn is_cell(items: Set<Item>) -> bool {
    &&& items != Set::<Item>::empty()
    &&& forall|x: Item| #[trigger] items.contains(x) ==> x.0 <= 1
}

/// References that a peer does not know, for each author by round.
pub struct UnknownRefs {
    pub maps: Vec<SortedMap<Round, AHashSet<Item>>>,
}

impl UnknownRefs {
    /// Is the reference there?
    pub open spec fn holds(self, g: GenericTransactionRef) -> bool {
        &&& g.spec_author() < self.maps@.len()
        &&& self.maps@[g.spec_author() as int]@.dom().contains(g.spec_round())
        &&& items_of(self.maps@[g.spec_author() as int]@[g.spec_round()]).contains(item_of(g))
    }

    pub open spec fn view(self) -> Set<GenericTransactionRef> {
        Set::new(|g: GenericTransactionRef| self.holds(g))
    }

    pub open spec fn map_wf(map: SortedMap<Round, AHashSet<Item>>) -> bool {
        &&& map.wf()
        &&& forall|q: Round| #[trigger] map@.dom().contains(q) ==> is_cell(items_of(map@[q]))
    }

    pub open spec fn wf(self) -> bool {
        &&& self.maps@.len() <= 256
        &&& forall|a: int| 0 <= a < self.maps@.len() ==> Self::map_wf(#[trigger] self.maps@[a])
    }

    /// No reference, of any of `n` authors.
    pub fn new(n: usize) -> (r: Self)
        requires
            n <= 256,
        ensures
            r.wf(),
            r.maps@.len() == n,
            r@ == Set::<GenericTransactionRef>::empty(),
    {
        let mut maps: Vec<SortedMap<Round, AHashSet<Item>>> = Vec::new();
        let mut i: usize = 0;
        while i < n
            invariant
                i <= n,
                maps@.len() == i,
                forall|a: int|
                    0 <= a < i ==> (#[trigger] maps@[a]).wf() && maps@[a]@ == Map::<
                        Round,
                        AHashSet<Item>,
                    >::empty(),
            decreases n - i,
        {
            maps.push(SortedMap::new());
            i = i + 1;
        }
        let r = UnknownRefs { maps };
        assert(r@ =~= Set::<GenericTransactionRef>::empty());
        r
    }

    /// The table after the cell of an author and a round has changed.
    proof fn lemma_cell_changed(
        self,
        before: Self,
        g: GenericTransactionRef,
        items: Set<Item>,
        added: bool,
    )
        requires
            before.wf(),
            g.spec_author() < before.maps@.len(),
            self.maps@.len() == before.maps@.len(),
            forall|a: int|
                0 <= a < before.maps@.len() && a != g.spec_author() ==> #[trigger] self.maps@[a]
                    == before.maps@[a],
            ({
                let a = g.spec_author() as int;
                let old_map = before.maps@[a]@;
                let map = self.maps@[a]@;
                let was = if old_map.dom().contains(g.spec_round()) {
                    items_of(old_map[g.spec_round()])
                } else {
                    Set::empty()
                };
                &&& self.maps@[a].wf()
                &&& items == if added {
                    was.insert(item_of(g))
                } else {
                    was.remove(item_of(g))
                }
                &&& if items == Set::<Item>::empty() {
                    map == old_map.remove(g.spec_round())
                } else {
                    &&& map.dom() == old_map.dom().insert(g.spec_round())
                    &&& items_of(map[g.spec_round()]) == items
                    &&& forall|q: Round|
                        q != g.spec_round() && #[trigger] old_map.dom().contains(q) ==> map[q]
                            == old_map[q]
                }
            }),
        ensures
            self.wf(),
            self@ == if added {
                before@.insert(g)
            } else {
                before@.remove(g)
            },
    {
        let n = g.spec_author() as int;
        let round = g.spec_round();
        let old_map = before.maps@[n]@;
        let map = self.maps@[n]@;
        assert forall|a: int| 0 <= a < self.maps@.len() implies Self::map_wf(
            #[trigger] self.maps@[a],
        ) by {
            assert(Self::map_wf(before.maps@[a]));
            if a == n {
                assert forall|q: Round| #[trigger] map.dom().contains(q) implies is_cell(
                    items_of(map[q]),
                ) by {
                    if q != round {
                        assert(old_map.dom().contains(q));
                    } else {
                        if old_map.dom().contains(q) {
                            assert(is_cell(items_of(old_map[q])));
                        }
                    }
                }
            }
        }
        let target = if added {
            before@.insert(g)
        } else {
            before@.remove(g)
        };
        assert forall|h: GenericTransactionRef| self@.contains(h) <==> target.contains(h) by {
            let a = h.spec_author() as int;
            let q = h.spec_round();
            if a < self.maps@.len() {
                if a != n {
                    assert(self.maps@[a] == before.maps@[a]);
                } else if q != round {
                    assert(map.dom().contains(q) <==> old_map.dom().contains(q));
                    assert(map.dom().contains(q) ==> map[q] == old_map[q]);
                } else {
                    lemma_item_injective(g, h);
                    let was = if old_map.dom().contains(round) {
                        items_of(old_map[round])
                    } else {
                        Set::empty()
                    };
                    assert(before.holds(h) <==> was.contains(item_of(h)));
                    if items == Set::<Item>::empty() {
                        assert(!items.contains(item_of(h)));
                    }
                    assert(self.holds(h) <==> items.contains(item_of(h)));
                }
            }
        }
        assert(self@ =~= target);
    }

    /// Adds a reference.
    pub fn insert(&mut self, g: &GenericTransactionRef)
        requires
            old(self).wf(),
            g.spec_author() < old(self).maps@.len(),
        ensures
            final(self).wf(),
            final(self).maps@.len() == old(self).maps@.len(),
            final(self)@ == old(self)@.insert(*g),
    {
        let ghost before = *self;
        let a: usize = g.author() as usize;
        let round = g.round();
        let item = to_item(g);
        assert(Self::map_wf(self.maps@[a as int]));
        let ghost table = self.maps@[a as int];
        match self.maps[a].find(&round) {
            Some(i) => {
                insert_item(&mut self.maps[a].entries[i].1, item);
                proof {
                    let changed = self.maps@[a as int].entries@[i as int].1;
                    self.maps@[a as int].lemma_set_value(table, i as int, changed);
                    let items = items_of(changed);
                    assert(items.contains(item));
                    assert(self.maps@[a as int]@.dom() =~= table@.dom().insert(round));
                    self.lemma_cell_changed(before, *g, items, true);
                }
            },
            None => {
                let mut cell = new_item_set();
                insert_item(&mut cell, item);
                let ghost items = items_of(cell);
                self.maps[a].insert(round, cell);
                proof {
                    assert(items.contains(item));
                    self.lemma_cell_changed(before, *g, items, true);
                }
            },
        }
    }

    /// Removes a reference.
    pub fn remove(&mut self, g: &GenericTransactionRef)
        requires
            old(self).wf(),
            g.spec_author() < old(self).maps@.len(),
        ensures
            final(self).wf(),
            final(self).maps@.len() == old(self).maps@.len(),
            final(self)@ == old(self)@.remove(*g),
    {
        let ghost before = *self;
        let a: usize = g.author() as usize;
        let round = g.round();
        let item = to_item(g);
        assert(Self::map_wf(self.maps@[a as int]));
        let ghost table = self.maps@[a as int];
        match self.maps[a].find(&round) {
            Some(i) => {
                remove_item(&mut self.maps[a].entries[i].1, &item);
                let ghost changed = self.maps@[a as int].entries@[i as int].1;
                let ghost items = items_of(changed);
                proof {
                    self.maps@[a as int].lemma_set_value(table, i as int, changed);
                    assert(self.maps@[a as int]@.dom() =~= table@.dom().insert(round));
                }
                if has_no_items(&self.maps[a].entries[i].1) {
                    self.maps[a].remove_at(i);
                    proof {
                        assert(self.maps@[a as int]@ =~= table@.remove(round));
                    }
                }
                proof {
                    self.lemma_cell_changed(before, *g, items, false);
                }
            },
            None => {
                assert(self@ =~= before@.remove(*g));
            },
        }
    }

    /// Removes the references of rounds up to those given for their authors.
    pub fn evict_below(&mut self, evicted_rounds: &Vec<Round>)
        requires
            old(self).wf(),
            evicted_rounds@.len() >= old(self).maps@.len(),
            forall|a: int|
                0 <= a < old(self).maps@.len() ==> (#[trigger] evicted_rounds@[a]) < Round::MAX,
        ensures
            final(self).wf(),
            final(self).maps@.len() == old(self).maps@.len(),
            final(self)@ == old(self)@.filter(
                |g: GenericTransactionRef| g.spec_round() > evicted_rounds@[g.spec_author() as int],
            ),
    {
        let ghost before = *self;
        let n: usize = self.maps.len();
        let mut i: usize = 0;
        while i < n
            invariant
                before.wf(),
                n == before.maps@.len(),
                n == self.maps@.len(),
                evicted_rounds@.len() >= n,
                forall|a: int| 0 <= a < n ==> (#[trigger] evicted_rounds@[a]) < Round::MAX,
                i <= n,
                forall|a: int| i <= a < n ==> #[trigger] self.maps@[a] == before.maps@[a],
                forall|a: int|
                    0 <= a < i ==> (#[trigger] self.maps@[a]).wf() && self.maps@[a]@
                        == before.maps@[a]@.restrict(
                        before.maps@[a]@.dom().filter(|q: Round| q > evicted_rounds@[a]),
                    ),
            decreases n - i,
        {
            assert(Self::map_wf(before.maps@[i as int]));
            let split_round: Round = evicted_rounds[i] + 1;
            let kept = self.maps[i].split_off(&split_round);
            proof {
                let table = before.maps@[i as int]@;
                assert(kept@ =~= table.restrict(
                    table.dom().filter(|q: Round| q > evicted_rounds@[i as int]),
                ));
            }
            self.maps[i] = kept;
            i = i + 1;
        }
        proof {
            assert forall|a: int| 0 <= a < n implies Self::map_wf(#[trigger] self.maps@[a]) by {
                assert(Self::map_wf(before.maps@[a]));
                assert forall|q: Round| #[trigger] self.maps@[a]@.dom().contains(
                    q,
                ) implies is_cell(items_of(self.maps@[a]@[q])) by {
                    assert(before.maps@[a]@.dom().contains(q));
                }
            }
            let target = before@.filter(
                |g: GenericTransactionRef| g.spec_round() > evicted_rounds@[g.spec_author() as int],
            );
            assert forall|g: GenericTransactionRef| self@.contains(g) <==> target.contains(g) by {
                if g.spec_author() < n {
                    assert(self.maps@[g.spec_author() as int].wf());
                }
            }
            assert(self@ =~= target);
        }
    }

    /// The references of an author and a round.
    fn cell(&self, author: AuthorityIndex, round: Round) -> (r: Vec<GenericTransactionRef>)
        requires
            self.wf(),
            author < self.maps@.len(),
        ensures
            r@.no_duplicates(),
            forall|g: GenericTransactionRef|
                r@.contains(g) <==> (#[trigger] self@.contains(g) && g.spec_author() == author
                    && g.spec_round() == round),
    {
        assert(Self::map_wf(self.maps@[author as int]));
        let mut r: Vec<GenericTransactionRef> = Vec::new();
        match self.maps[author as usize].get(&round) {
            Some(items) => {
                let list = list_items(items);
                let ghost all = items_of(*items);
                let mut i: usize = 0;
                while i < list.len()
                    invariant
                        i <= list@.len(),
                        r@.len() == i,
                        forall|j: int|
                            0 <= j < i ==> #[trigger] r@[j] == ref_of(round, author, list@[j]),
                    decreases list@.len() - i,
                {
                    r.push(to_ref(round, author, &list[i]));
                    i = i + 1;
                }
                proof {
                    assert forall|j: int| 0 <= j < list@.len() implies (#[trigger] list@[j]).0 <= 1
                        && item_of(ref_of(round, author, list@[j])) == list@[j] && all.contains(
                        list@[j],
                    ) by {
                        assert(list@.to_set().contains(list@[j]));
                        assert(is_cell(all));
                        assert(all.contains(list@[j]));
                    }
                    assert forall|j: int, k: int|
                        0 <= j < r@.len() && 0 <= k < r@.len() && j != k implies r@[j]
                        != r@[k] by {
                        assert(list@[j] != list@[k]);
                        assert(item_of(r@[j]) == list@[j]);
                        assert(item_of(r@[k]) == list@[k]);
                    }
                    assert forall|g: GenericTransactionRef|
                        r@.contains(g) <==> (#[trigger] self@.contains(g) && g.spec_author()
                            == author && g.spec_round() == round) by {
                        if r@.contains(g) {
                            let j = choose|j: int| 0 <= j < r@.len() && r@[j] == g;
                            assert(r@[j] == ref_of(round, author, list@[j]));
                            assert(all.contains(list@[j]));
                        }
                        if self@.contains(g) && g.spec_author() == author && g.spec_round()
                            == round {
                            assert(list@.to_set().contains(item_of(g)));
                            let j = choose|j: int| 0 <= j < list@.len() && list@[j] == item_of(g);
                            assert(r@[j] == g);
                        }
                    }
                }
            },
            None => {},
        }
        r
    }

    /// The first round with references among those of these authors.
    fn first_round(&self, authorities: &Vec<AuthorityIndex>) -> (r: Option<Round>)
        requires
            self.wf(),
            forall|i: int|
                0 <= i < authorities@.len() ==> (#[trigger] authorities@[i]) < self.maps@.len(),
        ensures
            forall|g: GenericTransactionRef| #[trigger]
                self@.contains(g) && authorities@.contains(g.spec_author()) ==> match r {
                    Some(first) => first <= g.spec_round(),
                    None => false,
                },
    {
        let mut r: Option<Round> = None;
        let mut i: usize = 0;
        while i < authorities.len()
            invariant
                self.wf(),
                forall|i: int|
                    0 <= i < authorities@.len() ==> (#[trigger] authorities@[i])
                        < self.maps@.len(),
                i <= authorities@.len(),
                forall|g: GenericTransactionRef, j: int|
                    0 <= j < i && #[trigger] self@.contains(g) && #[trigger] authorities@[j]
                        == g.spec_author() ==> match r {
                        Some(first) => first <= g.spec_round(),
                        None => false,
                    },
            decreases authorities@.len() - i,
        {
            let a: usize = authorities[i] as usize;
            let ghost before = r;
            assert(Self::map_wf(self.maps@[a as int]));
            let map = &self.maps[a];
            if map.entries.len() > 0 {
                let first = map.entries[0].0;
                match r {
                    Some(sofar) => {
                        if first < sofar {
                            r = Some(first);
                        }
                    },
                    None => {
                        r = Some(first);
                    },
                }
            }
            proof {
                assert forall|g: GenericTransactionRef, j: int|
                    0 <= j < i + 1 && #[trigger] self@.contains(g) && #[trigger] authorities@[j]
                        == g.spec_author() implies match r {
                    Some(first) => first <= g.spec_round(),
                    None => false,
                } by {
                    if j == i {
                        let e = map.lemma_key(g.spec_round());
                        if e > 0 {
                            assert(map.keys()[0].rank() < map.keys()[e].rank());
                        }
                    }
                }
            }
            i = i + 1;
        }
        r
    }
}

/// Is the reference of the first `a` authors, or of the next one and of one of its
/// first `e` rounds?
spec fn is_counted(
    maps: Seq<SortedMap<Round, AHashSet<Item>>>,
    a: int,
    e: int,
    g: GenericTransactionRef,
) -> bool {
    ||| g.spec_author() < a
    ||| g.spec_author() == a && a < maps.len() && maps[a].keys().take(e).contains(g.spec_round())
}

impl UnknownRefs {
    /// How many references there are.
    pub fn count(&self) -> (r: usize)
        requires
            self.wf(),
        ensures
            self@.finite(),
            r == if self@.len() <= usize::MAX {
                self@.len()
            } else {
                usize::MAX as nat
            },
    {
        let ghost mut all: Seq<GenericTransactionRef> = Seq::empty();
        let mut total: usize = 0;
        let mut a: usize = 0;
        while a < self.maps.len()
            invariant
                self.wf(),
                a <= self.maps@.len(),
                all.no_duplicates(),
                forall|g: GenericTransactionRef| #[trigger]
                    all.contains(g) <==> self@.contains(g) && is_counted(
                        self.maps@,
                        a as int,
                        0,
                        g,
                    ),
                total == if all.len() <= usize::MAX {
                    all.len()
                } else {
                    usize::MAX as nat
                },
            decreases self.maps@.len() - a,
        {
            let map = &self.maps[a];
            assert(Self::map_wf(*map));
            let mut e: usize = 0;
            while e < map.entries.len()
                invariant
                    self.wf(),
                    a < self.maps@.len(),
                    *map == self.maps@[a as int],
                    Self::map_wf(*map),
                    e <= map.entries@.len(),
                    all.no_duplicates(),
                    forall|g: GenericTransactionRef| #[trigger]
                        all.contains(g) <==> self@.contains(g) && is_counted(
                            self.maps@,
                            a as int,
                            e as int,
                            g,
                        ),
                    total == if all.len() <= usize::MAX {
                        all.len()
                    } else {
                        usize::MAX as nat
                    },
                decreases map.entries@.len() - e,
            {
                let round = map.entries[e].0;
                let list = self.cell(a as AuthorityIndex, round);
                total = total.saturating_add(list.len());
                proof {
                    let before = all;
                    all = all + list@;
                    let keys = map.keys();
                    let was = keys.take(e as int);
                    let now = keys.take(e + 1);
                    assert(now =~= was.push(round));
                    assert(!was.contains(round)) by {
                        if was.contains(round) {
                            let j = choose|j: int| 0 <= j < was.len() && was[j] == round;
                            assert(keys[j].rank() < keys[e as int].rank());
                        }
                    }
                    assert forall|q: Round| #[trigger]
                        now.contains(q) <==> was.contains(q) || q == round by {
                        if was.contains(q) {
                            let j = choose|j: int| 0 <= j < was.len() && was[j] == q;
                            assert(now[j] == q);
                        }
                        if q == round {
                            assert(now[e as int] == q);
                        }
                    }
                    assert forall|g: GenericTransactionRef| #[trigger]
                        all.contains(g) <==> self@.contains(g) && is_counted(
                            self.maps@,
                            a as int,
                            e + 1,
                            g,
                        ) by {
                        assert(all.contains(g) <==> before.contains(g) || list@.contains(g)) by {
                            if before.contains(g) {
                                let j = choose|j: int| 0 <= j < before.len() && before[j] == g;
                                assert(all[j] == g);
                            }
                            if list@.contains(g) {
                                let j = choose|j: int| 0 <= j < list@.len() && list@[j] == g;
                                assert(all[before.len() + j] == g);
                            }
                            if all.contains(g) {
                                let j = choose|j: int| 0 <= j < all.len() && all[j] == g;
                                if j < before.len() {
                                    assert(before[j] == g);
                                } else {
                                    assert(list@[j - before.len()] == g);
                                }
                            }
                        }
                    }
                    assert forall|x: int, y: int|
                        0 <= x < all.len() && 0 <= y < all.len() && x != y implies all[x]
                        != all[y] by {
                        let n = before.len() as int;
                        if x < n && y < n {
                            assert(before[x] != before[y]);
                        } else if x >= n && y >= n {
                            assert(list@[x - n] != list@[y - n]);
                        } else if x < n {
                            assert(before.contains(before[x]));
                            assert(list@.contains(list@[y - n]));
                        } else {
                            assert(before.contains(before[y]));
                            assert(list@.contains(list@[x - n]));
                        }
                    }
                }
                e = e + 1;
            }
            proof {
                assert forall|g: GenericTransactionRef| #[trigger]
                    all.contains(g) <==> self@.contains(g) && is_counted(
                        self.maps@,
                        a + 1,
                        0,
                        g,
                    ) by {
                    assert(map.keys().take(e as int) =~= map.keys());
                    if self@.contains(g) && g.spec_author() == a {
                        let j = map.lemma_key(g.spec_round());
                        assert(map.keys()[j] == g.spec_round());
                    }
                }
            }
            a = a + 1;
        }
        proof {
            assert(all.to_set() =~= self@);
            vstd::seq_lib::seq_to_set_is_finite(all);
            all.unique_seq_to_set();
        }
        total
    }
}

/// Can the reference be taken? It is of one of these authors and of a round
/// below the bound.
pub open spec fn is_eligible(
    known: Set<GenericTransactionRef>,
    upper: Round,
    useful: Seq<AuthorityIndex>,
    g: GenericTransactionRef,
) -> bool {
    known.contains(g) && g.spec_round() < upper && useful.contains(g.spec_author())
}

/// Does `g` come no later than `h`? References come by round, and in a round by the
/// place of their author in the list.
pub open spec fn is_no_later(
    useful: Seq<AuthorityIndex>,
    g: GenericTransactionRef,
    h: GenericTransactionRef,
) -> bool {
    ||| g.spec_round() < h.spec_round()
    ||| g.spec_round() == h.spec_round() && useful.index_of(g.spec_author()) <= useful.index_of(
        h.spec_author(),
    )
}

/// Are these the first eligible references, by round and by author in a round,
/// as many as there are or as may be taken? In which order those of one author
/// and round come is left open.
pub open spec fn are_first_eligible(
    known: Set<GenericTransactionRef>,
    upper: Round,
    useful: Seq<AuthorityIndex>,
    max_take: nat,
    taken: Seq<GenericTransactionRef>,
) -> bool {
    &&& taken.no_duplicates()
    &&& forall|i: int|
        0 <= i < taken.len() ==> is_eligible(known, upper, useful, #[trigger] taken[i])
    &&& are_in_order(useful, taken)
    &&& taken.len() <= max_take
    &&& taken.len() < max_take ==> forall|g: GenericTransactionRef|
        is_eligible(known, upper, useful, g) ==> #[trigger] taken.contains(g)
    &&& none_before(known, upper, useful, taken)
}

/// Do the references come by round, and by author in a round?
pub open spec fn are_in_order(
    useful: Seq<AuthorityIndex>,
    taken: Seq<GenericTransactionRef>,
) -> bool {
    forall|i: int, j: int|
        0 <= i < j < taken.len() ==> is_no_later(useful, #[trigger] taken[i], #[trigger] taken[j])
}

/// No eligible reference that was left comes before one that was taken.
pub open spec fn none_before(
    known: Set<GenericTransactionRef>,
    upper: Round,
    useful: Seq<AuthorityIndex>,
    taken: Seq<GenericTransactionRef>,
) -> bool {
    forall|g: GenericTransactionRef, i: int|
        0 <= i < taken.len() && is_eligible(known, upper, useful, g) && !#[trigger] taken.contains(
            g,
        ) ==> is_no_later(useful, #[trigger] taken[i], g)
}

/// Does the reference come before the turn of the j-th author in the round?
spec fn is_before(
    useful: Seq<AuthorityIndex>,
    g: GenericTransactionRef,
    round: int,
    j: int,
) -> bool {
    ||| g.spec_round() < round
    ||| g.spec_round() == round && useful.index_of(g.spec_author()) < j
}

/// Are the eligible references before this turn taken, and none from it on?
spec fn taken_before(
    known: Set<GenericTransactionRef>,
    upper: Round,
    useful: Seq<AuthorityIndex>,
    taken: Seq<GenericTransactionRef>,
    round: int,
    j: int,
) -> bool {
    &&& forall|i: int| 0 <= i < taken.len() ==> is_before(useful, #[trigger] taken[i], round, j)
    &&& forall|g: GenericTransactionRef|
        is_eligible(known, upper, useful, g) && is_before(useful, g, round, j)
            ==> #[trigger] taken.contains(g)
}

/// An author of the list stands where it is found.
proof fn lemma_index_of(useful: Seq<AuthorityIndex>, a: AuthorityIndex)
    requires
        useful.no_duplicates(),
        useful.contains(a),
    ensures
        0 <= useful.index_of(a) < useful.len(),
        useful[useful.index_of(a)] == a,
        forall|j: int| 0 <= j < useful.len() && #[trigger] useful[j] == a ==> j == useful.index_of(a),
{
}

/// One more reference, of the present turn.
proof fn lemma_take_one(
    known: Set<GenericTransactionRef>,
    upper: Round,
    useful: Seq<AuthorityIndex>,
    taken: Seq<GenericTransactionRef>,
    g: GenericTransactionRef,
)
    requires
        taken.no_duplicates(),
        !taken.contains(g),
        is_eligible(known, upper, useful, g),
        forall|i: int|
            0 <= i < taken.len() ==> is_eligible(known, upper, useful, #[trigger] taken[i]),
        are_in_order(useful, taken),
        none_before(known, upper, useful, taken),
        forall|i: int| 0 <= i < taken.len() ==> is_no_later(useful, #[trigger] taken[i], g),
        forall|h: GenericTransactionRef|
            is_eligible(known, upper, useful, h) && !is_no_later(useful, g, h)
                ==> #[trigger] taken.contains(h),
    ensures
        taken.push(g).no_duplicates(),
        forall|i: int|
            0 <= i < taken.push(g).len() ==> is_eligible(
                known,
                upper,
                useful,
                #[trigger] taken.push(g)[i],
            ),
        are_in_order(useful, taken.push(g)),
        none_before(known, upper, useful, taken.push(g)),
        forall|h: GenericTransactionRef|
            #[trigger] taken.push(g).contains(h) <==> taken.contains(h) || h == g,
{
    let t = taken.push(g);
    assert forall|h: GenericTransactionRef|
        #[trigger] t.contains(h) <==> taken.contains(h) || h == g by {
        if taken.contains(h) {
            let i = choose|i: int| 0 <= i < taken.len() && taken[i] == h;
            assert(t[i] == h);
        }
        if h == g {
            assert(t[taken.len() as int] == g);
        }
    }
    assert forall|h: GenericTransactionRef, i: int|
        0 <= i < t.len() && is_eligible(known, upper, useful, h) && !#[trigger] t.contains(
            h,
        ) implies is_no_later(useful, #[trigger] t[i], h) by {
        assert(!taken.contains(h));
    }
}

impl UnknownRefs {
    /// Takes the references of these authors of rounds below the bound, up to
    /// `max_take` of them: those of early rounds first, and in a round those of
    /// the authors that are listed first.
    pub fn take_useful_refs_round(
        &mut self,
        round_upper_bound_exclusive: Round,
        useful_authorities: &Vec<AuthorityIndex>,
        max_take: usize,
    ) -> (taken: Vec<GenericTransactionRef>)
        requires
            old(self).wf(),
            forall|i: int|
                0 <= i < useful_authorities@.len() ==> (#[trigger] useful_authorities@[i]) < old(
                    self,
                ).maps@.len(),
            useful_authorities@.no_duplicates(),
        ensures
            final(self).wf(),
            final(self).maps@.len() == old(self).maps@.len(),
            are_first_eligible(
                old(self)@,
                round_upper_bound_exclusive,
                useful_authorities@,
                max_take as nat,
                taken@,
            ),
            final(self)@ == old(self)@.difference(taken@.to_set()),
    {
        let ghost before = *self;
        let ghost known = self@;
        let taken = self.first_useful_refs(
            round_upper_bound_exclusive,
            useful_authorities,
            max_take,
        );
        let mut i: usize = 0;
        assert(known.difference(taken@.take(0).to_set()) =~= known);
        while i < taken.len()
            invariant
                self.wf(),
                self.maps@.len() == before.maps@.len(),
                known == before@,
                forall|j: int| 0 <= j < taken@.len() ==> before.holds(#[trigger] taken@[j]),
                i <= taken@.len(),
                self@ == known.difference(taken@.take(i as int).to_set()),
            decreases taken@.len() - i,
        {
            let ghost mid = self@;
            self.remove(&taken[i]);
            proof {
                let was = taken@.take(i as int);
                let now = taken@.take(i + 1);
                assert(now =~= was.push(taken@[i as int]));
                assert forall|h: GenericTransactionRef|
                    now.to_set().contains(h) <==> was.to_set().contains(h) || h
                        == taken@[i as int] by {
                    if was.contains(h) {
                        let j = choose|j: int| 0 <= j < was.len() && was[j] == h;
                        assert(now[j] == h);
                    }
                    if h == taken@[i as int] {
                        assert(now[i as int] == h);
                    }
                }
                assert(self@ =~= known.difference(now.to_set()));
            }
            i = i + 1;
        }
        assert(taken@.take(i as int) =~= taken@);
        taken
    }

    /// The references that can be taken.
    fn first_useful_refs(
        &self,
        round_upper_bound_exclusive: Round,
        useful_authorities: &Vec<AuthorityIndex>,
        max_take: usize,
    ) -> (taken: Vec<GenericTransactionRef>)
        requires
            self.wf(),
            forall|i: int|
                0 <= i < useful_authorities@.len() ==> (#[trigger] useful_authorities@[i])
                    < self.maps@.len(),
            useful_authorities@.no_duplicates(),
        ensures
            are_first_eligible(
                self@,
                round_upper_bound_exclusive,
                useful_authorities@,
                max_take as nat,
                taken@,
            ),
    {
        let ghost known = self@;
        let ghost upper = round_upper_bound_exclusive;
        let ghost useful = useful_authorities@;
        let mut taken: Vec<GenericTransactionRef> = Vec::new();
        if useful_authorities.len() == 0 || max_take == 0 {
            return taken;
        }
        let mut current_round: Round = match self.first_round(useful_authorities) {
            Some(first) => first,
            None => {
                return taken;
            },
        };
        while current_round < round_upper_bound_exclusive && taken.len() < max_take
            invariant
                self.wf(),
                known == self@,
                upper == round_upper_bound_exclusive,
                useful == useful_authorities@,
                forall|i: int| 0 <= i < useful.len() ==> (#[trigger] useful[i]) < self.maps@.len(),
                useful.no_duplicates(),
                useful.len() > 0,
                taken@.no_duplicates(),
                forall|i: int|
                    0 <= i < taken@.len() ==> is_eligible(known, upper, useful, #[trigger] taken@[i]),
                are_in_order(useful, taken@),
                taken@.len() <= max_take,
                none_before(known, upper, useful, taken@),
                taken@.len() < max_take ==> taken_before(
                    known,
                    upper,
                    useful,
                    taken@,
                    current_round as int,
                    0,
                ),
            decreases upper - current_round,
        {
            let mut j: usize = 0;
            while j < useful_authorities.len() && taken.len() < max_take
                invariant
                    self.wf(),
                    known == self@,
                    upper == round_upper_bound_exclusive,
                    current_round < upper,
                    useful == useful_authorities@,
                    forall|i: int|
                        0 <= i < useful.len() ==> (#[trigger] useful[i]) < self.maps@.len(),
                    useful.no_duplicates(),
                    j <= useful.len(),
                    taken@.no_duplicates(),
                    forall|i: int|
                        0 <= i < taken@.len() ==> is_eligible(
                            known,
                            upper,
                            useful,
                            #[trigger] taken@[i],
                        ),
                    are_in_order(useful, taken@),
                    taken@.len() <= max_take,
                    none_before(known, upper, useful, taken@),
                    taken@.len() < max_take ==> taken_before(
                        known,
                        upper,
                        useful,
                        taken@,
                        current_round as int,
                        j as int,
                    ),
                decreases useful.len() - j,
            {
                let authority = useful_authorities[j];
                let list = self.cell(authority, current_round);
                let ghost start = taken@;
                proof {
                    assert(useful.contains(authority));
                    lemma_index_of(useful, authority);
                }
                let mut m: usize = 0;
                while m < list.len() && taken.len() < max_take
                    invariant
                        known == self@,
                        upper == round_upper_bound_exclusive,
                        current_round < upper,
                        useful == useful_authorities@,
                        j < useful.len(),
                        authority == useful[j as int],
                        useful.no_duplicates(),
                        useful.contains(authority),
                        useful.index_of(authority) == j,
                        list@.no_duplicates(),
                        forall|g: GenericTransactionRef|
                            list@.contains(g) <==> (#[trigger] known.contains(g)
                                && g.spec_author() == authority && g.spec_round()
                                == current_round),
                        m <= list@.len(),
                        taken_before(
                            known,
                            upper,
                            useful,
                            start,
                            current_round as int,
                            j as int,
                        ),
                        forall|g: GenericTransactionRef|
                            #[trigger] taken@.contains(g) <==> start.contains(g) || exists|k: int|
                                0 <= k < m && #[trigger] list@[k] == g,
                        taken@.no_duplicates(),
                        forall|i: int|
                            0 <= i < taken@.len() ==> is_eligible(
                                known,
                                upper,
                                useful,
                                #[trigger] taken@[i],
                            ),
                        are_in_order(useful, taken@),
                        taken@.len() <= max_take,
                        none_before(known, upper, useful, taken@),
                        forall|i: int|
                            0 <= i < taken@.len() ==> is_before(
                                useful,
                                #[trigger] taken@[i],
                                current_round as int,
                                j + 1,
                            ),
                    decreases list@.len() - m,
                {
                    let g = list[m];
                    let ghost prev = taken@;
                    proof {
                        assert(list@.contains(g));
                        assert(known.contains(g));
                        assert(useful.contains(authority));
                        assert(is_eligible(known, upper, useful, g));
                        assert(!taken@.contains(g)) by {
                            if start.contains(g) {
                                let i = choose|i: int| 0 <= i < start.len() && start[i] == g;
                                assert(is_before(useful, start[i], current_round as int, j as int));
                            }
                        }
                        assert forall|h: GenericTransactionRef|
                            is_eligible(known, upper, useful, h) && !is_no_later(
                                useful,
                                g,
                                h,
                            ) implies #[trigger] taken@.contains(h) by {
                            assert(is_before(useful, h, current_round as int, j as int));
                            assert(start.contains(h));
                        }
                        lemma_take_one(known, upper, useful, taken@, g);
                    }
                    taken.push(g);
                    proof {
                        assert forall|h: GenericTransactionRef|
                            #[trigger] taken@.contains(h) <==> start.contains(h) || exists|k: int|
                                0 <= k < m + 1 && #[trigger] list@[k] == h by {
                            assert(taken@.contains(h) <==> prev.contains(h) || h == g);
                            if prev.contains(h) && !start.contains(h) {
                                let k = choose|k: int| 0 <= k < m && #[trigger] list@[k] == h;
                                assert(list@[k] == h);
                            }
                            if h == g {
                                assert(list@[m as int] == h);
                            }
                            if exists|k: int| 0 <= k < m + 1 && #[trigger] list@[k] == h {
                                let k = choose|k: int| 0 <= k < m + 1 && #[trigger] list@[k] == h;
                                if k < m {
                                    assert(prev.contains(h));
                                }
                            }
                        }
                    }
                    m = m + 1;
                }
                proof {
                    if taken@.len() < max_take {
                        assert forall|h: GenericTransactionRef|
                            is_eligible(known, upper, useful, h) && is_before(
                                useful,
                                h,
                                current_round as int,
                                j + 1,
                            ) implies #[trigger] taken@.contains(h) by {
                            if is_before(useful, h, current_round as int, j as int) {
                                assert(start.contains(h));
                            } else {
                                lemma_index_of(useful, h.spec_author());
                                assert(list@.contains(h));
                                let k = choose|k: int| 0 <= k < list@.len() && list@[k] == h;
                                assert(list@[k] == h);
                            }
                        }
                        assert(taken_before(
                            known,
                            upper,
                            useful,
                            taken@,
                            current_round as int,
                            j + 1,
                        ));
                    }
                }
                j = j + 1;
            }
            proof {
                if taken@.len() < max_take {
                    assert forall|g: GenericTransactionRef|
                        is_eligible(known, upper, useful, g) && is_before(
                            useful,
                            g,
                            current_round + 1,
                            0,
                        ) implies #[trigger] taken@.contains(g) by {
                        lemma_index_of(useful, g.spec_author());
                        assert(is_before(useful, g, current_round as int, j as int));
                    }
                }
            }
            current_round = current_round + 1;
        }
        proof {
            if taken@.len() < max_take {
                assert forall|g: GenericTransactionRef|
                    is_eligible(known, upper, useful, g) implies #[trigger] taken@.contains(g) by {
                    lemma_index_of(useful, g.spec_author());
                    assert(is_before(useful, g, current_round as int, 0));
                }
            }
        }
        taken
    }
}

/// References of one author and round differ in the rest.
proof fn lemma_item_injective(g: GenericTransactionRef, h: GenericTransactionRef)
    requires
        g.spec_author() == h.spec_author(),
        g.spec_round() == h.spec_round(),
    ensures
        item_of(g) == item_of(h) ==> g == h,
{
}

} // verus!
