//! The pool: admission with collision resolution, removal with cascades, and the
//! invariants that hold between operations.

use vstd::prelude::*;
use crate::collision_manager::{
    collect_colliding_transactions, collide, holds_resource, CollisionManagerStorage, is_more_worthy, CollisionReason, PoolTransaction, TxId,
};
use crate::dependency::{
    close_under_dependents, closed_under_dependents, depends_on, derived_from_earlier, marks_match,
};
use crate::error::Error;

verus! {

/// No two transactions share an id or claim a common resource.
pub open spec fn mutually_exclusive(txs: Seq<PoolTransaction>) -> bool {
    forall|i: int, j: int|
        0 <= i < txs.len() && 0 <= j < txs.len() && i != j ==> {
            &&& (#[trigger] txs[i]).id != (#[trigger] txs[j]).id
            &&& !collide(txs[i], txs[j])
        }
}

/// Whether some transaction of `txs` has id `id`.
pub open spec fn has_id(txs: Seq<PoolTransaction>, id: TxId) -> bool {
    exists|i: int| 0 <= i < txs.len() && (#[trigger] txs[i]).id == id
}

/// The transaction at position `k` spends an output of one listed before it.
pub open spec fn spends_earlier(txs: Seq<PoolTransaction>, k: int) -> bool {
    exists|m: int| 0 <= m < k && #[trigger] depends_on(txs[k], txs[m].id)
}

/// `removed` is what a cascade from `seeds` takes out of `before`, leaving `after`:
/// the two partition `before`, every removed transaction past the seeds spends an
/// output of one removed earlier, and nothing left spends an output of a removed one.
pub open spec fn cascade_split(
    before: Seq<PoolTransaction>,
    after: Seq<PoolTransaction>,
    removed: Seq<PoolTransaction>,
    seeds: int,
) -> bool {
    &&& 0 <= seeds <= removed.len()
    &&& forall|t: PoolTransaction| before.contains(t) <==> (after.contains(t) || removed.contains(t))
    &&& forall|t: PoolTransaction| !(after.contains(t) && removed.contains(t))
    &&& forall|k: int| seeds <= k < removed.len() ==> #[trigger] spends_earlier(removed, k)
    &&& forall|a: int, k: int|
        0 <= a < after.len() && 0 <= k < removed.len() ==> !#[trigger] depends_on(
            after[a],
            #[trigger] removed[k].id,
        )
}

/// Whether `tx` claims a resource that some transaction of `txs` claims.
pub open spec fn collides_with_any(txs: Seq<PoolTransaction>, tx: PoolTransaction) -> bool {
    exists|i: int| 0 <= i < txs.len() && collide(#[trigger] txs[i], tx)
}

/// `evicted` is what admitting `tx` takes out of `before`, leaving `kept`: first every
/// transaction that collides with `tx`, then the cascade of their dependents.
pub open spec fn evicts_for(
    before: Seq<PoolTransaction>,
    kept: Seq<PoolTransaction>,
    evicted: Seq<PoolTransaction>,
    tx: PoolTransaction,
) -> bool {
    exists|s: int|
        #[trigger] cascade_split(before, kept, evicted, s) && (forall|k: int|
            0 <= k < s ==> collide(#[trigger] evicted[k], tx)) && (forall|i: int|
            0 <= i < before.len() && collide(#[trigger] before[i], tx) ==> evicted.take(s).contains(
                before[i],
            ))
}

/// Whether a resource may be claimed, given the chain state's answer for it: a coin
/// must exist unspent on chain or be an output of a pooled transaction, a message
/// must exist, and a blob or contract to be created must not exist yet.
pub open spec fn resource_available(pool: Seq<PoolTransaction>, r: CollisionReason, on_chain: bool) -> bool {
    match r {
        CollisionReason::Coin(u) => on_chain || has_id(pool, u.tx_id),
        CollisionReason::Message(_) => on_chain,
        CollisionReason::Blob(_) => !on_chain,
        CollisionReason::ContractCreation(_) => !on_chain,
    }
}

/// `on_chain` holds one chain-state answer per resource of `tx`, and each resource
/// may be claimed.
pub open spec fn resources_available(pool: Seq<PoolTransaction>, tx: PoolTransaction, on_chain: Seq<bool>) -> bool {
    &&& on_chain.len() == tx.resources@.len()
    &&& forall|k: int|
        0 <= k < on_chain.len() ==> resource_available(pool, #[trigger] tx.resources@[k], on_chain[k])
}

/// The transaction pool.
pub struct Pool {
    /// The pooled transactions, in order of admission.
    pub txs: Vec<PoolTransaction>,
    /// The most transactions the pool holds.
    pub max_txs: usize,
}

/// Moves the transactions out of `txs`: those not marked, in their order, and those
/// at the positions of `order`, in that order.
fn split_marked(txs: Vec<PoolTransaction>, marked: &Vec<bool>, order: &Vec<usize>) -> (r: (
    Vec<PoolTransaction>,
    Vec<PoolTransaction>,
    Ghost<Seq<int>>,
))
    requires
        marked@.len() == txs@.len(),
        marks_match(marked@, order@),
    ensures
        r.1@.len() == order@.len(),
        forall|k: int| 0 <= k < order@.len() ==> r.1@[k] == txs@[#[trigger] order@[k] as int],
        r.2@.len() == r.0@.len(),
        forall|k: int|
            0 <= k < r.0@.len() ==> {
                &&& 0 <= #[trigger] r.2@[k] < txs@.len()
                &&& !marked@[r.2@[k]]
                &&& r.0@[k] == txs@[r.2@[k]]
            },
        forall|k: int, m: int| 0 <= k < m < r.0@.len() ==> r.2@[k] < r.2@[m],
        forall|i: int| 0 <= i < txs@.len() && !marked@[i] ==> r.0@.contains(#[trigger] txs@[i]),
        r.0@.len() <= txs@.len(),
        (exists|i: int| 0 <= i < txs@.len() && #[trigger] marked@[i]) ==> r.0@.len() < txs@.len(),
{
    let n = txs.len();
    let ghost all = txs@;
    let mut rest = txs;
    let mut slots: Vec<Option<PoolTransaction>> = Vec::new();
    while rest.len() > 0
        invariant
            slots@.len() + rest@.len() == n,
            n == all.len(),
            rest@ == all.skip(slots@.len() as int),
            forall|i: int| 0 <= i < slots@.len() ==> slots@[i] == Some(#[trigger] all[i]),
        decreases rest@.len(),
    {
        let ghost s = slots@.len();
        let t = rest.remove(0);
        assert(t == all[s as int]);
        slots.push(Some(t));
        assert(rest@ =~= all.skip(slots@.len() as int));
    }
    let mut removed: Vec<PoolTransaction> = Vec::new();
    let mut k: usize = 0;
    while k < order.len()
        invariant
            n == all.len(),
            marked@.len() == n,
            marks_match(marked@, order@),
            k <= order@.len(),
            slots@.len() == n,
            removed@.len() == k,
            forall|m: int| 0 <= m < k ==> removed@[m] == all[#[trigger] order@[m] as int],
            forall|i: int|
                0 <= i < n ==> #[trigger] slots@[i] == if order@.take(k as int).contains(i as usize) {
                    None
                } else {
                    Some(all[i])
                },
        decreases order@.len() - k,
    {
        let p = order[k];
        assert(order@.take(k + 1) =~= order@.take(k as int).push(p));
        assert(!order@.take(k as int).contains(p)) by {
            if order@.take(k as int).contains(p) {
                let w = choose|w: int| 0 <= w < k && #[trigger] order@.take(k as int)[w] == p;
                assert(order@[w] == order@[k as int]);
            }
        }
        slots.push(None);
        let s = slots.swap_remove(p);
        assert(s == Some(all[p as int]));
        match s {
            Some(t) => removed.push(t),
            None => {},
        }
        proof {
            assert forall|i: int| 0 <= i < n implies #[trigger] slots@[i] == if order@.take(k + 1).contains(
                i as usize,
            ) {
                None
            } else {
                Some(all[i])
            } by {
                if i != p as int {
                    if order@.take(k + 1).contains(i as usize) {
                        let w = choose|w: int| 0 <= w < k + 1 && #[trigger] order@.take(k + 1)[w] == i as usize;
                        assert(order@.take(k as int)[w] == i as usize);
                    }
                } else {
                    assert(order@.take(k + 1)[k as int] == p);
                }
            }
        }
        k += 1;
    }
    assert(order@.take(k as int) =~= order@);
    let mut kept: Vec<PoolTransaction> = Vec::new();
    let ghost mut src: Seq<int> = Seq::empty();
    let mut i: usize = 0;
    while i < n
        invariant
            n == all.len(),
            marked@.len() == n,
            marks_match(marked@, order@),
            i <= n,
            slots@.len() == n,
            forall|j: int|
                i <= j < n ==> #[trigger] slots@[j] == if order@.contains(j as usize) {
                    None
                } else {
                    Some(all[j])
                },
            src.len() == kept@.len(),
            forall|k: int|
                0 <= k < kept@.len() ==> {
                    &&& 0 <= #[trigger] src[k] < i
                    &&& !marked@[src[k]]
                    &&& kept@[k] == all[src[k]]
                },
            forall|k: int, m: int| 0 <= k < m < kept@.len() ==> src[k] < src[m],
            forall|j: int| 0 <= j < i && !marked@[j] ==> kept@.contains(#[trigger] all[j]),
            kept@.len() <= i,
            (exists|j: int| 0 <= j < i && #[trigger] marked@[j]) ==> kept@.len() < i,
        decreases n - i,
    {
        slots.push(None);
        let s = slots.swap_remove(i);
        let ghost before = kept@;
        match s {
            Some(t) => {
                kept.push(t);
                proof {
                    src = src.push(i as int);
                }
            },
            None => {},
        }
        proof {
            if exists|j: int| 0 <= j < i + 1 && #[trigger] marked@[j] {
                if !marked@[i as int] {
                    let j = choose|j: int| 0 <= j < i + 1 && #[trigger] marked@[j];
                    assert(j < i);
                }
            }
            assert forall|j: int| 0 <= j < i + 1 && !marked@[j] implies kept@.contains(#[trigger] all[j]) by {
                if j < i {
                    let w = choose|w: int| 0 <= w < before.len() && before[w] == all[j];
                    assert(kept@[w] == all[j]);
                } else {
                    assert(kept@[kept@.len() - 1] == all[j]);
                }
            }
        }
        i += 1;
    }
    (kept, removed, Ghost(src))
}

proof fn lemma_unique_position(txs: Seq<PoolTransaction>, x: int, y: int)
    requires
        mutually_exclusive(txs),
        0 <= x < txs.len(),
        0 <= y < txs.len(),
        txs[x] == txs[y],
    ensures
        x == y,
{
    if x != y {
        assert(txs[x].id != txs[y].id);
    }
}

/// What `split_marked` hands back after a closure is a cascade split.
proof fn lemma_split_is_cascade(
    before: Seq<PoolTransaction>,
    marked: Seq<bool>,
    order: Seq<usize>,
    seeds: int,
    kept: Seq<PoolTransaction>,
    removed: Seq<PoolTransaction>,
    src: Seq<int>,
)
    requires
        mutually_exclusive(before),
        marked.len() == before.len(),
        before.len() <= usize::MAX,
        marks_match(marked, order),
        0 <= seeds <= order.len(),
        forall|k: int| seeds <= k < order.len() ==> #[trigger] derived_from_earlier(before, order, k),
        closed_under_dependents(before, marked),
        removed.len() == order.len(),
        forall|k: int| 0 <= k < order.len() ==> removed[k] == before[#[trigger] order[k] as int],
        src.len() == kept.len(),
        forall|k: int|
            0 <= k < kept.len() ==> {
                &&& 0 <= #[trigger] src[k] < before.len()
                &&& !marked[src[k]]
                &&& kept[k] == before[src[k]]
            },
        forall|k: int, m: int| 0 <= k < m < kept.len() ==> src[k] < src[m],
        forall|i: int| 0 <= i < before.len() && !marked[i] ==> kept.contains(#[trigger] before[i]),
    ensures
        cascade_split(before, kept, removed, seeds),
        mutually_exclusive(kept),
{
    assert forall|t: PoolTransaction| before.contains(t) <==> (kept.contains(t) || removed.contains(t)) by {
        if before.contains(t) {
            let i = choose|i: int| 0 <= i < before.len() && before[i] == t;
            if marked[i] {
                assert(order.contains(i as usize));
                let k = choose|k: int| 0 <= k < order.len() && order[k] == i as usize;
                assert(order[k] as int == i);
                assert(removed[k] == before[order[k] as int]);
            }
        }
        if kept.contains(t) {
            let k = choose|k: int| 0 <= k < kept.len() && kept[k] == t;
            assert(before[src[k]] == t);
        }
        if removed.contains(t) {
            let k = choose|k: int| 0 <= k < removed.len() && removed[k] == t;
            assert(before[order[k] as int] == t);
        }
    }
    assert forall|t: PoolTransaction| !(kept.contains(t) && removed.contains(t)) by {
        if kept.contains(t) && removed.contains(t) {
            let a = choose|a: int| 0 <= a < kept.len() && kept[a] == t;
            let k = choose|k: int| 0 <= k < removed.len() && removed[k] == t;
            lemma_unique_position(before, src[a], order[k] as int);
            assert(marked[order[k] as int]);
        }
    }
    assert forall|k: int| seeds <= k < removed.len() implies #[trigger] spends_earlier(removed, k) by {
        assert(derived_from_earlier(before, order, k));
        let m = choose|m: int| 0 <= m < k && #[trigger] depends_on(before[order[k] as int], before[order[m] as int].id);
        assert(depends_on(removed[k], removed[m].id));
    }
    assert forall|a: int, k: int| 0 <= a < kept.len() && 0 <= k < removed.len() implies !#[trigger] depends_on(
        kept[a],
        #[trigger] removed[k].id,
    ) by {
        let b = order[k] as int;
        assert(marked[b]);
        if depends_on(kept[a], removed[k].id) {
            assert(depends_on(before[src[a]], before[b].id));
        }
    }
    assert forall|i: int, j: int| 0 <= i < kept.len() && 0 <= j < kept.len() && i != j implies {
        &&& (#[trigger] kept[i]).id != (#[trigger] kept[j]).id
        &&& !collide(kept[i], kept[j])
    } by {
        assert(src[i] != src[j]);
        assert(before[src[i]] == kept[i]);
        assert(before[src[j]] == kept[j]);
    }
}

proof fn lemma_collide_symmetric(a: PoolTransaction, b: PoolTransaction)
    ensures
        collide(a, b) == collide(b, a),
{
    if collide(a, b) {
        let k = choose|k: int| 0 <= k < a.resources@.len() && b.resources@.contains(#[trigger] a.resources@[k]);
        let j = choose|j: int| 0 <= j < b.resources@.len() && b.resources@[j] == a.resources@[k];
        assert(a.resources@.contains(b.resources@[j]));
    }
    if collide(b, a) {
        let k = choose|k: int| 0 <= k < b.resources@.len() && a.resources@.contains(#[trigger] b.resources@[k]);
        let j = choose|j: int| 0 <= j < a.resources@.len() && a.resources@[j] == b.resources@[k];
        assert(b.resources@.contains(a.resources@[j]));
    }
}

impl Pool {
    /// The pool's invariant: within capacity, and no two transactions share an id or
    /// claim a common resource.
    pub open spec fn wf(&self) -> bool {
        &&& self.txs@.len() <= self.max_txs
        &&& mutually_exclusive(self.txs@)
    }

    /// Creates an empty pool that holds at most `max_txs` transactions.
    pub fn new(max_txs: usize) -> (r: Pool)
        ensures
            r.wf(),
            r.txs@.len() == 0,
            r.max_txs == max_txs,
    {
        Pool { txs: Vec::new(), max_txs }
    }

    /// The number of pooled transactions.
    pub fn len(&self) -> (r: usize)
        ensures
            r == self.txs@.len(),
    {
        self.txs.len()
    }

    /// The position of the pooled transaction with id `id`, if there is one.
    pub fn find_index(&self, id: TxId) -> (r: Option<usize>)
        ensures
            match r {
                Some(i) => i < self.txs@.len() && self.txs@[i as int].id == id,
                None => !has_id(self.txs@, id),
            },
    {
        let mut i: usize = 0;
        while i < self.txs.len()
            invariant
                i <= self.txs@.len(),
                forall|j: int| 0 <= j < i ==> (#[trigger] self.txs@[j]).id != id,
            decreases self.txs@.len() - i,
        {
            if self.txs[i].id == id {
                return Some(i);
            }
            i += 1;
        }
        None
    }

    /// Whether a transaction with id `id` is pooled.
    pub fn contains(&self, id: TxId) -> (r: bool)
        ensures
            r == has_id(self.txs@, id),
    {
        self.find_index(id).is_some()
    }

    /// The position of the pooled transaction that claims `resource`, if any; in a
    /// well-formed pool there is at most one.
    pub fn owner_of(&self, resource: CollisionReason) -> (r: Option<usize>)
        requires
            self.wf(),
        ensures
            match r {
                Some(i) => {
                    &&& i < self.txs@.len()
                    &&& self.txs@[i as int].resources@.contains(resource)
                    &&& forall|j: int|
                        0 <= j < self.txs@.len() && j != i ==> !(#[trigger] self.txs@[j]).resources@.contains(
                            resource,
                        )
                },
                None => forall|j: int|
                    0 <= j < self.txs@.len() ==> !(#[trigger] self.txs@[j]).resources@.contains(resource),
            },
    {
        let mut i: usize = 0;
        while i < self.txs.len()
            invariant
                self.wf(),
                i <= self.txs@.len(),
                forall|j: int| 0 <= j < i ==> !(#[trigger] self.txs@[j]).resources@.contains(resource),
            decreases self.txs@.len() - i,
        {
            if holds_resource(&self.txs[i].resources, resource) {
                proof {
                    assert forall|j: int|
                        0 <= j < self.txs@.len() && j != i implies !(#[trigger] self.txs@[j]).resources@.contains(
                            resource,
                        ) by {
                        lemma_pooled_resources_exclusive(*self, i as int, j, resource);
                    }
                }
                return Some(i);
            }
            i += 1;
        }
        None
    }

    /// Removes the transaction with id `id` and, transitively, every pooled
    /// transaction that spends an output of a removed one. The removed
    /// transactions come back with the requested one first. An absent id leaves
    /// the pool as it was and gives `NotFound`.
    pub fn remove(&mut self, id: TxId) -> (r: Result<Vec<PoolTransaction>, Error>)
        requires
            old(self).wf(),
        ensures
            final(self).wf(),
            final(self).max_txs == old(self).max_txs,
            !has_id(old(self).txs@, id) <==> r == Err::<Vec<PoolTransaction>, Error>(Error::NotFound),
            r is Err ==> *final(self) == *old(self),
            r matches Ok(removed) ==> {
                &&& removed@.len() >= 1
                &&& removed@[0].id == id
                &&& cascade_split(old(self).txs@, final(self).txs@, removed@, 1)
                &&& !has_id(final(self).txs@, id)
            },
    {
        let idx = match self.find_index(id) {
            None => return Err(Error::NotFound),
            Some(i) => i,
        };
        let n = self.txs.len();
        let mut marked: Vec<bool> = Vec::new();
        while marked.len() < n
            invariant
                marked@.len() <= n,
                forall|j: int| 0 <= j < marked@.len() ==> !#[trigger] marked@[j],
            decreases n - marked@.len(),
        {
            marked.push(false);
        }
        marked.set(idx, true);
        let mut order: Vec<usize> = Vec::new();
        order.push(idx);
        proof {
            assert forall|j: int| 0 <= j < marked@.len() implies (#[trigger] marked@[j] <==> order@.contains(
                j as usize,
            )) by {
                if j == idx as int {
                    assert(order@[0] == idx);
                }
            }
        }
        let ghost seeded = order@;
        close_under_dependents(&self.txs, &mut marked, &mut order);
        assert(order@.take(1) == seeded);
        assert(order@.take(1)[0] == order@[0]);
        let ghost before = self.txs@;
        let mut txs: Vec<PoolTransaction> = Vec::new();
        std::mem::swap(&mut txs, &mut self.txs);
        let (kept, removed, Ghost(src)) = split_marked(txs, &marked, &order);
        proof {
            assert(order@[0] == idx);
            lemma_split_is_cascade(before, marked@, order@, 1, kept@, removed@, src);
            assert(removed@[0] == before[idx as int]);
            if has_id(kept@, id) {
                let a = choose|a: int| 0 <= a < kept@.len() && (#[trigger] kept@[a]).id == id;
                assert(kept@[a] == before[src[a]]);
                lemma_unique_position(before, src[a], idx as int);
                assert(kept@.contains(removed@[0]));
                assert(removed@.contains(removed@[0]));
            }
        }
        self.txs = kept;
        Ok(removed)
    }

    /// Admits `tx`, evicting every pooled transaction it collides with and,
    /// transitively, their dependents; the evicted transactions come back. A
    /// duplicate id gives `AlreadyKnown`, a candidate that does not outweigh its
    /// collisions gives `LessWorthy`, and a full pool that the candidate would not
    /// shrink gives `CapacityExceeded`; each leaves the pool as it was.
    pub fn insert(&mut self, tx: PoolTransaction) -> (r: Result<Vec<PoolTransaction>, Error>)
        requires
            old(self).wf(),
        ensures
            final(self).wf(),
            final(self).max_txs == old(self).max_txs,
            has_id(old(self).txs@, tx.id) ==> r == Err::<Vec<PoolTransaction>, Error>(Error::AlreadyKnown),
            !has_id(old(self).txs@, tx.id) && !is_more_worthy(old(self).txs@, tx) ==> r == Err::<
                Vec<PoolTransaction>,
                Error,
            >(Error::LessWorthy),
            !has_id(old(self).txs@, tx.id) && is_more_worthy(old(self).txs@, tx) && old(self).txs@.len()
                >= old(self).max_txs && !collides_with_any(old(self).txs@, tx) ==> r == Err::<
                Vec<PoolTransaction>,
                Error,
            >(Error::CapacityExceeded),
            !has_id(old(self).txs@, tx.id) && is_more_worthy(old(self).txs@, tx) && (old(self).txs@.len()
                < old(self).max_txs || collides_with_any(old(self).txs@, tx)) ==> r is Ok,
            r is Err ==> *final(self) == *old(self),
            r matches Ok(evicted) ==> {
                &&& final(self).txs@.len() >= 1
                &&& final(self).txs@.last() == tx
                &&& evicts_for(old(self).txs@, final(self).txs@.drop_last(), evicted@, tx)
            },
    {
        if self.find_index(tx.id).is_some() {
            return Err(Error::AlreadyKnown);
        }
        let collisions = match collect_colliding_transactions(&tx, &self.txs) {
            Err(e) => return Err(e),
            Ok(c) => c,
        };
        let ghost before = self.txs@;
        let n = self.txs.len();
        let s = collisions.colliding_txs.len();
        if s == 0 {
            proof {
                assert(!collides_with_any(before, tx)) by {
                    if collides_with_any(before, tx) {
                        let i = choose|i: int| 0 <= i < before.len() && collide(#[trigger] before[i], tx);
                        assert(collisions.colliding_txs@.contains(i as usize));
                    }
                }
            }
            if n >= self.max_txs {
                return Err(Error::CapacityExceeded);
            }
            self.txs.push(tx);
            let evicted: Vec<PoolTransaction> = Vec::new();
            proof {
                assert(self.txs@.drop_last() =~= before);
                assert(cascade_split(before, before, evicted@, 0));
                assert forall|i: int, j: int|
                    0 <= i < self.txs@.len() && 0 <= j < self.txs@.len() && i != j implies {
                    &&& (#[trigger] self.txs@[i]).id != (#[trigger] self.txs@[j]).id
                    &&& !collide(self.txs@[i], self.txs@[j])
                } by {
                    if i < n && j < n {
                        assert(self.txs@[i] == before[i]);
                        assert(self.txs@[j] == before[j]);
                    } else if i < n {
                        assert(self.txs@[i] == before[i]);
                        lemma_collide_symmetric(tx, before[i]);
                    } else {
                        assert(self.txs@[j] == before[j]);
                        lemma_collide_symmetric(tx, before[j]);
                    }
                }
            }
            return Ok(evicted);
        }
        proof {
            assert(collides_with_any(before, tx)) by {
                assert(collide(before[collisions.colliding_txs@[0] as int], tx));
            }
        }
        let mut marked: Vec<bool> = Vec::new();
        while marked.len() < n
            invariant
                marked@.len() <= n,
                forall|j: int| 0 <= j < marked@.len() ==> !#[trigger] marked@[j],
            decreases n - marked@.len(),
        {
            marked.push(false);
        }
        let mut order: Vec<usize> = Vec::new();
        let mut k: usize = 0;
        while k < s
            invariant
                s == collisions.colliding_txs@.len(),
                n == before.len(),
                before == self.txs@,
                k <= s,
                marked@.len() == n,
                forall|m: int|
                    0 <= m < s ==> (#[trigger] collisions.colliding_txs@[m] as int) < n,
                forall|m: int, p: int|
                    0 <= m < p < s ==> collisions.colliding_txs@[m] < collisions.colliding_txs@[p],
                order@ == collisions.colliding_txs@.take(k as int),
                marks_match(marked@, order@),
            decreases s - k,
        {
            let p = collisions.colliding_txs[k];
            let ghost old_order = order@;
            assert(!old_order.contains(p)) by {
                if old_order.contains(p) {
                    let w = choose|w: int| 0 <= w < k && old_order[w] == p;
                    assert(collisions.colliding_txs@[w] < collisions.colliding_txs@[k as int]);
                }
            }
            assert(!marked@[p as int]);
            marked.set(p, true);
            order.push(p);
            assert(order@ =~= collisions.colliding_txs@.take(k + 1));
            proof {
                assert forall|x: int| 0 <= x < marked@.len() implies (#[trigger] marked@[x]
                    <==> order@.contains(x as usize)) by {
                    if x != p as int {
                        if old_order.contains(x as usize) {
                            let w = choose|w: int| 0 <= w < old_order.len() && old_order[w] == x as usize;
                            assert(order@[w] == x as usize);
                        }
                        if order@.contains(x as usize) {
                            let w = choose|w: int| 0 <= w < order@.len() && order@[w] == x as usize;
                            assert(old_order[w] == x as usize);
                        }
                    } else {
                        assert(order@[old_order.len() as int] == p);
                    }
                }
            }
            k += 1;
        }
        assert(order@ =~= collisions.colliding_txs@);
        let ghost seeded = order@;
        let first = collisions.colliding_txs[0];
        assert(marked@[first as int]) by {
            assert(order@[0] == first);
        }
        close_under_dependents(&self.txs, &mut marked, &mut order);
        assert(order@.take(s as int) == seeded);
        let mut txs: Vec<PoolTransaction> = Vec::new();
        std::mem::swap(&mut txs, &mut self.txs);
        let (mut kept, evicted, Ghost(src)) = split_marked(txs, &marked, &order);
        proof {
            lemma_split_is_cascade(before, marked@, order@, s as int, kept@, evicted@, src);
            assert forall|m: int| 0 <= m < s implies collide(#[trigger] evicted@[m], tx) by {
                assert(order@.take(s as int)[m] == order@[m]);
                assert(evicted@[m] == before[order@[m] as int]);
            }
            assert forall|i: int| 0 <= i < before.len() && collide(#[trigger] before[i], tx) implies evicted@.take(
                s as int,
            ).contains(before[i]) by {
                assert(collisions.colliding_txs@.contains(i as usize));
                let m = choose|m: int| 0 <= m < s && collisions.colliding_txs@[m] == i as usize;
                assert(order@.take(s as int)[m] == order@[m]);
                assert(evicted@[m] == before[order@[m] as int]);
                assert(evicted@.take(s as int)[m] == before[i]);
            }
            assert(cascade_split(before, kept@, evicted@, s as int));
            assert(kept@.len() < n);
        }
        let ghost kept_before = kept@;
        kept.push(tx);
        proof {
            assert(kept@.drop_last() =~= kept_before);
            assert forall|i: int, j: int|
                0 <= i < kept@.len() && 0 <= j < kept@.len() && i != j implies {
                &&& (#[trigger] kept@[i]).id != (#[trigger] kept@[j]).id
                &&& !collide(kept@[i], kept@[j])
            } by {
                let last = kept_before.len() as int;
                if i < last && j < last {
                    assert(kept@[i] == kept_before[i]);
                    assert(kept@[j] == kept_before[j]);
                } else {
                    let o = if i < last { i } else { j };
                    assert(kept@[o] == kept_before[o]);
                    assert(kept_before[o] == before[src[o]]);
                    assert(!marked@[src[o]]);
                    if collide(before[src[o]], tx) {
                        assert(collisions.colliding_txs@.contains(src[o] as usize));
                        let m = choose|m: int| 0 <= m < s && collisions.colliding_txs@[m] == src[o] as usize;
                        assert(order@.take(s as int)[m] == order@[m]);
                        assert(order@.contains(src[o] as usize));
                    }
                    lemma_collide_symmetric(tx, before[src[o]]);
                }
            }
        }
        self.txs = kept;
        Ok(evicted)
    }
}

impl CollisionManagerStorage for Pool {
    open spec fn stored(&self) -> Seq<PoolTransaction> {
        self.txs@
    }

    fn get(&self, index: usize) -> (r: Result<&PoolTransaction, Error>) {
        if index < self.txs.len() {
            Ok(&self.txs[index])
        } else {
            Err(Error::NotFound)
        }
    }
}

/// Mutual exclusion: in a well-formed pool no resource is claimed by two different
/// pooled transactions.
pub proof fn lemma_pooled_resources_exclusive(pool: Pool, i: int, j: int, r: CollisionReason)
    requires
        pool.wf(),
        0 <= i < pool.txs@.len(),
        0 <= j < pool.txs@.len(),
        i != j,
    ensures
        !(pool.txs@[i].resources@.contains(r) && pool.txs@[j].resources@.contains(r)),
{
    if pool.txs@[i].resources@.contains(r) && pool.txs@[j].resources@.contains(r) {
        let k = choose|k: int| 0 <= k < pool.txs@[i].resources@.len() && pool.txs@[i].resources@[k] == r;
        assert(pool.txs@[j].resources@.contains(pool.txs@[i].resources@[k]));
        assert(collide(pool.txs@[i], pool.txs@[j]));
    }
}

/// Checks each resource of `tx` against the chain state's answer for it.
pub fn check_resources(txs: &Vec<PoolTransaction>, tx: &PoolTransaction, on_chain: &Vec<bool>) -> (r: bool)
    ensures
        r == resources_available(txs@, *tx, on_chain@),
{
    if on_chain.len() != tx.resources.len() {
        return false;
    }
    let mut k: usize = 0;
    while k < on_chain.len()
        invariant
            on_chain@.len() == tx.resources@.len(),
            k <= on_chain@.len(),
            forall|j: int|
                0 <= j < k ==> resource_available(txs@, #[trigger] tx.resources@[j], on_chain@[j]),
        decreases on_chain@.len() - k,
    {
        let ok = match tx.resources[k] {
            CollisionReason::Coin(u) => on_chain[k] || find_id(txs, u.tx_id),
            CollisionReason::Message(_) => on_chain[k],
            CollisionReason::Blob(_) => !on_chain[k],
            CollisionReason::ContractCreation(_) => !on_chain[k],
        };
        if !ok {
            return false;
        }
        k += 1;
    }
    true
}

fn find_id(txs: &Vec<PoolTransaction>, id: TxId) -> (r: bool)
    ensures
        r == has_id(txs@, id),
{
    let mut i: usize = 0;
    while i < txs.len()
        invariant
            i <= txs@.len(),
            forall|j: int| 0 <= j < i ==> (#[trigger] txs@[j]).id != id,
        decreases txs@.len() - i,
    {
        if txs[i].id == id {
            return true;
        }
        i += 1;
    }
    false
}

impl Pool {
    /// Admits `tx` after checking its resources against the chain state's answers,
    /// one per resource in order: unavailable resources give `InvalidResource` and
    /// leave the pool as it was; otherwise this is `insert`.
    pub fn submit(&mut self, tx: PoolTransaction, on_chain: &Vec<bool>) -> (r: Result<Vec<PoolTransaction>, Error>)
        requires
            old(self).wf(),
        ensures
            final(self).wf(),
            final(self).max_txs == old(self).max_txs,
            !resources_available(old(self).txs@, tx, on_chain@) ==> r == Err::<Vec<PoolTransaction>, Error>(
                Error::InvalidResource,
            ),
            resources_available(old(self).txs@, tx, on_chain@) ==> {
                &&& has_id(old(self).txs@, tx.id) ==> r == Err::<Vec<PoolTransaction>, Error>(Error::AlreadyKnown)
                &&& !has_id(old(self).txs@, tx.id) && !is_more_worthy(old(self).txs@, tx) ==> r == Err::<
                    Vec<PoolTransaction>,
                    Error,
                >(Error::LessWorthy)
                &&& !has_id(old(self).txs@, tx.id) && is_more_worthy(old(self).txs@, tx) && old(self).txs@.len()
                    >= old(self).max_txs && !collides_with_any(old(self).txs@, tx) ==> r == Err::<
                    Vec<PoolTransaction>,
                    Error,
                >(Error::CapacityExceeded)
                &&& !has_id(old(self).txs@, tx.id) && is_more_worthy(old(self).txs@, tx) && (old(self).txs@.len()
                    < old(self).max_txs || collides_with_any(old(self).txs@, tx)) ==> r is Ok
            },
            r is Err ==> *final(self) == *old(self),
            r matches Ok(evicted) ==> {
                &&& final(self).txs@.len() >= 1
                &&& final(self).txs@.last() == tx
                &&& evicts_for(old(self).txs@, final(self).txs@.drop_last(), evicted@, tx)
            },
    {
        if !check_resources(&self.txs, &tx, on_chain) {
            return Err(Error::InvalidResource);
        }
        self.insert(tx)
    }
}

fn holds_id(ids: &Vec<TxId>, id: TxId) -> (r: bool)
    ensures
        r == ids@.contains(id),
{
    let mut i: usize = 0;
    while i < ids.len()
        invariant
            i <= ids@.len(),
            forall|j: int| 0 <= j < i ==> ids@[j] != id,
        decreases ids@.len() - i,
    {
        if ids[i] == id {
            return true;
        }
        i += 1;
    }
    false
}

impl Pool {
    /// Takes out the transactions whose ids a committed block included, and only
    /// those: their outputs are now on chain, so nothing cascades. The taken
    /// transactions come back in pool order.
    pub fn remove_committed(&mut self, ids: &Vec<TxId>) -> (removed: Vec<PoolTransaction>)
        requires
            old(self).wf(),
        ensures
            final(self).wf(),
            final(self).max_txs == old(self).max_txs,
            forall|t: PoolTransaction|
                old(self).txs@.contains(t) <==> (final(self).txs@.contains(t) || removed@.contains(t)),
            forall|t: PoolTransaction| #[trigger] final(self).txs@.contains(t) ==> !ids@.contains(t.id),
            forall|t: PoolTransaction| #[trigger] removed@.contains(t) ==> ids@.contains(t.id),
    {
        let n = self.txs.len();
        let mut marked: Vec<bool> = Vec::new();
        let mut order: Vec<usize> = Vec::new();
        while marked.len() < n
            invariant
                n == self.txs@.len(),
                marked@.len() <= n,
                marks_match(marked@, order@),
                forall|j: int| 0 <= j < marked@.len() ==> #[trigger] marked@[j] == ids@.contains(self.txs@[j].id),
            decreases n - marked@.len(),
        {
            let i = marked.len();
            let hit = holds_id(ids, self.txs[i].id);
            let ghost old_order = order@;
            let ghost old_marked = marked@;
            marked.push(hit);
            if hit {
                order.push(i);
            }
            proof {
                assert(!old_order.contains(i)) by {
                    if old_order.contains(i) {
                        let w = choose|w: int| 0 <= w < old_order.len() && old_order[w] == i;
                    }
                }
                assert forall|x: int| 0 <= x < marked@.len() implies (#[trigger] marked@[x]
                    <==> order@.contains(x as usize)) by {
                    if x < i {
                        assert(marked@[x] == old_marked[x]);
                        if old_order.contains(x as usize) {
                            let w = choose|w: int| 0 <= w < old_order.len() && old_order[w] == x as usize;
                            assert(order@[w] == x as usize);
                        }
                        if order@.contains(x as usize) {
                            let w = choose|w: int| 0 <= w < order@.len() && order@[w] == x as usize;
                            if w < old_order.len() {
                                assert(old_order[w] == x as usize);
                            }
                        }
                    } else if hit {
                        assert(order@[old_order.len() as int] == i);
                    } else {
                        assert(order@ == old_order);
                    }
                }
            }
        }
        let ghost before = self.txs@;
        let mut txs: Vec<PoolTransaction> = Vec::new();
        std::mem::swap(&mut txs, &mut self.txs);
        let (kept, removed, Ghost(src)) = split_marked(txs, &marked, &order);
        proof {
            assert forall|t: PoolTransaction|
                before.contains(t) <==> (kept@.contains(t) || removed@.contains(t)) by {
                if before.contains(t) {
                    let i = choose|i: int| 0 <= i < before.len() && before[i] == t;
                    if marked@[i] {
                        let k = choose|k: int| 0 <= k < order@.len() && order@[k] == i as usize;
                        assert(removed@[k] == before[order@[k] as int]);
                    }
                }
                if kept@.contains(t) {
                    let k = choose|k: int| 0 <= k < kept@.len() && kept@[k] == t;
                    assert(before[src[k]] == t);
                }
                if removed@.contains(t) {
                    let k = choose|k: int| 0 <= k < removed@.len() && removed@[k] == t;
                    assert(before[order@[k] as int] == t);
                }
            }
            assert forall|t: PoolTransaction| #[trigger] kept@.contains(t) implies !ids@.contains(t.id) by {
                let k = choose|k: int| 0 <= k < kept@.len() && kept@[k] == t;
                assert(!marked@[src[k]]);
            }
            assert forall|t: PoolTransaction| #[trigger] removed@.contains(t) implies ids@.contains(t.id) by {
                let k = choose|k: int| 0 <= k < removed@.len() && removed@[k] == t;
                assert(marked@[order@[k] as int]);
            }
            assert forall|i: int, j: int| 0 <= i < kept@.len() && 0 <= j < kept@.len() && i != j implies {
                &&& (#[trigger] kept@[i]).id != (#[trigger] kept@[j]).id
                &&& !collide(kept@[i], kept@[j])
            } by {
                assert(src[i] != src[j]);
                assert(before[src[i]] == kept@[i]);
                assert(before[src[j]] == kept@[j]);
            }
        }
        self.txs = kept;
        removed
    }
}

} // verus!
