//! Exclusive resources, the collisions of a candidate with pooled transactions,
//! and the worth rule that decides whether the candidate may replace them.

use vstd::prelude::*;
use crate::coins::UtxoId;
use crate::error::Error;

verus! {

pub type TxId = u64;

pub type BlobId = u64;

pub type Nonce = u64;

pub type ContractId = u64;

/// A resource that at most one pooled transaction may claim.
#[derive(Debug, Copy, Clone, PartialEq, Eq, Structural, PartialOrd, Ord, Hash)]
pub enum CollisionReason {
    Coin(UtxoId),
    Blob(BlobId),
    Message(Nonce),
    ContractCreation(ContractId),
}

/// A validated transaction with the metadata that the pool reads.
#[derive(Debug)]
pub struct PoolTransaction {
    pub id: TxId,
    /// The priority metric used for admission and selection.
    pub worth: u64,
    pub max_gas: u64,
    /// Size in bytes.
    pub size: u64,
    /// Every exclusive resource the transaction spends or creates.
    pub resources: Vec<CollisionReason>,
}

/// Whether two transactions claim a common resource.
pub open spec fn collide(a: PoolTransaction, b: PoolTransaction) -> bool {
    exists|k: int| 0 <= k < a.resources@.len() && b.resources@.contains(#[trigger] a.resources@[k])
}

/// The summed worth of the pooled transactions that collide with `tx`.
pub open spec fn colliding_worth(pool: Seq<PoolTransaction>, tx: PoolTransaction) -> int
    decreases pool.len(),
{
    if pool.len() == 0 {
        0
    } else {
        colliding_worth(pool.drop_last(), tx) + if collide(pool.last(), tx) {
            pool.last().worth as int
        } else {
            0
        }
    }
}

/// Whether `tx` has a smaller id than every pooled transaction it collides with.
pub open spec fn wins_ties(pool: Seq<PoolTransaction>, tx: PoolTransaction) -> bool {
    forall|i: int| 0 <= i < pool.len() && collide(#[trigger] pool[i], tx) ==> tx.id < pool[i].id
}

/// The admission rule: the candidate's worth strictly exceeds the worth of everything it
/// collides with, or equals it and the candidate has the smaller id.
pub open spec fn is_more_worthy(pool: Seq<PoolTransaction>, tx: PoolTransaction) -> bool {
    colliding_worth(pool, tx) < tx.worth || (colliding_worth(pool, tx) == tx.worth && wins_ties(
        pool,
        tx,
    ))
}

/// The information about the collisions of a candidate.
pub struct Collisions {
    /// Distinct resources that the candidate shares with pooled transactions.
    pub reasons: Vec<CollisionReason>,
    /// Positions, in increasing order, of the pooled transactions it collides with.
    pub colliding_txs: Vec<usize>,
}

impl Collisions {
    /// Creates an empty collision record.
    pub fn new() -> (r: Collisions)
        ensures
            r.reasons@.len() == 0,
            r.colliding_txs@.len() == 0,
    {
        Collisions { reasons: Vec::new(), colliding_txs: Vec::new() }
    }
}

/// Read access to the pooled transactions by position.
pub trait CollisionManagerStorage {
    /// The pooled transactions, by position.
    spec fn stored(&self) -> Seq<PoolTransaction>;

    /// The transaction at `index`, or `NotFound` past the end.
    fn get(&self, index: usize) -> (r: Result<&PoolTransaction, Error>)
        ensures
            (index as int) < self.stored().len() ==> (r matches Ok(t) && *t == self.stored()[index as int]),
            (index as int) >= self.stored().len() ==> r == Err::<&PoolTransaction, Error>(Error::NotFound),
    ;
}

proof fn lemma_colliding_worth_prefix(pool: Seq<PoolTransaction>, tx: PoolTransaction, i: int)
    requires
        0 <= i <= pool.len(),
    ensures
        0 <= colliding_worth(pool.take(i), tx) <= colliding_worth(pool, tx),
    decreases pool.len(),
{
    if i == pool.len() {
        assert(pool.take(i) =~= pool);
        lemma_colliding_worth_nonneg(pool, tx);
    } else {
        assert(pool.take(i) =~= pool.drop_last().take(i));
        lemma_colliding_worth_prefix(pool.drop_last(), tx, i);
    }
}

proof fn lemma_colliding_worth_nonneg(pool: Seq<PoolTransaction>, tx: PoolTransaction)
    ensures
        colliding_worth(pool, tx) >= 0,
    decreases pool.len(),
{
    if pool.len() > 0 {
        lemma_colliding_worth_nonneg(pool.drop_last(), tx);
    }
}

/// Whether a resource list holds `r`.
pub fn holds_resource(resources: &Vec<CollisionReason>, r: CollisionReason) -> (b: bool)
    ensures
        b == resources@.contains(r),
{
    let mut i: usize = 0;
    while i < resources.len()
        invariant
            i <= resources@.len(),
            forall|j: int| 0 <= j < i ==> resources@[j] != r,
        decreases resources@.len() - i,
    {
        if resources[i] == r {
            return true;
        }
        i += 1;
    }
    false
}

/// Whether two transactions claim a common resource.
pub fn collides_with(a: &PoolTransaction, b: &PoolTransaction) -> (r: bool)
    ensures
        r == collide(*a, *b),
{
    let mut k: usize = 0;
    while k < a.resources.len()
        invariant
            k <= a.resources@.len(),
            forall|j: int| 0 <= j < k ==> !b.resources@.contains(#[trigger] a.resources@[j]),
        decreases a.resources@.len() - k,
    {
        if holds_resource(&b.resources, a.resources[k]) {
            return true;
        }
        k += 1;
    }
    false
}

/// Adds to `reasons` each resource of `a` that `b` also holds, keeping them distinct.
fn add_shared(reasons: &mut Vec<CollisionReason>, a: &Vec<CollisionReason>, b: &Vec<CollisionReason>)
    requires
        old(reasons)@.no_duplicates(),
    ensures
        final(reasons)@.no_duplicates(),
        forall|r: CollisionReason|
            final(reasons)@.contains(r) <==> (old(reasons)@.contains(r) || (a@.contains(r)
                && b@.contains(r))),
{
    let ghost orig = reasons@;
    let mut k: usize = 0;
    while k < a.len()
        invariant
            k <= a@.len(),
            reasons@.no_duplicates(),
            forall|r: CollisionReason|
                reasons@.contains(r) <==> (orig.contains(r) || (a@.take(k as int).contains(r)
                    && b@.contains(r))),
        decreases a@.len() - k,
    {
        let item = a[k];
        let ghost before = reasons@;
        assert(a@.take(k + 1) =~= a@.take(k as int).push(item));
        let in_b = holds_resource(b, item);
        let present = holds_resource(reasons, item);
        if in_b && !present {
            reasons.push(item);
            assert(reasons@ =~= before.push(item));
        }
        proof {
            assert forall|x: CollisionReason|
                #[trigger] reasons@.contains(x) <==> (orig.contains(x) || (a@.take(k + 1).contains(x)
                    && b@.contains(x))) by {
                if reasons@.contains(x) && !before.contains(x) {
                    assert(x == item);
                    assert(a@.take(k + 1)[k as int] == item);
                }
                if a@.take(k + 1).contains(x) && !a@.take(k as int).contains(x) {
                    let j = choose|j: int| 0 <= j < k + 1 && #[trigger] a@.take(k + 1)[j] == x;
                    if j < k {
                        assert(a@.take(k as int)[j] == x);
                    }
                    assert(x == item);
                    if !present && in_b {
                        assert(reasons@[reasons@.len() - 1] == item);
                    }
                }
                if before.contains(x) {
                    let j = choose|j: int| 0 <= j < before.len() && before[j] == x;
                    assert(reasons@[j] == x);
                }
                if a@.take(k as int).contains(x) {
                    let j = choose|j: int| 0 <= j < k && #[trigger] a@.take(k as int)[j] == x;
                    assert(a@.take(k + 1)[j] == x);
                }
                assert(orig.contains(x) ==> before.contains(x));
                assert((a@.take(k as int).contains(x) && b@.contains(x)) ==> before.contains(x));
                assert((x == item && b@.contains(x)) ==> reasons@.contains(x));
                assert(a@.take(k + 1).contains(x) ==> (x == item || a@.take(k as int).contains(x)));
            }
        }
        k += 1;
    }
    assert(a@.take(k as int) =~= a@);
}

/// Collects the pooled transactions that collide with `transaction`. Fails with
/// `LessWorthy` exactly when the candidate does not outweigh them.
pub fn collect_colliding_transactions(
    transaction: &PoolTransaction,
    storage: &Vec<PoolTransaction>,
) -> (r: Result<Collisions, Error>)
    ensures
        r is Ok <==> is_more_worthy(storage@, *transaction),
        r is Err ==> r == Err::<Collisions, Error>(Error::LessWorthy),
        r matches Ok(c) ==> {
            &&& forall|k: int|
                0 <= k < c.colliding_txs@.len() ==> {
                    &&& (c.colliding_txs@[k] as int) < storage@.len()
                    &&& collide(storage@[#[trigger] c.colliding_txs@[k] as int], *transaction)
                }
            &&& forall|k: int, m: int|
                0 <= k < m < c.colliding_txs@.len() ==> c.colliding_txs@[k]
                    < c.colliding_txs@[m]
            &&& forall|i: int|
                0 <= i < storage@.len() && collide(#[trigger] storage@[i], *transaction) ==> c.colliding_txs@.contains(i as usize)
            &&& c.reasons@.no_duplicates()
            &&& forall|x: CollisionReason|
                c.reasons@.contains(x) <==> (transaction.resources@.contains(x) && exists|i: int|
                    0 <= i < storage@.len() && (#[trigger] storage@[i]).resources@.contains(x))
        },
{
    let ghost pool = storage@;
    let mut collisions = Collisions::new();
    let mut total: u64 = 0;
    let mut ties_won = true;
    let mut i: usize = 0;
    while i < storage.len()
        invariant
            pool == storage@,
            i <= pool.len(),
            total as int == colliding_worth(pool.take(i as int), *transaction),
            total <= transaction.worth,
            ties_won == wins_ties(pool.take(i as int), *transaction),
            forall|k: int|
                0 <= k < collisions.colliding_txs@.len() ==> {
                    &&& (collisions.colliding_txs@[k] as int) < i
                    &&& collide(pool[#[trigger] collisions.colliding_txs@[k] as int], *transaction)
                },
            forall|k: int, m: int|
                0 <= k < m < collisions.colliding_txs@.len() ==> collisions.colliding_txs@[k]
                    < collisions.colliding_txs@[m],
            forall|j: int|
                0 <= j < i && collide(#[trigger] pool[j], *transaction)
                    ==> collisions.colliding_txs@.contains(j as usize),
            collisions.reasons@.no_duplicates(),
            forall|x: CollisionReason|
                collisions.reasons@.contains(x) <==> (transaction.resources@.contains(x) && exists|j: int|
                    0 <= j < i && (#[trigger] pool[j]).resources@.contains(x)),
        decreases pool.len() - i,
    {
        let ghost before = collisions;
        assert(pool.take(i + 1).drop_last() =~= pool.take(i as int));
        assert(pool.take(i + 1).last() == pool[i as int]);
        let tx = &storage[i];
        if collides_with(tx, transaction) {
            if tx.worth > transaction.worth - total {
                proof {
                    lemma_colliding_worth_prefix(pool, *transaction, i + 1);
                }
                return Err(Error::LessWorthy);
            }
            total = total + tx.worth;
            if transaction.id >= tx.id {
                ties_won = false;
            }
            add_shared(&mut collisions.reasons, &transaction.resources, &tx.resources);
            collisions.colliding_txs.push(i);
            assert(collisions.colliding_txs@.last() == i);
        }
        proof {
            assert(ties_won == wins_ties(pool.take(i + 1), *transaction)) by {
                if wins_ties(pool.take(i + 1), *transaction) {
                    assert forall|j: int| 0 <= j < i && collide(#[trigger] pool.take(i as int)[j], *transaction)
                    implies transaction.id < pool.take(i as int)[j].id by {
                        assert(pool.take(i + 1)[j] == pool.take(i as int)[j]);
                    }
                }
                if collide(pool[i as int], *transaction) && transaction.id >= pool[i as int].id {
                    assert(pool.take(i + 1)[i as int] == pool[i as int]);
                }
            }
            assert forall|j: int| 0 <= j < i + 1 && collide(#[trigger] pool[j], *transaction)
            implies collisions.colliding_txs@.contains(j as usize) by {
                if j < i {
                    let k = choose|k: int| 0 <= k < before.colliding_txs@.len() && before.colliding_txs@[k] == j as usize;
                    assert(collisions.colliding_txs@[k] == j as usize);
                } else {
                    assert(collisions.colliding_txs@[collisions.colliding_txs@.len() - 1] == j as usize);
                }
            }
            assert forall|x: CollisionReason|
                collisions.reasons@.contains(x) <==> (transaction.resources@.contains(x) && exists|j: int|
                    0 <= j < i + 1 && (#[trigger] pool[j]).resources@.contains(x)) by {
                if transaction.resources@.contains(x) && pool[i as int].resources@.contains(x) {
                    let k = choose|k: int| 0 <= k < transaction.resources@.len() && transaction.resources@[k] == x;
                    assert(pool[i as int].resources@.contains(transaction.resources@[k]));
                }
            }
        }
        i += 1;
    }
    assert(pool.take(i as int) =~= pool);
    if total == transaction.worth && !ties_won {
        return Err(Error::LessWorthy);
    }
    Ok(collisions)
}

proof fn lemma_colliding_worth_remove(pool: Seq<PoolTransaction>, tx: PoolTransaction, j: int)
    requires
        0 <= j < pool.len(),
    ensures
        colliding_worth(pool, tx) == colliding_worth(pool.remove(j), tx) + if collide(pool[j], tx) {
            pool[j].worth as int
        } else {
            0
        },
    decreases pool.len(),
{
    if j == pool.len() - 1 {
        assert(pool.remove(j) =~= pool.drop_last());
    } else {
        lemma_colliding_worth_remove(pool.drop_last(), tx, j);
        assert(pool.remove(j).drop_last() =~= pool.drop_last().remove(j));
        assert(pool.remove(j).last() == pool.last());
    }
}

proof fn lemma_colliding_worth_permutation(left: Seq<PoolTransaction>, right: Seq<PoolTransaction>, tx: PoolTransaction)
    requires
        left.to_multiset() == right.to_multiset(),
    ensures
        colliding_worth(left, tx) == colliding_worth(right, tx),
    decreases left.len(),
{
    broadcast use vstd::seq_lib::to_multiset_len, vstd::seq_lib::to_multiset_build,
        vstd::seq_lib::to_multiset_remove, vstd::seq_lib::to_multiset_contains,
        vstd::multiset::group_multiset_axioms;

    if left.len() == 0 {
        assert(right.to_multiset().len() == 0);
        assert(right.len() == 0);
    } else {
        let x = left.last();
        assert(left =~= left.drop_last().push(x));
        assert(left.to_multiset() =~= left.drop_last().to_multiset().insert(x));
        assert(right.to_multiset().count(x) > 0);
        assert(right.contains(x));
        let j = choose|j: int| 0 <= j < right.len() && right[j] == x;
        assert(right.remove(j).to_multiset() =~= left.drop_last().to_multiset());
        lemma_colliding_worth_remove(right, tx, j);
        lemma_colliding_worth_permutation(left.drop_last(), right.remove(j), tx);
    }
}

/// Collision resolution does not depend on arrival order: two pools that hold the
/// same transactions, in any order, give the candidate the same admission decision
/// and the same set of transactions it collides with.
pub proof fn lemma_collision_resolution_order_independent(
    left: Seq<PoolTransaction>,
    right: Seq<PoolTransaction>,
    tx: PoolTransaction,
)
    requires
        left.to_multiset() == right.to_multiset(),
    ensures
        is_more_worthy(left, tx) == is_more_worthy(right, tx),
        forall|t: PoolTransaction|
            (left.contains(t) && #[trigger] collide(t, tx)) <==> (right.contains(t) && collide(t, tx)),
{
    broadcast use vstd::seq_lib::to_multiset_contains;

    lemma_colliding_worth_permutation(left, right, tx);
    assert forall|t: PoolTransaction| left.contains(t) <==> right.contains(t) by {
        vstd::seq_lib::to_multiset_contains(left, t);
        vstd::seq_lib::to_multiset_contains(right, t);
    }
    assert(wins_ties(left, tx) == wins_ties(right, tx)) by {
        if wins_ties(left, tx) {
            assert forall|i: int| 0 <= i < right.len() && collide(#[trigger] right[i], tx) implies tx.id < right[i].id by {
                assert(right.contains(right[i]));
                let w = choose|w: int| 0 <= w < left.len() && left[w] == right[i];
            }
        }
        if wins_ties(right, tx) {
            assert forall|i: int| 0 <= i < left.len() && collide(#[trigger] left[i], tx) implies tx.id < left[i].id by {
                assert(left.contains(left[i]));
                let w = choose|w: int| 0 <= w < right.len() && right[w] == left[i];
            }
        }
    }
}

} // verus!
