//! Producer/consumer edges between pooled transactions and the closure of a set of
//! pooled transactions under "spends an output of".

use vstd::prelude::*;
use crate::collision_manager::{CollisionReason, PoolTransaction, TxId};

verus! {

/// Whether a claimed resource is an output of the transaction `producer`.
pub open spec fn spends_from(r: CollisionReason, producer: TxId) -> bool {
    match r {
        CollisionReason::Coin(u) => u.tx_id == producer,
        _ => false,
    }
}

/// Whether `consumer` spends an output of the transaction with id `producer`.
pub open spec fn depends_on(consumer: PoolTransaction, producer: TxId) -> bool {
    exists|k: int|
        0 <= k < consumer.resources@.len() && spends_from(#[trigger] consumer.resources@[k], producer)
}

/// Whether `consumer` spends an output of the transaction with id `producer`.
pub fn spends_output_of(consumer: &PoolTransaction, producer: TxId) -> (r: bool)
    ensures
        r == depends_on(*consumer, producer),
{
    let mut k: usize = 0;
    while k < consumer.resources.len()
        invariant
            k <= consumer.resources@.len(),
            forall|j: int| 0 <= j < k ==> !spends_from(#[trigger] consumer.resources@[j], producer),
        decreases consumer.resources@.len() - k,
    {
        match consumer.resources[k] {
            CollisionReason::Coin(u) => {
                if u.tx_id == producer {
                    return true;
                }
            },
            _ => {},
        }
        k += 1;
    }
    false
}

/// `order` lists without repetition exactly the positions that `marked` flags.
pub open spec fn marks_match(marked: Seq<bool>, order: Seq<usize>) -> bool {
    &&& order.no_duplicates()
    &&& forall|k: int| 0 <= k < order.len() ==> (#[trigger] order[k] as int) < marked.len()
    &&& forall|j: int| 0 <= j < marked.len() ==> (#[trigger] marked[j] <==> order.contains(j as usize))
}

/// The transaction at `order[k]` spends an output of one listed before it.
pub open spec fn derived_from_earlier(txs: Seq<PoolTransaction>, order: Seq<usize>, k: int) -> bool {
    exists|m: int| 0 <= m < k && #[trigger] depends_on(txs[order[k] as int], txs[order[m] as int].id)
}

/// No unmarked transaction spends an output of a marked one.
pub open spec fn closed_under_dependents(txs: Seq<PoolTransaction>, marked: Seq<bool>) -> bool {
    forall|a: int, b: int|
        0 <= a < txs.len() && 0 <= b < txs.len() && marked[b] && #[trigger] depends_on(txs[a], txs[b].id)
            ==> marked[a]
}

/// How many positions are not marked.
pub open spec fn count_unmarked(m: Seq<bool>) -> nat
    decreases m.len(),
{
    if m.len() == 0 {
        0
    } else {
        count_unmarked(m.drop_last()) + if m.last() {
            0nat
        } else {
            1nat
        }
    }
}

/// Marking an unmarked position leaves one fewer unmarked.
pub proof fn lemma_mark_one(m: Seq<bool>, i: int)
    requires
        0 <= i < m.len(),
        !m[i],
    ensures
        count_unmarked(m.update(i, true)) + 1 == count_unmarked(m),
    decreases m.len(),
{
    if i == m.len() - 1 {
        assert(m.update(i, true).drop_last() =~= m.drop_last());
    } else {
        assert(m.update(i, true).drop_last() =~= m.drop_last().update(i, true));
        lemma_mark_one(m.drop_last(), i);
    }
}

/// Extends the marks, in `order`, with every transaction that transitively spends an
/// output of a marked one; each added position is derived from one listed before it.
pub fn close_under_dependents(txs: &Vec<PoolTransaction>, marked: &mut Vec<bool>, order: &mut Vec<usize>)
    requires
        old(marked)@.len() == txs@.len(),
        marks_match(old(marked)@, old(order)@),
    ensures
        final(marked)@.len() == txs@.len(),
        marks_match(final(marked)@, final(order)@),
        final(order)@.len() >= old(order)@.len(),
        final(order)@.take(old(order)@.len() as int) == old(order)@,
        forall|k: int|
            old(order)@.len() <= k < final(order)@.len() ==> #[trigger] derived_from_earlier(
                txs@,
                final(order)@,
                k,
            ),
        closed_under_dependents(txs@, final(marked)@),
{
    let n = txs.len();
    let ghost start = order@;
    loop
        invariant
            n == txs@.len(),
            marked@.len() == n,
            marks_match(marked@, order@),
            order@.len() >= start.len(),
            order@.take(start.len() as int) == start,
            forall|k: int|
                start.len() <= k < order@.len() ==> #[trigger] derived_from_earlier(txs@, order@, k),
        ensures
            closed_under_dependents(txs@, marked@),
        decreases count_unmarked(marked@),
    {
        let ghost c0 = count_unmarked(marked@);
        let mut changed = false;
        let mut i: usize = 0;
        while i < n
            invariant
                n == txs@.len(),
                i <= n,
                marked@.len() == n,
                marks_match(marked@, order@),
                order@.len() >= start.len(),
                order@.take(start.len() as int) == start,
                forall|k: int|
                    start.len() <= k < order@.len() ==> #[trigger] derived_from_earlier(txs@, order@, k),
                changed ==> count_unmarked(marked@) < c0,
                !changed ==> count_unmarked(marked@) == c0,
                !changed ==> forall|a: int, b: int|
                    0 <= a < i && 0 <= b < n && !marked@[a] && marked@[b] ==> !#[trigger] depends_on(
                        txs@[a],
                        txs@[b].id,
                    ),
            decreases n - i,
        {
            if !marked[i] {
                let mut j: usize = 0;
                let mut found = false;
                while j < n && !found
                    invariant
                        n == txs@.len(),
                        i < n,
                        j <= n,
                        marked@.len() == n,
                        found ==> (j < n && marked@[j as int] && depends_on(txs@[i as int], txs@[j as int].id)),
                        !found ==> forall|b: int|
                            0 <= b < j && marked@[b] ==> !#[trigger] depends_on(txs@[i as int], txs@[b].id),
                    decreases n - j + if found {
                        0int
                    } else {
                        1int
                    },
                {
                    if marked[j] && spends_output_of(&txs[i], txs[j].id) {
                        found = true;
                    } else {
                        j += 1;
                    }
                }
                if found {
                    let ghost old_marked = marked@;
                    let ghost old_order = order@;
                    proof {
                        lemma_mark_one(marked@, i as int);
                    }
                    marked.set(i, true);
                    order.push(i);
                    changed = true;
                    proof {
                        let m = choose|m: int| 0 <= m < old_order.len() && old_order[m] == j;
                        assert(order@[m] == j);
                        assert(order@[old_order.len() as int] == i);
                        assert(derived_from_earlier(txs@, order@, old_order.len() as int));
                        assert forall|k: int|
                            start.len() <= k < order@.len() implies #[trigger] derived_from_earlier(
                                txs@,
                                order@,
                                k,
                            ) by {
                            if k < old_order.len() {
                                assert(derived_from_earlier(txs@, old_order, k));
                                let m2 = choose|m2: int|
                                    0 <= m2 < k && #[trigger] depends_on(
                                        txs@[old_order[k] as int],
                                        txs@[old_order[m2] as int].id,
                                    );
                                assert(order@[m2] == old_order[m2]);
                                assert(order@[k] == old_order[k]);
                            }
                        }
                        assert(order@.take(start.len() as int) =~= old_order.take(start.len() as int));
                        assert forall|x: int| 0 <= x < marked@.len() implies (#[trigger] marked@[x]
                            <==> order@.contains(x as usize)) by {
                            if x != i {
                                if old_order.contains(x as usize) {
                                    let w = choose|w: int| 0 <= w < old_order.len() && old_order[w] == x as usize;
                                    assert(order@[w] == x as usize);
                                }
                                if order@.contains(x as usize) {
                                    let w = choose|w: int| 0 <= w < order@.len() && order@[w] == x as usize;
                                    assert(old_order[w] == x as usize);
                                }
                            } else {
                                assert(order@[old_order.len() as int] == i);
                            }
                        }
                        assert(!old_order.contains(i));
                    }
                }
            }
            i += 1;
        }
        if !changed {
            break;
        }
    }
}

} // verus!
