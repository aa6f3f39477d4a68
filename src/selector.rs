//! Greedy, dependency-respecting selection of a bounded batch of pooled transactions.

use vstd::prelude::*;
use crate::collision_manager::PoolTransaction;
use crate::dependency::{count_unmarked, depends_on, lemma_mark_one, marks_match, spends_output_of};
use crate::pool::Pool;

verus! {

/// Summed maximum gas of the transactions at the positions `chosen`.
pub open spec fn sum_gas(txs: Seq<PoolTransaction>, chosen: Seq<usize>) -> int
    decreases chosen.len(),
{
    if chosen.len() == 0 {
        0
    } else {
        sum_gas(txs, chosen.drop_last()) + txs[chosen.last() as int].max_gas as int
    }
}

/// Summed byte size of the transactions at the positions `chosen`.
pub open spec fn sum_size(txs: Seq<PoolTransaction>, chosen: Seq<usize>) -> int
    decreases chosen.len(),
{
    if chosen.len() == 0 {
        0
    } else {
        sum_size(txs, chosen.drop_last()) + txs[chosen.last() as int].size as int
    }
}

/// Every pooled producer of the transaction at `j` is among `chosen`.
pub open spec fn ready(txs: Seq<PoolTransaction>, chosen: Seq<usize>, j: int) -> bool {
    forall|p: int| 0 <= p < txs.len() && #[trigger] depends_on(txs[j], txs[p].id) ==> chosen.contains(p as usize)
}

/// Adding the transaction at `j` to `chosen` stays within the gas and size limits.
pub open spec fn fits(txs: Seq<PoolTransaction>, chosen: Seq<usize>, j: int, gas_limit: u64, size_limit: u32) -> bool {
    &&& sum_gas(txs, chosen) + txs[j].max_gas <= gas_limit
    &&& sum_size(txs, chosen) + txs[j].size <= size_limit
}

/// The transaction at `j` could be appended to `chosen`.
pub open spec fn is_candidate(txs: Seq<PoolTransaction>, chosen: Seq<usize>, j: int, gas_limit: u64, size_limit: u32) -> bool {
    &&& 0 <= j < txs.len()
    &&& !chosen.contains(j as usize)
    &&& ready(txs, chosen, j)
    &&& fits(txs, chosen, j, gas_limit, size_limit)
}

/// Each producer of a chosen transaction is chosen before it.
pub open spec fn producers_first(txs: Seq<PoolTransaction>, chosen: Seq<usize>) -> bool {
    forall|k: int, p: int|
        0 <= k < chosen.len() && 0 <= p < txs.len() && #[trigger] depends_on(txs[chosen[k] as int], txs[p].id)
            ==> chosen.take(k).contains(p as usize)
}

/// The `k`-th choice has the greatest worth among the candidates at that step.
pub open spec fn greedy_at(txs: Seq<PoolTransaction>, chosen: Seq<usize>, k: int, gas_limit: u64, size_limit: u32) -> bool {
    forall|j: int|
        #[trigger] is_candidate(txs, chosen.take(k), j, gas_limit, size_limit) ==> txs[j].worth
            <= txs[chosen[k] as int].worth
}

proof fn lemma_take_push(s: Seq<usize>, x: usize, k: int)
    requires
        0 <= k <= s.len(),
    ensures
        s.push(x).take(k) == s.take(k),
{
    assert(s.push(x).take(k) =~= s.take(k));
}

impl Pool {
    /// Selects the next batch: repeatedly the highest-worth transaction (the first
    /// one on equal worth) whose pooled producers are already selected and that
    /// keeps the batch within `gas_limit` and `size_limit`, until `tx_count_limit`
    /// transactions are selected or none fits. Returns positions in the pool, in
    /// selection order; the pool is not changed.
    pub fn next(&self, gas_limit: u64, tx_count_limit: u16, size_limit: u32) -> (r: Vec<usize>)
        ensures
            r@.no_duplicates(),
            forall|k: int| 0 <= k < r@.len() ==> (#[trigger] r@[k] as int) < self.txs@.len(),
            r@.len() <= tx_count_limit,
            sum_gas(self.txs@, r@) <= gas_limit,
            sum_size(self.txs@, r@) <= size_limit,
            producers_first(self.txs@, r@),
            forall|k: int| 0 <= k < r@.len() ==> #[trigger] greedy_at(self.txs@, r@, k, gas_limit, size_limit),
            r@.len() < tx_count_limit ==> forall|j: int|
                !#[trigger] is_candidate(self.txs@, r@, j, gas_limit, size_limit),
    {
        let txs = &self.txs;
        let n = txs.len();
        let mut taken: Vec<bool> = Vec::new();
        while taken.len() < n
            invariant
                taken@.len() <= n,
                forall|j: int| 0 <= j < taken@.len() ==> !#[trigger] taken@[j],
            decreases n - taken@.len(),
        {
            taken.push(false);
        }
        let mut chosen: Vec<usize> = Vec::new();
        proof {
            assert forall|j: int| 0 <= j < taken@.len() implies (#[trigger] taken@[j] <==> chosen@.contains(
                j as usize,
            )) by {}
        }
        let mut gas: u64 = 0;
        let mut size: u64 = 0;
        loop
            invariant
                n == txs@.len(),
                taken@.len() == n,
                marks_match(taken@, chosen@),
                chosen@.len() <= tx_count_limit,
                gas as int == sum_gas(txs@, chosen@),
                size as int == sum_size(txs@, chosen@),
                gas <= gas_limit,
                size <= size_limit,
                producers_first(txs@, chosen@),
                forall|k: int| 0 <= k < chosen@.len() ==> #[trigger] greedy_at(txs@, chosen@, k, gas_limit, size_limit),
            ensures
                chosen@.len() < tx_count_limit ==> forall|j: int|
                    !#[trigger] is_candidate(txs@, chosen@, j, gas_limit, size_limit),
            decreases count_unmarked(taken@),
        {
            if chosen.len() >= tx_count_limit as usize {
                break;
            }
            let mut best: Option<usize> = None;
            let mut j: usize = 0;
            while j < n
                invariant
                    n == txs@.len(),
                    taken@.len() == n,
                    marks_match(taken@, chosen@),
                    gas as int == sum_gas(txs@, chosen@),
                    size as int == sum_size(txs@, chosen@),
                    gas <= gas_limit,
                    size <= size_limit,
                    j <= n,
                    match best {
                        Some(b) => (b as int) < j && is_candidate(txs@, chosen@, b as int, gas_limit, size_limit),
                        None => true,
                    },
                    forall|c: int|
                        0 <= c < j && #[trigger] is_candidate(txs@, chosen@, c, gas_limit, size_limit) ==> match best {
                            Some(b) => txs@[c].worth <= txs@[b as int].worth,
                            None => false,
                        },
                decreases n - j,
            {
                let tx = &txs[j];
                if !taken[j] && tx.max_gas <= gas_limit - gas && tx.size <= (size_limit as u64) - size {
                    let mut ok = true;
                    let mut p: usize = 0;
                    while p < n
                        invariant
                            n == txs@.len(),
                            taken@.len() == n,
                            j < n,
                            p <= n,
                            *tx == txs@[j as int],
                            ok == forall|q: int|
                                0 <= q < p && #[trigger] depends_on(txs@[j as int], txs@[q].id) ==> taken@[q],
                        decreases n - p,
                    {
                        let dep = spends_output_of(tx, txs[p].id);
                        let ghost ok_before = ok;
                        if !taken[p] && dep {
                            ok = false;
                        }
                        proof {
                            assert(*tx == txs@[j as int]);
                            assert(ok == forall|q: int|
                                0 <= q < p + 1 && #[trigger] depends_on(txs@[j as int], txs@[q].id) ==> taken@[q]) by {
                                if !ok_before {
                                    let q = choose|q: int|
                                        0 <= q < p && #[trigger] depends_on(txs@[j as int], txs@[q].id) && !taken@[q];
                                }
                            }
                        }
                        p += 1;
                    }
                    proof {
                        if ok {
                            assert forall|q: int|
                                0 <= q < txs@.len() && #[trigger] depends_on(txs@[j as int], txs@[q].id)
                                implies chosen@.contains(q as usize) by {
                                assert(taken@[q]);
                            }
                        } else {
                            let q = choose|q: int|
                                0 <= q < n && #[trigger] depends_on(txs@[j as int], txs@[q].id) && !taken@[q];
                            assert(!chosen@.contains(q as usize));
                        }
                        assert(!chosen@.contains(j)) by {
                            assert(!taken@[j as int]);
                        }
                    }
                    if ok {
                        match best {
                            None => {
                                best = Some(j);
                            },
                            Some(b) => {
                                if tx.worth > txs[b].worth {
                                    best = Some(j);
                                }
                            },
                        }
                    }
                } else {
                    proof {
                        if taken@[j as int] {
                            assert(chosen@.contains(j));
                        }
                    }
                }
                j += 1;
            }
            match best {
                None => {
                    break;
                },
                Some(b) => {
                    let ghost old_chosen = chosen@;
                    let ghost old_taken = taken@;
                    proof {
                        lemma_mark_one(taken@, b as int);
                        assert(!taken@[b as int]) by {
                            assert(!chosen@.contains(b));
                        }
                    }
                    taken.set(b, true);
                    chosen.push(b);
                    gas = gas + txs[b].max_gas;
                    size = size + txs[b].size;
                    proof {
                        assert(chosen@.drop_last() =~= old_chosen);
                        assert(old_chosen.no_duplicates());
                        assert(chosen@.no_duplicates()) by {
                            assert forall|x: int, y: int| 0 <= x < y < chosen@.len() implies chosen@[x] != chosen@[y] by {
                                if y == old_chosen.len() {
                                    assert(old_chosen[x] == chosen@[x]);
                                }
                            }
                        }
                        assert forall|x: int| 0 <= x < taken@.len() implies (#[trigger] taken@[x]
                            <==> chosen@.contains(x as usize)) by {
                            if x != b as int {
                                if old_chosen.contains(x as usize) {
                                    let w = choose|w: int| 0 <= w < old_chosen.len() && old_chosen[w] == x as usize;
                                    assert(chosen@[w] == x as usize);
                                }
                                if chosen@.contains(x as usize) {
                                    let w = choose|w: int| 0 <= w < chosen@.len() && chosen@[w] == x as usize;
                                    assert(old_chosen[w] == x as usize);
                                }
                                assert(old_taken[x] == taken@[x]);
                            } else {
                                assert(chosen@[old_chosen.len() as int] == b);
                            }
                        }
                        assert forall|k: int, p: int|
                            0 <= k < chosen@.len() && 0 <= p < txs@.len() && #[trigger] depends_on(
                                txs@[chosen@[k] as int],
                                txs@[p].id,
                            ) implies chosen@.take(k).contains(p as usize) by {
                            lemma_take_push(old_chosen, b, k);
                            if k < old_chosen.len() {
                                assert(chosen@[k] == old_chosen[k]);
                            } else {
                                assert(chosen@.take(k) == old_chosen);
                            }
                        }
                        assert forall|k: int| 0 <= k < chosen@.len() implies #[trigger] greedy_at(
                            txs@,
                            chosen@,
                            k,
                            gas_limit,
                            size_limit,
                        ) by {
                            lemma_take_push(old_chosen, b, k);
                            if k < old_chosen.len() {
                                assert(greedy_at(txs@, old_chosen, k, gas_limit, size_limit));
                                assert(chosen@[k] == old_chosen[k]);
                            } else {
                                assert(chosen@.take(k) == old_chosen);
                                assert(chosen@[k] == b);
                            }
                        }
                    }
                },
            }
        }
        chosen
    }
}

} // verus!
