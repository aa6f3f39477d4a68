use fuel_txpool::coins::UtxoId;
use fuel_txpool::collision_manager::{
    collect_colliding_transactions, CollisionManagerStorage, CollisionReason, Collisions,
    PoolTransaction,
};
use fuel_txpool::error::Error;
use fuel_txpool::pool::Pool;

fn coin(tx_id: u64, output_index: u16) -> CollisionReason {
    CollisionReason::Coin(UtxoId { tx_id, output_index })
}

fn tx(id: u64, worth: u64, resources: Vec<CollisionReason>) -> PoolTransaction {
    PoolTransaction { id, worth, max_gas: 10, size: 100, resources }
}

fn sized(id: u64, worth: u64, max_gas: u64, size: u64, resources: Vec<CollisionReason>) -> PoolTransaction {
    PoolTransaction { id, worth, max_gas, size, resources }
}

fn ids(pool: &Pool) -> Vec<u64> {
    pool.txs.iter().map(|t| t.id).collect()
}

#[test]
fn lower_worth_candidate_is_rejected() {
    let mut pool = Pool::new(10);
    assert!(pool.insert(tx(1, 10, vec![coin(100, 0)])).is_ok());
    let r = pool.insert(tx(2, 5, vec![coin(100, 0)]));
    assert!(matches!(r, Err(Error::LessWorthy)));
    assert_eq!(ids(&pool), vec![1]);
    assert_eq!(pool.txs[0].worth, 10);
}

#[test]
fn higher_worth_candidate_replaces_holder() {
    let mut pool = Pool::new(10);
    assert!(pool.insert(tx(1, 5, vec![coin(100, 0)])).is_ok());
    let evicted = pool.insert(tx(3, 20, vec![coin(100, 0)])).unwrap();
    assert_eq!(evicted.len(), 1);
    assert_eq!(evicted[0].id, 1);
    assert_eq!(ids(&pool), vec![3]);
    let holders: Vec<u64> = pool
        .txs
        .iter()
        .filter(|t| t.resources.contains(&coin(100, 0)))
        .map(|t| t.id)
        .collect();
    assert_eq!(holders, vec![3]);
    assert_eq!(pool.owner_of(coin(100, 0)), Some(0));
}

#[test]
fn removing_producer_cascades_to_consumer() {
    let mut pool = Pool::new(10);
    assert!(pool.insert(tx(1, 5, vec![coin(50, 0), CollisionReason::ContractCreation(7)])).is_ok());
    assert!(pool.insert(tx(4, 5, vec![coin(1, 0)])).is_ok());
    assert!(pool.insert(tx(9, 5, vec![coin(60, 0)])).is_ok());
    let removed = pool.remove(1).unwrap();
    let removed_ids: Vec<u64> = removed.iter().map(|t| t.id).collect();
    assert_eq!(removed_ids, vec![1, 4]);
    assert_eq!(ids(&pool), vec![9]);
}

#[test]
fn cascade_is_transitive() {
    let mut pool = Pool::new(10);
    assert!(pool.insert(tx(1, 5, vec![coin(50, 0)])).is_ok());
    assert!(pool.insert(tx(2, 5, vec![coin(1, 0)])).is_ok());
    assert!(pool.insert(tx(3, 5, vec![coin(2, 0)])).is_ok());
    assert!(pool.insert(tx(4, 5, vec![coin(3, 1), coin(70, 0)])).is_ok());
    assert!(pool.insert(tx(5, 5, vec![coin(80, 0)])).is_ok());
    let removed = pool.remove(1).unwrap();
    let removed_ids: Vec<u64> = removed.iter().map(|t| t.id).collect();
    assert_eq!(removed_ids, vec![1, 2, 3, 4]);
    assert_eq!(ids(&pool), vec![5]);
}

#[test]
fn eviction_cascades_to_dependents_of_loser() {
    let mut pool = Pool::new(10);
    assert!(pool.insert(tx(1, 5, vec![coin(100, 0)])).is_ok());
    assert!(pool.insert(tx(2, 1, vec![coin(1, 0)])).is_ok());
    let evicted = pool.insert(tx(3, 20, vec![coin(100, 0)])).unwrap();
    let evicted_ids: Vec<u64> = evicted.iter().map(|t| t.id).collect();
    assert_eq!(evicted_ids, vec![1, 2]);
    assert_eq!(ids(&pool), vec![3]);
}

#[test]
fn selection_takes_highest_worth_within_gas() {
    let mut pool = Pool::new(10);
    let worths = [3u64, 7, 2, 9];
    for (i, w) in worths.iter().enumerate() {
        assert!(pool.insert(tx(i as u64 + 1, *w, vec![coin(100 + i as u64, 0)])).is_ok());
    }
    let picked = pool.next(20, 10, 10_000);
    assert_eq!(picked, vec![3, 1]);
    let picked_worths: Vec<u64> = picked.iter().map(|i| pool.txs[*i].worth).collect();
    assert_eq!(picked_worths, vec![9, 7]);
    assert_eq!(pool.len(), 4);
}

#[test]
fn selection_puts_producer_before_consumer() {
    let mut pool = Pool::new(10);
    assert!(pool.insert(tx(1, 1, vec![coin(100, 0)])).is_ok());
    assert!(pool.insert(tx(2, 50, vec![coin(1, 0)])).is_ok());
    assert!(pool.insert(tx(3, 10, vec![coin(101, 0)])).is_ok());
    let picked = pool.next(1000, 10, 10_000);
    assert_eq!(picked, vec![2, 0, 1]);
}

#[test]
fn selection_skips_consumer_of_unselected_producer() {
    let mut pool = Pool::new(10);
    assert!(pool.insert(sized(1, 1, 50, 10, vec![coin(100, 0)])).is_ok());
    assert!(pool.insert(sized(2, 50, 5, 10, vec![coin(1, 0)])).is_ok());
    let picked = pool.next(20, 10, 10_000);
    assert_eq!(picked, Vec::<usize>::new());
}

#[test]
fn selection_respects_count_and_size_limits() {
    let mut pool = Pool::new(10);
    assert!(pool.insert(sized(1, 4, 1, 60, vec![coin(100, 0)])).is_ok());
    assert!(pool.insert(sized(2, 3, 1, 50, vec![coin(101, 0)])).is_ok());
    assert!(pool.insert(sized(3, 2, 1, 40, vec![coin(102, 0)])).is_ok());
    assert_eq!(pool.next(1000, 10, 100), vec![0, 2]);
    assert_eq!(pool.next(1000, 1, 1000), vec![0]);
    assert_eq!(pool.next(1000, 0, 1000), Vec::<usize>::new());
    assert_eq!(pool.next(0, 10, 1000), Vec::<usize>::new());
}

#[test]
fn selection_on_empty_pool_is_empty() {
    let pool = Pool::new(3);
    assert_eq!(pool.next(u64::MAX, u16::MAX, u32::MAX), Vec::<usize>::new());
}

#[test]
fn removing_absent_id_is_not_found() {
    let mut pool = Pool::new(10);
    assert!(pool.insert(tx(1, 5, vec![coin(100, 0)])).is_ok());
    assert!(matches!(pool.remove(42), Err(Error::NotFound)));
    assert_eq!(ids(&pool), vec![1]);
    assert!(pool.remove(1).is_ok());
    assert!(matches!(pool.remove(1), Err(Error::NotFound)));
    assert_eq!(pool.len(), 0);
}

#[test]
fn duplicate_id_is_already_known() {
    let mut pool = Pool::new(10);
    assert!(pool.insert(tx(1, 5, vec![coin(100, 0)])).is_ok());
    assert!(matches!(pool.insert(tx(1, 99, vec![coin(200, 0)])), Err(Error::AlreadyKnown)));
    assert_eq!(ids(&pool), vec![1]);
}

#[test]
fn full_pool_rejects_non_colliding_candidate() {
    let mut pool = Pool::new(1);
    assert!(pool.insert(tx(1, 5, vec![coin(100, 0)])).is_ok());
    assert!(matches!(pool.insert(tx(2, 50, vec![coin(200, 0)])), Err(Error::CapacityExceeded)));
    let evicted = pool.insert(tx(3, 50, vec![coin(100, 0)])).unwrap();
    assert_eq!(evicted[0].id, 1);
    assert_eq!(ids(&pool), vec![3]);
    let mut empty = Pool::new(0);
    assert!(matches!(empty.insert(tx(1, 5, vec![])), Err(Error::CapacityExceeded)));
}

#[test]
fn equal_worth_goes_to_smaller_id() {
    let mut pool = Pool::new(10);
    assert!(pool.insert(tx(5, 10, vec![CollisionReason::Blob(3)])).is_ok());
    assert!(matches!(pool.insert(tx(8, 10, vec![CollisionReason::Blob(3)])), Err(Error::LessWorthy)));
    let evicted = pool.insert(tx(2, 10, vec![CollisionReason::Blob(3)])).unwrap();
    assert_eq!(evicted[0].id, 5);
    assert_eq!(ids(&pool), vec![2]);
}

#[test]
fn candidate_must_outweigh_all_colliders_together() {
    let mut pool = Pool::new(10);
    assert!(pool.insert(tx(1, 6, vec![CollisionReason::Message(1)])).is_ok());
    assert!(pool.insert(tx(2, 6, vec![CollisionReason::ContractCreation(9)])).is_ok());
    let both = vec![CollisionReason::Message(1), CollisionReason::ContractCreation(9)];
    assert!(matches!(pool.insert(tx(3, 11, both.clone())), Err(Error::LessWorthy)));
    let evicted = pool.insert(tx(4, 13, both)).unwrap();
    assert_eq!(evicted.len(), 2);
    assert_eq!(ids(&pool), vec![4]);
}

#[test]
fn collisions_report_reasons_and_positions() {
    let pooled = vec![
        tx(1, 1, vec![coin(100, 0), CollisionReason::Blob(1)]),
        tx(2, 1, vec![coin(101, 0)]),
        tx(3, 1, vec![CollisionReason::Blob(1), CollisionReason::Message(4)]),
    ];
    let candidate = tx(9, 10, vec![CollisionReason::Blob(1), CollisionReason::Message(4), coin(5, 5)]);
    let c = collect_colliding_transactions(&candidate, &pooled).unwrap();
    assert_eq!(c.colliding_txs, vec![0, 2]);
    assert_eq!(c.reasons, vec![CollisionReason::Blob(1), CollisionReason::Message(4)]);
    let loser = tx(9, 1, vec![CollisionReason::Blob(1)]);
    assert!(matches!(collect_colliding_transactions(&loser, &pooled), Err(Error::LessWorthy)));
}

#[test]
fn new_collisions_are_empty() {
    let c = Collisions::new();
    assert!(c.reasons.is_empty());
    assert!(c.colliding_txs.is_empty());
}

#[test]
fn outcome_does_not_depend_on_arrival_order() {
    let a = || tx(1, 4, vec![coin(100, 0)]);
    let b = || tx(2, 4, vec![coin(101, 0)]);
    let c = || tx(3, 1, vec![coin(102, 0)]);
    let candidate = || tx(7, 9, vec![coin(100, 0), coin(101, 0)]);
    let mut first = Pool::new(10);
    let mut second = Pool::new(10);
    for t in [a(), b(), c()] {
        assert!(first.insert(t).is_ok());
    }
    for t in [c(), b(), a()] {
        assert!(second.insert(t).is_ok());
    }
    let mut evicted_first: Vec<u64> = first.insert(candidate()).unwrap().iter().map(|t| t.id).collect();
    let mut evicted_second: Vec<u64> = second.insert(candidate()).unwrap().iter().map(|t| t.id).collect();
    evicted_first.sort();
    evicted_second.sort();
    assert_eq!(evicted_first, vec![1, 2]);
    assert_eq!(evicted_first, evicted_second);
    let mut kept_first = ids(&first);
    let mut kept_second = ids(&second);
    kept_first.sort();
    kept_second.sort();
    assert_eq!(kept_first, kept_second);
}

#[test]
fn pooled_transactions_never_share_resources() {
    let mut pool = Pool::new(100);
    let mut seed: u64 = 12345;
    for id in 1..200u64 {
        seed = seed.wrapping_mul(6364136223846793005).wrapping_add(1442695040888963407);
        let a = (seed >> 33) % 12;
        let b = (seed >> 17) % 12;
        let kind = (seed >> 5) % 4;
        let r = match kind {
            0 => coin(a, b as u16),
            1 => CollisionReason::Blob(a),
            2 => CollisionReason::Message(a),
            _ => CollisionReason::ContractCreation(a),
        };
        let _ = pool.insert(tx(id, (seed >> 40) % 50, vec![r, coin(1000 + b, 0)]));
        for i in 0..pool.txs.len() {
            for j in 0..pool.txs.len() {
                if i != j {
                    for x in pool.txs[i].resources.iter() {
                        assert!(!pool.txs[j].resources.contains(x));
                    }
                }
            }
        }
        assert!(pool.len() <= 100);
    }
}

#[test]
fn storage_get_by_position() {
    let mut pool = Pool::new(10);
    assert!(pool.insert(tx(1, 5, vec![coin(100, 0)])).is_ok());
    assert!(pool.insert(tx(2, 5, vec![coin(101, 0)])).is_ok());
    assert_eq!(CollisionManagerStorage::get(&pool, 1).unwrap().id, 2);
    assert!(matches!(CollisionManagerStorage::get(&pool, 2), Err(Error::NotFound)));
    assert_eq!(pool.find_index(2), Some(1));
    assert_eq!(pool.find_index(3), None);
    assert!(pool.contains(1));
    assert!(!pool.contains(3));
}

#[test]
fn owner_lookup_finds_single_holder() {
    let mut pool = Pool::new(10);
    assert!(pool.insert(tx(1, 5, vec![coin(100, 0)])).is_ok());
    assert!(pool.insert(tx(2, 5, vec![CollisionReason::Blob(8), CollisionReason::Message(3)])).is_ok());
    assert_eq!(pool.owner_of(CollisionReason::Message(3)), Some(1));
    assert_eq!(pool.owner_of(coin(100, 0)), Some(0));
    assert_eq!(pool.owner_of(coin(100, 1)), None);
}

#[test]
fn submit_checks_chain_state_answers() {
    let mut pool = Pool::new(10);
    let r = pool.submit(tx(1, 5, vec![coin(100, 0)]), &vec![false]);
    assert!(matches!(r, Err(Error::InvalidResource)));
    assert_eq!(pool.len(), 0);
    assert!(pool.submit(tx(1, 5, vec![coin(100, 0)]), &vec![true]).is_ok());
    // an output of a pooled transaction needs no chain-state coin
    assert!(pool.submit(tx(2, 5, vec![coin(1, 0)]), &vec![false]).is_ok());
    // a message must exist
    assert!(matches!(
        pool.submit(tx(3, 5, vec![CollisionReason::Message(4)]), &vec![false]),
        Err(Error::InvalidResource)
    ));
    // a contract or blob to be created must not exist yet
    assert!(matches!(
        pool.submit(tx(4, 5, vec![CollisionReason::ContractCreation(4)]), &vec![true]),
        Err(Error::InvalidResource)
    ));
    assert!(matches!(
        pool.submit(tx(5, 5, vec![CollisionReason::Blob(4)]), &vec![true]),
        Err(Error::InvalidResource)
    ));
    assert!(pool.submit(tx(6, 5, vec![CollisionReason::Blob(4)]), &vec![false]).is_ok());
    // one answer per resource
    assert!(matches!(
        pool.submit(tx(7, 5, vec![CollisionReason::Message(9)]), &vec![true, true]),
        Err(Error::InvalidResource)
    ));
    assert_eq!(ids(&pool), vec![1, 2, 6]);
}

#[test]
fn committed_transactions_leave_without_cascade() {
    let mut pool = Pool::new(10);
    assert!(pool.insert(tx(1, 5, vec![coin(100, 0)])).is_ok());
    assert!(pool.insert(tx(2, 5, vec![coin(1, 0)])).is_ok());
    assert!(pool.insert(tx(3, 5, vec![coin(101, 0)])).is_ok());
    let removed = pool.remove_committed(&vec![1, 3, 77]);
    let removed_ids: Vec<u64> = removed.iter().map(|t| t.id).collect();
    assert_eq!(removed_ids, vec![1, 3]);
    assert_eq!(ids(&pool), vec![2]);
    assert!(pool.remove_committed(&vec![]).is_empty());
    assert_eq!(ids(&pool), vec![2]);
}
