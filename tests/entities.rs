use fuel_txpool::coins::{Coin, CoinId, CoinStatus, Coins, DepositCoin, UtxoId};
use fuel_txpool::error::Error;
use fuel_txpool::ports::{
    CheckedTransaction, MaybeCheckedTransaction, Transaction, TransactionExt, TransactionKind,
};

fn regular() -> Coin {
    Coin {
        utxo_id: UtxoId { tx_id: 7, output_index: 2 },
        owner: [1u8; 32],
        amount: 500,
        asset_id: [9u8; 32],
        status: CoinStatus::Unspent,
    }
}

fn deposit() -> DepositCoin {
    DepositCoin {
        sender: [3u8; 32],
        recipient: [4u8; 32],
        nonce: 77,
        amount: 12,
        da_height: 5,
        status: CoinStatus::Spent,
    }
}

#[test]
fn regular_coin_accessors() {
    let c = Coins::from(regular());
    assert_eq!(c.coin_id(), CoinId::UtxoId(UtxoId { tx_id: 7, output_index: 2 }));
    assert_eq!(*c.owner(), [1u8; 32]);
    assert_eq!(c.amount(), 500);
    assert_eq!(c.asset_id(), [9u8; 32]);
    assert_eq!(c.status(), CoinStatus::Unspent);
}

#[test]
fn deposit_coin_accessors() {
    let c = Coins::from(deposit());
    assert_eq!(c.coin_id(), CoinId::MessageId(77));
    assert_eq!(*c.owner(), [4u8; 32]);
    assert_eq!(c.amount(), 12);
    assert_eq!(c.asset_id(), [0u8; 32]);
    assert_eq!(c.status(), CoinStatus::Spent);
}

#[test]
fn coin_status_defaults_to_spent() {
    assert_eq!(CoinStatus::default(), CoinStatus::Spent);
}

#[test]
fn max_gas_of_chargeable_transactions() {
    let raw = Transaction { kind: TransactionKind::Script, id: 3, max_gas: 900 };
    assert_eq!(raw.max_gas().unwrap(), 900);
    let checked = CheckedTransaction { kind: TransactionKind::Blob, id: 4, metadata_max_gas: 40 };
    assert_eq!(checked.max_gas().unwrap(), 40);
    let wrapped = MaybeCheckedTransaction::CheckedTransaction(checked, 2);
    assert_eq!(wrapped.max_gas().unwrap(), 40);
    assert_eq!(wrapped.id(), 4);
    let wrapped_raw = MaybeCheckedTransaction::Transaction(raw);
    assert_eq!(wrapped_raw.max_gas().unwrap(), 900);
    assert_eq!(wrapped_raw.id(), 3);
}

#[test]
fn mint_has_no_max_gas() {
    let raw = Transaction { kind: TransactionKind::Mint, id: 1, max_gas: 900 };
    assert!(matches!(raw.max_gas(), Err(Error::MintNotPoolable)));
    let checked = CheckedTransaction { kind: TransactionKind::Mint, id: 1, metadata_max_gas: 5 };
    assert!(matches!(MaybeCheckedTransaction::CheckedTransaction(checked, 0).max_gas(), Err(Error::MintNotPoolable)));
    assert!(matches!(MaybeCheckedTransaction::Transaction(raw).max_gas(), Err(Error::MintNotPoolable)));
}
