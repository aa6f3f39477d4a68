//! The coins that a transaction can spend: regular outputs and bridged deposits.

use vstd::prelude::*;

verus! {

/// A 32-byte address of an owner or a recipient.
pub type Address = [u8; 32];

/// A 32-byte identifier of an asset.
pub type AssetId = [u8; 32];

/// Whether an asset is the chain's base currency, whose identifier is all zero bytes.
pub open spec fn is_base_asset(a: AssetId) -> bool {
    forall|i: int| 0 <= i < 32 ==> a[i] == 0
}

/// The identifier of a transaction output: the producing transaction and the
/// output's position in it.
#[derive(Debug, Copy, Clone, PartialEq, Eq, Structural, PartialOrd, Ord, Hash)]
pub struct UtxoId {
    pub tx_id: u64,
    pub output_index: u16,
}

/// Whether a coin has been spent or not.
#[derive(Debug, Copy, Clone, PartialEq, Eq, Structural, PartialOrd)]
pub enum CoinStatus {
    /// Coin has not been spent.
    Unspent,
    /// Coin has been spent.
    Spent,
}

impl Default for CoinStatus {
    fn default() -> (r: CoinStatus)
        ensures
            r == CoinStatus::Spent,
    {
        CoinStatus::Spent
    }
}

/// A regular coin created by a transaction output.
#[derive(Debug, Copy, Clone, PartialEq, Eq)]
pub struct Coin {
    pub utxo_id: UtxoId,
    pub owner: Address,
    pub amount: u64,
    pub asset_id: AssetId,
    pub status: CoinStatus,
}

/// A coin bridged from the data-availability layer; it always holds the base asset.
#[derive(Debug, Copy, Clone, PartialEq, Eq)]
pub struct DepositCoin {
    pub sender: Address,
    pub recipient: Address,
    pub nonce: u64,
    pub amount: u64,
    pub da_height: u64,
    pub status: CoinStatus,
}

/// The unique identifier of a coin.
#[derive(Debug, Copy, Clone, PartialEq, Eq, Structural, PartialOrd)]
pub enum CoinId {
    /// The UTXO id of a regular coin.
    UtxoId(UtxoId),
    /// The unique nonce of a deposit coin.
    MessageId(u64),
}

/// Either kind of coin.
#[derive(Debug, Copy, Clone, PartialEq, Eq)]
pub enum Coins {
    /// A regular coin generated by a transaction output.
    Coin(Coin),
    /// A bridged coin from the data-availability layer.
    DepositCoin(DepositCoin),
}

impl Coins {
    /// Returns the coin's unique identifier.
    pub fn coin_id(&self) -> (r: CoinId)
        ensures
            r == match *self {
                Coins::Coin(c) => CoinId::UtxoId(c.utxo_id),
                Coins::DepositCoin(d) => CoinId::MessageId(d.nonce),
            },
    {
        match self {
            Coins::Coin(coin) => CoinId::UtxoId(coin.utxo_id),
            Coins::DepositCoin(coin) => CoinId::MessageId(coin.nonce),
        }
    }

    /// Returns the owner of the coin: a regular coin's owner, a deposit's recipient.
    pub fn owner(&self) -> (r: &Address)
        ensures
            *r == match *self {
                Coins::Coin(c) => c.owner,
                Coins::DepositCoin(d) => d.recipient,
            },
    {
        match self {
            Coins::Coin(coin) => &coin.owner,
            Coins::DepositCoin(coin) => &coin.recipient,
        }
    }

    /// Returns the amount of the asset held by the coin.
    pub fn amount(&self) -> (r: u64)
        ensures
            r == match *self {
                Coins::Coin(c) => c.amount,
                Coins::DepositCoin(d) => d.amount,
            },
    {
        match self {
            Coins::Coin(coin) => coin.amount,
            Coins::DepositCoin(coin) => coin.amount,
        }
    }

    /// Returns the asset held by the coin; a deposit always holds the base asset.
    pub fn asset_id(&self) -> (r: AssetId)
        ensures
            match *self {
                Coins::Coin(c) => r == c.asset_id,
                Coins::DepositCoin(_) => is_base_asset(r),
            },
    {
        match self {
            Coins::Coin(coin) => coin.asset_id,
            Coins::DepositCoin(_) => [0u8; 32],
        }
    }

    /// Returns the status of the coin.
    pub fn status(&self) -> (r: CoinStatus)
        ensures
            r == match *self {
                Coins::Coin(c) => c.status,
                Coins::DepositCoin(d) => d.status,
            },
    {
        match self {
            Coins::Coin(coin) => coin.status,
            Coins::DepositCoin(coin) => coin.status,
        }
    }
}

impl From<Coin> for Coins {
    fn from(coin: Coin) -> (r: Coins)
        ensures
            r == Coins::Coin(coin),
    {
        Coins::Coin(coin)
    }
}

impl vstd::std_specs::convert::FromSpecImpl<Coin> for Coins {
    open spec fn obeys_from_spec() -> bool {
        true
    }

    open spec fn from_spec(coin: Coin) -> Coins {
        Coins::Coin(coin)
    }
}

impl From<DepositCoin> for Coins {
    fn from(coin: DepositCoin) -> (r: Coins)
        ensures
            r == Coins::DepositCoin(coin),
    {
        Coins::DepositCoin(coin)
    }
}

impl vstd::std_specs::convert::FromSpecImpl<DepositCoin> for Coins {
    open spec fn obeys_from_spec() -> bool {
        true
    }

    open spec fn from_spec(coin: DepositCoin) -> Coins {
        Coins::DepositCoin(coin)
    }
}

} // verus!
