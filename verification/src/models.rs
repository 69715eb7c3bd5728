//! Plain data carried through the engine: decoded chain events, the
//! entity updates extracted from them, and the per-kind value types.

use vstd::prelude::*;

verus! {

/// A decoded state change of one asset inside a transaction: the state
/// after the transaction, when the asset still exists.
pub struct AssetDetails {
    pub asset_id: Vec<u8>,
    pub issuer: Vec<u8>,
    pub name: String,
    pub description: String,
    pub decimals: i32,
    pub script: Option<Vec<u8>>,
    pub nft: bool,
    pub reissuable: bool,
    pub sponsorship: i64,
    pub volume: i64,
}

/// One asset entry of a transaction's state update.
pub struct AssetStateUpdate {
    pub after: Option<AssetDetails>,
}

/// A typed value of an account data entry.
pub enum DataEntryValue {
    IntValue(i64),
    BoolValue(bool),
    BinaryValue(Vec<u8>),
    StringValue(String),
}

/// One account data entry of a transaction's state update; a missing
/// value records the deletion of the key.
pub struct DataEntryUpdate {
    pub address: Vec<u8>,
    pub key: String,
    pub value: Option<DataEntryValue>,
}

/// One transaction of an appended block, reduced to what the extraction
/// reads: its id, its own timestamp when it carries one, and its state
/// update.
pub struct TxData {
    pub id: String,
    pub timestamp: Option<i64>,
    pub assets: Vec<AssetStateUpdate>,
    pub data_entries: Vec<DataEntryUpdate>,
}

/// One appended block or microblock: a microblock carries no timestamp,
/// and that absence marks its ledger row as unconfirmed.
pub struct BlockMicroblockAppend {
    pub id: String,
    pub time_stamp: Option<i64>,
    pub height: i32,
    pub updated_waves_amount: Option<i64>,
    pub txs: Vec<TxData>,
}

/// One event of the chain's real-time order.
pub enum BlockchainUpdate {
    Block(BlockMicroblockAppend),
    Microblock(BlockMicroblockAppend),
    Rollback(String),
}

/// One batch handed to the engine, with the height its last event was at.
pub struct BlockchainUpdatesWithLastHeight {
    pub last_height: u32,
    pub updates: Vec<BlockchainUpdate>,
}

/// The ledger row at one height below the top: where processing stood
/// before the latest, possibly half-ingested height.
pub struct PrevHandledHeight {
    pub uid: i64,
    pub height: i32,
}

/// One extracted ticker assignment: an asset id and its new display
/// ticker; an empty ticker records a removal.
pub struct AssetTickerUpdate {
    pub asset_id: String,
    pub ticker: String,
}

/// Mathematical model of an extracted ticker assignment.
pub ghost struct AssetTickerUpdateM {
    pub asset_id: Seq<char>,
    pub ticker: Seq<char>,
}

impl View for AssetTickerUpdate {
    type V = AssetTickerUpdateM;

    open spec fn view(&self) -> AssetTickerUpdateM {
        AssetTickerUpdateM { asset_id: self.asset_id@, ticker: self.ticker@ }
    }
}

/// The asset metadata extracted from one state change, before uid
/// assignment.
pub struct BaseAssetInfoUpdate {
    pub id: String,
    pub issuer: String,
    pub precision: i32,
    pub nft: bool,
    pub updated_at: i64,
    pub update_height: i32,
    pub name: String,
    pub description: String,
    pub script: Option<Vec<u8>>,
    pub quantity: i64,
    pub reissuable: bool,
    pub min_sponsored_fee: Option<i64>,
    pub tx_id: String,
}

/// Mathematical model of extracted asset metadata.
pub ghost struct BaseAssetInfoUpdateM {
    pub id: Seq<char>,
    pub issuer: Seq<char>,
    pub precision: int,
    pub nft: bool,
    pub updated_at: int,
    pub update_height: int,
    pub name: Seq<char>,
    pub description: Seq<char>,
    pub script: Option<Seq<u8>>,
    pub quantity: int,
    pub reissuable: bool,
    pub min_sponsored_fee: Option<i64>,
    pub tx_id: Seq<char>,
}

impl View for BaseAssetInfoUpdate {
    type V = BaseAssetInfoUpdateM;

    open spec fn view(&self) -> BaseAssetInfoUpdateM {
        BaseAssetInfoUpdateM {
            id: self.id@,
            issuer: self.issuer@,
            precision: self.precision as int,
            nft: self.nft,
            updated_at: self.updated_at as int,
            update_height: self.update_height as int,
            name: self.name@,
            description: self.description@,
            script: match self.script {
                Some(s) => Some(s@),
                None => None,
            },
            quantity: self.quantity as int,
            reissuable: self.reissuable,
            min_sponsored_fee: self.min_sponsored_fee,
            tx_id: self.tx_id@,
        }
    }
}

/// A side of an exchange order.
pub enum OrderType {
    Buy,
    Sell,
}

/// The asset pair an order trades, by asset ids; a missing id stands for
/// the chain's own currency.
pub struct AssetPair {
    pub amount_asset_id: Option<String>,
    pub price_asset_id: Option<String>,
}

/// One exchange order, decoded to plain values.
pub struct Order {
    pub id: String,
    pub version: i32,
    pub sender: String,
    pub sender_public_key: String,
    pub matcher_public_key: String,
    pub asset_pair: AssetPair,
    pub order_type: OrderType,
    pub amount: i64,
    pub price: i64,
    pub timestamp: i64,
    pub expiration: i64,
    pub matcher_fee: i64,
    pub matcher_fee_asset_id: Option<String>,
    pub proofs: Vec<String>,
    pub signature: String,
    pub eip712_signature: Option<String>,
    pub price_mode: Option<String>,
}

/// A typed argument or data-entry value, as the per-kind rows carry it.
pub enum DataEntryTypeValue {
    Binary(String),
    Boolean(bool),
    Integer(i64),
    StringVal(String),
    List(Vec<DataEntryTypeValue>),
}

/// An invoke call's argument list.
pub struct ArgList(pub Vec<DataEntryTypeValue>);


/// The callee of an invoke: a concrete address or a registered alias.
pub enum Dapp {
    Address(Vec<u8>),
    Alias(Vec<u8>),
}

impl OrderType {
    /// The side a wire value names.
    pub fn from_side(n: i32) -> (r: OrderType)
        requires
            n == 0 || n == 1,
        ensures
            n == 0 ==> r is Buy,
            n == 1 ==> r is Sell,
    {
        if n == 0 {
            OrderType::Buy
        } else {
            OrderType::Sell
        }
    }
}

} // verus!
