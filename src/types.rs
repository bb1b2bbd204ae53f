//! Records held inside a contract's state.
use vstd::prelude::*;

use crate::strmap::StrMap;

verus! {

/// A time release of tokens to one UTXO, `drip_amount` per block up to `block_end`.
#[derive(Clone, Copy, Debug, PartialEq, Eq)]
pub struct Drip {
    pub block_end: u64,
    pub drip_amount: u64,
    pub amount: u64,
    pub start_block: u64,
    pub last_block_dripped: u64,
}

/// An airdrop whose per-claim amount steps down every `step_period_amount` claims.
pub struct DimAirdrop {
    pub pool_amount: u64,
    pub step_down_amount: u64,
    pub step_period_amount: u64,
    pub max_airdrop: u64,
    pub min_airdrop: u64,
    pub current_airdrop: u64,
    pub current_in_period: u64,
    pub amount_airdropped: u64,
    pub last_airdrop_split: Option<Vec<String>>,
    pub single_drop: bool,
    pub claimers: StrMap<u64>,
}

/// A pool that turns donations in satoshis into token drips at a fixed rate.
pub struct DGE {
    pub pool_amount: u64,
    pub sats_rate: u64,
    pub max_drop: u64,
    pub current_amount_dropped: u64,
    pub donations_address: String,
    pub drip_duration: u64,
    pub single_drop: bool,
    pub donaters: StrMap<u64>,
}

/// An offer to sell `list_amt` tokens at `price`.
pub struct Listing {
    pub list_utxo: String,
    pub list_amt: u64,
    pub price: u64,
    pub rec_addr: String,
    pub change_utxo: String,
    pub valid_bid_block: Option<i32>,
}

/// A bid on a listing, identified by the txid of its fulfilment transaction.
pub struct Bid {
    pub bid_price: u64,
    pub bid_amount: u64,
    pub order_id: String,
    pub fulfill_tx: String,
    pub accept_tx: String,
    pub reseved_utxo: String,
    pub fullfilment_utxos: Vec<String>,
}

pub struct LiquidityProvider {
    pub provided_block_height: u32,
    pub lp_tokens: u64,
}

/// One million: the denominator of the pool's fee and of swap tolerances.
pub const PPM: u64 = 1000000;

/// A constant-product pool between two token contracts.
/// `fee_ppm` is the fee in millionths; `liquidity_ratio` is the number of
/// second-side tokens required per first-side token, in millionths.
pub struct LiquidityPool {
    pub contract_id_1: String,
    pub contract_id_2: String,
    pub pool_1: u64,
    pub pool_2: u64,
    pub fee_ppm: u64,
    pub k: u128,
    pub liquidity_ratio: u64,
    pub swaps: StrMap<(u64, u64)>,
    pub liquidations: StrMap<(u64, u64)>,
}

impl LiquidityPool {
    pub open spec fn wf(&self) -> bool {
        self.swaps.wf() && self.liquidations.wf()
    }
}

impl DimAirdrop {
    pub open spec fn wf(&self) -> bool {
        self.claimers.wf()
    }
}

impl DGE {
    pub open spec fn wf(&self) -> bool {
        self.donaters.wf()
    }
}

} // verus!
