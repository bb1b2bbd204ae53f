//! Requests, responses and chain records exchanged with the node's clients,
//! and reading a transaction's `OP_RETURN` commitment.
use vstd::prelude::*;

use crate::strmap::StrMap;
use crate::text::{chars_of, decimal, decimal_string, string_from_chars};
use crate::textops::{find_exec, find_from, slice_vec};

verus! {

pub struct CommandStruct {
    pub txid: String,
    pub payload: String,
    pub bid_payload: Option<Vec<BidPayload>>,
    pub contract_id: Option<String>,
}

pub struct RelayedCommandStruct {
    pub txid: String,
    pub payload: String,
    pub bid_payload: Option<Vec<BidPayload>>,
    pub contract_id: Option<String>,
    pub key: String,
}

pub struct PendingCommandStruct {
    pub txid: String,
    pub payload: String,
    pub bid_payload: Option<Vec<BidPayload>>,
    pub contract_id: Option<String>,
    pub time_added: String,
}

pub struct BidPayload {
    pub contract_id: String,
    pub trade_txs: Vec<TradeTx>,
}

pub struct TradeTx {
    pub order_id: String,
    pub accept_tx: String,
    pub fulfil_tx: String,
}

pub struct ResultStruct {
    pub result: String,
}

/// A transaction as the chain index service reports it.
pub struct TxInfo {
    pub txid: Option<String>,
    pub vout: Option<Vec<Vout>>,
    pub vin: Option<Vec<Vin>>,
    pub status: Option<Status>,
    pub fee: Option<u64>,
}

pub struct Vout {
    pub scriptpubkey: Option<String>,
    pub scriptpubkey_asm: Option<String>,
    pub scriptpubkey_type: Option<String>,
    pub scriptpubkey_address: Option<String>,
    pub value: Option<u64>,
}

pub struct Vin {
    pub txid: String,
    pub vout: u32,
    pub prevout: Option<Vout>,
}

pub struct Status {
    pub confirmed: Option<bool>,
    pub block_height: Option<u64>,
    pub block_hash: Option<String>,
}

pub struct ContractImport {
    pub contract_id: String,
    pub ticker: String,
    pub rest_url: String,
    pub contract_type: String,
    pub decimals: i32,
}

pub struct BoundUtxoData {
    pub utxo: String,
    pub bind_type: i32,
    pub bound_data: String,
}

pub struct UtxoBalanceResult {
    pub balance_type: String,
    pub balance_value: String,
    pub contract_id: String,
    pub btc_price: Option<String>,
    pub num_bids: Option<String>,
    pub highest_bid: Option<String>,
    pub drip_amount: Option<u64>,
    pub min_bid: Option<String>,
    pub list_utxo: Option<String>,
}

pub struct UtxoBalances {
    pub contract_ids: Vec<String>,
    pub utxos: Vec<String>,
}

pub struct TxidCheck {
    pub contract_ids: Vec<String>,
    pub txids: Vec<String>,
}

pub struct TxidCheckResponse {
    pub contract_id: String,
    pub entries: Vec<ContractHistoryEntry>,
}

pub struct TradeUtxoRequest {
    pub contract_id: String,
    pub utxos: Vec<String>,
}

pub struct ListingSummary {
    pub quantity: u64,
    pub list_price: u64,
    pub bid_count: u64,
    pub highest_bid: u64,
    pub listing_utxo: String,
    pub pending_listing: bool,
}

pub struct ContractListingResponse {
    pub contract_id: String,
    pub ticker: String,
    pub rest_url: String,
    pub contract_type: String,
    pub decimals: i32,
    pub listing_summaries: Vec<ListingSummary>,
}

pub struct ContractTradeResponse {
    pub contract_id: String,
    pub order_id: String,
    pub bid_utxo: String,
    pub listing_amount: u64,
    pub listing_price: u64,
    pub bid_amount: u64,
    pub bid_price: u64,
    pub listing_utxo: String,
    pub bid_pending: bool,
}

pub struct ContractHistoryEntry {
    pub tx_type: String,
    pub scl_value: u64,
    pub txid: String,
    pub pending: bool,
    pub btc_price: Option<u64>,
}

/// The node's settings.
pub struct Config {
    pub block_height: i32,
    pub memes: Vec<String>,
    pub reserved_tickers: Option<Vec<String>>,
    pub hosts_ips: Option<Vec<String>>,
    pub my_ip_split: Option<Vec<u8>>,
    pub my_ip: Option<String>,
    pub key: Option<String>,
    pub esplora: Option<String>,
    pub url: Option<String>,
}

pub struct FulfilledSummary {
    pub bid_price: u64,
    pub listing_price: u64,
    pub listing_amount: u64,
    pub bid_amount: u64,
}

pub struct ContractInteractions {
    pub fulfillment_summaries: Vec<FulfilledSummary>,
    pub total_transfers: u64,
    pub total_transfer_value: u64,
    pub total_burns: u64,
}

pub struct PagingMetaData {
    pub current_page: usize,
    pub total_pages: usize,
    pub page_entries: usize,
    pub entries: usize,
}

pub struct CancelRequest {
    pub contract_id: String,
    pub txid: String,
    pub utxo: String,
}

pub struct BidData {
    pub bid_price: String,
    pub bid_amount: String,
    pub order_id: String,
    pub fulfill_tx: String,
    pub accept_tx: String,
    pub reseved_utxo: String,
}

pub struct Lookups {
    pub lps: Vec<String>,
}

pub struct LiquidityPoolString {
    pub contract_id_1: String,
    pub contract_id_2: String,
    pub pool_1: String,
    pub pool_2: String,
    pub fee: String,
    pub k: String,
    pub liquidity_ratio: String,
    pub swaps: StrMap<(u64, u64)>,
    pub liquidations: StrMap<(u64, u64)>,
}

pub struct SpentResult {
    pub spent: bool,
}

pub struct CustomError {
    pub message: String,
}

impl CustomError {
    /// The error's message.
    pub fn to_string(&self) -> (r: String)
        ensures
            r@ == self.message@,
    {
        self.message.clone()
    }
}

/// The pushed data of an `OP_RETURN` script in assembly form: what follows
/// the space after the first `OP_PUSHBYTES_<n>`.
pub open spec fn push_data(script: Seq<char>) -> Option<Seq<char>> {
    let i = find_from(script, "OP_PUSHBYTES_"@, 0);
    let j = find_from(script, seq![' '], i + 13);
    if i < 0 || j < 0 {
        None
    } else {
        Some(script.subrange(j + 1, script.len() as int))
    }
}

/// The pushed data of an `OP_RETURN` script written in assembly form.
pub fn op_return_push_data(script: &str) -> (r: Option<String>)
    ensures
        match r {
            Some(d) => push_data(script@) == Some(d@),
            None => push_data(script@) is None,
        },
{
    let s = chars_of(script);
    let n = s.len();
    let key = chars_of("OP_PUSHBYTES_");
    let space = chars_of(" ");
    proof {
        reveal_strlit("OP_PUSHBYTES_");
        reveal_strlit(" ");
        assert(space@ =~= seq![' ']);
    }
    let i = match find_exec(&s, &key, 0) {
        Some(i) => i,
        None => return None,
    };
    proof {
        crate::textops::lemma_find_from(s@, key@, 0);
    }
    let j = match find_exec(&s, &space, i + 13) {
        Some(j) => j,
        None => return None,
    };
    proof {
        crate::textops::lemma_find_from(s@, space@, i + 13);
    }
    Some(string_from_chars(&slice_vec(&s, j + 1, n)))
}

/// The script type that marks an `OP_RETURN` output.
pub open spec fn is_op_return(t: Seq<char>) -> bool {
    t == "op_return"@
}

/// The commitment of a transaction's outputs: the push data of the first
/// `OP_RETURN` output. An output before it without a type, or without an
/// assembly form, is an error.
pub open spec fn committed_data(vout: Seq<Vout>) -> Option<Seq<char>>
    decreases vout.len(),
{
    if vout.len() == 0 {
        None
    } else {
        match vout[0].scriptpubkey_type {
            None => None,
            Some(t) => if is_op_return(t@) {
                match vout[0].scriptpubkey_asm {
                    Some(a) => push_data(a@),
                    None => None,
                }
            } else {
                committed_data(vout.subrange(1, vout.len() as int))
            },
        }
    }
}

/// The push data of the first `OP_RETURN` among a transaction's outputs.
pub fn op_return_payload(vout: &Vec<Vout>) -> (r: Option<String>)
    ensures
        match r {
            Some(d) => committed_data(vout@) == Some(d@),
            None => committed_data(vout@) is None,
        },
{
    let op = String::from_str("op_return");
    assert(vout@.subrange(0, vout@.len() as int) =~= vout@);
    let mut i: usize = 0;
    while i < vout.len()
        invariant
            i <= vout@.len(),
            op@ == "op_return"@,
            committed_data(vout@) == committed_data(vout@.subrange(i as int, vout@.len() as int)),
        decreases vout@.len() - i,
    {
        let ghost rest = vout@.subrange(i as int, vout@.len() as int);
        proof {
            assert(rest[0] == vout@[i as int]);
            assert(rest.subrange(1, rest.len() as int) =~= vout@.subrange(i + 1, vout@.len() as int));
        }
        match &vout[i].scriptpubkey_type {
            None => return None,
            Some(t) => {
                if *t == op {
                    return match &vout[i].scriptpubkey_asm {
                        Some(a) => op_return_push_data(a.as_str()),
                        None => None,
                    };
                }
            },
        }
        i = i + 1;
    }
    None
}

/// The index record of a UTXO: `<contract_id>:<P-><D><kind>-,<amount>`, where
/// `P-` marks pending state and `D` an owner that also has drips.
pub open spec fn utxo_record_text(cid: Seq<char>, kind: Seq<char>, amount: u64, drip_present: bool, pending: bool) -> Seq<char> {
    cid + seq![':'] + (if pending { seq!['P', '-'] } else { Seq::empty() }) + (if drip_present { seq!['D'] } else { Seq::empty() })
        + kind + seq!['-', ','] + decimal(amount as nat)
}

/// The index record of a UTXO holding `amount` of `contract_id` as
/// `balance_type`; none for an empty UTXO without drips.
pub fn utxo_record(contract_id: &String, amount: u64, drip_present: bool, pending: bool, balance_type: &str) -> (r: Option<String>)
    ensures
        match r {
            Some(t) => !(amount == 0 && !drip_present) && t@ == utxo_record_text(contract_id@, balance_type@, amount, drip_present, pending),
            None => amount == 0 && !drip_present,
        },
{
    if amount == 0 && !drip_present {
        return None;
    }
    let mut v = chars_of(contract_id.as_str());
    v.push(':');
    if pending {
        v.push('P');
        v.push('-');
    }
    if drip_present {
        v.push('D');
    }
    let mut k = chars_of(balance_type);
    v.append(&mut k);
    v.push('-');
    v.push(',');
    let a = decimal_string(amount);
    let mut av = chars_of(a.as_str());
    v.append(&mut av);
    let r = string_from_chars(&v);
    assert(r@ =~= utxo_record_text(contract_id@, balance_type@, amount, drip_present, pending));
    Some(r)
}

/// The output is typed, and not an `OP_RETURN`.
pub open spec fn plain_output(o: Vout) -> bool {
    match o.scriptpubkey_type {
        Some(t) => !is_op_return(t@),
        None => false,
    }
}

pub open spec fn all_plain(vout: Seq<Vout>) -> bool {
    forall|i: int| 0 <= i < vout.len() ==> plain_output(#[trigger] vout[i])
}

/// The UTXO (`txid:vout`) that an input spends.
pub open spec fn input_utxo(v: Vin) -> Seq<char> {
    v.txid@ + seq![':'] + decimal(v.vout as nat)
}

/// What a transaction that rebinds tokens offers: the UTXOs it spends, and
/// whether it is confirmed. It must carry no `OP_RETURN` (every output
/// typed, none `op_return`), spend at least one output, and report its status.
pub open spec fn rebind_of(tx: TxInfo) -> Option<(Seq<Seq<char>>, bool)> {
    match (tx.vout, tx.vin, tx.status) {
        (Some(vout), Some(vin), Some(st)) =>
            if all_plain(vout@)
                && st.confirmed is Some && vin@.len() > 0 {
                Some((vin@.map_values(|v: Vin| input_utxo(v)), st.confirmed->Some_0))
            } else {
                None
            },
        _ => None,
    }
}

/// The spent UTXOs and confirmation of a transaction that rebinds tokens
/// without a command, or an error when it does not qualify (see `rebind_of`).
pub fn rebind_inputs(tx: &TxInfo) -> (r: Result<(Vec<String>, bool), String>)
    ensures
        match r {
            Ok(v) => rebind_of(*tx) == Some((v.0@.map_values(|s: String| s@), v.1)),
            Err(_) => rebind_of(*tx) is None,
        },
{
    let vout = match &tx.vout {
        Some(v) => v,
        None => return Err(String::from_str("no outputs")),
    };
    let op = String::from_str("op_return");
    let mut i: usize = 0;
    while i < vout.len()
        invariant
            i <= vout@.len(),
            op@ == "op_return"@,
            tx.vout == Some(*vout),
            forall|j: int| 0 <= j < i ==> plain_output(#[trigger] vout@[j]),
        decreases vout@.len() - i,
    {
        match &vout[i].scriptpubkey_type {
            Some(t) => {
                if *t == op {
                    proof {
                        assert(!plain_output(vout@[i as int]));
                        assert(!all_plain(vout@));
                        assert(tx.vout == Some(*vout));
                        assert(rebind_of(*tx) is None);
                    }
                    return Err(String::from_str("the transaction carries an OP_RETURN"));
                }
            },
            None => {
                proof {
                    assert(!plain_output(vout@[i as int]));
                    assert(!all_plain(vout@));
                }
                return Err(String::from_str("an output has no type"));
            },
        }
        i = i + 1;
    }
    let vin = match &tx.vin {
        Some(v) => v,
        None => return Err(String::from_str("no inputs")),
    };
    let confirmed = match &tx.status {
        Some(st) => match st.confirmed {
            Some(c) => c,
            None => return Err(String::from_str("no confirmation status")),
        },
        None => return Err(String::from_str("no status")),
    };
    if vin.len() == 0 {
        return Err(String::from_str("no inputs"));
    }
    let mut senders: Vec<String> = Vec::new();
    let mut k: usize = 0;
    while k < vin.len()
        invariant
            k <= vin@.len(),
            senders@.len() == k,
            forall|j: int| 0 <= j < k ==> (#[trigger] senders@[j])@ == input_utxo(vin@[j]),
        decreases vin@.len() - k,
    {
        let mut v = chars_of(vin[k].txid.as_str());
        v.push(':');
        let d = decimal_string(vin[k].vout as u64);
        let mut dv = chars_of(d.as_str());
        v.append(&mut dv);
        let u = string_from_chars(&v);
        proof {
            assert(u@ =~= input_utxo(vin@[k as int]));
        }
        senders.push(u);
        k = k + 1;
    }
    proof {
        assert(senders@.map_values(|s: String| s@) =~= vin@.map_values(|v: Vin| input_utxo(v)));
    }
    Ok((senders, confirmed))
}

} // verus!
