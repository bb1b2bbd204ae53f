//! Checking bids against the Bitcoin transactions that pay for them.
use vstd::prelude::*;

use crate::commit::{hex_decode, hex_decoded};
use crate::contract::{pow10, SCL01Contract};
use crate::payload::{after, bid_items, bid_views, handle_bid_payload};
use crate::records::{TradeTx, TxInfo, Vout};
use crate::textops::split;
use crate::types::{Bid, Listing};

verus! {

/// The txid of a serialized transaction, or `None` when it does not decode.
pub uninterp spec fn tx_id_of(raw: Seq<u8>) -> Option<Seq<char>>;

/// The outpoints (`txid:vout`) that a serialized transaction spends.
pub uninterp spec fn tx_inputs_of(raw: Seq<u8>) -> Option<Seq<Seq<char>>>;

/// The outputs of a serialized transaction: each script as text, and its value in satoshis.
pub uninterp spec fn tx_outputs_of(raw: Seq<u8>) -> Option<Seq<(Seq<char>, u64)>>;

/// The output script, as text, that pays a Bitcoin address.
pub uninterp spec fn address_script_of(addr: Seq<char>) -> Option<Seq<char>>;

/// Relies on `bitcoin::consensus::deserialize::<Transaction>` and `Transaction::txid`.
#[verifier::external_body]
fn decode_tx_id(raw: &Vec<u8>) -> (r: Option<String>)
    ensures
        match r {
            Some(t) => tx_id_of(raw@) == Some(t@),
            None => tx_id_of(raw@) is None,
        },
{
    bitcoin::consensus::deserialize::<bitcoin::Transaction>(raw).ok().map(|t| t.txid().to_string())
}

/// Relies on `bitcoin::consensus::deserialize::<Transaction>`: the previous
/// outputs of the inputs, written `txid:vout`.
#[verifier::external_body]
fn decode_tx_inputs(raw: &Vec<u8>) -> (r: Option<Vec<String>>)
    ensures
        match r {
            Some(v) => tx_inputs_of(raw@) == Some(v@.map_values(|s: String| s@)),
            None => tx_inputs_of(raw@) is None,
        },
{
    bitcoin::consensus::deserialize::<bitcoin::Transaction>(raw).ok().map(|t| {
        t.input.iter().map(|i| format!("{}:{}", i.previous_output.txid, i.previous_output.vout)).collect()
    })
}

/// Relies on `bitcoin::consensus::deserialize::<Transaction>`: each output's
/// script (its `Display` text) and value.
#[verifier::external_body]
fn decode_tx_outputs(raw: &Vec<u8>) -> (r: Option<Vec<(String, u64)>>)
    ensures
        match r {
            Some(v) => tx_outputs_of(raw@) == Some(v@.map_values(|o: (String, u64)| (o.0@, o.1))),
            None => tx_outputs_of(raw@) is None,
        },
{
    bitcoin::consensus::deserialize::<bitcoin::Transaction>(raw).ok().map(|t| {
        t.output.iter().map(|o| (o.script_pubkey.to_string(), o.value)).collect()
    })
}

/// Relies on `bitcoin::Address::from_str` and `Address::script_pubkey` (its `Display` text).
#[verifier::external_body]
fn address_script(addr: &str) -> (r: Option<String>)
    ensures
        match r {
            Some(t) => address_script_of(addr@) == Some(t@),
            None => address_script_of(addr@) is None,
        },
{
    addr.parse::<bitcoin::Address>().ok().map(|a| a.script_pubkey().to_string())
}

/// What the outputs with script `script` pay, added up (held at the largest `u64`).
pub open spec fn paid_to(outs: Seq<(Seq<char>, u64)>, script: Seq<char>) -> u64
    decreases outs.len(),
{
    if outs.len() == 0 {
        0
    } else {
        let t = paid_to(outs.drop_last(), script) + if outs.last().0 == script { outs.last().1 as int } else { 0 };
        if t > u64::MAX { u64::MAX } else { t as u64 }
    }
}

/// What the outputs with script `script` pay, added up.
pub fn paid_to_exec(outs: &Vec<(String, u64)>, script: &String) -> (r: u64)
    ensures
        r == paid_to(outs@.map_values(|o: (String, u64)| (o.0@, o.1)), script@),
{
    let ghost v = outs@.map_values(|o: (String, u64)| (o.0@, o.1));
    let mut t: u64 = 0;
    let mut i: usize = 0;
    while i < outs.len()
        invariant
            i <= outs@.len(),
            v == outs@.map_values(|o: (String, u64)| (o.0@, o.1)),
            t == paid_to(v.subrange(0, i as int), script@),
        decreases outs@.len() - i,
    {
        proof {
            assert(v.subrange(0, i + 1).drop_last() =~= v.subrange(0, i as int));
        }
        if outs[i].0 == *script {
            t = if outs[i].1 > u64::MAX - t { u64::MAX } else { t + outs[i].1 };
        }
        i = i + 1;
    }
    assert(v.subrange(0, outs@.len() as int) =~= v);
    t
}

/// What `amount` tokens cost at `price` satoshis per whole token.
pub open spec fn trade_cost(amount: u64, price: u64, dec: nat) -> int {
    (amount * price) / (pow10(dec) as int)
}

/// Whether `paid` satoshis cover `amount` tokens at `price`, with `decimals` decimals.
pub fn payment_covers(paid: u64, amount: u64, price: u64, decimals: u32) -> (r: bool)
    requires
        decimals <= 19,
    ensures
        r == (paid >= trade_cost(amount, price, decimals as nat)),
{
    let unit = crate::contract::pow10_of(decimals);
    let cost: u128 = crate::contract::mul_wide_pub(amount, price) / (unit as u128);
    paid as u128 >= cost
}

/// The trade (accept, fulfil) last given for `order`, empty when none is.
pub open spec fn trade_for(trades: Seq<TradeTx>, order: Seq<char>) -> (Seq<char>, Seq<char>)
    decreases trades.len(),
{
    if trades.len() == 0 {
        (Seq::empty(), Seq::empty())
    } else if trades.last().order_id@ == order {
        (trades.last().accept_tx@, trades.last().fulfil_tx@)
    } else {
        trade_for(trades.drop_last(), order)
    }
}

/// A bid as values: price, amount, order, fulfil tx, accept tx, reserved UTXO, fulfilment UTXOs.
pub type BidView = (u64, u64, Seq<char>, Seq<char>, Seq<char>, Seq<char>, Seq<Seq<char>>);

pub open spec fn bid_view(b: Bid) -> BidView {
    (b.bid_price, b.bid_amount, b.order_id@, b.fulfill_tx@, b.accept_tx@, b.reseved_utxo@, b.fullfilment_utxos@.map_values(|s: String| s@))
}

/// The bid that a parsed bid item makes, with the txid of its fulfilment: the
/// item's order is listed, a trade names its accept and fulfil transactions,
/// the fulfil transaction decodes, pays the listing's address what the bid
/// costs, and spends at least one output.
pub open spec fn bid_from_item(item: (Seq<char>, u64, u64, Seq<char>), trades: Seq<TradeTx>, listings: Map<Seq<char>, Listing>, dec: nat) -> Option<(BidView, Seq<char>)> {
    let (order, amt, price, reserved) = item;
    let (accept, fulfil) = trade_for(trades, order);
    let raw = match hex_decoded(fulfil) { Some(b) => b, None => Seq::empty() };
    if !listings.contains_key(order) || accept.len() == 0 || fulfil.len() == 0 || hex_decoded(fulfil) is None {
        None
    } else {
        match (tx_id_of(raw), tx_outputs_of(raw), address_script_of(listings[order].rec_addr@), tx_inputs_of(raw)) {
            (Some(id), Some(outs), Some(script), Some(ins)) =>
                if paid_to(outs, script) >= trade_cost(amt, price, dec) && ins.len() > 0 {
                    Some(((price, amt, order, fulfil, accept, reserved, ins), id))
                } else {
                    None
                },
            _ => None,
        }
    }
}

/// The bids that the items make, in order, each with its id.
pub open spec fn bids_from_items(items: Seq<(Seq<char>, u64, u64, Seq<char>)>, trades: Seq<TradeTx>, listings: Map<Seq<char>, Listing>, dec: nat) -> Seq<(BidView, Seq<char>)>
    decreases items.len(),
{
    if items.len() == 0 {
        Seq::empty()
    } else {
        let head = bids_from_items(items.drop_last(), trades, listings, dec);
        match bid_from_item(items.last(), trades, listings, dec) {
            Some(b) => head.push(b),
            None => head,
        }
    }
}

fn trade_for_exec(trades: &Vec<TradeTx>, order: &String) -> (r: (String, String))
    ensures
        (r.0@, r.1@) == trade_for(trades@, order@),
{
    let mut r: (String, String) = (String::new(), String::new());
    let mut i: usize = 0;
    while i < trades.len()
        invariant
            i <= trades@.len(),
            (r.0@, r.1@) == trade_for(trades@.subrange(0, i as int), order@),
        decreases trades@.len() - i,
    {
        proof {
            assert(trades@.subrange(0, i + 1).drop_last() =~= trades@.subrange(0, i as int));
        }
        if trades[i].order_id == *order {
            r = (trades[i].accept_tx.clone(), trades[i].fulfil_tx.clone());
        }
        i = i + 1;
    }
    assert(trades@.subrange(0, trades@.len() as int) =~= trades@);
    r
}

fn bid_from_item_exec(item: &(String, u64, u64, String), trades: &Vec<TradeTx>, c: &SCL01Contract, decimals: u32) -> (r: Option<(Bid, String)>)
    requires
        c.wf(),
        decimals <= 19,
    ensures
        match r {
            Some(b) => bid_from_item((item.0@, item.1, item.2, item.3@), trades@, c.listings@, decimals as nat) == Some((bid_view(b.0), b.1@)),
            None => bid_from_item((item.0@, item.1, item.2, item.3@), trades@, c.listings@, decimals as nat) is None,
        },
{
    let (accept, fulfil) = trade_for_exec(trades, &item.0);
    let addr = match c.listings.get(&item.0) {
        Some(l) => l.rec_addr.clone(),
        None => return None,
    };
    if accept.as_str().unicode_len() == 0 || fulfil.as_str().unicode_len() == 0 {
        proof {
            assert(accept@.len() == 0 || fulfil@.len() == 0);
        }
        return None;
    }
    let raw = match hex_decode(fulfil.as_str()) {
        Some(b) => b,
        None => return None,
    };
    let id = match decode_tx_id(&raw) {
        Some(t) => t,
        None => return None,
    };
    let outs = match decode_tx_outputs(&raw) {
        Some(o) => o,
        None => return None,
    };
    let script = match address_script(addr.as_str()) {
        Some(s) => s,
        None => return None,
    };
    let ins = match decode_tx_inputs(&raw) {
        Some(i) => i,
        None => return None,
    };
    let paid = paid_to_exec(&outs, &script);
    if !payment_covers(paid, item.1, item.2, decimals) || ins.len() == 0 {
        return None;
    }
    let b = Bid {
        bid_price: item.2,
        bid_amount: item.1,
        order_id: item.0.clone(),
        fulfill_tx: fulfil,
        accept_tx: accept,
        reseved_utxo: item.3.clone(),
        fullfilment_utxos: ins,
    };
    Some((b, id))
}

/// The bids that a `BID` command makes, each with the txid of its fulfilment
/// transaction, given the trade transactions submitted with it. A bid item
/// that does not read, names no listing or trade, or is not paid for in full,
/// is skipped; so is every item when the contract's decimals are out of range.
pub fn collect_bids(txid: &str, command: &str, trade_txs: &Vec<TradeTx>, c: &SCL01Contract) -> (r: (Vec<Bid>, Vec<String>))
    requires
        c.wf(),
    ensures
        r.0@.len() == r.1@.len(),
        (0 <= c.decimals <= 19 && after(command@, "BID"@) is Some) ==> ({
            let items = bid_items(split(after(command@, "BID"@)->Some_0, "],"@), txid@);
            let made = bids_from_items(items, trade_txs@, c.listings@, c.decimals as nat);
            &&& made.len() == r.0@.len()
            &&& forall|i: int| 0 <= i < made.len() ==> made[i] == (bid_view(#[trigger] r.0@[i]), r.1@[i]@)
        }),
        !(0 <= c.decimals <= 19 && after(command@, "BID"@) is Some) ==> r.0@.len() == 0,
{
    let mut bids: Vec<Bid> = Vec::new();
    let mut ids: Vec<String> = Vec::new();
    if c.decimals < 0 || c.decimals > 19 {
        return (bids, ids);
    }
    let decimals = c.decimals as u32;
    let items = match handle_bid_payload(txid, command) {
        Ok(items) => items,
        Err(_) => return (bids, ids),
    };
    let ghost iv = bid_views(items@);
    let mut i: usize = 0;
    while i < items.len()
        invariant
            i <= items@.len(),
            c.wf(),
            decimals == c.decimals as nat,
            decimals <= 19,
            iv == bid_views(items@),
            bids@.len() == ids@.len(),
            bids_from_items(iv.subrange(0, i as int), trade_txs@, c.listings@, decimals as nat).len() == bids@.len(),
            forall|k: int| 0 <= k < bids@.len() ==> bids_from_items(iv.subrange(0, i as int), trade_txs@, c.listings@, decimals as nat)[k]
                == (bid_view(#[trigger] bids@[k]), ids@[k]@),
        decreases items@.len() - i,
    {
        proof {
            assert(iv.subrange(0, i + 1).drop_last() =~= iv.subrange(0, i as int));
            assert(iv[i as int] == (items@[i as int].0@, items@[i as int].1, items@[i as int].2, items@[i as int].3@));
        }
        match bid_from_item_exec(&items[i], trade_txs, c, decimals) {
            Some((b, id)) => {
                bids.push(b);
                ids.push(id);
            },
            None => {},
        }
        i = i + 1;
    }
    proof {
        assert(iv.subrange(0, items@.len() as int) =~= iv);
    }
    (bids, ids)
}

/// What the outputs paying `addr` carry, added up (held at the largest `u64`);
/// outputs without an address or a value are passed over.
pub open spec fn donated_to(outs: Seq<Vout>, addr: Seq<char>) -> u64
    decreases outs.len(),
{
    if outs.len() == 0 {
        0
    } else {
        let o = outs.last();
        let add: int = match (o.scriptpubkey_address, o.value) {
            (Some(a), Some(v)) => if a@ == addr { v as int } else { 0 },
            _ => 0,
        };
        let t = donated_to(outs.drop_last(), addr) + add;
        if t > u64::MAX { u64::MAX } else { t as u64 }
    }
}

/// The donor (the address that the first input spends from) and the
/// satoshis a claim transaction pays to `donations_address`.
pub open spec fn donation_of(tx: TxInfo, donations_address: Seq<char>) -> Option<(Seq<char>, u64)> {
    match (tx.vin, tx.vout) {
        (Some(vin), Some(vout)) =>
            if vin@.len() == 0 {
                None
            } else {
                match vin@[0].prevout {
                    Some(p) => match p.scriptpubkey_address {
                        Some(donor) => {
                            let d = donated_to(vout@, donations_address);
                            if d == 0 { None } else { Some((donor@, d)) }
                        },
                        None => None,
                    },
                    None => None,
                }
            },
        _ => None,
    }
}

/// The donor and the donation of a DGE claim transaction; an error when it
/// names no donor or pays nothing to the donation address.
pub fn claim_donation(tx: &TxInfo, donations_address: &String) -> (r: Result<(String, u64), String>)
    ensures
        match r {
            Ok(v) => donation_of(*tx, donations_address@) == Some((v.0@, v.1)),
            Err(_) => donation_of(*tx, donations_address@) is None,
        },
{
    let vin = match &tx.vin {
        Some(v) => v,
        None => return Err(String::from_str("no inputs")),
    };
    let vout = match &tx.vout {
        Some(v) => v,
        None => return Err(String::from_str("no outputs")),
    };
    if vin.len() == 0 {
        return Err(String::from_str("no inputs"));
    }
    let donor = match &vin[0].prevout {
        Some(p) => match &p.scriptpubkey_address {
            Some(a) => a.clone(),
            None => return Err(String::from_str("no donor address")),
        },
        None => return Err(String::from_str("no previous output")),
    };
    let mut t: u64 = 0;
    let mut i: usize = 0;
    while i < vout.len()
        invariant
            i <= vout@.len(),
            t == donated_to(vout@.subrange(0, i as int), donations_address@),
        decreases vout@.len() - i,
    {
        proof {
            assert(vout@.subrange(0, i + 1).drop_last() =~= vout@.subrange(0, i as int));
        }
        match (&vout[i].scriptpubkey_address, vout[i].value) {
            (Some(a), Some(v)) => {
                if *a == *donations_address {
                    t = if v > u64::MAX - t { u64::MAX } else { t + v };
                }
            },
            _ => {},
        }
        i = i + 1;
    }
    proof {
        assert(vout@.subrange(0, vout@.len() as int) =~= vout@);
    }
    if t == 0 {
        return Err(String::from_str("donation amount is zero"));
    }
    Ok((donor, t))
}

/// The bid whose accept transaction has the txid `txid`, if any.
pub fn accepted_bid(c: &SCL01Contract, txid: &String) -> (r: Option<String>)
    requires
        c.wf(),
    ensures
        match r {
            Some(k) => c.bids@.contains_key(k@)
                && tx_id_of(match hex_decoded(c.bids@[k@].accept_tx@) { Some(b) => b, None => Seq::empty() }) == Some(txid@)
                && hex_decoded(c.bids@[k@].accept_tx@) is Some,
            None => forall|k: Seq<char>| #[trigger] c.bids@.contains_key(k) ==> !(hex_decoded(c.bids@[k].accept_tx@) is Some
                && tx_id_of(hex_decoded(c.bids@[k].accept_tx@)->Some_0) == Some(txid@)),
        },
{
    let keys = c.bids.keys();
    let mut i: usize = 0;
    while i < keys.len()
        invariant
            i <= keys@.len(),
            c.wf(),
            keys@.len() == c.bids.key_seq().len(),
            forall|j: int| 0 <= j < keys@.len() ==> #[trigger] keys@[j]@ == c.bids.key_seq()[j],
            forall|k: Seq<char>| #![trigger c.bids@.contains_key(k)] c.bids@.contains_key(k) <==> c.bids.key_seq().contains(k),
            forall|j: int| 0 <= j < i ==> !(hex_decoded(c.bids@[(#[trigger] keys@[j])@].accept_tx@) is Some
                && tx_id_of(hex_decoded(c.bids@[keys@[j]@].accept_tx@)->Some_0) == Some(txid@)),
        decreases keys@.len() - i,
    {
        proof {
            assert(c.bids.key_seq().contains(keys@[i as int]@));
        }
        let b = c.bids.get(&keys[i]).unwrap();
        match hex_decode(b.accept_tx.as_str()) {
            Some(raw) => match decode_tx_id(&raw) {
                Some(t) => {
                    if t == *txid {
                        return Some(keys[i].clone());
                    }
                },
                None => {},
            },
            None => {},
        }
        i = i + 1;
    }
    proof {
        assert forall|k: Seq<char>| #[trigger] c.bids@.contains_key(k) implies !(hex_decoded(c.bids@[k].accept_tx@) is Some
            && tx_id_of(hex_decoded(c.bids@[k].accept_tx@)->Some_0) == Some(txid@)) by {
            let j = choose|j: int| 0 <= j < c.bids.key_seq().len() && c.bids.key_seq()[j] == k;
            assert(keys@[j]@ == k);
        }
    }
    None
}

} // verus!
