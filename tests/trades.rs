use std::str::FromStr;

use bitcoin::blockdata::locktime::PackedLockTime;
use bitcoin::{Address, OutPoint, Script, Sequence, Transaction, TxIn, TxOut, Witness};
use scl_contracts::contract::SCL01Contract;
use scl_contracts::dispatch::{command_kind, CommandKind};
use scl_contracts::records::{TradeTx, TxInfo, Vin, Vout};
use scl_contracts::strmap::StrMap;
use scl_contracts::trade::{accepted_bid, claim_donation, collect_bids, payment_covers};
use scl_contracts::types::{Bid, Listing, DGE};

const ADDR: &str = "bc1qw508d6qejxtdg4y5r3zarvary0c5xw7kv8f3t4";

fn s(x: &str) -> String {
    x.to_string()
}

fn paying_tx(value: u64) -> Transaction {
    let addr = Address::from_str(ADDR).unwrap();
    Transaction {
        version: 2,
        lock_time: PackedLockTime(0),
        input: vec![TxIn {
            previous_output: OutPoint::null(),
            script_sig: Script::new(),
            sequence: Sequence(0xffff_ffff),
            witness: Witness::new(),
        }],
        output: vec![TxOut { value, script_pubkey: addr.script_pubkey() }],
    }
}

fn listed(decimals: i32) -> SCL01Contract {
    let mut c = SCL01Contract::new_scl01("M", "m", s("TKR"), &s("S:0"), 500, decimals);
    let l = Listing {
        list_utxo: s("L:0"),
        list_amt: 500,
        price: 1000,
        rec_addr: s(ADDR),
        change_utxo: s("C:0"),
        valid_bid_block: None,
    };
    c.list(&s("L"), &s("l"), &vec![s("S:0")], l, 1).unwrap();
    c
}

#[test]
fn bids_paid_in_full_are_collected() {
    let c = listed(0);
    let tx = paying_tx(500_000);
    let hex = bitcoin::consensus::encode::serialize_hex(&tx);
    let trades = vec![TradeTx { order_id: s("S:0"), accept_tx: s("AC"), fulfil_tx: hex.clone() }];
    let (bids, ids) = collect_bids("T", "{M:BID[S:0,500,1000,TXID:1]}", &trades, &c);
    assert_eq!(bids.len(), 1);
    assert_eq!(ids, vec![tx.txid().to_string()]);
    assert_eq!((bids[0].bid_amount, bids[0].bid_price), (500, 1000));
    assert_eq!(bids[0].reseved_utxo, "T:1");
    assert_eq!(bids[0].accept_tx, "AC");
    assert_eq!(bids[0].fulfill_tx, hex);
    assert_eq!(bids[0].fullfilment_utxos.len(), 1);
}

#[test]
fn underpaid_or_unmatched_bids_are_skipped() {
    let c = listed(0);
    let hex = bitcoin::consensus::encode::serialize_hex(&paying_tx(499_999));
    let trades = vec![TradeTx { order_id: s("S:0"), accept_tx: s("AC"), fulfil_tx: hex }];
    assert_eq!(collect_bids("T", "{M:BID[S:0,500,1000,TXID:1]}", &trades, &c).0.len(), 0);
    assert_eq!(collect_bids("T", "{M:BID[Q:0,500,1000,TXID:1]}", &trades, &c).0.len(), 0);
    assert_eq!(collect_bids("T", "{M:BID[S:0,500,1000,TXID:1]}", &vec![], &c).0.len(), 0);
    let bad = vec![TradeTx { order_id: s("S:0"), accept_tx: s("AC"), fulfil_tx: s("zz") }];
    assert_eq!(collect_bids("T", "{M:BID[S:0,1,1,TXID:1]}", &bad, &c).0.len(), 0);
}

#[test]
fn bid_cost_counts_whole_tokens() {
    assert!(payment_covers(1000, 500, 2, 0));
    assert!(!payment_covers(999, 500, 2, 0));
    assert!(payment_covers(10, 500, 2, 2));
    assert!(!payment_covers(9, 500, 2, 2));
}

fn out(addr: Option<&str>, value: Option<u64>) -> Vout {
    Vout { scriptpubkey: None, scriptpubkey_asm: None, scriptpubkey_type: None, scriptpubkey_address: addr.map(s), value }
}

fn claim_tx(outs: Vec<Vout>) -> TxInfo {
    TxInfo {
        txid: Some(s("T")),
        vout: Some(outs),
        vin: Some(vec![Vin { txid: s("P"), vout: 0, prevout: Some(out(Some("donor"), Some(1))) }]),
        status: None,
        fee: None,
    }
}

#[test]
fn donations_to_the_dge_address_are_added_up() {
    let tx = claim_tx(vec![out(Some("dge"), Some(60_000)), out(Some("x"), Some(5)), out(Some("dge"), Some(40_000)), out(None, Some(7))]);
    assert_eq!(claim_donation(&tx, &s("dge")), Ok((s("donor"), 100_000)));
    assert!(claim_donation(&claim_tx(vec![out(Some("x"), Some(5))]), &s("dge")).is_err());
    let mut no_input = claim_tx(vec![]);
    no_input.vin = Some(vec![]);
    assert!(claim_donation(&no_input, &s("dge")).is_err());
}

#[test]
fn single_drop_dge_rejects_a_repeat_donor() {
    let mut c = SCL01Contract::new_scl01("M", "m", s("TKR"), &s("A:0"), 20_000, 0);
    let dge = DGE {
        pool_amount: 10_000,
        sats_rate: 1000,
        max_drop: 500,
        current_amount_dropped: 0,
        donations_address: s("dge"),
        drip_duration: 10,
        single_drop: true,
        donaters: StrMap::new(),
    };
    c.create_dge(&s("G"), &s("g"), &vec![s("A:0")], dge, &s("C:0"), 50).unwrap();
    c.claim_dge(&s("H"), &s("h"), &s("A:0"), &s("R:0"), &s("donor"), 100_000, 60).unwrap();
    assert!(c.claim_dge(&s("H2"), &s("h"), &s("A:0"), &s("R:1"), &s("donor"), 100_000, 60).is_err());
    assert_eq!(c.dges.get(&s("A:0")).unwrap().donaters.get(&s("donor")), Some(&100_000));
}

#[test]
fn commands_dispatch_by_keyword() {
    assert_eq!(command_kind("{A:TRANSFER[x],[y(1)]}", "A:TRANSFER[x],[y(1)]"), CommandKind::Transfer);
    assert_eq!(command_kind("{SCL01:[T,1,0,TXID:0]}", "SCL01:[T,1,0,TXID:0]"), CommandKind::MintScl01);
    assert_eq!(command_kind("PLP[5]", "PLP[5]"), CommandKind::ProvideLiquidity);
    assert_eq!(command_kind("SLP[0,1,1,0.1]", "x"), CommandKind::Swap);
    assert_eq!(command_kind("{A:CANCELLISTING L:0}", "A:CANCELLISTING L:0"), CommandKind::CancelListing);
    assert_eq!(command_kind("{A:CLAIM_DIMAIRDROP X,Y}", "A:CLAIM_DIMAIRDROP X,Y"), CommandKind::ClaimDimAirdrop);
    assert_eq!(command_kind("{A:AIRDROP R:0}", "A:AIRDROP R:0"), CommandKind::Airdrop);
    assert_eq!(command_kind("{A:NOTHING}", "A:NOTHING"), CommandKind::Unknown);
}

#[test]
fn accept_transaction_names_its_bid() {
    let mut c = listed(0);
    let accept = paying_tx(1);
    let hex = bitcoin::consensus::encode::serialize_hex(&accept);
    let bid = Bid {
        bid_price: 1000,
        bid_amount: 500,
        order_id: s("S:0"),
        fulfill_tx: s("F"),
        accept_tx: hex,
        reseved_utxo: s("R:0"),
        fullfilment_utxos: vec![],
    };
    c.bid(&s("BD"), &s("b"), vec![bid], &vec![s("Y")], 2).unwrap();
    assert_eq!(accepted_bid(&c, &accept.txid().to_string()), Some(s("Y")));
    assert_eq!(accepted_bid(&c, &s("00")), None);
}
