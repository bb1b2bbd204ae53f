use scl_contracts::contract::SCL01Contract;
use scl_contracts::history::check_txid_history;
use scl_contracts::projections::{get_listing_summaries, trade_detail};
use scl_contracts::types::{Bid, Listing};
use scl_contracts::records::{op_return_payload, op_return_push_data, rebind_inputs, utxo_record, CustomError, Vout};
use scl_contracts::schedule::{page_bounds, page_of_keys, queue_action, QueueAction};
use scl_contracts::projections::contract_summary;
use scl_contracts::records::FulfilledSummary;

fn s(x: &str) -> String {
    x.to_string()
}

fn vout(kind: Option<&str>, script: Option<&str>) -> Vout {
    Vout {
        scriptpubkey: None,
        scriptpubkey_asm: script.map(s),
        scriptpubkey_type: kind.map(s),
        scriptpubkey_address: None,
        value: Some(0),
    }
}

#[test]
fn op_return_push_data_follows_the_push_opcode() {
    assert_eq!(op_return_push_data("OP_RETURN OP_PUSHBYTES_32 abcd"), Some(s("abcd")));
    assert_eq!(op_return_push_data("OP_RETURN OP_PUSHBYTES_32"), None);
    assert_eq!(op_return_push_data("OP_RETURN"), None);
}

#[test]
fn first_op_return_output_is_the_commitment() {
    let outs = vec![
        vout(Some("v0_p2wpkh"), Some("OP_0 OP_PUSHBYTES_20 00")),
        vout(Some("op_return"), Some("OP_RETURN OP_PUSHBYTES_2 beef")),
        vout(Some("op_return"), Some("OP_RETURN OP_PUSHBYTES_2 dead")),
    ];
    assert_eq!(op_return_payload(&outs), Some(s("beef")));
    assert_eq!(op_return_payload(&vec![vout(None, None)]), None);
    assert_eq!(op_return_payload(&vec![vout(Some("p2tr"), None)]), None);
}

#[test]
fn utxo_records() {
    assert_eq!(utxo_record(&s("C"), 400, false, false, "O"), Some(s("C:O-,400")));
    assert_eq!(utxo_record(&s("C"), 400, true, true, "O"), Some(s("C:P-DO-,400")));
    assert_eq!(utxo_record(&s("C"), 0, true, false, "O"), Some(s("C:DO-,0")));
    assert_eq!(utxo_record(&s("C"), 0, false, false, "O"), None);
}

#[test]
fn sweep_decisions() {
    assert_eq!(queue_action(false, false, 60, false), QueueAction::Wait);
    assert_eq!(queue_action(false, false, 121, false), QueueAction::Discard);
    assert_eq!(queue_action(true, false, 99999, false), QueueAction::ApplyPending);
    assert_eq!(queue_action(true, true, 0, false), QueueAction::ApplyConfirmed);
    assert_eq!(queue_action(true, false, 0, true), QueueAction::ApplyConfirmed);
}

#[test]
fn paging() {
    assert_eq!(page_bounds(0, 1), (1, 1, 0, 0));
    assert_eq!(page_bounds(250, 1), (3, 1, 0, 100));
    assert_eq!(page_bounds(250, 3), (3, 3, 200, 250));
    assert_eq!(page_bounds(250, 0), (3, 1, 0, 100));
    assert_eq!(page_bounds(250, 9), (3, 3, 200, 250));
    assert_eq!(page_bounds(200, 2), (2, 2, 100, 200));
}

#[test]
fn custom_error_message() {
    let e = CustomError { message: s("bad request") };
    assert_eq!(e.to_string(), "bad request");
}

fn token(owner: &str, amount: u64) -> SCL01Contract {
    SCL01Contract::new_scl01("M", "m", s("TKR"), &s(owner), amount, 0)
}

#[test]
fn pool_reserve_in_and_out() {
    let mut c = token("A:0", 1000);
    let (change, left, moved) = c.provide_liquidity(&s("P"), &s("p"), &vec![s("A:0")], 600, 5, true).unwrap();
    assert_eq!((change.as_str(), left, moved), ("P:1", 400, false));
    assert_eq!(c.liquidated_tokens, Some(600));
    assert_eq!(c.owners.get(&s("P:1")), Some(&400));
    let (c2, left2, _) = c.swap_claim(&s("S"), &s("s"), &vec![s("P:1")], 100, 5).unwrap();
    assert_eq!((c2.as_str(), left2), ("S:1", 300));
    assert_eq!(c.liquidated_tokens, Some(700));
    assert_eq!(c.swap_recieve(&s("R"), &s("r"), 50), Ok((s("R:0"), 50)));
    assert!(c.swap_recieve(&s("R2"), &s("r"), 0).is_err());
    let (rcv, balance, _) = c.liquidate_position(&s("L"), &s("l"), 150, false).unwrap();
    assert_eq!((rcv.as_str(), balance), ("L:2", 150));
    assert_eq!(c.liquidated_tokens, Some(500));
    assert!(c.liquidate_position(&s("L2"), &s("l"), 501, true).is_err());
    assert_eq!(c.supply, 1000);
}

#[test]
fn consolidate_moves_everything_to_the_last_receiver() {
    let mut c = token("A:0", 1000);
    c.transfer(&s("T"), &s("t"), &vec![s("A:0")], &vec![(s("B:0"), 300), (s("B:1"), 700)], 1).unwrap();
    let r = c.consolidate(&s("K"), &s("k"), &vec![s("B:0"), s("B:1")], &vec![s("K:0")], 2).unwrap();
    assert_eq!(r, (false, 1000));
    assert_eq!(c.owners.get(&s("K:0")), Some(&1000));
    assert_eq!(c.owners.len(), 1);
    assert!(c.consolidate(&s("K2"), &s("k"), &vec![s("B:0")], &vec![s("K:1")], 2).is_err());
    assert!(c.consolidate(&s("K3"), &s("k"), &vec![s("K:0")], &vec![], 2).is_err());
}

fn market() -> SCL01Contract {
    let mut c = token("S:0", 500);
    let l = Listing { list_utxo: s("L:0"), list_amt: 400, price: 7, rec_addr: s("a"), change_utxo: s("C:0"), valid_bid_block: None };
    c.list(&s("L"), &s("l"), &vec![s("S:0")], l, 1).unwrap();
    let b = |amt: u64, price: u64, res: &str| Bid {
        bid_price: price,
        bid_amount: amt,
        order_id: s("S:0"),
        fulfill_tx: s("F"),
        accept_tx: s("X"),
        reseved_utxo: s(res),
        fullfilment_utxos: vec![],
    };
    c.bid(&s("BD"), &s("b"), vec![b(100, 9, "R:1"), b(50, 12, "R:2")], &vec![s("Y1"), s("Y2")], 2).unwrap();
    c
}

#[test]
fn listing_summaries_count_bids() {
    let c = market();
    let sums = get_listing_summaries(&c, &vec![s("L:0"), s("Q:0")], true);
    assert_eq!(sums.len(), 2);
    assert_eq!((sums[0].quantity, sums[0].list_price, sums[0].bid_count, sums[0].highest_bid), (400, 7, 2, 12));
    assert_eq!((sums[0].listing_utxo.as_str(), sums[0].pending_listing), ("L:0", true));
    assert_eq!((sums[1].quantity, sums[1].listing_utxo.as_str()), (0, ""));
}

#[test]
fn trade_details_join_bid_and_listing() {
    let c = market();
    let t = trade_detail(&c, &s("CID"), &s("R:2"), false).unwrap();
    assert_eq!((t.order_id.as_str(), t.bid_amount, t.bid_price), ("S:0", 50, 12));
    assert_eq!((t.listing_amount, t.listing_price, t.listing_utxo.as_str()), (400, 7, "L:0"));
    assert_eq!((t.contract_id.as_str(), t.bid_utxo.as_str(), t.bid_pending), ("CID", "R:2", false));
    assert!(trade_detail(&c, &s("CID"), &s("R:9"), false).is_none());
}

#[test]
fn txid_history_reads_confirmed_then_pending() {
    let mint = "{SCL01:[TKR,1,0,TXID:0]}";
    let mut confirmed = SCL01Contract::new_scl01("M", mint, s("TKR"), &s("A:0"), 1000, 0);
    let payload = s("{M:TRANSFER[A:0],[B:0(1000)]}");
    let mut pending_state = SCL01Contract::new_scl01("M", mint, s("TKR"), &s("A:0"), 1000, 0);
    pending_state.transfer(&s("T"), &payload, &vec![s("A:0")], &vec![(s("B:0"), 1000)], 1).unwrap();
    let h = check_txid_history(&confirmed, &pending_state, &s("M"), &vec![s("T"), s("M")]);
    assert_eq!(h.len(), 2);
    assert_eq!((h[0].tx_type.as_str(), h[0].scl_value, h[0].pending), ("Mint", 1, false));
    assert_eq!((h[1].tx_type.as_str(), h[1].scl_value, h[1].pending), ("Transfer", 1000, true));
    confirmed.transfer(&s("T"), &payload, &vec![s("A:0")], &vec![(s("B:0"), 1000)], 1).unwrap();
    let h = check_txid_history(&confirmed, &pending_state, &s("M"), &vec![s("T")]);
    assert_eq!(h.len(), 1);
    assert!(!h[0].pending);
}

#[test]
fn spent_listing_and_bids_are_cleared() {
    let mut c = market();
    let cleared = c.remove_spent(&vec![s("L:0")]);
    assert_eq!(c.listings.len(), 0);
    assert_eq!(c.bids.len(), 0);
    assert_eq!(cleared.len(), 3);
    let mut c = market();
    let cleared = c.remove_spent(&vec![s("R:1")]);
    assert_eq!(cleared, vec![s("R:1")]);
    assert_eq!(c.listings.len(), 1);
    assert_eq!(c.bids.len(), 1);
    assert!(c.bids.contains_key(&s("Y2")));
}

#[test]
fn accepted_trade_keeps_a_spent_listing() {
    let mut c = market();
    c.accept_bid(&s("X"), &s("a"), &s("Y1")).unwrap();
    c.remove_spent(&vec![s("L:0")]);
    assert_eq!(c.listings.len(), 1);
    assert_eq!(c.bids.len(), 2);
    c.remove_spent(&vec![s("L:0"), s("R:1")]);
    assert_eq!(c.listings.len(), 0);
    assert_eq!(c.bids.len(), 0);
    assert_eq!(c.fulfillments.len(), 0);
}

#[test]
fn nft_contract_holds_one_token() {
    let c = SCL01Contract::new_scl05("N", "{SCL05:NFT,R:0,aGk=}", s("NFT"), &s("R:0"), s("aGk="));
    assert_eq!(c.supply, 1);
    assert_eq!(c.owners.get(&s("R:0")), Some(&1));
    assert_eq!(c.token_data, Some(s("aGk=")));
}

fn fs(bid_price: u64, bid_amount: u64, listing_price: u64, listing_amount: u64) -> FulfilledSummary {
    FulfilledSummary { bid_price, listing_price, listing_amount, bid_amount }
}

#[test]
fn contract_summary_averages_trades() {
    let c = market();
    let one = contract_summary(&c, &vec![fs(1000, 500, 900, 500)], 2, 77, false).unwrap();
    assert_eq!((one.average_listing_price, one.average_traded_price), (900, 1000));
    assert_eq!((one.total_listed, one.total_traded, one.total_burns, one.total_transfers), (500, 0, 2, 77));
    assert_eq!((one.total_owners, one.current_listings, one.current_bids, one.contract_interactions), (1, 1, 2, 3));
    assert_eq!(one.available_airdrops, None);
    let two = contract_summary(&c, &vec![fs(10, 100, 8, 100), fs(30, 50, 20, 100)], 0, 0, false).unwrap();
    assert_eq!(two.average_listing_price, (8 * 100 + 20 * 100) / 200);
    assert_eq!(two.average_traded_price, (10 + 30) / 2);
    assert_eq!(two.total_traded, 100);
    let none = contract_summary(&c, &vec![], 0, 0, false).unwrap();
    assert_eq!((none.average_listing_price, none.average_traded_price), (0, 0));
    assert!(contract_summary(&c, &vec![fs(u64::MAX, 2, 0, 0)], 0, 0, false).is_none());
    let air = SCL01Contract::new_scl02("M", "m", s("AIR"), 300, 100, 0).unwrap();
    assert_eq!(contract_summary(&air, &vec![], 0, 0, true).unwrap().available_airdrops, Some(300));
}

#[test]
fn pages_of_sorted_keys() {
    let keys: Vec<String> = (0..250).rev().map(|i| format!("k{:03}", i)).collect();
    let (page, meta) = page_of_keys(&keys, 3);
    assert_eq!(page.len(), 50);
    assert_eq!(page[0], "k200");
    assert_eq!(page[49], "k249");
    assert_eq!((meta.current_page, meta.total_pages, meta.page_entries, meta.entries), (3, 3, 100, 250));
    let keys150: Vec<String> = (0..150).map(|i| format!("k{:03}", i)).collect();
    let (past, meta_past) = page_of_keys(&keys150, 5);
    assert_eq!(past.len(), 50);
    assert_eq!((past[0].as_str(), past[49].as_str()), ("k100", "k149"));
    assert_eq!((meta_past.current_page, meta_past.total_pages), (2, 2));
    let (first, meta1) = page_of_keys(&vec![s("b"), s("a"), s("c")], 0);
    assert_eq!(first, vec![s("a"), s("b"), s("c")]);
    assert_eq!((meta1.current_page, meta1.total_pages), (1, 1));
}

#[test]
fn rebind_needs_inputs_and_no_op_return() {
    let vin = vec![scl_contracts::records::Vin { txid: s("P"), vout: 3, prevout: None }];
    let ok = scl_contracts::records::TxInfo {
        txid: Some(s("T")),
        vout: Some(vec![vout(Some("p2wpkh"), None)]),
        vin: Some(vin),
        status: Some(scl_contracts::records::Status { confirmed: Some(true), block_height: None, block_hash: None }),
        fee: None,
    };
    assert_eq!(rebind_inputs(&ok), Ok((vec![s("P:3")], true)));
    let mut with_commit = ok;
    with_commit.vout = Some(vec![vout(Some("op_return"), Some("OP_RETURN OP_PUSHBYTES_1 00"))]);
    assert!(rebind_inputs(&with_commit).is_err());
    with_commit.vout = Some(vec![]);
    with_commit.vin = Some(vec![]);
    assert!(rebind_inputs(&with_commit).is_err());
}

#[test]
fn bids_on_a_listing_utxo() {
    let c = market();
    let mut ids = scl_contracts::projections::bids_on_listing(&c, &s("L:0")).unwrap();
    ids.sort();
    assert_eq!(ids, vec![s("Y1"), s("Y2")]);
    assert!(scl_contracts::projections::bids_on_listing(&c, &s("Q:0")).is_none());
    assert_eq!(scl_contracts::projections::unique_listing(&c, &s("L:0")), Some(s("S:0")));
}

#[test]
fn a_second_drip_is_added_after_the_first() {
    let mut c = token("A:0", 1000);
    c.start_drip(&s("D1"), &s("d"), &vec![s("A:0")], &vec![(s("B:0"), (100, 10)), (s("B:0"), (50, 5))], &s("C:0"), 100).unwrap();
    assert_eq!(c.drips.get(&s("B:0")).unwrap().len(), 2);
    assert_eq!(c.owners.get(&s("B:0")), Some(&20));
    assert_eq!(c.supply, 1000);
}
