use magic_crypt::MagicCryptTrait;
use scl_contracts::commit::{lp_payload, payload_committed};
use scl_contracts::contract::SCL01Contract;
use scl_contracts::mint::handle_mint_payload;
use scl_contracts::payload::{handle_payload_extra_trade_info, handle_transfer_payload};
use scl_contracts::projections::fulfilled_summary;
use scl_contracts::strmap::StrMap;
use scl_contracts::types::{Bid, DimAirdrop, Listing, LiquidityPool, DGE};

fn s(x: &str) -> String {
    x.to_string()
}

fn bal(c: &SCL01Contract, utxo: &str) -> Option<u64> {
    c.owners.get(&s(utxo)).copied()
}

fn minted(owner: &str, amount: u64, decimals: i32) -> SCL01Contract {
    SCL01Contract::new_scl01("M", "{SCL01:[TKR,1,0,TXID:0]}", s("TKR"), &s(owner), amount, decimals)
}

fn listing(list_utxo: &str, amt: u64, price: u64, change: &str) -> Listing {
    Listing {
        list_utxo: s(list_utxo),
        list_amt: amt,
        price,
        rec_addr: s("addr"),
        change_utxo: s(change),
        valid_bid_block: None,
    }
}

fn bid(order: &str, amt: u64, price: u64, fulfil: &str, reserved: &str) -> Bid {
    Bid {
        bid_price: price,
        bid_amount: amt,
        order_id: s(order),
        fulfill_tx: s(fulfil),
        accept_tx: s("X"),
        reseved_utxo: s(reserved),
        fullfilment_utxos: Vec::new(),
    }
}

fn listed_total(c: &SCL01Contract) -> u64 {
    let mut t = 0;
    for k in c.listings.keys() {
        t += c.listings.get(&k).unwrap().list_amt;
    }
    t
}

fn owners_total(c: &SCL01Contract) -> u64 {
    c.owners.amount_sum()
}

#[test]
fn mint_and_transfer() {
    let mint = "{SCL01:[TKR,1000,0,TXID:0]}";
    let (ticker, owner, max, dec) = handle_mint_payload(mint, "A").unwrap();
    assert_eq!(ticker, "TKR");
    assert_eq!(owner, "A:0");
    assert_eq!(max, 1000);
    assert_eq!(dec, 0);
    let mut c = SCL01Contract::new_scl01("A", mint, ticker, &owner, max, dec as i32);
    let payload = "{A:TRANSFER[A:0],[B:0(400),B:1(600)]}";
    let (senders, outs, last) = handle_transfer_payload("B", payload).unwrap();
    assert_eq!(senders, vec![s("A:0")]);
    assert_eq!(outs, vec![(s("B:0"), 400), (s("B:1"), 600)]);
    assert_eq!(last, "B:1");
    c.transfer(&s("B"), &s(payload), &senders, &outs, 10).unwrap();
    assert_eq!(bal(&c, "B:0"), Some(400));
    assert_eq!(bal(&c, "B:1"), Some(600));
    assert_eq!(bal(&c, "A:0"), None);
    assert_eq!(c.owners.len(), 2);
    assert_eq!(c.payloads.len(), 2);
    assert_eq!(c.payloads.get(&s("A")).unwrap(), mint);
    assert_eq!(c.payloads.get(&s("B")).unwrap(), payload);
    assert_eq!(c.supply, 1000);
}

#[test]
fn transfer_remainder_goes_to_last_receiver() {
    let mut c = minted("A:0", 1000, 0);
    c.transfer(&s("T"), &s("t"), &vec![s("A:0")], &vec![(s("B:0"), 300), (s("B:1"), 200)], 5).unwrap();
    assert_eq!(bal(&c, "B:0"), Some(300));
    assert_eq!(bal(&c, "B:1"), Some(700));
    assert_eq!(owners_total(&c), c.supply);
}

#[test]
fn transfer_errors() {
    let mut c = minted("A:0", 1000, 0);
    assert!(c.transfer(&s("T"), &s("t"), &vec![s("Z:0")], &vec![(s("B:0"), 1)], 5).is_err());
    assert!(c.transfer(&s("T"), &s("t"), &vec![s("A:0")], &vec![(s("B:0"), 1001)], 5).is_err());
    assert!(c.transfer(&s("T"), &s("t"), &vec![s("A:0")], &vec![], 5).is_err());
    assert!(c.transfer(&s("M"), &s("t"), &vec![s("A:0")], &vec![(s("B:0"), 1)], 5).is_err());
    assert_eq!(bal(&c, "A:0"), Some(1000));
    assert_eq!(c.payloads.len(), 1);
}

#[test]
fn payload_applied_twice_is_rejected() {
    let mut c = minted("A:0", 1000, 0);
    let outs = vec![(s("B:0"), 1000)];
    c.transfer(&s("T"), &s("t"), &vec![s("A:0")], &outs, 5).unwrap();
    let again = c.transfer(&s("T"), &s("t"), &vec![s("B:0")], &vec![(s("C:0"), 1000)], 5);
    assert!(again.is_err());
    assert_eq!(bal(&c, "B:0"), Some(1000));
    assert_eq!(bal(&c, "C:0"), None);
    assert_eq!(c.payloads.len(), 2);
}

#[test]
fn burn_reduces_supply() {
    let mut c = minted("A:0", 1000, 0);
    assert!(c.burn(&s("U"), &s("u"), &vec![s("A:0")], &1001, &s("C:0")).is_err());
    assert_eq!(c.burn(&s("U"), &s("u"), &vec![s("A:0")], &250, &s("C:0")), Ok(0));
    assert_eq!(c.supply, 750);
    assert_eq!(bal(&c, "C:0"), Some(750));
    assert_eq!(bal(&c, "A:0"), None);
}

#[test]
fn burn_all_leaves_no_change_utxo() {
    let mut c = minted("A:0", 10, 0);
    c.burn(&s("U"), &s("u"), &vec![s("A:0")], &10, &s("C:0")).unwrap();
    assert_eq!(c.supply, 0);
    assert_eq!(c.owners.len(), 0);
}

#[test]
fn drip_round_trip() {
    let mut c = minted("A:0", 1000, 0);
    let (drippers, change) = c
        .start_drip(&s("D"), &s("d"), &vec![s("A:0")], &vec![(s("B:0"), (100, 10))], &s("C:0"), 100)
        .unwrap();
    assert_eq!(drippers, vec![(s("B:0"), 10)]);
    assert_eq!(change, (s("C:0"), 900));
    assert_eq!(c.supply, 1000);
    let d = &c.drips.get(&s("B:0")).unwrap()[0];
    assert_eq!((d.block_end, d.drip_amount, d.amount, d.start_block), (109, 10, 100, 100));
    let paid = c.drip(109).unwrap();
    assert_eq!(paid, vec![(s("B:0"), 100, false)]);
    assert_eq!(bal(&c, "B:0"), Some(100));
    assert!(!c.drips.contains_key(&s("B:0")));
    assert_eq!(c.supply, 1000);
}

#[test]
fn drip_in_steps_pays_the_same() {
    let mut c = minted("A:0", 1000, 0);
    c.start_drip(&s("D"), &s("d"), &vec![s("A:0")], &vec![(s("B:0"), (105, 10))], &s("C:0"), 100).unwrap();
    assert_eq!(bal(&c, "B:0"), Some(10));
    c.drip(103).unwrap();
    assert_eq!(bal(&c, "B:0"), Some(40));
    assert!(c.drips.contains_key(&s("B:0")));
    c.drip(200).unwrap();
    assert_eq!(bal(&c, "B:0"), Some(105));
    assert!(!c.drips.contains_key(&s("B:0")));
}

#[test]
fn start_drip_rejects_zero_duration() {
    let mut c = minted("A:0", 1000, 0);
    let r = c.start_drip(&s("D"), &s("d"), &vec![s("A:0")], &vec![(s("B:0"), (100, 0))], &s("C:0"), 100);
    assert!(r.is_err());
    assert_eq!(bal(&c, "A:0"), Some(1000));
}

#[test]
fn list_bid_accept_fulfil() {
    let mut c = minted("S:0", 500, 0);
    c.list(&s("L"), &s("l"), &vec![s("S:0")], listing("L:0", 500, 1000, "C:0"), 1).unwrap();
    assert_eq!(c.owners.len(), 0);
    assert_eq!(listed_total(&c), 500);
    c.bid(&s("BD"), &s("b"), vec![bid("S:0", 500, 1000, "Y", "R:0")], &vec![s("Y")], 2).unwrap();
    assert_eq!(c.listings.get(&s("S:0")).unwrap().valid_bid_block, Some(2));
    assert_eq!(c.bids.len(), 1);
    c.accept_bid(&s("X"), &s("{C:ACCEPT_BID}"), &s("Y")).unwrap();
    assert_eq!(c.fulfillments.get(&s("Y")).unwrap(), "S:0");
    let stored = c.payloads.get(&s("X")).unwrap().clone();
    assert_eq!(stored, "{C:ACCEPT_BID}-ExtraInfo-Y,500,1000");
    assert_eq!(handle_payload_extra_trade_info(&stored).unwrap(), (s("Y"), 500, 1000));
    let summary = fulfilled_summary(&c, &s("Y")).unwrap();
    assert_eq!(
        (summary.bid_price, summary.bid_amount, summary.listing_price, summary.listing_amount),
        (1000, 500, 1000, 500)
    );
    let (new_owners, removed, list_utxo) = c.fulfil(&s("Y"), &s("{C:FULFIL_TRADE}"), &s("Y")).unwrap();
    assert_eq!(new_owners, vec![(s("Y:0"), 500)]);
    assert_eq!(removed, vec![s("R:0")]);
    assert_eq!(list_utxo, "L:0");
    assert_eq!(bal(&c, "Y:0"), Some(500));
    assert_eq!(c.listings.len(), 0);
    assert_eq!(c.bids.len(), 0);
    assert_eq!(c.fulfillments.len(), 0);
    assert!(fulfilled_summary(&c, &s("Y")).is_none());
    assert_eq!(owners_total(&c) + listed_total(&c), c.supply);
}

#[test]
fn partial_fulfil_returns_change() {
    let mut c = minted("S:0", 500, 0);
    c.list(&s("L"), &s("l"), &vec![s("S:0")], listing("L:0", 500, 1000, "C:0"), 1).unwrap();
    c.bid(&s("BD"), &s("b"), vec![bid("S:0", 200, 3000, "Y", "R:0")], &vec![s("Y")], 2).unwrap();
    c.accept_bid(&s("X"), &s("a"), &s("Y")).unwrap();
    let (new_owners, _, _) = c.fulfil(&s("Y"), &s("f"), &s("Y")).unwrap();
    assert_eq!(new_owners, vec![(s("Y:0"), 200), (s("Y:2"), 300)]);
    assert_eq!(owners_total(&c), 500);
}

#[test]
fn bid_over_listing_is_dropped_and_low_bid_does_not_mark() {
    let mut c = minted("S:0", 500, 0);
    c.list(&s("L"), &s("l"), &vec![s("S:0")], listing("L:0", 100, 10, "C:0"), 1).unwrap();
    let bids = vec![bid("S:0", 101, 10, "Y1", "R:1"), bid("S:0", 100, 5, "Y2", "R:2"), bid("Q:0", 1, 1, "Y3", "R:3")];
    c.bid(&s("BD"), &s("b"), bids, &vec![s("Y1"), s("Y2"), s("Y3")], 7).unwrap();
    assert_eq!(c.bids.len(), 1);
    assert!(c.bids.contains_key(&s("Y2")));
    assert_eq!(c.listings.get(&s("S:0")).unwrap().valid_bid_block, None);
}

#[test]
fn cancel_listing_after_bids() {
    let mut c = minted("S:0", 100, 0);
    c.list(&s("L"), &s("l"), &vec![s("S:0")], listing("L:0", 100, 10, "C:0"), 1).unwrap();
    let bids = vec![bid("S:0", 100, 10, "Y1", "R:1"), bid("S:0", 50, 20, "Y2", "R:2")];
    c.bid(&s("BD"), &s("b"), bids, &vec![s("Y1"), s("Y2")], 2).unwrap();
    assert_eq!(c.bids.len(), 2);
    let ((rcv, amount), mut removed) = c.cancel_listing(&s("Z"), &s("L:0"), s("cancel")).unwrap();
    removed.sort();
    assert_eq!(removed, vec![s("R:1"), s("R:2")]);
    assert_eq!((rcv, amount), (s("Z:0"), 100));
    assert_eq!(c.bids.len(), 0);
    assert_eq!(c.listings.len(), 0);
    assert_eq!(bal(&c, "Z:0"), Some(100));
    assert_eq!(owners_total(&c) + listed_total(&c), c.supply);
}

#[test]
fn cancel_listing_errors() {
    let mut c = minted("S:0", 100, 0);
    assert!(c.cancel_listing(&s("Z"), &s("L:0"), s("c")).is_err());
    c.list(&s("L"), &s("l"), &vec![s("S:0")], listing("L:0", 100, 10, "C:0"), 1).unwrap();
    c.bid(&s("BD"), &s("b"), vec![bid("S:0", 100, 10, "Y", "R:1")], &vec![s("Y")], 2).unwrap();
    c.accept_bid(&s("X"), &s("a"), &s("Y")).unwrap();
    assert!(c.cancel_listing(&s("Z"), &s("L:0"), s("c")).is_err());
    assert!(c.cancel_bid(&s("W"), &s("R:1"), s("c")).is_err());
    assert_eq!(c.listings.len(), 1);
}

#[test]
fn cancel_bid_removes_it() {
    let mut c = minted("S:0", 100, 0);
    c.list(&s("L"), &s("l"), &vec![s("S:0")], listing("L:0", 100, 10, "C:0"), 1).unwrap();
    c.bid(&s("BD"), &s("b"), vec![bid("S:0", 100, 10, "Y", "R:1")], &vec![s("Y")], 2).unwrap();
    assert_eq!(c.cancel_bid(&s("W"), &s("R:1"), s("c")), Ok(0));
    assert_eq!(c.bids.len(), 0);
    assert!(c.cancel_bid(&s("W2"), &s("R:1"), s("c")).is_err());
}

#[test]
fn list_more_than_owned_is_an_error() {
    let mut c = minted("S:0", 100, 0);
    assert!(c.list(&s("L"), &s("l"), &vec![s("S:0")], listing("L:0", 101, 10, "C:0"), 1).is_err());
    assert_eq!(bal(&c, "S:0"), Some(100));
}

#[test]
fn supply_is_conserved_over_a_sequence() {
    let mut c = minted("A:0", 1000, 0);
    c.transfer(&s("T1"), &s("t"), &vec![s("A:0")], &vec![(s("B:0"), 600), (s("B:1"), 400)], 1).unwrap();
    c.burn(&s("U1"), &s("u"), &vec![s("B:1")], &100, &s("B:2")).unwrap();
    c.list(&s("L1"), &s("l"), &vec![s("B:0")], listing("L:0", 500, 1, "B:3"), 1).unwrap();
    assert_eq!(owners_total(&c) + listed_total(&c), c.supply);
    c.cancel_listing(&s("Z1"), &s("L:0"), s("c")).unwrap();
    assert_eq!(owners_total(&c) + listed_total(&c), c.supply);
    assert_eq!(c.supply, 900);
}

fn pool_contract() -> SCL01Contract {
    let mut c = minted("P:0", 0, 0);
    c.liquidity_pool = Some(LiquidityPool {
        contract_id_1: s("T1"),
        contract_id_2: s("T2"),
        pool_1: 1_000_000,
        pool_2: 1_000_000,
        fee_ppm: 3000,
        k: 1_000_000_000_000,
        liquidity_ratio: 1_000_000,
        swaps: StrMap::new(),
        liquidations: StrMap::new(),
    });
    c
}

#[test]
fn lp_swap_within_tolerance() {
    let mut c = pool_contract();
    let out = c.swap_lp("SW", "s", s("T1"), 10_000, 9_900, 10_000).unwrap();
    assert_eq!(out, 9_871);
    let p = c.liquidity_pool.as_ref().unwrap();
    assert_eq!(p.pool_1, 1_010_000);
    assert_eq!(p.pool_2, 990_129);
    assert_eq!(p.k, 1_010_000u128 * 990_129u128);
    assert_eq!(p.swaps.get(&s("SW")), Some(&(10_000, 9_871)));
}

#[test]
fn lp_swap_above_tolerance_is_capped() {
    let mut c = pool_contract();
    let out = c.swap_lp("SW", "s", s("T2"), 10_000, 9_000, 10_000).unwrap();
    assert_eq!(out, 9_090);
    let p = c.liquidity_pool.as_ref().unwrap();
    assert_eq!(p.pool_1, 1_000_000 - 9_090);
    assert_eq!(p.pool_2, 1_010_000);
    assert_eq!(p.k, p.pool_1 as u128 * p.pool_2 as u128);
}

#[test]
fn lp_swap_below_tolerance_does_nothing() {
    let mut c = pool_contract();
    let out = c.swap_lp("SW", "s", s("T1"), 10_000, 11_000, 10_000).unwrap();
    assert_eq!(out, 0);
    let p = c.liquidity_pool.as_ref().unwrap();
    assert_eq!((p.pool_1, p.pool_2), (1_000_000, 1_000_000));
    assert!(!c.payloads.contains_key(&s("SW")));
    assert!(c.swap_lp("SW2", "s", s("T9"), 1, 1, 1).is_err());
}

#[test]
fn lp_provide_and_liquidate_keep_the_product() {
    let mut c = pool_contract();
    let (utxo, shares) = c.provide_liquidity_lp("PR", "p", 1000).unwrap();
    assert_eq!((utxo.as_str(), shares), ("PR:0", 2000));
    let p = c.liquidity_pool.as_ref().unwrap();
    assert_eq!((p.pool_1, p.pool_2), (1_001_000, 1_001_000));
    assert_eq!(p.k, 1_001_000u128 * 1_001_000u128);
    assert_eq!(c.supply, 2000);
    let (t1, t2, change_utxo, change, _) = c.liquidate_postion_lp("LQ", "l", &vec![s("PR:0")], 1000, 5).unwrap();
    assert_eq!((t1, t2), (500_500, 500_500));
    assert_eq!((change_utxo.as_str(), change), ("LQ:0", 1000));
    let p = c.liquidity_pool.as_ref().unwrap();
    assert_eq!((p.pool_1, p.pool_2), (500_500, 500_500));
    assert_eq!(p.k, 500_500u128 * 500_500u128);
    assert_eq!(c.supply, 1000);
}

#[test]
fn dge_claim() {
    let mut c = minted("A:0", 20_000, 0);
    let dge = DGE {
        pool_amount: 10_000,
        sats_rate: 1000,
        max_drop: 500,
        current_amount_dropped: 0,
        donations_address: s("bc1q"),
        drip_duration: 10,
        single_drop: false,
        donaters: StrMap::new(),
    };
    c.create_dge(&s("G"), &s("g"), &vec![s("A:0")], dge, &s("C:0"), 50).unwrap();
    assert_eq!(c.supply, 20_000);
    let (rcv, balance) = c.claim_dge(&s("H"), &s("h"), &s("A:0"), &s("R:0"), &s("donor"), 100_000, 60).unwrap();
    assert_eq!((rcv.as_str(), balance), ("R:0", 10));
    let d = &c.drips.get(&s("R:0")).unwrap()[0];
    assert_eq!((d.amount, d.drip_amount, d.block_end), (100, 10, 69));
    assert_eq!(c.dges.get(&s("A:0")).unwrap().current_amount_dropped, 100);
    assert!(c.claim_dge(&s("H2"), &s("h"), &s("A:0"), &s("R:1"), &s("donor"), 600_000, 60).is_err());
    assert!(c.claim_dge(&s("H3"), &s("h"), &s("A:0"), &s("R:1"), &s("donor"), 999, 60).is_err());
}

#[test]
fn dim_airdrop_pays_out_its_pool() {
    let mut c = minted("A:0", 1000, 0);
    c.create_dim_airdrop(&s("DA"), &s("d"), &vec![s("A:0")], &100, &10, &2, &30, &10, &s("C:0"), &false, 1).unwrap();
    assert_eq!(c.supply, 1000);
    let mut paid = Vec::new();
    let mut last = u64::MAX;
    for i in 0..20 {
        if !c.diminishing_airdrops.contains_key(&s("A:0")) {
            break;
        }
        let before = bal(&c, "R:0").unwrap_or(0);
        let cur = c.diminishing_airdrops.get(&s("A:0")).unwrap().current_airdrop;
        assert!(cur <= last);
        last = cur;
        c.claim_dim_airdrop(&format!("CL{}", i), &s("c"), &s("A:0"), &s("R:0"), false, &s("addr")).unwrap();
        paid.push(bal(&c, "R:0").unwrap() - before);
    }
    assert_eq!(paid, vec![30, 30, 20, 20]);
    assert_eq!(paid.iter().sum::<u64>(), 100);
    assert_eq!(c.supply, 1000);
}

#[test]
fn dim_airdrop_single_drop_rejects_repeat_claimant() {
    let mut c = minted("A:0", 1000, 0);
    c.create_dim_airdrop(&s("DA"), &s("d"), &vec![s("A:0")], &100, &10, &2, &30, &10, &s("C:0"), &true, 1).unwrap();
    c.claim_dim_airdrop(&s("CL1"), &s("c"), &s("A:0"), &s("R:0"), false, &s("addr")).unwrap();
    assert!(c.claim_dim_airdrop(&s("CL2"), &s("c"), &s("A:0"), &s("R:1"), false, &s("addr")).is_err());
    let a: &DimAirdrop = c.diminishing_airdrops.get(&s("A:0")).unwrap();
    assert_eq!(a.claimers.get(&s("addr")), Some(&30));
}

#[test]
fn right_to_mint_exercise() {
    let rights = vec![(s("R:0"), 100)];
    let mut c = SCL01Contract::new_scl03("M", "m", s("RTM"), 0, &rights).unwrap();
    assert_eq!(c.max_supply, Some(100));
    c.right_to_mint(&s("E"), &s("e"), &s("R:0"), &s("O:0"), &s("R:1"), &40).unwrap();
    assert_eq!(bal(&c, "O:0"), Some(40));
    assert_eq!(c.right_to_mint.get(&s("R:1")), Some(&60));
    assert!(!c.right_to_mint.contains_key(&s("R:0")));
    assert_eq!(c.supply, 40);
    assert!(c.right_to_mint(&s("E2"), &s("e"), &s("R:1"), &s("O:0"), &s("R:2"), &61).is_err());
}

#[test]
fn airdrop_claims_and_final_split() {
    let mut c = SCL01Contract::new_scl02("M", "m", s("AIR"), 300, 100, 0).unwrap();
    assert_eq!(c.total_airdrops, Some(3));
    assert_eq!(c.airdop(&s("D1"), &s("a"), &s("R:0"), false), Ok(100));
    assert_eq!(c.airdop(&s("D2"), &s("a"), &s("R:1"), true), Ok(100));
    assert_eq!(c.pending_claims.get(&s("R:1")), Some(&100));
    assert_eq!(c.airdop(&s("D3"), &s("a"), &s("R:2"), false), Ok(100));
    assert_eq!(c.airdop(&s("D4"), &s("a"), &s("R:3"), false), Ok(100));
    assert_eq!(c.last_airdrop_split.as_ref().unwrap().len(), 2);
    let shares = c.airdop_split().unwrap();
    assert_eq!(shares, vec![(s("R:2"), 50), (s("R:3"), 50)]);
    assert_eq!(c.current_airdrops, Some(3));
    assert_eq!(c.supply, 300);
    assert!(c.airdop(&s("D5"), &s("a"), &s("R:4"), false).is_err());
}

#[test]
fn payload_commitment_uses_sha256() {
    let digest = "ba7816bf8f01cfea414140de5dae2223b00361a396177a9cb410ff61f20015ad";
    assert!(payload_committed("abc", digest));
    assert!(payload_committed("\r\nabc\n", digest));
    assert!(!payload_committed("abd", digest));
    assert!(!payload_committed("\r\n", digest));
}

#[test]
fn lp_payload_decrypts_with_contract_key() {
    let mc = magic_crypt::MagicCrypt64::new("CID", None::<&[u8]>);
    let enc = hex::encode(mc.encrypt_to_bytes("PLP[100]"));
    assert_eq!(lp_payload("CID", &enc), Some(b"PLP[100]".to_vec()));
    let other = hex::encode(mc.encrypt_to_bytes("HELLO"));
    assert_eq!(lp_payload("CID", &other), None);
    assert_eq!(lp_payload("CID", "zz"), None);
}

#[test]
fn trade_terms_survive_a_payload_that_mentions_the_marker() {
    let mut c = minted("S:0", 500, 0);
    c.list(&s("L"), &s("l"), &vec![s("S:0")], listing("L:0", 500, 1000, "C:0"), 1).unwrap();
    c.bid(&s("BD"), &s("b"), vec![bid("S:0", 500, 1000, "Y", "R:0")], &vec![s("Y")], 2).unwrap();
    c.accept_bid(&s("X"), &s("A-ExtraInfo"), &s("Y")).unwrap();
    let stored = c.payloads.get(&s("X")).unwrap().clone();
    assert_eq!(stored, "A-ExtraInfo-ExtraInfo-Y,500,1000");
    assert_eq!(handle_payload_extra_trade_info(&stored), Ok((s("Y"), 500, 1000)));
}
