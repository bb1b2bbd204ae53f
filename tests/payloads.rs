use scl_contracts::mint::{handle_scl02_mint_payload, handle_scl04_mint_payload, handle_scl05_mint_payload};
use scl_contracts::payload::{handle_airdrop_payload, handle_cancel_bid_payload, handle_cancel_listing_payload};
use scl_contracts::history::{extract_commands, extract_info_from_payload};
use scl_contracts::payload::{
    extract_contract_id, handle_bid_payload, handle_burn_payload, handle_claim_dge_payload,
    handle_claim_diminishing_airdrop_payload, handle_create_dge_payload,
    handle_create_diminishing_airdrop_payload, handle_drip_payload, handle_liquidatation_payload_lp,
    handle_list_payload, handle_mint_rtm_payload, handle_payload_extra_trade_info,
    handle_provide_liquidity_payload_lp, handle_rtm_payload, handle_swap_payload_lp,
    replace_payload_special_characters, trim_chars,
};

fn s(x: &str) -> String {
    x.to_string()
}

#[test]
fn trims_given_characters_at_both_ends() {
    assert_eq!(trim_chars("\r\rabc\r", "\r"), "abc");
    assert_eq!(trim_chars("a\rb", "\r"), "a\rb");
    assert_eq!(trim_chars("xxhixx", "x"), "hi");
    assert_eq!(trim_chars("\r\nabc\r\n", "\r\n"), "abc");
    assert_eq!(trim_chars("", "\r"), "");
    assert_eq!(trim_chars("\r\r", "\r"), "");
}

#[test]
fn strips_brackets_braces_and_spaces() {
    assert_eq!(replace_payload_special_characters(&s("[ a:0 ]}")), "a:0");
    assert_eq!(replace_payload_special_characters(&s("{x}")), "{x");
}

#[test]
fn contract_id_is_the_head_of_the_command() {
    assert_eq!(extract_contract_id("{abc:TRANSFER[x]}").unwrap(), "abc");
    assert_eq!(extract_contract_id("nocolon").unwrap(), "nocolon");
}

#[test]
fn commands_are_the_braced_parts() {
    assert_eq!(extract_commands("{a:X}{b:Y}").unwrap(), vec![s("a:X"), s("b:Y")]);
    assert_eq!(extract_commands("none").unwrap(), Vec::<String>::new());
    assert!(extract_commands("{SCL01:[A,1,0,TXID:0]}{b:Y}").is_err());
    assert_eq!(extract_commands("{SCL01:[A,1,0,TXID:0]}").unwrap().len(), 1);
}

#[test]
fn lp_amount_payloads() {
    assert_eq!(handle_provide_liquidity_payload_lp("PLP[250]"), Ok(250));
    assert_eq!(handle_liquidatation_payload_lp("LLP[ 7 ]"), Ok(7));
    assert!(handle_provide_liquidity_payload_lp("LLP[7]").is_err());
    assert!(handle_liquidatation_payload_lp("LLP[x]").is_err());
}

#[test]
fn swap_payload_reads_tolerance_in_millionths() {
    assert_eq!(handle_swap_payload_lp("SLP[0,10000,9900,0.01]"), Ok((true, 10000, 9900, 10000)));
    assert_eq!(handle_swap_payload_lp("SLP[1,5,4,1]"), Ok((false, 5, 4, 1_000_000)));
    assert_eq!(handle_swap_payload_lp("SLP[1,5,4,.5]"), Ok((false, 5, 4, 500_000)));
    assert!(handle_swap_payload_lp("SLP[1,5,4,a]").is_err());
    assert!(handle_swap_payload_lp("SLP[1,5,4]").is_err());
}

#[test]
fn claim_payloads() {
    assert_eq!(
        handle_claim_diminishing_airdrop_payload("T", "{C:CLAIM_DIMAIRDROP A:0,TXID:1}"),
        Ok((s("A:0"), s("T:1")))
    );
    assert_eq!(handle_claim_dge_payload("T", "{C:CLAIM_DGE G:0,R:5}"), Ok((s("G:0"), s("R:5"))));
    assert!(handle_claim_dge_payload("T", "{C:CLAIM_DGE G:0}").is_err());
}

#[test]
fn right_to_mint_payload() {
    assert_eq!(
        handle_rtm_payload("T", "{C:RIGHTTOMINT R:0,TXID:0,TXID:1,40}"),
        Ok((s("R:0"), s("T:0"), s("T:1"), 40))
    );
    assert!(handle_rtm_payload("T", "{C:RIGHTTOMINT R:0,TXID:0,TXID:1,x}").is_err());
}

#[test]
fn trade_info_payload() {
    assert_eq!(handle_payload_extra_trade_info("{C:ACCEPT_BID}-ExtraInfo-Y,500,1000"), Ok((s("Y"), 500, 1000)));
    assert!(handle_payload_extra_trade_info("{C:ACCEPT_BID}").is_err());
    assert_eq!(handle_payload_extra_trade_info("A-ExtraInfo-ExtraInfo-Y,500,1000"), Ok((s("Y"), 500, 1000)));
}

#[test]
fn list_payload() {
    let r = handle_list_payload("T", "{C:LIST[A:0,A:1],TXID:1,TXID:2,500,1000,bc1q}").unwrap();
    assert_eq!(r, (vec![s("A:0"), s("A:1")], s("T:1"), s("T:2"), s("bc1q"), 500, 1000));
    assert!(handle_list_payload("T", "{C:LIST[A:0],TXID:1,TXID:2,x,1000,bc1q}").is_err());
    assert!(handle_list_payload("T", "{C:LIST[A:0],TXID:1}").is_err());
}

#[test]
fn bid_payload_skips_unreadable_bids() {
    let r = handle_bid_payload("T", "{C:BID[O:0,10,20,TXID:3],[O:1,x,1,R:0],[O:2,5,6,R:1]}").unwrap();
    assert_eq!(r, vec![(s("O:0"), 10, 20, s("T:3")), (s("O:2"), 5, 6, s("R:1"))]);
    assert!(handle_bid_payload("T", "{C:TRANSFER}").is_err());
}

#[test]
fn burn_payload() {
    assert_eq!(handle_burn_payload("T", "{C:BURN[A:0,A:1],25,TXID:0}"), Ok((vec![s("A:0"), s("A:1")], 25, s("T:0"))));
    assert!(handle_burn_payload("T", "{C:BURN[A:0],x,TXID:0}").is_err());
}

#[test]
fn drip_payload() {
    let r = handle_drip_payload("T", "{C:DRIP[A:0],[B:0(100,10),TXID:1(50,5)],TXID:2}").unwrap();
    assert_eq!(r, (vec![s("A:0")], vec![(s("B:0"), (100, 10)), (s("T:1"), (50, 5))], s("T:2")));
    assert!(handle_drip_payload("T", "{C:DRIP[A:0],[B:0(x,10)],TXID:2}").is_err());
    assert!(handle_drip_payload("T", "{C:DRIP[A:0],[B:0(1,1)]}").is_err());
}

#[test]
fn pool_creation_payloads() {
    let d = handle_create_diminishing_airdrop_payload("T", "{C:DIMAIRDROP[A:0],100,10,2,30,10,TXID:1,True}").unwrap();
    assert_eq!(d, (vec![s("A:0")], 100, 10, 2, 30, 10, s("T:1"), true));
    let g = handle_create_dge_payload("T", "{C:DGE[A:0],10000,1000,500,10,bc1q,TXID:1,false}").unwrap();
    assert_eq!(g, (vec![s("A:0")], 10000, 1000, 500, 10, s("bc1q"), s("T:1"), false));
    assert!(handle_create_dge_payload("T", "{C:DGE[A:0],1,2,3}").is_err());
}

#[test]
fn right_to_mint_mint_payload() {
    let r = handle_mint_rtm_payload("{SCL03:RTM,2,[TXID:0(100),X:1(50)]}", "T").unwrap();
    assert_eq!(r, (s("RTM"), 2, vec![(s("T:0"), 100), (s("X:1"), 50)]));
    assert!(handle_mint_rtm_payload("{SCL03:RTM,x,[T:0(1)]}", "T").is_err());
}

#[test]
fn history_classifies_commands() {
    let h = extract_info_from_payload(&s("B"), &s("{A:TRANSFER[A:0],[B:0(400),B:1(600)]}"), &s("A"), false, None).unwrap();
    assert_eq!(h.len(), 1);
    assert_eq!((h[0].tx_type.as_str(), h[0].scl_value, h[0].btc_price), ("Transfer", 1000, None));
    assert_eq!((h[0].txid.as_str(), h[0].pending), ("B", false));
    let m = extract_info_from_payload(&s("A"), &s("{SCL01:[TKR,1000,0,TXID:0]}"), &s("A"), true, None).unwrap();
    assert_eq!((m[0].tx_type.as_str(), m[0].scl_value, m[0].pending), ("Mint", 1000, true));
    let l = extract_info_from_payload(&s("L"), &s("{A:LIST[A:0],C:0,L:0,500,1000,bc1q}"), &s("A"), false, None).unwrap();
    assert_eq!((l[0].tx_type.as_str(), l[0].scl_value, l[0].btc_price), ("List", 500, Some(1000)));
    let other = extract_info_from_payload(&s("B"), &s("{Z:TRANSFER[Z:0],[B:0(1)]}"), &s("A"), false, None).unwrap();
    assert!(other.is_empty());
    let a = extract_info_from_payload(&s("X"), &s("{A:ACCEPT_BID}-ExtraInfo-Y,500,1000"), &s("A"), false, None).unwrap();
    assert_eq!((a[0].tx_type.as_str(), a[0].scl_value, a[0].btc_price), ("Accept Bid", 500, Some(1000)));
    let d = extract_info_from_payload(&s("D"), &s("{A:AIRDROP R:0}"), &s("A"), false, Some(77)).unwrap();
    assert_eq!((d[0].tx_type.as_str(), d[0].scl_value), ("Airdrop", 77));
    let b = extract_info_from_payload(&s("D"), &s("{A:BID[A:0,10,20,R:0],[A:1,5,6,R:1]}"), &s("A"), false, None).unwrap();
    assert_eq!(b.len(), 2);
    assert_eq!((b[1].tx_type.as_str(), b[1].scl_value, b[1].btc_price), ("Bid", 5, Some(6)));
}


#[test]
fn airdrop_and_cancel_payloads() {
    assert_eq!(handle_airdrop_payload("T", "C:AIRDROP TXID:0"), Ok(s("T:0")));
    assert!(handle_airdrop_payload("T", "C:TRANSFER").is_err());
    assert_eq!(handle_cancel_listing_payload("{C:CANCELLISTING L:0}"), Ok(s("L:0")));
    assert_eq!(handle_cancel_bid_payload("{C:CANCELBID R:1}"), Ok(s("R:1")));
    assert!(handle_cancel_bid_payload("{C:CANCELLISTING L:0}").is_err());
}

#[test]
fn other_mint_payloads() {
    assert_eq!(handle_scl02_mint_payload("{SCL02:[AIR,300,100,0]}"), Ok((s("AIR"), 300, 100, 0)));
    assert!(handle_scl02_mint_payload("{SCL02:[AIR,300,x,0]}").is_err());
    assert_eq!(handle_scl04_mint_payload("{SCL04:LPT,C1,C2,1.5,0.003}"), Ok((s("LPT"), s("C1"), s("C2"), 1_500_000, 3_000)));
    assert!(handle_scl04_mint_payload("{SCL04:LPT,C1,C2,1.5}").is_err());
    assert_eq!(handle_scl05_mint_payload("{SCL05:NFT,R:0,aGVsbG8=}"), Ok((s("NFT"), s("R:0"), s("aGVsbG8="))));
    assert!(handle_scl05_mint_payload("{SCL05:NFT,R:0}").is_err());
}
