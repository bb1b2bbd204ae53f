//! Which operation a command asks for.
use vstd::prelude::*;

use crate::history::mentions;
use crate::text::chars_of;
use crate::textops::find_exec;

verus! {

/// The operation a command asks for.
#[derive(Debug, PartialEq, Eq, Structural, Clone, Copy)]
pub enum CommandKind {
    ProvideLiquidity,
    Swap,
    LiquidatePosition,
    MintScl01,
    MintScl02,
    MintScl03,
    MintScl04,
    MintScl05,
    Transfer,
    Burn,
    List,
    Bid,
    AcceptBid,
    FulfilTrade,
    CancelListing,
    CancelBid,
    Drip,
    CreateDimAirdrop,
    ClaimDimAirdrop,
    CreateDge,
    ClaimDge,
    Airdrop,
    RightToMint,
    Unknown,
}

/// The operation of one command of `payload`, by the first keyword it holds,
/// in this order. A pool command anywhere in the payload takes precedence.
pub open spec fn kind_of(payload: Seq<char>, command: Seq<char>) -> CommandKind {
    if mentions(payload, "SLP["@) || mentions(payload, "PLP["@) || mentions(payload, "LLP["@) {
        if mentions(payload, "PLP"@) {
            CommandKind::ProvideLiquidity
        } else if mentions(payload, "SLP"@) {
            CommandKind::Swap
        } else {
            CommandKind::LiquidatePosition
        }
    } else if mentions(command, "SCL01"@) {
        CommandKind::MintScl01
    } else if mentions(command, "SCL02"@) {
        CommandKind::MintScl02
    } else if mentions(command, "SCL03"@) {
        CommandKind::MintScl03
    } else if mentions(command, "SCL04"@) {
        CommandKind::MintScl04
    } else if mentions(command, "SCL05"@) {
        CommandKind::MintScl05
    } else if mentions(command, "TRANSFER"@) {
        CommandKind::Transfer
    } else if mentions(command, "BURN"@) {
        CommandKind::Burn
    } else if mentions(command, ":LIST"@) {
        CommandKind::List
    } else if mentions(command, ":BID"@) {
        CommandKind::Bid
    } else if mentions(command, "ACCEPT_BID"@) {
        CommandKind::AcceptBid
    } else if mentions(command, "FULFIL_TRADE"@) {
        CommandKind::FulfilTrade
    } else if mentions(payload, "CANCELLISTING"@) {
        CommandKind::CancelListing
    } else if mentions(payload, "CANCELBID"@) {
        CommandKind::CancelBid
    } else if mentions(command, "DRIP"@) {
        CommandKind::Drip
    } else if mentions(command, ":DIMAIRDROP"@) {
        CommandKind::CreateDimAirdrop
    } else if mentions(command, "CLAIM_DIMAIRDROP"@) {
        CommandKind::ClaimDimAirdrop
    } else if mentions(command, ":DGE"@) {
        CommandKind::CreateDge
    } else if mentions(command, "CLAIM_DGE"@) {
        CommandKind::ClaimDge
    } else if mentions(command, "AIRDROP"@) {
        CommandKind::Airdrop
    } else if mentions(command, "RIGHTTOMINT"@) {
        CommandKind::RightToMint
    } else {
        CommandKind::Unknown
    }
}

fn holds(s: &Vec<char>, kw: &str) -> (r: bool)
    requires
        kw@.len() > 0,
    ensures
        r == mentions(s@, kw@),
{
    let k = chars_of(kw);
    find_exec(s, &k, 0).is_some()
}

/// The operation that `command`, one of the commands of `payload`, asks for.
pub fn command_kind(payload: &str, command: &str) -> (r: CommandKind)
    ensures
        r == kind_of(payload@, command@),
{
    proof {
        reveal_strlit("SLP[");
        reveal_strlit("PLP[");
        reveal_strlit("LLP[");
        reveal_strlit("PLP");
        reveal_strlit("SLP");
        reveal_strlit("SCL01");
        reveal_strlit("SCL02");
        reveal_strlit("SCL03");
        reveal_strlit("SCL04");
        reveal_strlit("SCL05");
        reveal_strlit("TRANSFER");
        reveal_strlit("BURN");
        reveal_strlit(":LIST");
        reveal_strlit(":BID");
        reveal_strlit("ACCEPT_BID");
        reveal_strlit("FULFIL_TRADE");
        reveal_strlit("CANCELLISTING");
        reveal_strlit("CANCELBID");
        reveal_strlit("DRIP");
        reveal_strlit(":DIMAIRDROP");
        reveal_strlit("CLAIM_DIMAIRDROP");
        reveal_strlit(":DGE");
        reveal_strlit("CLAIM_DGE");
        reveal_strlit("AIRDROP");
        reveal_strlit("RIGHTTOMINT");
    }
    let p = chars_of(payload);
    let c = chars_of(command);
    if holds(&p, "SLP[") || holds(&p, "PLP[") || holds(&p, "LLP[") {
        if holds(&p, "PLP") {
            CommandKind::ProvideLiquidity
        } else if holds(&p, "SLP") {
            CommandKind::Swap
        } else {
            CommandKind::LiquidatePosition
        }
    } else if holds(&c, "SCL01") {
        CommandKind::MintScl01
    } else if holds(&c, "SCL02") {
        CommandKind::MintScl02
    } else if holds(&c, "SCL03") {
        CommandKind::MintScl03
    } else if holds(&c, "SCL04") {
        CommandKind::MintScl04
    } else if holds(&c, "SCL05") {
        CommandKind::MintScl05
    } else if holds(&c, "TRANSFER") {
        CommandKind::Transfer
    } else if holds(&c, "BURN") {
        CommandKind::Burn
    } else if holds(&c, ":LIST") {
        CommandKind::List
    } else if holds(&c, ":BID") {
        CommandKind::Bid
    } else if holds(&c, "ACCEPT_BID") {
        CommandKind::AcceptBid
    } else if holds(&c, "FULFIL_TRADE") {
        CommandKind::FulfilTrade
    } else if holds(&p, "CANCELLISTING") {
        CommandKind::CancelListing
    } else if holds(&p, "CANCELBID") {
        CommandKind::CancelBid
    } else if holds(&c, "DRIP") {
        CommandKind::Drip
    } else if holds(&c, ":DIMAIRDROP") {
        CommandKind::CreateDimAirdrop
    } else if holds(&c, "CLAIM_DIMAIRDROP") {
        CommandKind::ClaimDimAirdrop
    } else if holds(&c, ":DGE") {
        CommandKind::CreateDge
    } else if holds(&c, "CLAIM_DGE") {
        CommandKind::ClaimDge
    } else if holds(&c, "AIRDROP") {
        CommandKind::Airdrop
    } else if holds(&c, "RIGHTTOMINT") {
        CommandKind::RightToMint
    } else {
        CommandKind::Unknown
    }
}

} // verus!
