//! The history of a contract: each logged payload read back as entries.
use vstd::prelude::*;

use crate::mint::{handle_mint_payload, mint_fields};
use crate::payload::{
    after, bid_items, bid_views, burn_fields, dge_fields, extract_contract_id, handle_bid_payload,
    handle_burn_payload, handle_create_dge_payload, handle_list_payload, handle_mint_rtm_payload,
    handle_payload_extra_trade_info, handle_transfer_payload, list_fields, mint_rtm_fields,
    pair_views, trade_fields, transfer_fields,
};
use crate::contract::SCL01Contract;
use crate::records::ContractHistoryEntry;
use crate::text::chars_of;
use crate::textops::{drop_chars, find_exec, find_from, slice_vec, split};

verus! {

/// The commands of a payload: the text of each `{...}`, left to right.
pub open spec fn commands_from(p: Seq<char>, i: int) -> Seq<Seq<char>>
    decreases p.len() - i,
{
    let a = find_from(p, seq!['{'], i);
    let b = find_from(p, seq!['}'], a + 1);
    if i < 0 || a < i || b <= a || b >= p.len() {
        Seq::empty()
    } else {
        seq![p.subrange(a + 1, b)] + commands_from(p, b + 1)
    }
}

/// `kw` occurs in `s`.
pub open spec fn mentions(s: Seq<char>, kw: Seq<char>) -> bool {
    find_from(s, kw, 0) >= 0
}

/// The commands of a payload; a mint may not be batched with others.
pub open spec fn commands(p: Seq<char>) -> Option<Seq<Seq<char>>> {
    let cs = commands_from(p, 0);
    if cs.len() > 1 && mentions(p, "SCL"@) { None } else { Some(cs) }
}

fn mentions_exec(s: &Vec<char>, kw: &str) -> (r: bool)
    requires
        kw@.len() > 0,
    ensures
        r == mentions(s@, kw@),
{
    let k = chars_of(kw);
    find_exec(s, &k, 0).is_some()
}

/// The text of each `{...}` in the payload; more than one together with a mint is an error.
pub fn extract_commands(payload: &str) -> (r: Result<Vec<String>, String>)
    ensures
        match r {
            Ok(v) => commands(payload@) == Some(v@.map_values(|c: String| c@)),
            Err(_) => commands(payload@) is None,
        },
{
    let p = chars_of(payload);
    let n = p.len();
    let open = chars_of("{");
    let close = chars_of("}");
    proof {
        reveal_strlit("{");
        reveal_strlit("}");
        assert(open@ =~= seq!['{']);
        assert(close@ =~= seq!['}']);
    }
    let mut out: Vec<String> = Vec::new();
    let mut i: usize = 0;
    loop
        invariant
            i <= n == p@.len(),
            p@ == payload@,
            open@ == seq!['{'],
            close@ == seq!['}'],
            out@.map_values(|c: String| c@) + commands_from(p@, i as int) == commands_from(p@, 0),
        ensures
            i <= n == p@.len(),
            out@.map_values(|c: String| c@) + commands_from(p@, i as int) == commands_from(p@, 0),
            commands_from(p@, i as int) =~= Seq::<Seq<char>>::empty(),
        decreases n - i,
    {
        let a = match find_exec(&p, &open, i) {
            Some(a) => a,
            None => {
                proof {
                    assert(commands_from(p@, i as int) =~= Seq::<Seq<char>>::empty());
                }
                break;
            },
        };
        proof {
            crate::textops::lemma_find_from(p@, seq!['{'], i as int);
        }
        let b = match find_exec(&p, &close, a + 1) {
            Some(b) => b,
            None => {
                proof {
                    assert(commands_from(p@, i as int) =~= Seq::<Seq<char>>::empty());
                }
                break;
            },
        };
        proof {
            crate::textops::lemma_find_from(p@, seq!['}'], a + 1);
        }
        let ghost before = out@.map_values(|c: String| c@);
        let piece = crate::text::string_from_chars(&slice_vec(&p, a + 1, b));
        out.push(piece);
        proof {
            assert(out@.map_values(|c: String| c@) =~= before.push(p@.subrange(a + 1, b as int)));
            assert(before + commands_from(p@, i as int) =~= before.push(p@.subrange(a + 1, b as int)) + commands_from(p@, b + 1));
        }
        i = b + 1;
    }
    let ghost cs = out@.map_values(|c: String| c@);
    proof {
        assert(cs + Seq::<Seq<char>>::empty() =~= cs);
        reveal_strlit("SCL");
    }
    if out.len() > 1 && mentions_exec(&p, "SCL") {
        return Err(String::from_str("Mint command cannot be batched"));
    }
    Ok(out)
}

/// An amount added up, held at the largest `u64` once it would pass it.
pub open spec fn capped_total(rs: Seq<(Seq<char>, u64)>) -> u64
    decreases rs.len(),
{
    if rs.len() == 0 {
        0
    } else {
        let t = capped_total(rs.drop_last()) + rs.last().1;
        if t > u64::MAX { u64::MAX } else { t as u64 }
    }
}

fn capped_total_exec(rs: &Vec<(String, u64)>) -> (r: u64)
    ensures
        r == capped_total(pair_views(rs@)),
{
    let ghost v = pair_views(rs@);
    let mut t: u64 = 0;
    let mut i: usize = 0;
    while i < rs.len()
        invariant
            i <= rs@.len(),
            v == pair_views(rs@),
            t == capped_total(v.subrange(0, i as int)),
        decreases rs@.len() - i,
    {
        proof {
            assert(v.subrange(0, i + 1).drop_last() =~= v.subrange(0, i as int));
        }
        t = if rs[i].1 > u64::MAX - t { u64::MAX } else { t + rs[i].1 };
        i = i + 1;
    }
    assert(v.subrange(0, rs@.len() as int) =~= v);
    t
}

/// An entry of a contract's history: kind, token amount, price.
pub type Entry = (Seq<char>, u64, Option<u64>);

/// The history entries of one command of a payload. `airdrop` is the
/// contract's airdrop amount, which an airdrop entry shows.
pub open spec fn command_entries(txid: Seq<char>, payload: Seq<char>, command: Seq<char>, airdrop: Option<u64>) -> Seq<Entry> {
    if mentions(command, "AIRDROP"@) {
        match airdrop {
            Some(a) => seq![("Airdrop"@, a, None)],
            None => Seq::empty(),
        }
    } else if mentions(command, "TRANSFER"@) {
        seq![("Transfer"@, match transfer_fields(command, txid) {
            Some(t) => capped_total(t.1),
            None => 0u64,
        }, None)]
    } else if mentions(command, "BURN"@) {
        seq![("Burn"@, match burn_fields(command, txid) {
            Some(b) => b.1,
            None => 0u64,
        }, None)]
    } else if mentions(command, "SCL01"@) || mentions(command, "SCL02"@) {
        match mint_fields(command, txid) {
            Some(m) => seq![("Mint"@, m.2, None)],
            None => Seq::empty(),
        }
    } else if mentions(command, "SCL03"@) {
        match mint_rtm_fields(command, txid) {
            Some(m) => seq![("Mint"@, capped_total(m.2), None)],
            None => Seq::empty(),
        }
    } else if mentions(command, ":DGE"@) {
        match dge_fields(command, txid) {
            Some(d) => seq![("Create DGE"@, d.1, None)],
            None => Seq::empty(),
        }
    } else if mentions(command, "CLAIM_DGE"@) {
        seq![("Claim DGE"@, 0u64, None)]
    } else if mentions(command, "LIST"@) {
        match list_fields(command, txid) {
            Some(l) => seq![("List"@, l.4, Some(l.5))],
            None => seq![("List"@, 0u64, Some(0u64))],
        }
    } else if mentions(command, ":BID"@) {
        match after(command, "BID"@) {
            Some(rest) => bid_items(split(rest, "],"@), txid).map_values(|b: (Seq<char>, u64, u64, Seq<char>)| ("Bid"@, b.1, Some(b.2))),
            None => Seq::empty(),
        }
    } else if mentions(command, "ACCEPT_BID"@) {
        match trade_fields(payload) {
            Some(t) => seq![("Accept Bid"@, t.1, Some(t.2))],
            None => seq![("Accept Bid"@, 0u64, None)],
        }
    } else if mentions(command, "FULFIL_TRADE"@) {
        match trade_fields(payload) {
            Some(t) => seq![("Fulfil Trade"@, t.1, Some(t.2))],
            None => seq![("Fulfil Trade"@, 0u64, None)],
        }
    } else {
        Seq::empty()
    }
}

/// The entries of the listed commands that concern `cid`: those of the
/// payload's own contract, and every mint.
pub open spec fn entries_of(txid: Seq<char>, payload: Seq<char>, cs: Seq<Seq<char>>, cid: Seq<char>, airdrop: Option<u64>) -> Seq<Entry>
    decreases cs.len(),
{
    if cs.len() == 0 {
        Seq::empty()
    } else {
        let head = entries_of(txid, payload, cs.drop_last(), cid, airdrop);
        let own = drop_chars(split(payload, ":"@)[0], '{');
        if cid != own && !mentions(cs.last(), "SCL"@) {
            head
        } else {
            head + command_entries(txid, payload, cs.last(), airdrop)
        }
    }
}

/// The history entries of a logged payload, as (kind, amount, price).
pub open spec fn history(txid: Seq<char>, payload: Seq<char>, cid: Seq<char>, airdrop: Option<u64>) -> Option<Seq<Entry>> {
    match commands(payload) {
        Some(cs) => Some(entries_of(txid, payload, if cs.len() == 0 { seq![payload] } else { cs }, cid, airdrop)),
        None => None,
    }
}

pub open spec fn entry_view(e: ContractHistoryEntry) -> Entry {
    (e.tx_type@, e.scl_value, e.btc_price)
}

fn entry(kind: &str, value: u64, price: Option<u64>, txid: &String, pending: bool) -> (e: ContractHistoryEntry)
    ensures
        entry_view(e) == (kind@, value, price),
        e.txid@ == txid@,
        e.pending == pending,
{
    ContractHistoryEntry { tx_type: String::from_str(kind), scl_value: value, txid: txid.clone(), pending, btc_price: price }
}

fn command_entries_exec(txid: &String, payload: &String, command: &String, airdrop: Option<u64>, pending: bool) -> (r: Vec<ContractHistoryEntry>)
    ensures
        r@.map_values(|e: ContractHistoryEntry| entry_view(e)) == command_entries(txid@, payload@, command@, airdrop),
        forall|i: int| 0 <= i < r@.len() ==> (#[trigger] r@[i]).txid@ == txid@ && r@[i].pending == pending,
{
    let c = chars_of(command.as_str());
    let mut out: Vec<ContractHistoryEntry> = Vec::new();
    proof {
        reveal_strlit("AIRDROP");
        reveal_strlit("TRANSFER");
        reveal_strlit("BURN");
        reveal_strlit("SCL01");
        reveal_strlit("SCL02");
        reveal_strlit("SCL03");
        reveal_strlit(":DGE");
        reveal_strlit("CLAIM_DGE");
        reveal_strlit("LIST");
        reveal_strlit(":BID");
        reveal_strlit("ACCEPT_BID");
        reveal_strlit("FULFIL_TRADE");
    }
    if mentions_exec(&c, "AIRDROP") {
        match airdrop {
            Some(a) => out.push(entry("Airdrop", a, None, txid, pending)),
            None => {},
        }
    } else if mentions_exec(&c, "TRANSFER") {
        let v = match handle_transfer_payload(txid.as_str(), command.as_str()) {
            Ok(t) => capped_total_exec(&t.1),
            Err(_) => 0,
        };
        out.push(entry("Transfer", v, None, txid, pending));
    } else if mentions_exec(&c, "BURN") {
        let v = match handle_burn_payload(txid.as_str(), command.as_str()) {
            Ok(b) => b.1,
            Err(_) => 0,
        };
        out.push(entry("Burn", v, None, txid, pending));
    } else if mentions_exec(&c, "SCL01") || mentions_exec(&c, "SCL02") {
        match handle_mint_payload(command.as_str(), txid.as_str()) {
            Ok(m) => out.push(entry("Mint", m.2, None, txid, pending)),
            Err(_) => {},
        }
    } else if mentions_exec(&c, "SCL03") {
        match handle_mint_rtm_payload(command.as_str(), txid.as_str()) {
            Ok(m) => {
                let v = capped_total_exec(&m.2);
                out.push(entry("Mint", v, None, txid, pending));
            },
            Err(_) => {},
        }
    } else if mentions_exec(&c, ":DGE") {
        match handle_create_dge_payload(txid.as_str(), command.as_str()) {
            Ok(d) => out.push(entry("Create DGE", d.1, None, txid, pending)),
            Err(_) => {},
        }
    } else if mentions_exec(&c, "CLAIM_DGE") {
        out.push(entry("Claim DGE", 0, None, txid, pending));
    } else if mentions_exec(&c, "LIST") {
        match handle_list_payload(txid.as_str(), command.as_str()) {
            Ok(l) => out.push(entry("List", l.4, Some(l.5), txid, pending)),
            Err(_) => out.push(entry("List", 0, Some(0), txid, pending)),
        }
    } else if mentions_exec(&c, ":BID") {
        match handle_bid_payload(txid.as_str(), command.as_str()) {
            Ok(bids) => {
                let ghost bv = bid_views(bids@);
                let mut i: usize = 0;
                while i < bids.len()
                    invariant
                        i <= bids@.len(),
                        bv == bid_views(bids@),
                        out@.map_values(|e: ContractHistoryEntry| entry_view(e))
                            == bv.subrange(0, i as int).map_values(|b: (Seq<char>, u64, u64, Seq<char>)| ("Bid"@, b.1, Some(b.2))),
                        forall|j: int| 0 <= j < out@.len() ==> (#[trigger] out@[j]).txid@ == txid@ && out@[j].pending == pending,
                    decreases bids@.len() - i,
                {
                    let e = entry("Bid", bids[i].1, Some(bids[i].2), txid, pending);
                    let ghost before = out@.map_values(|e: ContractHistoryEntry| entry_view(e));
                    out.push(e);
                    proof {
                        assert(out@.map_values(|e: ContractHistoryEntry| entry_view(e)) =~= before.push(entry_view(e)));
                        assert(bv.subrange(0, i + 1) =~= bv.subrange(0, i as int).push(bv[i as int]));
                    }
                    i = i + 1;
                }
                proof {
                    assert(bv.subrange(0, bids@.len() as int) =~= bv);
                }
            },
            Err(_) => {},
        }
    } else if mentions_exec(&c, "ACCEPT_BID") {
        match handle_payload_extra_trade_info(payload.as_str()) {
            Ok(t) => out.push(entry("Accept Bid", t.1, Some(t.2), txid, pending)),
            Err(_) => out.push(entry("Accept Bid", 0, None, txid, pending)),
        }
    } else if mentions_exec(&c, "FULFIL_TRADE") {
        match handle_payload_extra_trade_info(payload.as_str()) {
            Ok(t) => out.push(entry("Fulfil Trade", t.1, Some(t.2), txid, pending)),
            Err(_) => out.push(entry("Fulfil Trade", 0, None, txid, pending)),
        }
    }
    proof {
        assert(out@.map_values(|e: ContractHistoryEntry| entry_view(e)) =~= command_entries(txid@, payload@, command@, airdrop));
    }
    out
}

/// The history entries of the payload logged under `txid`, for the contract
/// `contract_id`; `airdrop_amount` is the contract's airdrop amount.
pub fn extract_info_from_payload(txid: &String, payload: &String, contract_id: &String, pending: bool, airdrop_amount: Option<u64>) -> (r: Result<Vec<ContractHistoryEntry>, String>)
    ensures
        match r {
            Ok(v) => history(txid@, payload@, contract_id@, airdrop_amount) == Some(v@.map_values(|e: ContractHistoryEntry| entry_view(e)))
                && forall|i: int| 0 <= i < v@.len() ==> (#[trigger] v@[i]).txid@ == txid@ && v@[i].pending == pending,
            Err(_) => history(txid@, payload@, contract_id@, airdrop_amount) is None,
        },
{
    let mut cmds = match extract_commands(payload.as_str()) {
        Ok(c) => c,
        Err(e) => return Err(e),
    };
    if cmds.len() == 0 {
        cmds.push(payload.clone());
        proof {
            assert(cmds@.map_values(|c: String| c@) =~= seq![payload@]);
        }
    }
    let ghost cs = cmds@.map_values(|c: String| c@);
    let own = match extract_contract_id(payload.as_str()) {
        Ok(o) => o,
        Err(e) => return Err(e),
    };
    let mut out: Vec<ContractHistoryEntry> = Vec::new();
    let mut i: usize = 0;
    while i < cmds.len()
        invariant
            i <= cmds@.len(),
            cs == cmds@.map_values(|c: String| c@),
            own@ == drop_chars(split(payload@, ":"@)[0], '{'),
            out@.map_values(|e: ContractHistoryEntry| entry_view(e)) == entries_of(txid@, payload@, cs.subrange(0, i as int), contract_id@, airdrop_amount),
            forall|j: int| 0 <= j < out@.len() ==> (#[trigger] out@[j]).txid@ == txid@ && out@[j].pending == pending,
        decreases cmds@.len() - i,
    {
        proof {
            assert(cs.subrange(0, i + 1).drop_last() =~= cs.subrange(0, i as int));
            reveal_strlit("SCL");
        }
        let c = chars_of(cmds[i].as_str());
        if *contract_id != own && !mentions_exec(&c, "SCL") {
            i = i + 1;
            continue;
        }
        let es = command_entries_exec(txid, payload, &cmds[i], airdrop_amount, pending);
        let mut j: usize = 0;
        let ghost o0 = out@.map_values(|e: ContractHistoryEntry| entry_view(e));
        let ghost ev = es@.map_values(|e: ContractHistoryEntry| entry_view(e));
        let mut es = es;
        let mut rev: Vec<ContractHistoryEntry> = Vec::new();
        while es.len() > 0
            invariant
                rev@.map_values(|e: ContractHistoryEntry| entry_view(e)) + es@.map_values(|e: ContractHistoryEntry| entry_view(e)).reverse() =~= ev.reverse(),
                forall|k: int| 0 <= k < es@.len() ==> (#[trigger] es@[k]).txid@ == txid@ && es@[k].pending == pending,
                forall|k: int| 0 <= k < rev@.len() ==> (#[trigger] rev@[k]).txid@ == txid@ && rev@[k].pending == pending,
            decreases es@.len(),
        {
            let ghost e0 = es@;
            let ghost r0 = rev@;
            let e = es.pop().unwrap();
            proof {
                assert(e0 =~= es@.push(e));
                assert(e0.map_values(|e: ContractHistoryEntry| entry_view(e)) =~= es@.map_values(|e: ContractHistoryEntry| entry_view(e)).push(entry_view(e)));
                assert(rev@.push(e).map_values(|e: ContractHistoryEntry| entry_view(e)) =~= r0.map_values(|e: ContractHistoryEntry| entry_view(e)).push(entry_view(e)));
            }
            rev.push(e);
        }
        while rev.len() > 0
            invariant
                out@.map_values(|e: ContractHistoryEntry| entry_view(e)) + rev@.map_values(|e: ContractHistoryEntry| entry_view(e)).reverse() =~= o0 + ev,
                forall|k: int| 0 <= k < out@.len() ==> (#[trigger] out@[k]).txid@ == txid@ && out@[k].pending == pending,
                forall|k: int| 0 <= k < rev@.len() ==> (#[trigger] rev@[k]).txid@ == txid@ && rev@[k].pending == pending,
            decreases rev@.len(),
        {
            let ghost r0 = rev@;
            let ghost ob = out@;
            let e = rev.pop().unwrap();
            proof {
                assert(r0 =~= rev@.push(e));
                assert(r0.map_values(|e: ContractHistoryEntry| entry_view(e)) =~= rev@.map_values(|e: ContractHistoryEntry| entry_view(e)).push(entry_view(e)));
                assert(ob.push(e).map_values(|e: ContractHistoryEntry| entry_view(e)) =~= ob.map_values(|e: ContractHistoryEntry| entry_view(e)).push(entry_view(e)));
            }
            out.push(e);
        }
        i = i + 1;
    }
    proof {
        assert(cs.subrange(0, cmds@.len() as int) =~= cs);
    }
    Ok(out)
}

/// The history entries of the payloads logged under keys `ks` of `log` whose
/// txid is in `txids`, skipping those listed in `except` and payloads that do not read.
pub open spec fn log_history(log: Map<Seq<char>, Seq<char>>, ks: Seq<Seq<char>>, txids: Seq<Seq<char>>, except: Map<Seq<char>, Seq<char>>, cid: Seq<char>, airdrop: Option<u64>) -> Seq<Entry>
    decreases ks.len(),
{
    if ks.len() == 0 {
        Seq::empty()
    } else {
        let head = log_history(log, ks.drop_last(), txids, except, cid, airdrop);
        let k = ks.last();
        if txids.contains(k) && !except.contains_key(k) {
            match history(k, log[k], cid, airdrop) {
                Some(es) => head + es,
                None => head,
            }
        } else {
            head
        }
    }
}

fn contains_string(v: &Vec<String>, s: &String) -> (r: bool)
    ensures
        r == v@.map_values(|x: String| x@).contains(s@),
{
    let mut i: usize = 0;
    while i < v.len()
        invariant
            i <= v@.len(),
            forall|j: int| 0 <= j < i ==> v@[j]@ != s@,
        decreases v@.len() - i,
    {
        if v[i] == *s {
            proof {
                assert(v@.map_values(|x: String| x@)[i as int] == s@);
            }
            return true;
        }
        i = i + 1;
    }
    proof {
        let vv = v@.map_values(|x: String| x@);
        if vv.contains(s@) {
            let j = choose|j: int| 0 <= j < vv.len() && #[trigger] vv[j] == s@;
            assert(v@[j]@ == s@);
        }
    }
    false
}

fn log_entries(log: &crate::strmap::StrMap<String>, txids: &Vec<String>, except: &crate::strmap::StrMap<String>, contract_id: &String, pending: bool, airdrop: Option<u64>, out: &mut Vec<ContractHistoryEntry>)
    requires
        log.wf(),
        except.wf(),
    ensures
        final(out)@.map_values(|e: ContractHistoryEntry| entry_view(e)) == old(out)@.map_values(|e: ContractHistoryEntry| entry_view(e))
            + log_history(crate::contract::payload_view(*log), log.key_seq(), txids@.map_values(|x: String| x@), except@.map_values(|v: String| v@), contract_id@, airdrop),
{
    let keys = log.keys();
    let ghost ks = log.key_seq();
    let ghost lv = crate::contract::payload_view(*log);
    let ghost tv = txids@.map_values(|x: String| x@);
    let ghost ev = except@.map_values(|v: String| v@);
    let ghost o0 = out@.map_values(|e: ContractHistoryEntry| entry_view(e));
    let mut i: usize = 0;
    while i < keys.len()
        invariant
            i <= keys@.len(),
            log.wf(),
            except.wf(),
            ks == log.key_seq(),
            lv == crate::contract::payload_view(*log),
            tv == txids@.map_values(|x: String| x@),
            ev == except@.map_values(|v: String| v@),
            keys@.len() == ks.len(),
            forall|j: int| 0 <= j < keys@.len() ==> #[trigger] keys@[j]@ == ks[j],
            forall|k: Seq<char>| #![trigger log@.contains_key(k)] log@.contains_key(k) <==> ks.contains(k),
            out@.map_values(|e: ContractHistoryEntry| entry_view(e)) == o0 + log_history(lv, ks.subrange(0, i as int), tv, ev, contract_id@, airdrop),
        decreases keys@.len() - i,
    {
        proof {
            assert(ks.subrange(0, i + 1).drop_last() =~= ks.subrange(0, i as int));
            assert(ks.contains(keys@[i as int]@));
        }
        let k = &keys[i];
        if contains_string(txids, k) && !except.contains_key(k) {
            let p = log.get(k).unwrap();
            match extract_info_from_payload(k, p, contract_id, pending, airdrop) {
                Ok(es) => {
                    let mut j: usize = 0;
                    let ghost before = out@.map_values(|e: ContractHistoryEntry| entry_view(e));
                    let ghost esv = es@.map_values(|e: ContractHistoryEntry| entry_view(e));
                    let mut es = es;
                    let mut rev: Vec<ContractHistoryEntry> = Vec::new();
                    while es.len() > 0
                        invariant
                            rev@.map_values(|e: ContractHistoryEntry| entry_view(e)) + es@.map_values(|e: ContractHistoryEntry| entry_view(e)).reverse() =~= esv.reverse(),
                        decreases es@.len(),
                    {
                        let ghost e0 = es@;
                        let ghost r0 = rev@;
                        let e = es.pop().unwrap();
                        proof {
                            assert(e0 =~= es@.push(e));
                            assert(e0.map_values(|e: ContractHistoryEntry| entry_view(e)) =~= es@.map_values(|e: ContractHistoryEntry| entry_view(e)).push(entry_view(e)));
                            assert(rev@.push(e).map_values(|e: ContractHistoryEntry| entry_view(e)) =~= r0.map_values(|e: ContractHistoryEntry| entry_view(e)).push(entry_view(e)));
                        }
                        rev.push(e);
                    }
                    while rev.len() > 0
                        invariant
                            out@.map_values(|e: ContractHistoryEntry| entry_view(e)) + rev@.map_values(|e: ContractHistoryEntry| entry_view(e)).reverse() =~= before + esv,
                        decreases rev@.len(),
                    {
                        let ghost r0 = rev@;
                        let ghost ob = out@;
                        let e = rev.pop().unwrap();
                        proof {
                            assert(r0 =~= rev@.push(e));
                            assert(r0.map_values(|e: ContractHistoryEntry| entry_view(e)) =~= rev@.map_values(|e: ContractHistoryEntry| entry_view(e)).push(entry_view(e)));
                            assert(ob.push(e).map_values(|e: ContractHistoryEntry| entry_view(e)) =~= ob.map_values(|e: ContractHistoryEntry| entry_view(e)).push(entry_view(e)));
                        }
                        out.push(e);
                    }
                    proof {
                        assert(lv[keys@[i as int]@] == p@);
                        assert(out@.map_values(|e: ContractHistoryEntry| entry_view(e)) =~= before + esv);
                    }
                },
                Err(_) => {
                    proof {
                        assert(lv[keys@[i as int]@] == p@);
                    }
                },
            }
        }
        i = i + 1;
    }
    proof {
        assert(ks.subrange(0, keys@.len() as int) =~= ks);
    }
}

/// The history entries of the commands logged under `txids`: first those of
/// the confirmed state, then those only in the pending state, marked pending.
pub fn check_txid_history(confirmed: &SCL01Contract, pending_state: &SCL01Contract, contract_id: &String, txids: &Vec<String>) -> (r: Vec<ContractHistoryEntry>)
    requires
        confirmed.wf(),
        pending_state.wf(),
    ensures
        r@.map_values(|e: ContractHistoryEntry| entry_view(e)) ==
            log_history(crate::contract::payload_view(confirmed.payloads), confirmed.payloads.key_seq(), txids@.map_values(|x: String| x@),
                Map::empty(), contract_id@, confirmed.airdrop_amount)
            + log_history(crate::contract::payload_view(pending_state.payloads), pending_state.payloads.key_seq(), txids@.map_values(|x: String| x@),
                crate::contract::payload_view(confirmed.payloads), contract_id@, pending_state.airdrop_amount),
{
    let mut out: Vec<ContractHistoryEntry> = Vec::new();
    let none: crate::strmap::StrMap<String> = crate::strmap::StrMap::new();
    proof {
        assert(none@.map_values(|v: String| v@) =~= Map::<Seq<char>, Seq<char>>::empty());
        assert(out@.map_values(|e: ContractHistoryEntry| entry_view(e)) =~= Seq::<Entry>::empty());
    }
    log_entries(&confirmed.payloads, txids, &none, contract_id, false, confirmed.airdrop_amount, &mut out);
    log_entries(&pending_state.payloads, txids, &confirmed.payloads, contract_id, true, pending_state.airdrop_amount, &mut out);
    proof {
        assert(crate::contract::payload_view(confirmed.payloads) =~= confirmed.payloads@.map_values(|v: String| v@));
    }
    out
}

} // verus!
