//! Reading mint commands and creating contracts.
use vstd::prelude::*;

use crate::contract::{owners_total, payload_view, SCL01Contract};
use crate::strmap::StrMap;
use crate::text::{chars_of, string_from_chars};
use crate::textops::{find_exec, find_from, parse_u64, parse_u64_exec, slice_vec, split, split_exec, strip_exec, strip_special};
use crate::payload::{after, after_exec, field_exec, fields, fields_exec, pair_views, parse_ppm, parse_ppm_exec, vec_of};
use crate::types::{LiquidityPool, PPM};

verus! {

/// The four groups of `[g1,g2,g3,g4]` when the `[` at `i` opens one: the first
/// three hold no comma, the last no `]`, and none is empty.
pub open spec fn mint_at(p: Seq<char>, i: int) -> Option<(Seq<char>, Seq<char>, Seq<char>, Seq<char>)> {
    let a = find_from(p, seq![','], i + 1);
    let b = find_from(p, seq![','], a + 1);
    let c = find_from(p, seq![','], b + 1);
    let d = find_from(p, seq![']'], c + 1);
    if 0 <= i < p.len() && p[i] == '[' && a > i + 1 && b > a + 1 && c > b + 1 && d > c + 1 {
        Some((p.subrange(i + 1, a), p.subrange(a + 1, b), p.subrange(b + 1, c), p.subrange(c + 1, d)))
    } else {
        None
    }
}

/// The leftmost `[g1,g2,g3,g4]` at or after `i`.
pub open spec fn mint_match_from(p: Seq<char>, i: int) -> Option<(Seq<char>, Seq<char>, Seq<char>, Seq<char>)>
    decreases p.len() - i,
{
    if i < 0 || i >= p.len() {
        None
    } else if mint_at(p, i) is Some {
        mint_at(p, i)
    } else {
        mint_match_from(p, i + 1)
    }
}

/// The ticker, owner UTXO, maximum supply and decimals of
/// `SCL01:[TICKER,MAX,DEC,TXID:n]`; `TXID:n` becomes the mint's txid with output `n`.
pub open spec fn mint_fields(p: Seq<char>, txid: Seq<char>) -> Option<(Seq<char>, Seq<char>, u64, u64)> {
    match mint_match_from(p, 0) {
        Some((g1, g2, g3, g4)) => {
            let parts = split(g4, seq![':']);
            let owner = if parts.len() == 2 { txid + seq![':'] + parts[1] } else { g4 };
            match (parse_u64(g2), parse_u64(g3)) {
                (Some(m), Some(d)) => Some((g1, owner, m, d)),
                _ => None,
            }
        },
        None => None,
    }
}

fn mint_at_exec(p: &Vec<char>, i: usize) -> (r: Option<(Vec<char>, Vec<char>, Vec<char>, Vec<char>)>)
    requires
        i < p@.len(),
    ensures
        match r {
            Some(g) => mint_at(p@, i as int) == Some((g.0@, g.1@, g.2@, g.3@)),
            None => mint_at(p@, i as int) is None,
        },
{
    let n = p.len();
    if p[i] != '[' {
        return None;
    }
    let comma = chars_of(",");
    let close = chars_of("]");
    proof {
        reveal_strlit(",");
        reveal_strlit("]");
        assert(comma@ =~= seq![',']);
        assert(close@ =~= seq![']']);
    }
    let a = match find_exec(p, &comma, i + 1) {
        Some(a) => a,
        None => return None,
    };
    proof {
        crate::textops::lemma_find_from(p@, seq![','], (i + 1) as int);
    }
    if a <= i + 1 {
        return None;
    }
    let b = match find_exec(p, &comma, a + 1) {
        Some(b) => b,
        None => return None,
    };
    proof {
        crate::textops::lemma_find_from(p@, seq![','], (a + 1) as int);
    }
    if b <= a + 1 {
        return None;
    }
    let c = match find_exec(p, &comma, b + 1) {
        Some(c) => c,
        None => return None,
    };
    proof {
        crate::textops::lemma_find_from(p@, seq![','], (b + 1) as int);
    }
    if c <= b + 1 {
        return None;
    }
    let d = match find_exec(p, &close, c + 1) {
        Some(d) => d,
        None => return None,
    };
    if d <= c + 1 {
        return None;
    }
    proof {
        crate::textops::lemma_find_from(p@, seq![']'], c + 1);
    }
    Some((slice_vec(p, i + 1, a), slice_vec(p, a + 1, b), slice_vec(p, b + 1, c), slice_vec(p, c + 1, d)))
}

/// The ticker, owner UTXO, maximum supply and decimals of an SCL01 mint command.
pub fn handle_mint_payload(payload: &str, txid: &str) -> (r: Result<(String, String, u64, u64), String>)
    ensures
        match r {
            Ok(v) => mint_fields(payload@, txid@) == Some((v.0@, v.1@, v.2, v.3)),
            Err(_) => mint_fields(payload@, txid@) is None,
        },
{
    let p = chars_of(payload);
    let mut i: usize = 0;
    let mut found: Option<(Vec<char>, Vec<char>, Vec<char>, Vec<char>)> = None;
    while i < p.len() && found.is_none()
        invariant
            i <= p@.len(),
            p@ == payload@,
            found is None ==> mint_match_from(p@, 0) == mint_match_from(p@, i as int),
            found matches Some(g) ==> mint_match_from(p@, 0) == Some((g.0@, g.1@, g.2@, g.3@)),
        decreases p@.len() - i,
    {
        found = mint_at_exec(&p, i);
        i = i + 1;
    }
    let (g1, g2, g3, g4) = match found {
        Some(g) => g,
        None => return Err(String::from_str("Not mint valid payload")),
    };
    let colon = chars_of(":");
    proof {
        reveal_strlit(":");
        assert(colon@ =~= seq![':']);
    }
    let parts = split_exec(&g4, &colon);
    let owner = if parts.len() == 2 {
        let mut o = chars_of(txid);
        o.push(':');
        let ghost o0 = o@;
        let mut k: usize = 0;
        while k < parts[1].len()
            invariant
                parts@.len() == 2,
                k <= parts@[1]@.len(),
                o@ == o0 + parts@[1]@.subrange(0, k as int),
            decreases parts@[1]@.len() - k,
        {
            o.push(parts[1][k]);
            proof {
                assert(parts@[1]@.subrange(0, k + 1) =~= parts@[1]@.subrange(0, k as int).push(parts@[1]@[k as int]));
            }
            k = k + 1;
        }
        proof {
            assert(parts@[1]@.subrange(0, parts@[1]@.len() as int) =~= parts@[1]@);
            assert(parts@.map_values(|q: Vec<char>| q@)[1] == parts@[1]@);
            assert(o@ =~= txid@ + seq![':'] + parts@[1]@);
        }
        string_from_chars(&o)
    } else {
        string_from_chars(&g4)
    };
    let max = match parse_u64_exec(&g2) {
        Some(m) => m,
        None => return Err(String::from_str("Not mint valid payload")),
    };
    let dec = match parse_u64_exec(&g3) {
        Some(d) => d,
        None => return Err(String::from_str("Not mint valid payload")),
    };
    Ok((string_from_chars(&g1), owner, max, dec))
}

/// A contract with nothing in it but its name, id, decimals and mint payload.
pub open spec fn fresh(c: SCL01Contract, txid: Seq<char>, payload: Seq<char>, ticker: Seq<char>, decimals: i32) -> bool {
    &&& c.wf()
    &&& c.ticker@ == ticker
    &&& c.contractid@ == txid
    &&& c.decimals == decimals
    &&& payload_view(c.payloads) == Map::<Seq<char>, Seq<char>>::empty().insert(txid, payload)
    &&& c.listings@ == Map::<Seq<char>, crate::types::Listing>::empty()
    &&& c.bids@ == Map::<Seq<char>, crate::types::Bid>::empty()
    &&& c.fulfillments@ == Map::<Seq<char>, String>::empty()
    &&& c.drips@ == Map::<Seq<char>, Vec<crate::types::Drip>>::empty()
    &&& c.diminishing_airdrops@ == Map::<Seq<char>, crate::types::DimAirdrop>::empty()
    &&& c.dges@ == Map::<Seq<char>, crate::types::DGE>::empty()
    &&& c.pending_claims@ == Map::<Seq<char>, u64>::empty()
    &&& c.last_airdrop_split is None
    &&& c.liquidated_tokens is None
}

fn fresh_contract(txid: &str, payload: &str, ticker: String, decimals: i32) -> (c: SCL01Contract)
    ensures
        fresh(c, txid@, payload@, ticker@, decimals),
        c.owners@ == Map::<Seq<char>, u64>::empty(),
        owners_total(c.owners) == 0,
        c.right_to_mint@ == Map::<Seq<char>, u64>::empty(),
        c.supply == 0,
        c.airdrop_amount is None && c.total_airdrops is None && c.current_airdrops is None,
        c.max_supply is None,
        c.liquidity_pool is None,
        c.token_data is None,
{
    let mut payloads: StrMap<String> = StrMap::new();
    payloads.insert(String::from_str(txid), String::from_str(payload));
    proof {
        assert(payloads@.map_values(|v: String| v@) =~= Map::<Seq<char>, Seq<char>>::empty().insert(txid@, payload@));
    }
    SCL01Contract {
        ticker,
        contractid: String::from_str(txid),
        supply: 0,
        decimals,
        owners: StrMap::new(),
        payloads,
        listings: StrMap::new(),
        bids: StrMap::new(),
        fulfillments: StrMap::new(),
        drips: StrMap::new(),
        diminishing_airdrops: StrMap::new(),
        dges: StrMap::new(),
        airdrop_amount: None,
        total_airdrops: None,
        current_airdrops: None,
        pending_claims: StrMap::new(),
        last_airdrop_split: None,
        right_to_mint: StrMap::new(),
        max_supply: None,
        liquidated_tokens: None,
        liquidity_pool: None,
        token_data: None,
    }
}

impl SCL01Contract {
    /// A fungible token contract (SCL01) whose whole supply `max_supply` starts at `owner`.
    pub fn new_scl01(txid: &str, payload: &str, ticker: String, owner: &String, max_supply: u64, decimals: i32) -> (c: SCL01Contract)
        ensures
            fresh(c, txid@, payload@, ticker@, decimals),
            c.owners@ == (if max_supply > 0 { Map::<Seq<char>, u64>::empty().insert(owner@, max_supply) } else { Map::empty() }),
            c.supply == max_supply,
            c.max_supply == Some(max_supply),
            owners_total(c.owners) == max_supply,
            c.right_to_mint@ == Map::<Seq<char>, u64>::empty(),
            c.airdrop_amount is None && c.total_airdrops is None && c.current_airdrops is None,
            c.liquidity_pool is None,
    {
        let mut c = fresh_contract(txid, payload, ticker, decimals);
        if max_supply > 0 {
            c.owners.insert(owner.clone(), max_supply);
        }
        c.supply = max_supply;
        c.max_supply = Some(max_supply);
        c
    }

    /// An airdrop token contract (SCL02): nothing minted yet, `max_supply /
    /// airdrop_amount` airdrops of `airdrop_amount` each to come.
    pub fn new_scl02(txid: &str, payload: &str, ticker: String, max_supply: u64, airdrop_amount: u64, decimals: i32) -> (r: Result<SCL01Contract, String>)
        ensures
            r.is_ok() == (airdrop_amount > 0),
            r matches Ok(c) ==> fresh(c, txid@, payload@, ticker@, decimals)
                && c.owners@ == Map::<Seq<char>, u64>::empty()
                && c.supply == 0
                && c.max_supply == Some(max_supply)
                && c.airdrop_amount == Some(airdrop_amount)
                && c.total_airdrops == Some((max_supply / airdrop_amount) as u64)
                && c.current_airdrops == Some(0u64)
                && c.liquidity_pool is None,
    {
        if airdrop_amount == 0 {
            return Err(String::from_str("mint: airdrop amount is zero"));
        }
        let mut c = fresh_contract(txid, payload, ticker, decimals);
        c.max_supply = Some(max_supply);
        c.airdrop_amount = Some(airdrop_amount);
        c.total_airdrops = Some(max_supply / airdrop_amount);
        c.current_airdrops = Some(0);
        Ok(c)
    }

    /// A right-to-mint contract (SCL03): nothing minted yet; each listed UTXO
    /// holds the right to mint its allowance, and the maximum supply is their sum.
    pub fn new_scl03(txid: &str, payload: &str, ticker: String, decimals: i32, rights: &Vec<(String, u64)>) -> (r: Result<SCL01Contract, String>)
        ensures
            r.is_ok() == (crate::contract::sum_outputs(pair_views(rights@)) <= u64::MAX),
            r matches Ok(c) ==> fresh(c, txid@, payload@, ticker@, decimals)
                && c.owners@ == Map::<Seq<char>, u64>::empty()
                && c.supply == 0
                && c.max_supply == Some(crate::contract::sum_outputs(pair_views(rights@)) as u64)
                && c.right_to_mint@ == rights_map(pair_views(rights@))
                && c.liquidity_pool is None,
    {
        let mut c = fresh_contract(txid, payload, ticker, decimals);
        let mut total: u64 = 0;
        let mut i: usize = 0;
        while i < rights.len()
            invariant
                i <= rights@.len(),
                fresh(c, txid@, payload@, ticker@, decimals),
                c.owners@ == Map::<Seq<char>, u64>::empty(),
                c.supply == 0,
                c.max_supply is None,
                c.liquidity_pool is None,
                c.right_to_mint.wf(),
                c.right_to_mint@ == rights_map(pair_views(rights@).subrange(0, i as int)),
                total == crate::contract::sum_outputs(pair_views(rights@).subrange(0, i as int)),
            decreases rights@.len() - i,
        {
            proof {
                assert(pair_views(rights@).subrange(0, i + 1).drop_last() =~= pair_views(rights@).subrange(0, i as int));
            }
            if rights[i].1 > u64::MAX - total {
                proof {
                    lemma_sum_prefix_le(pair_views(rights@), i + 1);
                }
                return Err(String::from_str("mint: rights exceed the largest supply"));
            }
            total = total + rights[i].1;
            c.right_to_mint.insert(rights[i].0.clone(), rights[i].1);
            i = i + 1;
        }
        proof {
            assert(pair_views(rights@).subrange(0, rights@.len() as int) =~= pair_views(rights@));
        }
        c.max_supply = Some(total);
        Ok(c)
    }
}

impl SCL01Contract {
    /// A liquidity pool contract (SCL04) between the token contracts `cid1` and
    /// `cid2`, empty at first, with the second side's ratio and the fee in
    /// millionths. The two contracts must differ and share their decimals,
    /// which the pool takes.
    pub fn new_scl04(txid: &str, payload: &str, ticker: String, cid1: String, cid2: String, decimals_1: i32, decimals_2: i32, ratio: u64, fee_ppm: u64) -> (r: Result<SCL01Contract, String>)
        ensures
            r.is_ok() == (cid1@ != cid2@ && decimals_1 == decimals_2 && fee_ppm <= PPM),
            r matches Ok(c) ==> fresh(c, txid@, payload@, ticker@, decimals_1)
                && c.owners@ == Map::<Seq<char>, u64>::empty()
                && c.supply == 0
                && c.max_supply is None
                && (c.liquidity_pool matches Some(p) && p.contract_id_1@ == cid1@ && p.contract_id_2@ == cid2@
                    && p.pool_1 == 0 && p.pool_2 == 0 && p.k == 0 && p.fee_ppm == fee_ppm
                    && p.liquidity_ratio == ratio
                    && p.swaps@ == Map::<Seq<char>, (u64, u64)>::empty()
                    && p.liquidations@ == Map::<Seq<char>, (u64, u64)>::empty()),
    {
        if cid1 == cid2 {
            return Err(String::from_str("mint: a pool needs two different contracts"));
        }
        if decimals_1 != decimals_2 {
            return Err(String::from_str("mint: the pool's contracts differ in decimals"));
        }
        if fee_ppm > PPM {
            return Err(String::from_str("mint: fee above one"));
        }
        let mut c = fresh_contract(txid, payload, ticker, decimals_1);
        c.liquidity_pool = Some(LiquidityPool {
            contract_id_1: cid1,
            contract_id_2: cid2,
            pool_1: 0,
            pool_2: 0,
            fee_ppm,
            k: 0,
            liquidity_ratio: ratio,
            swaps: StrMap::new(),
            liquidations: StrMap::new(),
        });
        Ok(c)
    }
}


/// The ticker, maximum supply, airdrop amount and decimals of
/// `SCL02:[TICKER,MAX,AIRDROP_AMT,DEC]`.
pub open spec fn scl02_fields(p: Seq<char>) -> Option<(Seq<char>, u64, u64, u64)> {
    match mint_match_from(p, 0) {
        Some((g1, g2, g3, g4)) => match (parse_u64(g2), parse_u64(g3), parse_u64(g4)) {
            (Some(m), Some(a), Some(d)) => Some((g1, m, a, d)),
            _ => None,
        },
        None => None,
    }
}

fn mint_groups(payload: &str) -> (r: Option<(Vec<char>, Vec<char>, Vec<char>, Vec<char>)>)
    ensures
        match r {
            Some(g) => mint_match_from(payload@, 0) == Some((g.0@, g.1@, g.2@, g.3@)),
            None => mint_match_from(payload@, 0) is None,
        },
{
    let p = chars_of(payload);
    let mut i: usize = 0;
    let mut found: Option<(Vec<char>, Vec<char>, Vec<char>, Vec<char>)> = None;
    while i < p.len() && found.is_none()
        invariant
            i <= p@.len(),
            p@ == payload@,
            found is None ==> mint_match_from(p@, 0) == mint_match_from(p@, i as int),
            found matches Some(g) ==> mint_match_from(p@, 0) == Some((g.0@, g.1@, g.2@, g.3@)),
        decreases p@.len() - i,
    {
        found = mint_at_exec(&p, i);
        i = i + 1;
    }
    found
}

/// The ticker, maximum supply, airdrop amount and decimals of an SCL02 mint command.
pub fn handle_scl02_mint_payload(payload: &str) -> (r: Result<(String, u64, u64, u64), String>)
    ensures
        match r {
            Ok(v) => scl02_fields(payload@) == Some((v.0@, v.1, v.2, v.3)),
            Err(_) => scl02_fields(payload@) is None,
        },
{
    let (g1, g2, g3, g4) = match mint_groups(payload) {
        Some(g) => g,
        None => return Err(String::from_str("Not mint valid payload")),
    };
    match (parse_u64_exec(&g2), parse_u64_exec(&g3), parse_u64_exec(&g4)) {
        (Some(m), Some(a), Some(d)) => Ok((string_from_chars(&g1), m, a, d)),
        _ => Err(String::from_str("Not mint valid payload")),
    }
}

/// The ticker, two contract ids, ratio and fee (both in millionths) of
/// `SCL04:TICKER,CID1,CID2,RATIO,FEE`.
pub open spec fn scl04_fields(p: Seq<char>) -> Option<(Seq<char>, Seq<char>, Seq<char>, u64, u64)> {
    match after(p, "SCL04:"@) {
        Some(rest) => {
            let f = fields(rest);
            if f.len() < 5 {
                None
            } else {
                match (parse_ppm(strip_special(f[3])), parse_ppm(strip_special(f[4]))) {
                    (Some(r), Some(fee)) => Some((strip_special(f[0]), strip_special(f[1]), strip_special(f[2]), r, fee)),
                    _ => None,
                }
            }
        },
        None => None,
    }
}

/// The ticker, contract ids, ratio and fee (in millionths) of an SCL04 mint command.
pub fn handle_scl04_mint_payload(payload: &str) -> (r: Result<(String, String, String, u64, u64), String>)
    ensures
        match r {
            Ok(v) => scl04_fields(payload@) == Some((v.0@, v.1@, v.2@, v.3, v.4)),
            Err(_) => scl04_fields(payload@) is None,
        },
{
    let k = vec_of("SCL04:");
    proof {
        reveal_strlit("SCL04:");
    }
    let rest = match after_exec(&vec_of(payload), &k) {
        Some(r) => r,
        None => return Err(String::from_str("Invalid liquidity pool payload")),
    };
    let f = fields_exec(&rest);
    if f.len() < 5 {
        return Err(String::from_str("Invalid liquidity pool payload"));
    }
    let ghost fv = f@.map_values(|q: Vec<char>| q@);
    proof {
        assert(fv[0] == f@[0]@ && fv[1] == f@[1]@ && fv[2] == f@[2]@ && fv[3] == f@[3]@ && fv[4] == f@[4]@);
    }
    match (parse_ppm_exec(&strip_exec(&f[3])), parse_ppm_exec(&strip_exec(&f[4]))) {
        (Some(r), Some(fee)) => Ok((field_exec(&f[0]), field_exec(&f[1]), field_exec(&f[2]), r, fee)),
        _ => Err(String::from_str("Not mint valid payload")),
    }
}

/// The ticker, receiver and data of `SCL05:TICKER,REC_UTXO,BASE64`.
pub open spec fn scl05_fields(p: Seq<char>) -> Option<(Seq<char>, Seq<char>, Seq<char>)> {
    match after(p, "SCL05:"@) {
        Some(rest) => {
            let f = fields(rest);
            if f.len() < 3 { None } else { Some((strip_special(f[0]), strip_special(f[1]), strip_special(f[2]))) }
        },
        None => None,
    }
}

/// The ticker, receiver UTXO and data of an SCL05 mint command.
pub fn handle_scl05_mint_payload(payload: &str) -> (r: Result<(String, String, String), String>)
    ensures
        match r {
            Ok(v) => scl05_fields(payload@) == Some((v.0@, v.1@, v.2@)),
            Err(_) => scl05_fields(payload@) is None,
        },
{
    let k = vec_of("SCL05:");
    proof {
        reveal_strlit("SCL05:");
    }
    let rest = match after_exec(&vec_of(payload), &k) {
        Some(r) => r,
        None => return Err(String::from_str("Invalid Non-Fungible Token payload")),
    };
    let f = fields_exec(&rest);
    if f.len() < 3 {
        return Err(String::from_str("Invalid Non-Fungible Token payload"));
    }
    let ghost fv = f@.map_values(|q: Vec<char>| q@);
    proof {
        assert(fv[0] == f@[0]@ && fv[1] == f@[1]@ && fv[2] == f@[2]@);
    }
    Ok((field_exec(&f[0]), field_exec(&f[1]), field_exec(&f[2])))
}

impl SCL01Contract {
    /// A non-fungible token contract (SCL05): one token, held by `receiver`,
    /// carrying `data`.
    pub fn new_scl05(txid: &str, payload: &str, ticker: String, receiver: &String, data: String) -> (c: SCL01Contract)
        ensures
            fresh(c, txid@, payload@, ticker@, 0),
            c.owners@ == Map::<Seq<char>, u64>::empty().insert(receiver@, 1),
            c.supply == 1,
            c.max_supply is None,
            c.liquidity_pool is None,
            c.token_data == Some(data),
    {
        let mut c = fresh_contract(txid, payload, ticker, 0);
        c.owners.insert(receiver.clone(), 1);
        c.supply = 1;
        c.token_data = Some(data);
        c
    }
}

/// The rights to mint of a list of (UTXO, allowance); a later entry for a UTXO wins.
pub open spec fn rights_map(rs: Seq<(Seq<char>, u64)>) -> Map<Seq<char>, u64>
    decreases rs.len(),
{
    if rs.len() == 0 {
        Map::empty()
    } else {
        rights_map(rs.drop_last()).insert(rs.last().0, rs.last().1)
    }
}

proof fn lemma_sum_prefix_le(rs: Seq<(Seq<char>, u64)>, n: int)
    requires
        0 <= n <= rs.len(),
    ensures
        crate::contract::sum_outputs(rs.subrange(0, n)) <= crate::contract::sum_outputs(rs),
    decreases rs.len() - n,
{
    if n < rs.len() {
        lemma_sum_prefix_le(rs, n + 1);
        assert(rs.subrange(0, n + 1).drop_last() =~= rs.subrange(0, n));
    } else {
        assert(rs.subrange(0, n) =~= rs);
    }
}

} // verus!
