//! Read-side views of a contract: listing summaries and trade details.
use vstd::prelude::*;

use crate::contract::{find_listing, listing_at, mul_wide_pub, SCL01Contract};
use crate::records::{ContractTradeResponse, FulfilledSummary, ListingSummary};
use crate::types::Bid;

verus! {

/// The number of bids on `order` among the keys `ks`, and the highest price among them (zero if none).
pub open spec fn bid_stats(m: Map<Seq<char>, Bid>, ks: Seq<Seq<char>>, order: Seq<char>) -> (nat, u64)
    decreases ks.len(),
{
    if ks.len() == 0 {
        (0, 0)
    } else {
        let (n, h) = bid_stats(m, ks.drop_last(), order);
        let b = m[ks.last()];
        if b.order_id@ == order {
            (n + 1, if b.bid_price > h { b.bid_price } else { h })
        } else {
            (n, h)
        }
    }
}

fn bid_stats_exec(c: &SCL01Contract, order: &String) -> (r: (usize, u64))
    requires
        c.wf(),
    ensures
        r.0 == bid_stats(c.bids@, c.bids.key_seq(), order@).0,
        r.1 == bid_stats(c.bids@, c.bids.key_seq(), order@).1,
{
    let keys = c.bids.keys();
    let ghost ks = c.bids.key_seq();
    let mut n: usize = 0;
    let mut h: u64 = 0;
    let mut i: usize = 0;
    while i < keys.len()
        invariant
            i <= keys@.len(),
            c.wf(),
            ks == c.bids.key_seq(),
            keys@.len() == ks.len(),
            forall|j: int| 0 <= j < keys@.len() ==> #[trigger] keys@[j]@ == ks[j],
            forall|k: Seq<char>| #![trigger c.bids@.contains_key(k)] c.bids@.contains_key(k) <==> ks.contains(k),
            n <= i,
            (n as nat, h) == bid_stats(c.bids@, ks.subrange(0, i as int), order@),
        decreases keys@.len() - i,
    {
        proof {
            assert(ks.subrange(0, i + 1).drop_last() =~= ks.subrange(0, i as int));
            assert(ks.contains(keys@[i as int]@));
        }
        let b = c.bids.get(&keys[i]).unwrap();
        if b.order_id == *order {
            n = n + 1;
            if b.bid_price > h {
                h = b.bid_price;
            }
        }
        i = i + 1;
    }
    proof {
        assert(ks.subrange(0, keys@.len() as int) =~= ks);
    }
    (n, h)
}

/// `r` summarises the listing that sells from `u` (see `listing_summary`).
pub open spec fn summary_of(c: SCL01Contract, u: Seq<char>, pending: bool, r: ListingSummary) -> bool {
    &&& (!listing_at(c.listings@, u) ==> r.quantity == 0 && r.list_price == 0 && r.listing_utxo@.len() == 0 && !r.pending_listing
            && r.bid_count == bid_stats(c.bids@, c.bids.key_seq(), Seq::empty()).0 as u64
            && r.highest_bid == bid_stats(c.bids@, c.bids.key_seq(), Seq::empty()).1)
    &&& (listing_at(c.listings@, u) ==> exists|order: Seq<char>| #[trigger] c.listings@.contains_key(order)
            && c.listings@[order].list_utxo@ == u
            && r.quantity == c.listings@[order].list_amt && r.list_price == c.listings@[order].price
            && r.listing_utxo@ == u && r.pending_listing == pending
            && r.bid_count == bid_stats(c.bids@, c.bids.key_seq(), order).0 as u64
            && r.highest_bid == bid_stats(c.bids@, c.bids.key_seq(), order).1)
}

/// The summary of the listing that sells from `listing_utxo`: its amount and
/// price, and the number of bids on it with the highest bid price. An unknown
/// UTXO gives an empty summary.
pub fn listing_summary(c: &SCL01Contract, listing_utxo: &String, pending: bool) -> (r: ListingSummary)
    requires
        c.wf(),
    ensures
        summary_of(*c, listing_utxo@, pending, r),
{
    match find_listing(&c.listings, listing_utxo) {
        Some(order) => {
            let (quantity, price) = match c.listings.get(&order) {
                Some(l) => (l.list_amt, l.price),
                None => (0, 0),
            };
            let (n, h) = bid_stats_exec(c, &order);
            ListingSummary {
                quantity,
                list_price: price,
                bid_count: n as u64,
                highest_bid: h,
                listing_utxo: listing_utxo.clone(),
                pending_listing: pending,
            }
        },
        None => {
            let (n, h) = bid_stats_exec(c, &String::new());
            ListingSummary { quantity: 0, list_price: 0, bid_count: n as u64, highest_bid: h, listing_utxo: String::new(), pending_listing: false }
        },
    }
}

/// The summaries of the listings that sell from each of `listing_utxos`, in order.
pub fn get_listing_summaries(c: &SCL01Contract, listing_utxos: &Vec<String>, pending: bool) -> (r: Vec<ListingSummary>)
    requires
        c.wf(),
    ensures
        r@.len() == listing_utxos@.len(),
        forall|i: int| 0 <= i < r@.len() ==> summary_of(*c, listing_utxos@[i]@, pending, #[trigger] r@[i]),
{
    let mut out: Vec<ListingSummary> = Vec::new();
    let mut i: usize = 0;
    while i < listing_utxos.len()
        invariant
            i <= listing_utxos@.len(),
            c.wf(),
            out@.len() == i,
            forall|j: int| 0 <= j < i ==> summary_of(*c, listing_utxos@[j]@, pending, #[trigger] out@[j]),
        decreases listing_utxos@.len() - i,
    {
        out.push(listing_summary(c, &listing_utxos[i], pending));
        i = i + 1;
    }
    out
}

/// The bids among keys `ks` that reserve `u`: how many, and the last one's key.
pub open spec fn reserving(m: Map<Seq<char>, Bid>, ks: Seq<Seq<char>>, u: Seq<char>) -> (nat, Seq<char>)
    decreases ks.len(),
{
    if ks.len() == 0 {
        (0, Seq::empty())
    } else {
        let (n, k) = reserving(m, ks.drop_last(), u);
        if m[ks.last()].reseved_utxo@ == u { (n + 1, ks.last()) } else { (n, k) }
    }
}

/// The trade that the bid reserving `bid_utxo` makes: its terms and its
/// listing's. Known only when exactly one bid reserves the UTXO and its order
/// is listed.
pub fn trade_detail(c: &SCL01Contract, contract_id: &String, bid_utxo: &String, pending: bool) -> (r: Option<ContractTradeResponse>)
    requires
        c.wf(),
    ensures
        ({
            let (n, k) = reserving(c.bids@, c.bids.key_seq(), bid_utxo@);
            let b = c.bids@[k];
            match r {
                Some(t) => n == 1 && c.listings@.contains_key(b.order_id@)
                    && t.contract_id@ == contract_id@ && t.order_id@ == b.order_id@ && t.bid_utxo@ == bid_utxo@
                    && t.bid_amount == b.bid_amount && t.bid_price == b.bid_price
                    && t.listing_amount == c.listings@[b.order_id@].list_amt
                    && t.listing_price == c.listings@[b.order_id@].price
                    && t.listing_utxo@ == c.listings@[b.order_id@].list_utxo@
                    && t.bid_pending == pending,
                None => !(n == 1 && c.listings@.contains_key(b.order_id@)),
            }
        }),
{
    let keys = c.bids.keys();
    let ghost ks = c.bids.key_seq();
    let mut n: usize = 0;
    let mut found: String = String::new();
    let mut i: usize = 0;
    while i < keys.len()
        invariant
            i <= keys@.len(),
            c.wf(),
            ks == c.bids.key_seq(),
            keys@.len() == ks.len(),
            forall|j: int| 0 <= j < keys@.len() ==> #[trigger] keys@[j]@ == ks[j],
            forall|k: Seq<char>| #![trigger c.bids@.contains_key(k)] c.bids@.contains_key(k) <==> ks.contains(k),
            n <= i,
            (n as nat, found@) == reserving(c.bids@, ks.subrange(0, i as int), bid_utxo@),
            n > 0 ==> c.bids@.contains_key(found@),
        decreases keys@.len() - i,
    {
        proof {
            assert(ks.subrange(0, i + 1).drop_last() =~= ks.subrange(0, i as int));
            assert(ks.contains(keys@[i as int]@));
        }
        let b = c.bids.get(&keys[i]).unwrap();
        if b.reseved_utxo == *bid_utxo {
            n = n + 1;
            found = keys[i].clone();
        }
        i = i + 1;
    }
    proof {
        assert(ks.subrange(0, keys@.len() as int) =~= ks);
    }
    if n != 1 {
        return None;
    }
    let b = c.bids.get(&found).unwrap();
    match c.listings.get(&b.order_id) {
        Some(l) => Some(ContractTradeResponse {
            contract_id: contract_id.clone(),
            order_id: b.order_id.clone(),
            bid_utxo: bid_utxo.clone(),
            listing_amount: l.list_amt,
            listing_price: l.price,
            bid_amount: b.bid_amount,
            bid_price: b.bid_price,
            listing_utxo: l.list_utxo.clone(),
            bid_pending: pending,
        }),
        None => None,
    }
}

/// The terms of the trade that fulfilling `bid_id` completes: the bid's price
/// and amount, and its listing's. Known only for an accepted bid whose
/// listing stands.
pub fn fulfilled_summary(c: &SCL01Contract, bid_id: &String) -> (r: Option<FulfilledSummary>)
    requires
        c.wf(),
    ensures
        match r {
            Some(f) => {
                let order = c.fulfillments@[bid_id@]@;
                &&& c.fulfillments@.contains_key(bid_id@) && c.bids@.contains_key(bid_id@) && c.listings@.contains_key(order)
                &&& f.bid_price == c.bids@[bid_id@].bid_price && f.bid_amount == c.bids@[bid_id@].bid_amount
                &&& f.listing_price == c.listings@[order].price && f.listing_amount == c.listings@[order].list_amt
            },
            None => !(c.fulfillments@.contains_key(bid_id@) && c.bids@.contains_key(bid_id@)
                && c.listings@.contains_key(c.fulfillments@[bid_id@]@)),
        },
{
    let order = match c.fulfillments.get(bid_id) {
        Some(o) => o,
        None => return None,
    };
    let (bid_price, bid_amount) = match c.bids.get(bid_id) {
        Some(b) => (b.bid_price, b.bid_amount),
        None => return None,
    };
    match c.listings.get(order) {
        Some(l) => Some(FulfilledSummary { bid_price, listing_price: l.price, listing_amount: l.list_amt, bid_amount }),
        None => None,
    }
}

/// A contract's headline figures.
pub struct ContractSummary {
    pub contract_id: String,
    pub ticker: String,
    pub rest_url: String,
    pub contract_type: String,
    pub decimals: i32,
    pub supply: u64,
    pub total_owners: u64,
    pub average_listing_price: u64,
    pub average_traded_price: u64,
    pub total_traded: u64,
    pub total_listed: u64,
    pub contract_interactions: u64,
    pub total_transfers: u64,
    pub total_burns: u64,
    pub current_listings: u64,
    pub current_bids: u64,
    pub available_airdrops: Option<u64>,
    pub airdrop_amount: Option<u64>,
    pub max_supply: Option<u64>,
    pub lp_contracts: Option<(String, String)>,
    pub lp_ratio_ppm: Option<u64>,
}

/// `f` added up over the fulfilled trades.
pub open spec fn fsum(fs: Seq<FulfilledSummary>, f: spec_fn(FulfilledSummary) -> int) -> int
    decreases fs.len(),
{
    if fs.len() == 0 { 0 } else { fsum(fs.drop_last(), f) + f(fs.last()) }
}

pub open spec fn list_value(x: FulfilledSummary) -> int { x.listing_price * x.listing_amount }
pub open spec fn list_amount(x: FulfilledSummary) -> int { x.listing_amount as int }
pub open spec fn bid_value(x: FulfilledSummary) -> int { x.bid_price * x.bid_amount }
pub open spec fn bid_amount_of(x: FulfilledSummary) -> int { x.bid_amount as int }

/// The trades before the latest one.
pub open spec fn earlier(fs: Seq<FulfilledSummary>) -> Seq<FulfilledSummary> {
    if fs.len() == 0 { fs } else { fs.drop_last() }
}

/// The averages are taken over a single trade, or over several trades of
/// which the earlier ones moved tokens for a price.
pub open spec fn averaged(fs: Seq<FulfilledSummary>) -> bool {
    fs.len() == 1 || (fs.len() > 1 && fsum(earlier(fs), |x| bid_amount_of(x)) != 0 && fsum(earlier(fs), |x| bid_value(x)) != 0)
}

/// `a / b`, zero when `b` is zero.
pub open spec fn ratio(a: int, b: int) -> int {
    if b == 0 { 0 } else { a / b }
}

/// The average listing price of the fulfilled trades, weighted by amount.
pub open spec fn listed_average(fs: Seq<FulfilledSummary>) -> int {
    if averaged(fs) { ratio(fsum(fs, |x| list_value(x)), fsum(fs, |x| list_amount(x))) } else { 0 }
}

/// The average traded price: with one trade its price; with several, the
/// mean of the earlier trades' weighted average and the latest trade's price.
pub open spec fn traded_average(fs: Seq<FulfilledSummary>) -> int {
    if fs.len() == 1 {
        ratio(bid_value(fs[0]), bid_amount_of(fs[0]))
    } else if averaged(fs) {
        (ratio(fsum(earlier(fs), |x| bid_value(x)), fsum(earlier(fs), |x| bid_amount_of(x)))
            + ratio(bid_value(fs.last()), bid_amount_of(fs.last()))) / 2
    } else {
        0
    }
}

/// The summary's sums all fit in a `u64`.
pub open spec fn summary_fits(c: SCL01Contract, fs: Seq<FulfilledSummary>, is_airdrop: bool) -> bool {
    &&& fsum(fs, |x| list_value(x)) <= u64::MAX
    &&& fsum(fs, |x| list_amount(x)) <= u64::MAX
    &&& fsum(earlier(fs), |x| bid_value(x)) <= u64::MAX
    &&& fsum(earlier(fs), |x| bid_amount_of(x)) <= u64::MAX
    &&& (fs.len() > 0 ==> bid_value(fs.last()) <= u64::MAX)
    &&& (is_airdrop ==> available(c) <= u64::MAX)
}

/// The tokens the airdrops still to come would mint.
pub open spec fn available(c: SCL01Contract) -> int {
    let amount: int = match c.airdrop_amount { Some(a) => a as int, None => 0 };
    let total: int = match c.total_airdrops { Some(t) => t as int, None => 0 };
    let current: int = match c.current_airdrops { Some(t) => t as int, None => 0 };
    if current >= total { 0 } else { amount * (total - current) }
}

proof fn lemma_fsum_prefix(fs: Seq<FulfilledSummary>, n: int, f: spec_fn(FulfilledSummary) -> int)
    requires
        0 <= n <= fs.len(),
        forall|x: FulfilledSummary| #[trigger] f(x) >= 0,
    ensures
        0 <= fsum(fs.subrange(0, n), f) <= fsum(fs, f),
    decreases fs.len() - n,
{
    if n < fs.len() {
        lemma_fsum_prefix(fs, n + 1, f);
        assert(fs.subrange(0, n + 1).drop_last() =~= fs.subrange(0, n));
        assert(f(fs[n]) >= 0);
        lemma_fsum_nonneg(fs.subrange(0, n), f);
    } else {
        assert(fs.subrange(0, n) =~= fs);
        lemma_fsum_nonneg(fs, f);
    }
}

proof fn lemma_fsum_nonneg(fs: Seq<FulfilledSummary>, f: spec_fn(FulfilledSummary) -> int)
    requires
        forall|x: FulfilledSummary| #[trigger] f(x) >= 0,
    ensures
        fsum(fs, f) >= 0,
    decreases fs.len(),
{
    if fs.len() > 0 {
        lemma_fsum_nonneg(fs.drop_last(), f);
        assert(f(fs.last()) >= 0);
    }
}

/// `f` added up over the first `n` trades, when it fits in a `u64`.
fn fsum_exec(fs: &Vec<FulfilledSummary>, n: usize, kind: u8) -> (r: Option<u64>)
    requires
        n <= fs@.len(),
        kind < 4,
    ensures
        ({
            let f = if kind == 0 { |x| list_value(x) } else if kind == 1 { |x| list_amount(x) } else if kind == 2 { |x| bid_value(x) } else { |x| bid_amount_of(x) };
            match r {
                Some(v) => v == fsum(fs@.subrange(0, n as int), f),
                None => fsum(fs@.subrange(0, n as int), f) > u64::MAX,
            }
        }),
{
    let ghost f: spec_fn(FulfilledSummary) -> int = if kind == 0 { |x| list_value(x) } else if kind == 1 { |x| list_amount(x) } else if kind == 2 { |x| bid_value(x) } else { |x| bid_amount_of(x) };
    proof {
        assert forall|x: FulfilledSummary| #[trigger] f(x) >= 0 by {
            assert(x.listing_price * x.listing_amount >= 0) by (nonlinear_arith);
            assert(x.bid_price * x.bid_amount >= 0) by (nonlinear_arith);
        }
    }
    let mut acc: u64 = 0;
    let mut i: usize = 0;
    while i < n
        invariant
            i <= n <= fs@.len(),
            forall|x: FulfilledSummary| #[trigger] f(x) >= 0,
            f == (if kind == 0 { |x| list_value(x) } else if kind == 1 { |x| list_amount(x) } else if kind == 2 { |x| bid_value(x) } else { |x| bid_amount_of(x) }),
            acc == fsum(fs@.subrange(0, i as int), f),
        decreases n - i,
    {
        let x = &fs[i];
        proof {
            assert(fs@.subrange(0, i + 1).drop_last() =~= fs@.subrange(0, i as int));
            lemma_fsum_prefix(fs@.subrange(0, n as int), i + 1, f);
            assert(fs@.subrange(0, n as int).subrange(0, i + 1) =~= fs@.subrange(0, i + 1));
        }
        let term: u128 = if kind == 0 {
            mul_wide_pub(x.listing_price, x.listing_amount)
        } else if kind == 1 {
            x.listing_amount as u128
        } else if kind == 2 {
            mul_wide_pub(x.bid_price, x.bid_amount)
        } else {
            x.bid_amount as u128
        };
        proof {
            assert(term == f(fs@[i as int]));
        }
        if term > (u64::MAX - acc) as u128 {
            return None;
        }
        acc = acc + term as u64;
        i = i + 1;
    }
    Some(acc)
}

/// A contract's summary from its state and its fulfilled trades; `None` when
/// one of its sums does not fit in a `u64`. The header fields (`rest_url`,
/// `contract_type`) are left empty for the caller to fill.
pub fn contract_summary(c: &SCL01Contract, fulfilled: &Vec<FulfilledSummary>, total_burns: u64, total_transfer_value: u64, is_airdrop: bool) -> (r: Option<ContractSummary>)
    requires
        c.wf(),
    ensures
        r is Some <==> summary_fits(*c, fulfilled@, is_airdrop),
        r matches Some(s) ==> {
            let fs = fulfilled@;
            &&& s.average_listing_price == listed_average(fs)
            &&& s.average_traded_price == traded_average(fs)
            &&& s.total_listed == fsum(fs, |x| list_amount(x))
            &&& s.total_traded == fsum(earlier(fs), |x| bid_amount_of(x))
            &&& s.total_owners == c.owners@.len()
            &&& s.current_listings == c.listings@.len()
            &&& s.current_bids == c.bids@.len()
            &&& s.contract_interactions == c.payloads@.len()
            &&& s.total_burns == total_burns && s.total_transfers == total_transfer_value
            &&& s.supply == c.supply && s.max_supply == c.max_supply && s.airdrop_amount == c.airdrop_amount
            &&& s.contract_id@ == c.contractid@ && s.ticker@ == c.ticker@ && s.decimals == c.decimals
            &&& s.available_airdrops == (if is_airdrop { Some(available(*c) as u64) } else { None })
            &&& s.lp_ratio_ppm == (match c.liquidity_pool { Some(p) => Some(p.liquidity_ratio), None => None })
        },
{
    let n = fulfilled.len();
    let last = if n > 0 { n - 1 } else { 0 };
    proof {
        if n > 0 {
            assert(fulfilled@.subrange(0, last as int) =~= earlier(fulfilled@));
        } else {
            assert(fulfilled@.subrange(0, 0) =~= earlier(fulfilled@));
        }
        assert(fulfilled@.subrange(0, n as int) =~= fulfilled@);
    }
    let lv = match fsum_exec(fulfilled, n, 0) { Some(v) => v, None => return None };
    let la = match fsum_exec(fulfilled, n, 1) { Some(v) => v, None => return None };
    let bv = match fsum_exec(fulfilled, last, 2) { Some(v) => v, None => return None };
    let ba = match fsum_exec(fulfilled, last, 3) { Some(v) => v, None => return None };
    let (latest_value, latest_amount): (u64, u64) = if n > 0 {
        let w = mul_wide_pub(fulfilled[last].bid_price, fulfilled[last].bid_amount);
        if w > u64::MAX as u128 {
            return None;
        }
        (w as u64, fulfilled[last].bid_amount)
    } else {
        (0, 0)
    };
    let avail: Option<u64> = if is_airdrop {
        let amount = match c.airdrop_amount { Some(a) => a, None => 0 };
        let total = match c.total_airdrops { Some(t) => t, None => 0 };
        let current = match c.current_airdrops { Some(t) => t, None => 0 };
        if current >= total {
            Some(0)
        } else {
            let w = mul_wide_pub(amount, total - current);
            if w > u64::MAX as u128 {
                return None;
            }
            Some(w as u64)
        }
    } else {
        None
    };
    let averaged_here = n == 1 || (n > 1 && ba != 0 && bv != 0);
    let avg_list: u64 = if averaged_here && la != 0 { lv / la } else { 0 };
    let avg_trade: u64 = if n == 1 {
        if latest_amount == 0 { 0 } else { latest_value / latest_amount }
    } else if averaged_here {
        let a: u64 = bv / ba;
        let b: u64 = if latest_amount == 0 { 0 } else { latest_value / latest_amount };
        proof {
            assert(a <= bv) by (nonlinear_arith) requires a == bv / ba, ba > 0;
        }
        ((a as u128 + b as u128) / 2) as u64
    } else {
        0
    };
    proof {
        if n == 1 {
            assert(fulfilled@[0] == fulfilled@.last());
        }
    }
    let lp_ratio_ppm = match &c.liquidity_pool { Some(p) => Some(p.liquidity_ratio), None => None };
    let lp_contracts = match &c.liquidity_pool { Some(p) => Some((p.contract_id_1.clone(), p.contract_id_2.clone())), None => None };
    Some(ContractSummary {
        contract_id: c.contractid.clone(),
        ticker: c.ticker.clone(),
        rest_url: String::new(),
        contract_type: String::new(),
        decimals: c.decimals,
        supply: c.supply,
        total_owners: c.owners.len() as u64,
        average_listing_price: avg_list,
        average_traded_price: avg_trade,
        total_traded: ba,
        total_listed: la,
        contract_interactions: c.payloads.len() as u64,
        total_transfers: total_transfer_value,
        total_burns,
        current_listings: c.listings.len() as u64,
        current_bids: c.bids.len() as u64,
        available_airdrops: avail,
        airdrop_amount: c.airdrop_amount,
        max_supply: c.max_supply,
        lp_contracts,
        lp_ratio_ppm,
    })
}

/// The listings among keys `ks` that sell from `u`: how many, and the last one's key.
pub open spec fn listing_count(m: Map<Seq<char>, crate::types::Listing>, ks: Seq<Seq<char>>, u: Seq<char>) -> (nat, Seq<char>)
    decreases ks.len(),
{
    if ks.len() == 0 {
        (0, Seq::empty())
    } else {
        let (n, k) = listing_count(m, ks.drop_last(), u);
        if m[ks.last()].list_utxo@ == u { (n + 1, ks.last()) } else { (n, k) }
    }
}

/// The order of the one listing that sells from `u`, if exactly one does.
pub fn unique_listing(c: &SCL01Contract, u: &String) -> (r: Option<String>)
    requires
        c.wf(),
    ensures
        ({
            let (n, k) = listing_count(c.listings@, c.listings.key_seq(), u@);
            match r {
                Some(o) => n == 1 && o@ == k && c.listings@.contains_key(k) && c.listings@[k].list_utxo@ == u@,
                None => n != 1,
            }
        }),
{
    let keys = c.listings.keys();
    let ghost ks = c.listings.key_seq();
    let mut n: usize = 0;
    let mut found: String = String::new();
    let mut i: usize = 0;
    while i < keys.len()
        invariant
            i <= keys@.len(),
            c.wf(),
            ks == c.listings.key_seq(),
            keys@.len() == ks.len(),
            forall|j: int| 0 <= j < keys@.len() ==> #[trigger] keys@[j]@ == ks[j],
            forall|k: Seq<char>| #![trigger c.listings@.contains_key(k)] c.listings@.contains_key(k) <==> ks.contains(k),
            n <= i,
            (n as nat, found@) == listing_count(c.listings@, ks.subrange(0, i as int), u@),
            n > 0 ==> c.listings@.contains_key(found@) && c.listings@[found@].list_utxo@ == u@,
        decreases keys@.len() - i,
    {
        proof {
            assert(ks.subrange(0, i + 1).drop_last() =~= ks.subrange(0, i as int));
            assert(ks.contains(keys@[i as int]@));
        }
        let l = c.listings.get(&keys[i]).unwrap();
        if l.list_utxo == *u {
            n = n + 1;
            found = keys[i].clone();
        }
        i = i + 1;
    }
    proof {
        assert(ks.subrange(0, keys@.len() as int) =~= ks);
    }
    if n == 1 { Some(found) } else { None }
}

/// The ids of the bids on the listing that sells from `listing_utxo`, when
/// exactly one listing does: every bid on its order, each once.
pub fn bids_on_listing(c: &SCL01Contract, listing_utxo: &String) -> (r: Option<Vec<String>>)
    requires
        c.wf(),
    ensures
        ({
            let (n, order) = listing_count(c.listings@, c.listings.key_seq(), listing_utxo@);
            match r {
                Some(ids) => n == 1
                    && (forall|i: int| 0 <= i < ids@.len() ==> c.bids@.contains_key((#[trigger] ids@[i])@)
                        && c.bids@[ids@[i]@].order_id@ == order)
                    && (forall|k: Seq<char>| #[trigger] c.bids@.contains_key(k) && c.bids@[k].order_id@ == order
                        ==> crate::schedule::holds_str(ids@, k))
                    && (forall|i: int, j: int| 0 <= i < ids@.len() && 0 <= j < ids@.len() && i != j ==> ids@[i]@ != ids@[j]@),
                None => n != 1,
            }
        }),
{
    let order = match unique_listing(c, listing_utxo) {
        Some(o) => o,
        None => return None,
    };
    let keys = c.bids.keys();
    let ghost ks = c.bids.key_seq();
    let mut ids: Vec<String> = Vec::new();
    let mut i: usize = 0;
    while i < keys.len()
        invariant
            i <= keys@.len(),
            c.wf(),
            ks == c.bids.key_seq(),
            keys@.len() == ks.len(),
            forall|j: int| 0 <= j < keys@.len() ==> #[trigger] keys@[j]@ == ks[j],
            forall|a: int, b: int| 0 <= a < keys@.len() && 0 <= b < keys@.len() && a != b ==> keys@[a]@ != keys@[b]@,
            forall|k: Seq<char>| #![trigger c.bids@.contains_key(k)] c.bids@.contains_key(k) <==> ks.contains(k),
            forall|q: int| 0 <= q < ids@.len() ==> c.bids@.contains_key((#[trigger] ids@[q])@) && c.bids@[ids@[q]@].order_id@ == order@,
            forall|q: int| 0 <= q < ids@.len() ==> exists|j: int| 0 <= j < i && (#[trigger] ids@[q])@ == keys@[j]@,
            forall|a: int, b: int| 0 <= a < ids@.len() && 0 <= b < ids@.len() && a != b ==> ids@[a]@ != ids@[b]@,
            forall|j: int| 0 <= j < i && c.bids@[(#[trigger] keys@[j])@].order_id@ == order@ ==> crate::schedule::holds_str(ids@, keys@[j]@),
        decreases keys@.len() - i,
    {
        proof {
            assert(ks.contains(keys@[i as int]@));
        }
        let b = c.bids.get(&keys[i]).unwrap();
        if b.order_id == order {
            let ghost i0 = ids@;
            ids.push(keys[i].clone());
            proof {
                assert(ids@[i0.len() as int]@ == keys@[i as int]@);
                assert forall|q: int| 0 <= q < ids@.len() implies exists|j: int| 0 <= j < i + 1 && (#[trigger] ids@[q])@ == keys@[j]@ by {
                    if q < i0.len() {
                        assert(ids@[q] == i0[q]);
                        let j = choose|j: int| 0 <= j < i && (#[trigger] i0[q])@ == keys@[j]@;
                        assert(0 <= j < i + 1 && ids@[q]@ == keys@[j]@);
                    } else {
                        assert(ids@[q]@ == keys@[i as int]@);
                    }
                }
                assert forall|a: int, b: int| 0 <= a < ids@.len() && 0 <= b < ids@.len() && a != b implies ids@[a]@ != ids@[b]@ by {
                    if a < i0.len() && b < i0.len() {
                        assert(ids@[a] == i0[a] && ids@[b] == i0[b]);
                    } else if a < i0.len() {
                        assert(ids@[a] == i0[a]);
                        let j = choose|j: int| 0 <= j < i && (#[trigger] i0[a])@ == keys@[j]@;
                    } else if b < i0.len() {
                        assert(ids@[b] == i0[b]);
                        let j = choose|j: int| 0 <= j < i && (#[trigger] i0[b])@ == keys@[j]@;
                    }
                }
                assert forall|j: int| 0 <= j < i + 1 && c.bids@[(#[trigger] keys@[j])@].order_id@ == order@
                    implies crate::schedule::holds_str(ids@, keys@[j]@) by {
                    if j < i {
                        let q = choose|q: int| 0 <= q < i0.len() && (#[trigger] i0[q])@ == keys@[j]@;
                        assert(ids@[q] == i0[q]);
                    } else {
                        assert(ids@[i0.len() as int]@ == keys@[j]@);
                    }
                }
                assert forall|q: int| 0 <= q < ids@.len() implies c.bids@.contains_key((#[trigger] ids@[q])@) && c.bids@[ids@[q]@].order_id@ == order@ by {
                    if q < i0.len() {
                        assert(ids@[q] == i0[q]);
                    }
                }
            }
        }
        i = i + 1;
    }
    proof {
        assert forall|k: Seq<char>| #[trigger] c.bids@.contains_key(k) && c.bids@[k].order_id@ == order@
            implies crate::schedule::holds_str(ids@, k) by {
            let j = choose|j: int| 0 <= j < ks.len() && ks[j] == k;
            assert(keys@[j]@ == k);
        }
    }
    Some(ids)
}

} // verus!
