//! The state of one token contract and its ownership transitions.
use vstd::prelude::*;

use crate::strmap::StrMap;
use crate::schedule::holds_str;
use crate::text::{chars_of, decimal, decimal_string, string_from_chars};
use crate::types::{Bid, DGE, DimAirdrop, Drip, Listing, LiquidityPool, PPM};

verus! {

/// The balance that `k` holds in `m`, zero when it holds none.
pub open spec fn owned(m: Map<Seq<char>, u64>, k: Seq<char>) -> int {
    if m.contains_key(k) {
        m[k] as int
    } else {
        0
    }
}

/// The balances of the listed UTXOs, added up; a UTXO listed twice counts once.
pub open spec fn sum_owned(m: Map<Seq<char>, u64>, ks: Seq<Seq<char>>) -> int
    decreases ks.len(),
{
    if ks.len() == 0 {
        0
    } else if ks.drop_last().contains(ks.last()) {
        sum_owned(m, ks.drop_last())
    } else {
        sum_owned(m, ks.drop_last()) + owned(m, ks.last())
    }
}

pub open spec fn strs(v: Seq<String>) -> Seq<Seq<char>> {
    v.map_values(|s: String| s@)
}

/// The map without the listed keys.
pub open spec fn without<V>(m: Map<Seq<char>, V>, ks: Seq<Seq<char>>) -> Map<Seq<char>, V> {
    m.remove_keys(ks.to_set())
}

/// Adds `a` to the balance of `k`; a UTXO is listed only with a positive balance.
pub open spec fn credit(m: Map<Seq<char>, u64>, k: Seq<char>, a: int) -> Map<Seq<char>, u64> {
    if a == 0 {
        m
    } else {
        m.insert(k, (owned(m, k) + a) as u64)
    }
}

pub open spec fn outputs(v: Seq<(String, u64)>) -> Seq<(Seq<char>, u64)> {
    v.map_values(|e: (String, u64)| (e.0@, e.1))
}

/// Credits each output in turn.
pub open spec fn credit_all(m: Map<Seq<char>, u64>, rs: Seq<(Seq<char>, u64)>) -> Map<Seq<char>, u64>
    decreases rs.len(),
{
    if rs.len() == 0 {
        m
    } else {
        credit(credit_all(m, rs.drop_last()), rs.last().0, rs.last().1 as int)
    }
}

/// The amounts of a list of outputs, added up.
pub open spec fn sum_outputs(rs: Seq<(Seq<char>, u64)>) -> int
    decreases rs.len(),
{
    if rs.len() == 0 {
        0
    } else {
        sum_outputs(rs.drop_last()) + rs.last().1
    }
}

/// A drip carried over to a new UTXO at `block`: what has run since its start is
/// taken off its amount, and it starts again at `block`.
pub open spec fn rebase(d: Drip, block: u64) -> Drip {
    let elapsed: int = if block >= d.start_block { block - d.start_block } else { 0 };
    let used: int = elapsed * d.drip_amount;
    Drip {
        block_end: d.block_end,
        drip_amount: d.drip_amount,
        amount: if used >= d.amount { 0 } else { (d.amount - used) as u64 },
        start_block: block,
        last_block_dripped: block,
    }
}

pub open spec fn rebase_all(ds: Seq<Drip>, block: u64) -> Seq<Drip> {
    ds.map_values(|d: Drip| rebase(d, block))
}

/// Takes the drips of the listed UTXOs out of `d`, rebased to `block`, in the order listed.
pub open spec fn take_drips(d: Map<Seq<char>, Seq<Drip>>, ks: Seq<Seq<char>>, block: u64) -> (Map<Seq<char>, Seq<Drip>>, Seq<Drip>)
    decreases ks.len(),
{
    if ks.len() == 0 {
        (d, Seq::empty())
    } else {
        let (d1, acc) = take_drips(d, ks.drop_last(), block);
        if d1.contains_key(ks.last()) {
            (d1.remove(ks.last()), acc + rebase_all(d1[ks.last()], block))
        } else {
            (d1, acc)
        }
    }
}

/// The drips after the senders' drips moved to `dest`; `dest` keeps its own when none moved.
pub open spec fn moved_drips(d: Map<Seq<char>, Seq<Drip>>, ks: Seq<Seq<char>>, dest: Seq<char>, block: u64) -> Map<Seq<char>, Seq<Drip>> {
    let (d1, acc) = take_drips(d, ks, block);
    if acc.len() == 0 {
        d1
    } else {
        d1.insert(dest, acc)
    }
}

pub open spec fn has_drips(d: Map<Seq<char>, Seq<Drip>>, ks: Seq<Seq<char>>, block: u64) -> bool {
    take_drips(d, ks, block).1.len() > 0
}

/// The drips of each UTXO, as sequences.
pub open spec fn drip_view(m: StrMap<Vec<Drip>>) -> Map<Seq<char>, Seq<Drip>> {
    m@.map_values(|v: Vec<Drip>| v@)
}

pub open spec fn owners_total(m: StrMap<u64>) -> int {
    m.amount_total()
}

pub open spec fn listed_total(m: StrMap<Listing>) -> int {
    m.total_by(|l: Listing| l.list_amt as int)
}

/// The state of one contract. Its id is the txid of its mint transaction.
pub struct SCL01Contract {
    pub ticker: String,
    pub contractid: String,
    pub supply: u64,
    pub decimals: i32,
    pub owners: StrMap<u64>,
    pub payloads: StrMap<String>,
    pub listings: StrMap<Listing>,
    pub bids: StrMap<Bid>,
    pub fulfillments: StrMap<String>,
    pub drips: StrMap<Vec<Drip>>,
    pub diminishing_airdrops: StrMap<DimAirdrop>,
    pub dges: StrMap<DGE>,
    pub airdrop_amount: Option<u64>,
    pub total_airdrops: Option<u64>,
    pub current_airdrops: Option<u64>,
    pub pending_claims: StrMap<u64>,
    pub last_airdrop_split: Option<Vec<String>>,
    pub right_to_mint: StrMap<u64>,
    pub max_supply: Option<u64>,
    pub liquidated_tokens: Option<u64>,
    pub liquidity_pool: Option<LiquidityPool>,
    /// An NFT's data (base64), for SCL05 contracts.
    pub token_data: Option<String>,
}

impl SCL01Contract {
    /// Every map is well formed, and the balances together fit in a `u64`.
    pub open spec fn wf(&self) -> bool {
        &&& self.owners.wf()
        &&& self.payloads.wf()
        &&& self.listings.wf()
        &&& self.bids.wf()
        &&& self.fulfillments.wf()
        &&& self.drips.wf()
        &&& self.diminishing_airdrops.wf()
        &&& self.dges.wf()
        &&& self.pending_claims.wf()
        &&& self.right_to_mint.wf()
        &&& owners_total(self.owners) <= u64::MAX
        &&& positive(self.owners@)
        &&& forall|k: Seq<char>| #[trigger] self.diminishing_airdrops@.contains_key(k)
            ==> self.diminishing_airdrops@[k].wf()
        &&& forall|k: Seq<char>| #[trigger] self.dges@.contains_key(k) ==> self.dges@[k].wf()
        &&& match self.liquidity_pool {
            Some(p) => p.wf(),
            None => true,
        }
    }

    /// The sum of the balances held by `senders`, each UTXO counted once.
    fn owned_sum(&self, senders: &Vec<String>) -> (r: u64)
        requires
            self.owners.wf(),
            owners_total(self.owners) <= u64::MAX,
        ensures
            r == sum_owned(self.owners@, strs(senders@)),
    {
        let mut tmp = self.owners.copy();
        remove_all(&mut tmp, senders)
    }
}

/// Removes every listed key from `m`, and returns the values they held.
fn remove_all(m: &mut StrMap<u64>, ks: &Vec<String>) -> (r: u64)
    requires
        old(m).wf(),
        owners_total(*old(m)) <= u64::MAX,
    ensures
        final(m).wf(),
        final(m)@ == without(old(m)@, strs(ks@)),
        r == sum_owned(old(m)@, strs(ks@)),
        owners_total(*final(m)) == owners_total(*old(m)) - r,
        positive(old(m)@) ==> positive(final(m)@),
{
    let ghost o = m@;
    let ghost t = owners_total(*m);
    let mut acc: u64 = 0;
    let mut i: usize = 0;
    while i < ks.len()
        invariant
            i <= ks@.len(),
            m.wf(),
            m@ == without(o, strs(ks@).subrange(0, i as int)),
            acc == sum_owned(o, strs(ks@).subrange(0, i as int)),
            owners_total(*m) + acc == t,
            t <= u64::MAX,
            positive(o) ==> positive(m@),
        decreases ks@.len() - i,
    {
        let ghost pre = strs(ks@).subrange(0, i as int);
        let ghost k = ks@[i as int]@;
        let ghost before = *m;
        proof {
            before.lemma_total_bounds(|v: u64| v as int);
        }
        let removed = m.remove(&ks[i]);
        proof {
            let upto = strs(ks@).subrange(0, i + 1);
            assert(upto.drop_last() =~= pre);
            assert(upto.last() == k);
            assert(upto.to_set() =~= pre.to_set().insert(k));
            assert(m@ =~= without(o, upto));
            m.lemma_total_bounds(|v: u64| v as int);
            if pre.contains(k) {
                assert(!before@.contains_key(k));
            } else {
                assert(owned(o, k) == owned(before@, k));
            }
        }
        match removed {
            Some(v) => {
                acc = acc + v;
            },
            None => {},
        }
        i = i + 1;
    }
    assert(strs(ks@).subrange(0, ks@.len() as int) =~= strs(ks@));
    acc
}

/// Adds `a` to the balance of `k` in `m`.
fn credit_in(m: &mut StrMap<u64>, k: &String, a: u64)
    requires
        old(m).wf(),
        owners_total(*old(m)) + a <= u64::MAX,
    ensures
        final(m).wf(),
        final(m)@ == credit(old(m)@, k@, a as int),
        owners_total(*final(m)) == owners_total(*old(m)) + a,
        positive(old(m)@) ==> positive(final(m)@),
{
    if a == 0 {
        return;
    }
    proof {
        m.lemma_total_bounds(|v: u64| v as int);
    }
    let cur: u64 = match m.get(k) {
        Some(v) => *v,
        None => 0,
    };
    m.insert(k.clone(), cur + a);
}

proof fn lemma_sum_outputs_prefix(rs: Seq<(Seq<char>, u64)>, n: int)
    requires
        0 <= n <= rs.len(),
    ensures
        sum_outputs(rs.subrange(0, n)) <= sum_outputs(rs),
        sum_outputs(rs.subrange(0, n)) >= 0,
    decreases rs.len() - n,
{
    if n < rs.len() {
        lemma_sum_outputs_prefix(rs, n + 1);
        assert(rs.subrange(0, n + 1).drop_last() =~= rs.subrange(0, n));
        lemma_sum_outputs_nonneg(rs.subrange(0, n));
    } else {
        assert(rs.subrange(0, n) =~= rs);
        lemma_sum_outputs_nonneg(rs);
    }
}

proof fn lemma_sum_outputs_nonneg(rs: Seq<(Seq<char>, u64)>)
    ensures
        sum_outputs(rs) >= 0,
    decreases rs.len(),
{
    if rs.len() > 0 {
        lemma_sum_outputs_nonneg(rs.drop_last());
    }
}

/// Credits each receiver in turn.
fn credit_outputs(m: &mut StrMap<u64>, receivers: &Vec<(String, u64)>)
    requires
        old(m).wf(),
        owners_total(*old(m)) + sum_outputs(outputs(receivers@)) <= u64::MAX,
    ensures
        final(m).wf(),
        final(m)@ == credit_all(old(m)@, outputs(receivers@)),
        owners_total(*final(m)) == owners_total(*old(m)) + sum_outputs(outputs(receivers@)),
        positive(old(m)@) ==> positive(final(m)@),
{
    let ghost o = *m;
    let mut i: usize = 0;
    while i < receivers.len()
        invariant
            i <= receivers@.len(),
            m.wf(),
            owners_total(o) + sum_outputs(outputs(receivers@)) <= u64::MAX,
            m@ == credit_all(o@, outputs(receivers@).subrange(0, i as int)),
            owners_total(*m) == owners_total(o) + sum_outputs(outputs(receivers@).subrange(0, i as int)),
            positive(o@) ==> positive(m@),
        decreases receivers@.len() - i,
    {
        proof {
            assert(outputs(receivers@).subrange(0, i + 1).drop_last() =~= outputs(receivers@).subrange(0, i as int));
            lemma_sum_outputs_prefix(outputs(receivers@), i + 1);
        }
        credit_in(m, &receivers[i].0, receivers[i].1);
        i = i + 1;
    }
    assert(outputs(receivers@).subrange(0, receivers@.len() as int) =~= outputs(receivers@));
}

/// The drip rebased to `block`.
fn rebase_drip(d: &Drip, block: u64) -> (r: Drip)
    ensures
        r == rebase(*d, block),
{
    let elapsed: u64 = if block >= d.start_block { block - d.start_block } else { 0 };
    let amount: u64 = if d.drip_amount != 0 && elapsed > d.amount / d.drip_amount {
        proof {
            let q = d.amount / d.drip_amount;
            assert(d.amount < (q + 1) * d.drip_amount) by (nonlinear_arith)
                requires q == d.amount / d.drip_amount, d.drip_amount > 0;
            assert(elapsed * d.drip_amount >= (q + 1) * d.drip_amount) by (nonlinear_arith)
                requires elapsed >= q + 1, d.drip_amount > 0;
        }
        0
    } else {
        proof {
            if d.drip_amount != 0 {
                let q = d.amount / d.drip_amount;
                assert(q * d.drip_amount <= d.amount) by (nonlinear_arith)
                    requires q == d.amount / d.drip_amount, d.drip_amount > 0;
                assert(elapsed * d.drip_amount <= q * d.drip_amount) by (nonlinear_arith)
                    requires elapsed <= q, d.drip_amount > 0;
            }
        }
        d.amount - elapsed * d.drip_amount
    };
    Drip {
        block_end: d.block_end,
        drip_amount: d.drip_amount,
        amount,
        start_block: block,
        last_block_dripped: block,
    }
}

/// Takes the drips of the listed UTXOs out of `d`, rebased to `block`.
fn take_drips_of(d: &mut StrMap<Vec<Drip>>, ks: &Vec<String>, block: u64) -> (r: Vec<Drip>)
    requires
        old(d).wf(),
    ensures
        final(d).wf(),
        drip_view(*final(d)) == take_drips(drip_view(*old(d)), strs(ks@), block).0,
        r@ == take_drips(drip_view(*old(d)), strs(ks@), block).1,
{
    let ghost o = drip_view(*d);
    let mut acc: Vec<Drip> = Vec::new();
    let mut i: usize = 0;
    while i < ks.len()
        invariant
            i <= ks@.len(),
            d.wf(),
            drip_view(*d) == take_drips(o, strs(ks@).subrange(0, i as int), block).0,
            acc@ == take_drips(o, strs(ks@).subrange(0, i as int), block).1,
        decreases ks@.len() - i,
    {
        let ghost pre = strs(ks@).subrange(0, i as int);
        let ghost before = drip_view(*d);
        let ghost acc0 = acc@;
        proof {
            assert(strs(ks@).subrange(0, i + 1).drop_last() =~= pre);
        }
        let removed = d.remove(&ks[i]);
        proof {
            assert(drip_view(*d) =~= before.remove(ks@[i as int]@));
        }
        match removed {
            Some(v) => {
                let mut j: usize = 0;
                while j < v.len()
                    invariant
                        j <= v@.len(),
                        acc@ == acc0 + rebase_all(v@.subrange(0, j as int), block),
                    decreases v@.len() - j,
                {
                    let nd = rebase_drip(&v[j], block);
                    acc.push(nd);
                    proof {
                        assert(rebase_all(v@.subrange(0, j + 1), block) =~= rebase_all(v@.subrange(0, j as int), block).push(nd));
                    }
                    j = j + 1;
                }
                proof {
                    assert(v@.subrange(0, v@.len() as int) =~= v@);
                }
            },
            None => {
                proof {
                    assert(drip_view(*d) =~= before);
                }
            },
        }
        i = i + 1;
    }
    assert(strs(ks@).subrange(0, ks@.len() as int) =~= strs(ks@));
    acc
}

/// The payload log, as character sequences.
pub open spec fn payload_view(m: StrMap<String>) -> Map<Seq<char>, Seq<char>> {
    m@.map_values(|v: String| v@)
}

/// Adds an entry to the payload log.
fn record_payload(m: &mut StrMap<String>, txid: &String, payload: &String)
    requires
        old(m).wf(),
    ensures
        final(m).wf(),
        payload_view(*final(m)) == payload_view(*old(m)).insert(txid@, payload@),
        final(m)@.dom() == old(m)@.dom().insert(txid@),
{
    let ghost o = payload_view(*m);
    m.insert(txid.clone(), payload.clone());
    assert(payload_view(*m) =~= o.insert(txid@, payload@));
}

/// Every listed UTXO holds a positive balance.
pub open spec fn positive(m: Map<Seq<char>, u64>) -> bool {
    forall|k: Seq<char>| #[trigger] m.contains_key(k) ==> m[k] > 0
}

/// Every token is accounted for: the balances and the listed amounts add up to
/// the supply. This is the whole of the accounting for a contract with nothing
/// set aside; amounts set aside in drips, airdrops, grants or pools stay in the
/// supply as well.
pub open spec fn conserved(c: SCL01Contract) -> bool {
    owners_total(c.owners) + listed_total(c.listings) == c.supply
}

/// The name, id, decimals and token data are as before.
pub open spec fn ident_same(a: SCL01Contract, b: SCL01Contract) -> bool {
    a.ticker == b.ticker && a.contractid == b.contractid && a.decimals == b.decimals && a.token_data == b.token_data
}

/// The listings, bids and fulfilments are as before.
pub open spec fn market_same(a: SCL01Contract, b: SCL01Contract) -> bool {
    a.listings == b.listings && a.bids == b.bids && a.fulfillments == b.fulfillments
}

/// The airdrop, grant and right-to-mint records are as before.
pub open spec fn drops_same(a: SCL01Contract, b: SCL01Contract) -> bool {
    &&& a.diminishing_airdrops == b.diminishing_airdrops
    &&& a.dges == b.dges
    &&& a.airdrop_amount == b.airdrop_amount
    &&& a.total_airdrops == b.total_airdrops
    &&& a.current_airdrops == b.current_airdrops
    &&& a.pending_claims == b.pending_claims
    &&& a.last_airdrop_split == b.last_airdrop_split
    &&& a.right_to_mint == b.right_to_mint
    &&& a.max_supply == b.max_supply
}

/// The liquidity records are as before.
pub open spec fn pool_same(a: SCL01Contract, b: SCL01Contract) -> bool {
    a.liquidated_tokens == b.liquidated_tokens && a.liquidity_pool == b.liquidity_pool
}

/// A transfer is carried out: the txid is new, the senders hold tokens, and
/// there is at least one receiver and no more is sent than they hold.
pub open spec fn transfer_ok(c: SCL01Contract, txid: Seq<char>, senders: Seq<String>, receivers: Seq<(String, u64)>) -> bool {
    let s = sum_owned(c.owners@, strs(senders));
    &&& !c.payloads@.contains_key(txid)
    &&& s > 0
    &&& receivers.len() > 0
    &&& sum_outputs(outputs(receivers)) <= s
}

/// A burn is carried out: the txid is new and the burners hold at least `amt`, which is positive in all.
pub open spec fn burn_ok(c: SCL01Contract, txid: Seq<char>, burners: Seq<String>, amt: u64) -> bool {
    let s = sum_owned(c.owners@, strs(burners));
    &&& !c.payloads@.contains_key(txid)
    &&& s > 0
    &&& s >= amt
    &&& c.supply >= amt
}

impl SCL01Contract {
    /// Moves the senders' tokens to the receivers. What the receivers' amounts
    /// leave over goes to the last receiver, which also takes over the senders' drips.
    /// Returns, for each receiver, whether it now has drips, and the balance of
    /// the last receiver when drips moved (else zero).
    pub fn transfer(&mut self, txid: &String, payload: &String, sender_utxos: &Vec<String>, receivers: &Vec<(String, u64)>, current_block_height: u64) -> (r: Result<(Vec<bool>, u64), String>)
        requires
            old(self).wf(),
        ensures
            conserved(*old(self)) && r.is_ok() ==> conserved(*final(self)),
            final(self).wf(),
            r.is_ok() == transfer_ok(*old(self), txid@, sender_utxos@, receivers@),
            r.is_err() ==> *final(self) == *old(self),
            r.is_ok() ==> ({
                let s = sum_owned(old(self).owners@, strs(sender_utxos@));
                let t = sum_outputs(outputs(receivers@));
                let last = receivers@.last().0@;
                &&& final(self).owners@ == credit(credit_all(without(old(self).owners@, strs(sender_utxos@)), outputs(receivers@)), last, s - t)
                &&& payload_view(final(self).payloads) == payload_view(old(self).payloads).insert(txid@, payload@)
                &&& drip_view(final(self).drips) == moved_drips(drip_view(old(self).drips), strs(sender_utxos@), last, current_block_height)
                &&& owners_total(final(self).owners) == owners_total(old(self).owners)
                &&& final(self).supply == old(self).supply
                &&& ident_same(*final(self), *old(self))
                &&& market_same(*final(self), *old(self))
                &&& drops_same(*final(self), *old(self))
                &&& pool_same(*final(self), *old(self))
            }),
            r matches Ok(v) ==> v.0@.len() == receivers@.len()
                && forall|i: int| 0 <= i < receivers@.len()
                    ==> v.0@[i] == final(self).drips@.contains_key(#[trigger] receivers@[i].0@),
    {
        if self.payloads.contains_key(txid) {
            return Err(String::from_str("transfer: payload already applied"));
        }
        let s = self.owned_sum(sender_utxos);
        if s == 0 {
            return Err(String::from_str("transfer: owner amount is zero"));
        }
        if receivers.len() == 0 {
            return Err(String::from_str("transfer: no receivers"));
        }
        let t = match outputs_sum_within(receivers, s) {
            Some(t) => t,
            None => return Err(String::from_str("transfer: owner amount is less than recievers total")),
        };
        let ghost o = *self;
        let removed = remove_all(&mut self.owners, sender_utxos);
        let last = &receivers[receivers.len() - 1].0;
        let moved = take_drips_of(&mut self.drips, sender_utxos, current_block_height);
        let has_moved = moved.len() > 0;
        let ghost d1 = drip_view(self.drips);
        if has_moved {
            self.drips.insert(last.clone(), moved);
            proof {
                assert(drip_view(self.drips) =~= d1.insert(last@, take_drips(drip_view(o.drips), strs(sender_utxos@), current_block_height).1));
            }
        }
        credit_outputs(&mut self.owners, receivers);
        credit_in(&mut self.owners, last, s - t);
        record_payload(&mut self.payloads, txid, payload);
        let mut flags: Vec<bool> = Vec::new();
        let mut i: usize = 0;
        while i < receivers.len()
            invariant
                i <= receivers@.len(),
                self.drips.wf(),
                flags@.len() == i,
                forall|j: int| 0 <= j < i ==> flags@[j] == self.drips@.contains_key(#[trigger] receivers@[j].0@),
            decreases receivers@.len() - i,
        {
            flags.push(self.drips.contains_key(&receivers[i].0));
            i = i + 1;
        }
        let drip_ret: u64 = if has_moved {
            match self.owners.get(last) {
                Some(v) => *v,
                None => 0,
            }
        } else {
            0
        };
        Ok((flags, drip_ret))
    }

    /// Burns `burn_amount` of the burners' tokens; the rest goes to `change_utxo`.
    pub fn burn(&mut self, txid: &String, payload: &String, burner_utxos: &Vec<String>, burn_amount: &u64, change_utxo: &String) -> (r: Result<i32, String>)
        requires
            old(self).wf(),
        ensures
            conserved(*old(self)) && r.is_ok() ==> conserved(*final(self)),
            final(self).wf(),
            r.is_ok() == burn_ok(*old(self), txid@, burner_utxos@, *burn_amount),
            r.is_err() ==> *final(self) == *old(self),
            r.is_ok() ==> ({
                let s = sum_owned(old(self).owners@, strs(burner_utxos@));
                &&& r == Ok::<i32, String>(0)
                &&& final(self).owners@ == credit(without(old(self).owners@, strs(burner_utxos@)), change_utxo@, s - *burn_amount)
                &&& payload_view(final(self).payloads) == payload_view(old(self).payloads).insert(txid@, payload@)
                &&& final(self).supply == old(self).supply - *burn_amount
                &&& owners_total(final(self).owners) == owners_total(old(self).owners) - *burn_amount
                &&& final(self).drips == old(self).drips
                &&& ident_same(*final(self), *old(self))
                &&& market_same(*final(self), *old(self))
                &&& drops_same(*final(self), *old(self))
                &&& pool_same(*final(self), *old(self))
            }),
    {
        if self.payloads.contains_key(txid) {
            return Err(String::from_str("burn: payload already applied"));
        }
        let s = self.owned_sum(burner_utxos);
        if s == 0 {
            return Err(String::from_str("burn: owner has no tokens to burn"));
        }
        if s < *burn_amount {
            return Err(String::from_str("burn: trying to burn more than is owned"));
        }
        if self.supply < *burn_amount {
            return Err(String::from_str("burn: trying to burn more than the supply"));
        }
        let ghost o = *self;
        remove_all(&mut self.owners, burner_utxos);
        credit_in(&mut self.owners, change_utxo, s - *burn_amount);
        self.supply = self.supply - *burn_amount;
        record_payload(&mut self.payloads, txid, payload);
        Ok(0)
    }
}

/// The sum of the receivers' amounts, when it is at most `s`.
fn outputs_sum_within(receivers: &Vec<(String, u64)>, s: u64) -> (r: Option<u64>)
    ensures
        match r {
            Some(t) => t == sum_outputs(outputs(receivers@)) && t <= s,
            None => sum_outputs(outputs(receivers@)) > s,
        },
{
    let mut acc: u64 = 0;
    let mut i: usize = 0;
    while i < receivers.len()
        invariant
            i <= receivers@.len(),
            acc <= s,
            acc == sum_outputs(outputs(receivers@).subrange(0, i as int)),
        decreases receivers@.len() - i,
    {
        proof {
            assert(outputs(receivers@).subrange(0, i + 1).drop_last() =~= outputs(receivers@).subrange(0, i as int));
        }
        if receivers[i].1 > s - acc {
            proof {
                lemma_sum_outputs_prefix(outputs(receivers@), i + 1);
            }
            return None;
        }
        acc = acc + receivers[i].1;
        i = i + 1;
    }
    assert(outputs(receivers@).subrange(0, receivers@.len() as int) =~= outputs(receivers@));
    Some(acc)
}

/// The UTXO `txid:n` for a single-digit output index.
pub open spec fn out_utxo(txid: Seq<char>, n: char) -> Seq<char> {
    txid + seq![':', n]
}

/// The payload recorded for an accepted or fulfilled bid: the command with the trade terms appended.
pub open spec fn trade_payload(payload: Seq<char>, bid_id: Seq<char>, amt: u64, price: u64) -> Seq<char> {
    payload + "-ExtraInfo-"@ + bid_id + seq![','] + decimal(amt as nat) + seq![','] + decimal(price as nat)
}

/// The string `txid:n`.
fn utxo_string(txid: &String, n: char) -> (r: String)
    requires
        '0' <= n <= '9',
    ensures
        r@ == out_utxo(txid@, n),
{
    let mut v = chars_of(txid.as_str());
    v.push(':');
    v.push(n);
    string_from_chars(&v)
}

fn trade_payload_string(payload: &String, bid_id: &String, amt: u64, price: u64) -> (r: String)
    ensures
        r@ == trade_payload(payload@, bid_id@, amt, price),
{
    let mut v = chars_of(payload.as_str());
    let mut tail = chars_of("-ExtraInfo-");
    v.append(&mut tail);
    let mut b = chars_of(bid_id.as_str());
    v.append(&mut b);
    v.push(',');
    let a = decimal_string(amt);
    let mut av = chars_of(a.as_str());
    v.append(&mut av);
    v.push(',');
    let p = decimal_string(price);
    let mut pv = chars_of(p.as_str());
    v.append(&mut pv);
    let r = string_from_chars(&v);
    assert(r@ =~= trade_payload(payload@, bid_id@, amt, price));
    r
}

/// The bids left once those on `order` are gone.
pub open spec fn bids_off_order(m: Map<Seq<char>, Bid>, order: Seq<char>) -> Map<Seq<char>, Bid> {
    m.restrict(m.dom().filter(|k: Seq<char>| m[k].order_id@ != order))
}

/// Some bid on `order` reserves `u`.
pub open spec fn reserved_on(m: Map<Seq<char>, Bid>, order: Seq<char>, u: Seq<char>) -> bool {
    exists|k: Seq<char>| #[trigger] m.contains_key(k) && m[k].order_id@ == order && m[k].reseved_utxo@ == u
}

/// One of the first `n` strings of `ks` is `k`.
pub open spec fn seen(ks: Seq<String>, n: int, k: Seq<char>) -> bool {
    exists|j: int| 0 <= j < n && (#[trigger] ks[j])@ == k
}

/// Removes every bid on `order`; returns the reserved UTXOs of the bids removed.
fn remove_bids_on(bids: &mut StrMap<Bid>, order: &String) -> (r: Vec<String>)
    requires
        old(bids).wf(),
    ensures
        final(bids).wf(),
        final(bids)@ == bids_off_order(old(bids)@, order@),
        forall|i: int| 0 <= i < r@.len() ==> reserved_on(old(bids)@, order@, (#[trigger] r@[i])@),
        forall|k: Seq<char>| #[trigger] old(bids)@.contains_key(k) && old(bids)@[k].order_id@ == order@
            ==> holds_str(r@, old(bids)@[k].reseved_utxo@),
{
    let ghost o = bids@;
    let ghost ob = *bids;
    let keys = bids.keys();
    let mut removed: Vec<String> = Vec::new();
    let mut i: usize = 0;
    while i < keys.len()
        invariant
            i <= keys@.len(),
            bids.wf(),
            forall|a: int, b: int| 0 <= a < keys@.len() && 0 <= b < keys@.len() && a != b ==> keys@[a]@ != keys@[b]@,
            bids@ == o.restrict(o.dom().filter(|k: Seq<char>| !(o[k].order_id@ == order@ && seen(keys@, i as int, k)))),
            forall|x: int| 0 <= x < removed@.len() ==> reserved_on(o, order@, (#[trigger] removed@[x])@),
            forall|k: Seq<char>| #[trigger] o.contains_key(k) && o[k].order_id@ == order@ && seen(keys@, i as int, k)
                ==> holds_str(removed@, o[k].reseved_utxo@),
        decreases keys@.len() - i,
    {
        let ghost before = bids@;
        let on_order = match bids.get(&keys[i]) {
            Some(b) => b.order_id == *order,
            None => false,
        };
        if on_order {
            let b = bids.remove(&keys[i]);
            match b {
                Some(b) => {
                    proof {
                        assert(before.contains_key(keys@[i as int]@));
                        assert(o.contains_key(keys@[i as int]@));
                        assert(reserved_on(o, order@, b.reseved_utxo@));
                    }
                    let ghost r0 = removed@;
                    removed.push(b.reseved_utxo);
                    proof {
                        assert(removed@[r0.len() as int] == b.reseved_utxo);
                        assert forall|x: Seq<char>| holds_str(r0, x) implies holds_str(removed@, x) by {
                            let q = choose|q: int| 0 <= q < r0.len() && (#[trigger] r0[q])@ == x;
                            assert(removed@[q] == r0[q]);
                        }
                    }
                },
                None => {},
            }
        }
        proof {
            let k0 = keys@[i as int]@;
            let f1 = |k: Seq<char>| !(o[k].order_id@ == order@ && seen(keys@, i + 1, k));
            assert(!seen(keys@, i as int, k0)) by {
                if seen(keys@, i as int, k0) {
                    let q = choose|q: int| 0 <= q < i && (#[trigger] keys@[q])@ == k0;
                }
            }
            assert forall|k: Seq<char>| #[trigger] seen(keys@, i + 1, k) <==> (seen(keys@, i as int, k) || k == k0) by {
                if k == k0 {
                    assert(keys@[i as int]@ == k);
                }
                if seen(keys@, i + 1, k) {
                    let j = choose|j: int| 0 <= j < i + 1 && (#[trigger] keys@[j])@ == k;
                    if j < i {
                        assert(seen(keys@, i as int, k));
                    }
                }
            }
            assert(bids@ =~= o.restrict(o.dom().filter(f1)));
            assert forall|k: Seq<char>| #[trigger] o.contains_key(k) && o[k].order_id@ == order@ && seen(keys@, i + 1, k)
                implies holds_str(removed@, o[k].reseved_utxo@) by {
                if k == k0 {
                    assert(before.contains_key(k0));
                    assert(removed@[removed@.len() - 1]@ == o[k0].reseved_utxo@);
                }
            }
        }
        i = i + 1;
    }
    proof {
        assert forall|k: Seq<char>| o.contains_key(k) implies #[trigger] seen(keys@, keys@.len() as int, k) by {
            assert(ob@.contains_key(k));
            assert(ob.key_seq().contains(k));
            let j = choose|j: int| 0 <= j < ob.key_seq().len() && ob.key_seq()[j] == k;
            assert(keys@[j]@ == k);
        }
        assert(bids@ =~= bids_off_order(o, order@)) by {
            assert forall|k: Seq<char>| o.contains_key(k) implies #[trigger] seen(keys@, keys@.len() as int, k) by {
                assert(ob@.contains_key(k));
                assert(ob.key_seq().contains(k));
                let j = choose|j: int| 0 <= j < ob.key_seq().len() && ob.key_seq()[j] == k;
                assert(keys@[j]@ == k);
            }
        }
    }
    removed
}

/// Some listing sells from `lu`.
pub open spec fn listing_at(m: Map<Seq<char>, Listing>, lu: Seq<char>) -> bool {
    exists|k: Seq<char>| #[trigger] m.contains_key(k) && m[k].list_utxo@ == lu
}

/// Some fulfilment refers to `order`.
pub open spec fn fulfilled(m: Map<Seq<char>, String>, order: Seq<char>) -> bool {
    exists|k: Seq<char>| #[trigger] m.contains_key(k) && m[k]@ == order
}

/// Some bid reserves `u`.
pub open spec fn bid_at(m: Map<Seq<char>, Bid>, u: Seq<char>) -> bool {
    exists|k: Seq<char>| #[trigger] m.contains_key(k) && m[k].reseved_utxo@ == u
}

/// The key of a listing that sells from `lu`.
pub(crate) fn find_listing(m: &StrMap<Listing>, lu: &String) -> (r: Option<String>)
    requires
        m.wf(),
    ensures
        match r {
            Some(k) => m@.contains_key(k@) && m@[k@].list_utxo@ == lu@,
            None => !listing_at(m@, lu@),
        },
{
    let keys = m.keys();
    let mut i: usize = 0;
    while i < keys.len()
        invariant
            i <= keys@.len(),
            m.wf(),
            keys@.len() == m.key_seq().len(),
            forall|j: int| 0 <= j < keys@.len() ==> #[trigger] keys@[j]@ == m.key_seq()[j],
            forall|k: Seq<char>| #![trigger m@.contains_key(k)] m@.contains_key(k) <==> m.key_seq().contains(k),
            forall|j: int| 0 <= j < i ==> m@[(#[trigger] keys@[j])@].list_utxo@ != lu@,
        decreases keys@.len() - i,
    {
        match m.get(&keys[i]) {
            Some(l) => {
                if l.list_utxo == *lu {
                    return Some(keys[i].clone());
                }
            },
            None => {},
        }
        i = i + 1;
    }
    proof {
        if listing_at(m@, lu@) {
            let k = choose|k: Seq<char>| #[trigger] m@.contains_key(k) && m@[k].list_utxo@ == lu@;
            let j = choose|j: int| 0 <= j < m.key_seq().len() && m.key_seq()[j] == k;
            assert(keys@[j]@ == k);
        }
    }
    None
}

/// The key of a bid that reserves `u`.
fn find_bid(m: &StrMap<Bid>, u: &String) -> (r: Option<String>)
    requires
        m.wf(),
    ensures
        match r {
            Some(k) => m@.contains_key(k@) && m@[k@].reseved_utxo@ == u@,
            None => !bid_at(m@, u@),
        },
{
    let keys = m.keys();
    let mut i: usize = 0;
    while i < keys.len()
        invariant
            i <= keys@.len(),
            m.wf(),
            keys@.len() == m.key_seq().len(),
            forall|j: int| 0 <= j < keys@.len() ==> #[trigger] keys@[j]@ == m.key_seq()[j],
            forall|k: Seq<char>| #![trigger m@.contains_key(k)] m@.contains_key(k) <==> m.key_seq().contains(k),
            forall|j: int| 0 <= j < i ==> m@[(#[trigger] keys@[j])@].reseved_utxo@ != u@,
        decreases keys@.len() - i,
    {
        match m.get(&keys[i]) {
            Some(b) => {
                if b.reseved_utxo == *u {
                    return Some(keys[i].clone());
                }
            },
            None => {},
        }
        i = i + 1;
    }
    proof {
        if bid_at(m@, u@) {
            let k = choose|k: Seq<char>| #[trigger] m@.contains_key(k) && m@[k].reseved_utxo@ == u@;
            let j = choose|j: int| 0 <= j < m.key_seq().len() && m.key_seq()[j] == k;
            assert(keys@[j]@ == k);
        }
    }
    None
}

/// Whether some fulfilment refers to `order`.
fn is_fulfilled(m: &StrMap<String>, order: &String) -> (r: bool)
    requires
        m.wf(),
    ensures
        r == fulfilled(m@, order@),
{
    let keys = m.keys();
    let mut i: usize = 0;
    while i < keys.len()
        invariant
            i <= keys@.len(),
            m.wf(),
            keys@.len() == m.key_seq().len(),
            forall|j: int| 0 <= j < keys@.len() ==> #[trigger] keys@[j]@ == m.key_seq()[j],
            forall|k: Seq<char>| #![trigger m@.contains_key(k)] m@.contains_key(k) <==> m.key_seq().contains(k),
            forall|j: int| 0 <= j < i ==> m@[(#[trigger] keys@[j])@]@ != order@,
        decreases keys@.len() - i,
    {
        match m.get(&keys[i]) {
            Some(v) => {
                if *v == *order {
                    proof {
                        assert(m.key_seq().contains(keys@[i as int]@));
                    }
                    return true;
                }
            },
            None => {},
        }
        i = i + 1;
    }
    proof {
        if fulfilled(m@, order@) {
            let k = choose|k: Seq<char>| #[trigger] m@.contains_key(k) && m@[k]@ == order@;
            let j = choose|j: int| 0 <= j < m.key_seq().len() && m.key_seq()[j] == k;
            assert(keys@[j]@ == k);
        }
    }
    false
}

/// A listing is made: the txid is new, the senders hold at least `list_amt`
/// (and something), and the order id, the first sender, is not listed yet.
pub open spec fn list_ok(c: SCL01Contract, txid: Seq<char>, senders: Seq<String>, list_amt: u64) -> bool {
    let s = sum_owned(c.owners@, strs(senders));
    &&& !c.payloads@.contains_key(txid)
    &&& s > 0
    &&& list_amt <= s
    &&& !c.listings@.contains_key(senders[0]@)
}

impl SCL01Contract {
    /// Moves `list_amt` of the senders' tokens into a listing under the first
    /// sender's UTXO; the rest, and the senders' drips, go to the change UTXO.
    /// Returns the change UTXO, its balance, and whether drips moved there.
    pub fn list(&mut self, txid: &String, payload: &String, sender_utxos: &Vec<String>, new_listing: Listing, current_block_height: u64) -> (r: Result<(String, u64, bool), String>)
        requires
            old(self).wf(),
        ensures
            conserved(*old(self)) && r.is_ok() ==> conserved(*final(self)),
            final(self).wf(),
            r.is_ok() == (sender_utxos@.len() > 0 && list_ok(*old(self), txid@, sender_utxos@, new_listing.list_amt)),
            r.is_err() ==> *final(self) == *old(self),
            r.is_ok() ==> ({
                let s = sum_owned(old(self).owners@, strs(sender_utxos@));
                let change = new_listing.change_utxo@;
                &&& final(self).owners@ == credit(without(old(self).owners@, strs(sender_utxos@)), change, s - new_listing.list_amt)
                &&& final(self).listings@ == old(self).listings@.insert(sender_utxos@[0]@, new_listing)
                &&& drip_view(final(self).drips) == moved_drips(drip_view(old(self).drips), strs(sender_utxos@), change, current_block_height)
                &&& payload_view(final(self).payloads) == payload_view(old(self).payloads).insert(txid@, payload@)
                &&& owners_total(final(self).owners) == owners_total(old(self).owners) - new_listing.list_amt
                &&& listed_total(final(self).listings) == listed_total(old(self).listings) + new_listing.list_amt
                &&& final(self).supply == old(self).supply
                &&& final(self).bids == old(self).bids
                &&& final(self).fulfillments == old(self).fulfillments
                &&& ident_same(*final(self), *old(self))
                &&& drops_same(*final(self), *old(self))
                &&& pool_same(*final(self), *old(self))
            }),
            r matches Ok(v) ==> v.0@ == new_listing.change_utxo@
                && v.1 as int == owned(final(self).owners@, new_listing.change_utxo@)
                && v.2 == has_drips(drip_view(old(self).drips), strs(sender_utxos@), current_block_height),
    {
        if sender_utxos.len() == 0 {
            return Err(String::from_str("list: no senders"));
        }
        if self.payloads.contains_key(txid) {
            return Err(String::from_str("list: payload already applied"));
        }
        let s = self.owned_sum(sender_utxos);
        if s == 0 {
            return Err(String::from_str("list: owner amount is zero"));
        }
        if new_listing.list_amt > s {
            return Err(String::from_str("list: listing amount is more than the owned amount"));
        }
        if self.listings.contains_key(&sender_utxos[0]) {
            return Err(String::from_str("list: order already listed"));
        }
        let ghost o = *self;
        remove_all(&mut self.owners, sender_utxos);
        let change = new_listing.change_utxo.clone();
        let moved = take_drips_of(&mut self.drips, sender_utxos, current_block_height);
        let has_moved = moved.len() > 0;
        let ghost d1 = drip_view(self.drips);
        if has_moved {
            self.drips.insert(change.clone(), moved);
            proof {
                assert(drip_view(self.drips) =~= d1.insert(change@, take_drips(drip_view(o.drips), strs(sender_utxos@), current_block_height).1));
            }
        }
        credit_in(&mut self.owners, &change, s - new_listing.list_amt);
        let order_id = sender_utxos[0].clone();
        self.listings.insert(order_id, new_listing);
        record_payload(&mut self.payloads, txid, payload);
        let bal: u64 = match self.owners.get(&change) {
            Some(v) => *v,
            None => 0,
        };
        Ok((change, bal, has_moved))
    }

    /// The seller accepts the bid `bid_id`: its order is marked fulfilled, and
    /// the payload is recorded with the bid's terms appended.
    pub fn accept_bid(&mut self, txid: &String, payload: &String, bid_id: &String) -> (r: Result<i32, String>)
        requires
            old(self).wf(),
        ensures
            final(self).wf(),
            r.is_ok() == (!old(self).payloads@.contains_key(txid@) && old(self).bids@.contains_key(bid_id@)),
            r.is_err() ==> *final(self) == *old(self),
            r.is_ok() ==> ({
                let b = old(self).bids@[bid_id@];
                &&& r == Ok::<i32, String>(0)
                &&& final(self).fulfillments@ == old(self).fulfillments@.insert(bid_id@, b.order_id)
                &&& payload_view(final(self).payloads) == payload_view(old(self).payloads).insert(txid@,
                    trade_payload(payload@, bid_id@, b.bid_amount, b.bid_price))
                &&& final(self).owners == old(self).owners
                &&& final(self).listings == old(self).listings
                &&& final(self).bids == old(self).bids
                &&& final(self).drips == old(self).drips
                &&& final(self).supply == old(self).supply
                &&& ident_same(*final(self), *old(self))
                &&& drops_same(*final(self), *old(self))
                &&& pool_same(*final(self), *old(self))
            }),
    {
        if self.payloads.contains_key(txid) {
            return Err(String::from_str("accept_bid: payload already applied"));
        }
        let (order_id, amt, price) = match self.bids.get(bid_id) {
            Some(b) => (b.order_id.clone(), b.bid_amount, b.bid_price),
            None => return Err(String::from_str("accept_bid: bid not found")),
        };
        self.fulfillments.insert(bid_id.clone(), order_id);
        let data = trade_payload_string(payload, bid_id, amt, price);
        record_payload(&mut self.payloads, txid, &data);
        Ok(0)
    }

    /// Completes the trade of an accepted bid: the buyer gets the bid amount at
    /// `txid:0`, the rest of the listing goes back at `txid:2`, and the listing,
    /// its bids and the fulfilment are removed. Returns the credited UTXOs with
    /// their balances, the removed bids' reserved UTXOs and the listing's UTXO.
    pub fn fulfil(&mut self, txid: &String, payload: &String, bid_id: &String) -> (r: Result<(Vec<(String, u64)>, Vec<String>, String), String>)
        requires
            old(self).wf(),
        ensures
            conserved(*old(self)) && r.is_ok() ==> conserved(*final(self)),
            final(self).wf(),
            r.is_ok() == ({
                let c = *old(self);
                let order = c.fulfillments@[bid_id@]@;
                &&& !c.payloads@.contains_key(txid@)
                &&& c.fulfillments@.contains_key(bid_id@)
                &&& c.bids@.contains_key(bid_id@)
                &&& c.listings@.contains_key(order)
                &&& c.bids@[bid_id@].bid_amount <= c.listings@[order].list_amt
                &&& owners_total(c.owners) + c.listings@[order].list_amt <= u64::MAX
            }),
            r.is_err() ==> *final(self) == *old(self),
            r.is_ok() ==> ({
                let c = *old(self);
                let order = c.fulfillments@[bid_id@]@;
                let b = c.bids@[bid_id@];
                let l = c.listings@[order];
                &&& final(self).owners@ == credit(credit(c.owners@, out_utxo(txid@, '0'), b.bid_amount as int),
                    out_utxo(txid@, '2'), l.list_amt - b.bid_amount)
                &&& final(self).listings@ == c.listings@.remove(order)
                &&& final(self).bids@ == bids_off_order(c.bids@, order)
                &&& final(self).fulfillments@ == c.fulfillments@.remove(bid_id@)
                &&& payload_view(final(self).payloads) == payload_view(c.payloads).insert(txid@,
                    trade_payload(payload@, bid_id@, b.bid_amount, b.bid_price))
                &&& ({
                    let v = r->Ok_0;
                    &&& v.0@.len() == (if l.list_amt > b.bid_amount { 2int } else { 1int })
                    &&& v.0@[0].0@ == out_utxo(txid@, '0')
                    &&& v.0@[0].1 as int == owned(final(self).owners@, out_utxo(txid@, '0'))
                    &&& (l.list_amt > b.bid_amount ==> v.0@[1].0@ == out_utxo(txid@, '2')
                        && v.0@[1].1 as int == owned(final(self).owners@, out_utxo(txid@, '2')))
                    &&& forall|i: int| 0 <= i < v.1@.len() ==> reserved_on(c.bids@, order, (#[trigger] v.1@[i])@)
                    &&& forall|k: Seq<char>| #[trigger] c.bids@.contains_key(k) && c.bids@[k].order_id@ == order
                        ==> holds_str(v.1@, c.bids@[k].reseved_utxo@)
                    &&& v.2@ == l.list_utxo@
                })
                &&& owners_total(final(self).owners) == owners_total(c.owners) + l.list_amt
                &&& listed_total(final(self).listings) == listed_total(c.listings) - l.list_amt
                &&& final(self).supply == c.supply
                &&& final(self).drips == c.drips
                &&& ident_same(*final(self), c)
                &&& drops_same(*final(self), c)
                &&& pool_same(*final(self), c)
            }),
    {
        if self.payloads.contains_key(txid) {
            return Err(String::from_str("fulfil: payload already applied"));
        }
        let order_id = match self.fulfillments.get(bid_id) {
            Some(o) => o.clone(),
            None => return Err(String::from_str("fulfil: bid has not been accepted")),
        };
        let (amt, price) = match self.bids.get(bid_id) {
            Some(b) => (b.bid_amount, b.bid_price),
            None => return Err(String::from_str("fulfil: bid not found")),
        };
        let (list_amt, list_utxo) = match self.listings.get(&order_id) {
            Some(l) => (l.list_amt, l.list_utxo.clone()),
            None => return Err(String::from_str("fulfil: listing not found")),
        };
        if amt > list_amt {
            return Err(String::from_str("fulfil: bid amount is more than the listing amount"));
        }
        let total = self.owners.amount_sum();
        if list_amt > u64::MAX - total {
            return Err(String::from_str("fulfil: balance overflow"));
        }
        let ghost c = *self;
        let receiver = utxo_string(txid, '0');
        let change = utxo_string(txid, '2');
        credit_in(&mut self.owners, &receiver, amt);
        credit_in(&mut self.owners, &change, list_amt - amt);
        let mut new_owners: Vec<(String, u64)> = Vec::new();
        let rb: u64 = match self.owners.get(&receiver) {
            Some(v) => *v,
            None => 0,
        };
        new_owners.push((receiver, rb));
        if list_amt > amt {
            let cb: u64 = match self.owners.get(&change) {
                Some(v) => *v,
                None => 0,
            };
            new_owners.push((change, cb));
        }
        self.fulfillments.remove(bid_id);
        self.listings.remove(&order_id);
        let removed = remove_bids_on(&mut self.bids, &order_id);
        let data = trade_payload_string(payload, bid_id, amt, price);
        record_payload(&mut self.payloads, txid, &data);
        Ok((new_owners, removed, list_utxo))
    }

    /// Withdraws the listing that sells from `listing_utxo`, unless its order is
    /// fulfilled: its amount goes to `txid:0` and its bids are removed.
    /// Returns `txid:0` with its balance, and the removed bids' reserved UTXOs.
    pub fn cancel_listing(&mut self, txid: &String, listing_utxo: &String, payload: String) -> (r: Result<((String, u64), Vec<String>), String>)
        requires
            old(self).wf(),
        ensures
            conserved(*old(self)) && r.is_ok() ==> conserved(*final(self)),
            final(self).wf(),
            old(self).payloads@.contains_key(txid@) || !listing_at(old(self).listings@, listing_utxo@) ==> r.is_err(),
            !old(self).payloads@.contains_key(txid@) && listing_at(old(self).listings@, listing_utxo@)
                && (forall|k: Seq<char>| #[trigger] old(self).listings@.contains_key(k)
                    && old(self).listings@[k].list_utxo@ == listing_utxo@
                    ==> !fulfilled(old(self).fulfillments@, k)
                        && owners_total(old(self).owners) + old(self).listings@[k].list_amt <= u64::MAX)
                ==> r.is_ok(),
            r.is_err() ==> *final(self) == *old(self),
            r.is_ok() ==> exists|order: Seq<char>| #[trigger] old(self).listings@.contains_key(order) && ({
                let c = *old(self);
                let l = c.listings@[order];
                &&& l.list_utxo@ == listing_utxo@
                &&& !fulfilled(c.fulfillments@, order)
                &&& final(self).owners@ == credit(c.owners@, out_utxo(txid@, '0'), l.list_amt as int)
                &&& final(self).listings@ == c.listings@.remove(order)
                &&& final(self).bids@ == bids_off_order(c.bids@, order)
                &&& owners_total(final(self).owners) == owners_total(c.owners) + l.list_amt
                &&& listed_total(final(self).listings) == listed_total(c.listings) - l.list_amt
                &&& forall|i: int| 0 <= i < r->Ok_0.1@.len() ==> reserved_on(c.bids@, order, (#[trigger] r->Ok_0.1@[i])@)
                &&& forall|k: Seq<char>| #[trigger] c.bids@.contains_key(k) && c.bids@[k].order_id@ == order
                    ==> holds_str(r->Ok_0.1@, c.bids@[k].reseved_utxo@)
            }),
            r.is_ok() ==> ({
                let c = *old(self);
                &&& payload_view(final(self).payloads) == payload_view(c.payloads).insert(txid@, payload@)
                &&& final(self).fulfillments == c.fulfillments
                &&& final(self).supply == c.supply
                &&& final(self).drips == c.drips
                &&& ident_same(*final(self), c)
                &&& drops_same(*final(self), c)
                &&& pool_same(*final(self), c)
            }),
            r matches Ok(v) ==> v.0.0@ == out_utxo(txid@, '0') && v.0.1 as int == owned(final(self).owners@, out_utxo(txid@, '0')),
    {
        if self.payloads.contains_key(txid) {
            return Err(String::from_str("cancel_listing: payload already applied"));
        }
        let order_id = match find_listing(&self.listings, listing_utxo) {
            Some(o) => o,
            None => return Err(String::from_str("cancel_listing: listing not found")),
        };
        if is_fulfilled(&self.fulfillments, &order_id) {
            return Err(String::from_str("cancel_listing: order has been fulfilled"));
        }
        let list_amt: u64 = match self.listings.get(&order_id) {
            Some(l) => l.list_amt,
            None => 0,
        };
        let total = self.owners.amount_sum();
        if list_amt > u64::MAX - total {
            return Err(String::from_str("cancel_listing: balance overflow"));
        }
        let receiver = utxo_string(txid, '0');
        credit_in(&mut self.owners, &receiver, list_amt);
        let bal: u64 = match self.owners.get(&receiver) {
            Some(v) => *v,
            None => 0,
        };
        self.listings.remove(&order_id);
        let removed = remove_bids_on(&mut self.bids, &order_id);
        record_payload(&mut self.payloads, txid, &payload);
        Ok(((receiver, bal), removed))
    }

    /// Withdraws the bid that reserves `bidding_utxo`, unless it has been accepted.
    pub fn cancel_bid(&mut self, txid: &String, bidding_utxo: &String, payload: String) -> (r: Result<i32, String>)
        requires
            old(self).wf(),
        ensures
            final(self).wf(),
            old(self).payloads@.contains_key(txid@) || !bid_at(old(self).bids@, bidding_utxo@) ==> r.is_err(),
            !old(self).payloads@.contains_key(txid@) && bid_at(old(self).bids@, bidding_utxo@)
                && (forall|k: Seq<char>| #[trigger] old(self).bids@.contains_key(k)
                    && old(self).bids@[k].reseved_utxo@ == bidding_utxo@ ==> !old(self).fulfillments@.contains_key(k))
                ==> r.is_ok(),
            r.is_err() ==> *final(self) == *old(self),
            r.is_ok() ==> r == Ok::<i32, String>(0),
            r.is_ok() ==> exists|bid_id: Seq<char>| #[trigger] old(self).bids@.contains_key(bid_id)
                && old(self).bids@[bid_id].reseved_utxo@ == bidding_utxo@
                && !old(self).fulfillments@.contains_key(bid_id)
                && final(self).bids@ == old(self).bids@.remove(bid_id),
            r.is_ok() ==> ({
                let c = *old(self);
                &&& payload_view(final(self).payloads) == payload_view(c.payloads).insert(txid@, payload@)
                &&& final(self).owners == c.owners
                &&& final(self).listings == c.listings
                &&& final(self).fulfillments == c.fulfillments
                &&& final(self).supply == c.supply
                &&& final(self).drips == c.drips
                &&& ident_same(*final(self), c)
                &&& drops_same(*final(self), c)
                &&& pool_same(*final(self), c)
            }),
    {
        if self.payloads.contains_key(txid) {
            return Err(String::from_str("cancel_bid: payload already applied"));
        }
        let bid_id = match find_bid(&self.bids, bidding_utxo) {
            Some(b) => b,
            None => return Err(String::from_str("cancel_bid: bid not found")),
        };
        if self.fulfillments.contains_key(&bid_id) {
            return Err(String::from_str("cancel_bid: order has been fulfilled"));
        }
        self.bids.remove(&bid_id);
        record_payload(&mut self.payloads, txid, &payload);
        Ok(0)
    }
}

/// The last block up to which a drip has run once the chain is at `block`.
pub open spec fn drip_stop(d: Drip, block: u64) -> u64 {
    if block > d.block_end {
        d.block_end
    } else {
        block
    }
}

/// What a drip's whole duration pays at its regular rate.
pub open spec fn drip_full(d: Drip) -> int {
    if d.block_end >= d.start_block {
        (d.block_end - d.start_block + 1) * d.drip_amount
    } else {
        0
    }
}

/// What a drip pays when the chain advances to `block`: its rate for each block
/// since it last paid, and on its last block whatever the rate left unpaid.
pub open spec fn drip_due(d: Drip, block: u64) -> int {
    let cur = drip_stop(d, block);
    let steady: int = if cur > d.last_block_dripped { (cur - d.last_block_dripped) * d.drip_amount } else { 0 };
    steady + if cur == d.block_end && drip_full(d) < d.amount { d.amount - drip_full(d) } else { 0 }
}

/// The drip once it has paid up to `block`.
pub open spec fn drip_advance(d: Drip, block: u64) -> Drip {
    let cur = drip_stop(d, block);
    Drip { last_block_dripped: if cur > d.last_block_dripped { cur } else { d.last_block_dripped }, ..d }
}

/// Whether a drip still runs after paying up to `block`.
pub open spec fn drip_runs(d: Drip, block: u64) -> bool {
    drip_stop(d, block) < d.block_end
}

/// What the drips of one UTXO pay at `block`, added up.
pub open spec fn dues(ds: Seq<Drip>, block: u64) -> int
    decreases ds.len(),
{
    if ds.len() == 0 {
        0
    } else {
        dues(ds.drop_last(), block) + drip_due(ds.last(), block)
    }
}

/// The drips of one UTXO that still run after `block`, advanced.
pub open spec fn kept(ds: Seq<Drip>, block: u64) -> Seq<Drip>
    decreases ds.len(),
{
    if ds.len() == 0 {
        Seq::empty()
    } else if drip_runs(ds.last(), block) {
        kept(ds.drop_last(), block).push(drip_advance(ds.last(), block))
    } else {
        kept(ds.drop_last(), block)
    }
}

/// The owners once each listed UTXO is paid what its drips owe at `block`.
pub open spec fn paid(o: Map<Seq<char>, u64>, m: Map<Seq<char>, Seq<Drip>>, ks: Seq<Seq<char>>, block: u64) -> Map<Seq<char>, u64>
    decreases ks.len(),
{
    if ks.len() == 0 {
        o
    } else {
        credit(paid(o, m, ks.drop_last(), block), ks.last(), dues(m[ks.last()], block))
    }
}

/// What the drips of the listed UTXOs owe at `block`, added up.
pub open spec fn dues_of(m: Map<Seq<char>, Seq<Drip>>, ks: Seq<Seq<char>>, block: u64) -> int
    decreases ks.len(),
{
    if ks.len() == 0 {
        0
    } else {
        dues_of(m, ks.drop_last(), block) + dues(m[ks.last()], block)
    }
}

/// The drips once every UTXO's drips have paid up to `block`; ended drips are gone.
pub open spec fn drips_after(m: Map<Seq<char>, Seq<Drip>>, block: u64) -> Map<Seq<char>, Seq<Drip>> {
    Map::new(|k: Seq<char>| m.contains_key(k) && kept(m[k], block).len() > 0, |k: Seq<char>| kept(m[k], block))
}

/// The drip that a grant of `amount` over `duration` blocks starts at `block`.
pub open spec fn new_drip(amount: u64, duration: u64, block: u64) -> Drip {
    Drip {
        block_end: (block + duration - 1) as u64,
        drip_amount: amount / duration,
        amount,
        start_block: block,
        last_block_dripped: block,
    }
}

proof fn lemma_dues_nonneg(ds: Seq<Drip>, block: u64)
    ensures
        dues(ds, block) >= 0,
    decreases ds.len(),
{
    if ds.len() > 0 {
        lemma_dues_nonneg(ds.drop_last(), block);
        let d = ds.last();
        let cur = drip_stop(d, block);
        if cur > d.last_block_dripped {
            assert((cur - d.last_block_dripped) * d.drip_amount >= 0) by (nonlinear_arith)
                requires cur > d.last_block_dripped;
        }
    }
}

/// What one drip owes at `block`, when that fits in a `u64`.
fn due_of(d: &Drip, block: u64) -> (r: Option<u64>)
    ensures
        match r {
            Some(v) => v == drip_due(*d, block),
            None => drip_due(*d, block) > u64::MAX,
        },
{
    let cur: u64 = if block > d.block_end { d.block_end } else { block };
    let steady: u128 = if cur > d.last_block_dripped {
        proof {
            assert((cur - d.last_block_dripped) * d.drip_amount <= u64::MAX as int * u64::MAX as int) by (nonlinear_arith)
                requires cur - d.last_block_dripped <= u64::MAX, d.drip_amount <= u64::MAX, cur > d.last_block_dripped;
        }
        ((cur - d.last_block_dripped) as u128) * (d.drip_amount as u128)
    } else {
        0
    };
    let full: u128 = if d.block_end >= d.start_block {
        proof {
            assert((d.block_end - d.start_block + 1) * d.drip_amount <= (u64::MAX as int + 1) * u64::MAX as int) by (nonlinear_arith)
                requires d.block_end - d.start_block + 1 <= u64::MAX as int + 1, d.drip_amount <= u64::MAX, d.block_end >= d.start_block;
        }
        ((d.block_end - d.start_block) as u128 + 1) * (d.drip_amount as u128)
    } else {
        0
    };
    let rest: u128 = if cur == d.block_end && full < d.amount as u128 {
        d.amount as u128 - full
    } else {
        0
    };
    if steady > u64::MAX as u128 || rest > u64::MAX as u128 - steady {
        return None;
    }
    Some((steady + rest) as u64)
}

impl SCL01Contract {
    /// Pays every drip what it owes at `current_block_height`, crediting the
    /// drip's UTXO and adding the amount to the supply; drips that have ended
    /// are removed. Returns each UTXO with drips, its balance, and whether it
    /// still has drips, where the balance is positive.
    pub fn drip(&mut self, current_block_height: u64) -> (r: Result<Vec<(String, u64, bool)>, String>)
        requires
            old(self).wf(),
        ensures
            final(self).wf(),
            ({
                let c = *old(self);
                let due = dues_of(drip_view(c.drips), c.drips.key_seq(), current_block_height);
                r.is_ok() == (owners_total(c.owners) + due <= u64::MAX)
            }),
            r.is_err() ==> *final(self) == *old(self),
            r.is_ok() ==> ({
                let c = *old(self);
                let due = dues_of(drip_view(c.drips), c.drips.key_seq(), current_block_height);
                &&& final(self).owners@ == paid(c.owners@, drip_view(c.drips), c.drips.key_seq(), current_block_height)
                &&& drip_view(final(self).drips) == drips_after(drip_view(c.drips), current_block_height)
                &&& final(self).supply == c.supply
                &&& owners_total(final(self).owners) == owners_total(c.owners) + due
                &&& final(self).payloads == c.payloads
                &&& ident_same(*final(self), c)
                &&& market_same(*final(self), c)
                &&& drops_same(*final(self), c)
                &&& pool_same(*final(self), c)
            }),
            r matches Ok(v) ==> forall|i: int| 0 <= i < v@.len() ==> {
                let e = #[trigger] v@[i];
                e.1 as int == owned(final(self).owners@, e.0@) && e.2 == final(self).drips@.contains_key(e.0@)
            },
    {
        let block = current_block_height;
        let keys = self.drips.keys();
        let ghost c = *self;
        let ghost m = drip_view(self.drips);
        let ghost ks = self.drips.key_seq();
        let total = self.owners.amount_sum();
        let limit: u64 = u64::MAX - total;
        // first pass: what is owed in all
        let mut owed: u64 = 0;
        let mut i: usize = 0;
        while i < keys.len()
            invariant
                block == current_block_height,
                i <= keys@.len(),
                keys@.len() == ks.len(),
                forall|j: int| 0 <= j < keys@.len() ==> #[trigger] keys@[j]@ == ks[j],
                self.drips.wf(),
                *self == c,
                c.wf(),
                ks == c.drips.key_seq(),
                self.drips == c.drips,
                m == drip_view(c.drips),
                forall|k: Seq<char>| #![trigger m.contains_key(k)] m.contains_key(k) <==> ks.contains(k),
                owed <= limit,
                limit == u64::MAX - owners_total(c.owners),
                owed == dues_of(m, ks.subrange(0, i as int), block),
            decreases keys@.len() - i,
        {
            proof {
                assert(ks.subrange(0, i + 1).drop_last() =~= ks.subrange(0, i as int));
            }
            let ds = match self.drips.get(&keys[i]) {
                Some(v) => v,
                None => {
                    proof {
                        assert(ks[i as int] == keys@[i as int]@);
                        assert(ks.contains(keys@[i as int]@));
                        assert(m.contains_key(keys@[i as int]@));
                        assert(c.drips@.contains_key(keys@[i as int]@));
                    }
                    return Err(String::from_str("drip: missing drip"));
                },
            };
            proof {
                assert(ds@ == m[ks[i as int]]);
            }
            let mut j: usize = 0;
            let mut here: u64 = 0;
            while j < ds.len()
                invariant
                    block == current_block_height,
                block == current_block_height,
                    j <= ds@.len(),
                    i < keys@.len(),
                    keys@.len() == ks.len(),
                    *self == c,
                    c.wf(),
                    ks == c.drips.key_seq(),
                    m == drip_view(c.drips),
                    ds@ == m[ks[i as int]],
                    owed == dues_of(m, ks.subrange(0, i as int), block),
                    limit == u64::MAX - owners_total(c.owners),
                    owed + here <= limit,
                    here == dues(ds@.subrange(0, j as int), block),
                decreases ds@.len() - j,
            {
                proof {
                    assert(ds@.subrange(0, j + 1).drop_last() =~= ds@.subrange(0, j as int));
                }
                match due_of(&ds[j], block) {
                    Some(v) => {
                        if v > limit - owed - here {
                            proof {
                                lemma_dues_prefix(ds@, j + 1, block);
                                lemma_dues_of_prefix(m, ks, i + 1, block);
                                lemma_dues_of_prefix(m, ks, i as int, block);
                                assert(ks.subrange(0, i + 1).drop_last() =~= ks.subrange(0, i as int));
                                c.owners.lemma_total_bounds(|v: u64| v as int);
                                let due_all = dues_of(m, ks, block);
                                assert(dues(ds@.subrange(0, j + 1), block) == here + v);
                                assert(dues_of(m, ks.subrange(0, i + 1), block) == owed + dues(m[ks[i as int]], block));
                                assert(due_all > limit);
                            }
                            return Err(String::from_str("drip: balance overflow"));
                        }
                        here = here + v;
                    },
                    None => {
                        proof {
                            lemma_dues_prefix(ds@, j + 1, block);
                            lemma_dues_nonneg(ds@.subrange(0, j as int), block);
                            lemma_dues_of_prefix(m, ks, i + 1, block);
                            lemma_dues_of_prefix(m, ks, i as int, block);
                            assert(ks.subrange(0, i + 1).drop_last() =~= ks.subrange(0, i as int));
                            c.owners.lemma_total_bounds(|v: u64| v as int);
                            let due_all = dues_of(m, ks, block);
                            assert(dues(ds@.subrange(0, j + 1), block) == dues(ds@.subrange(0, j as int), block) + drip_due(ds@[j as int], block));
                            assert(dues_of(m, ks.subrange(0, i + 1), block) == owed + dues(m[ks[i as int]], block));
                            assert(due_all > limit);
                        }
                        return Err(String::from_str("drip: balance overflow"));
                    },
                }
                j = j + 1;
            }
            proof {
                assert(ds@.subrange(0, ds@.len() as int) =~= ds@);
                assert(ds@ == m[ks[i as int]]);
            }
            owed = owed + here;
            i = i + 1;
        }
        proof {
            assert(ks.subrange(0, ks.len() as int) =~= ks);
            assert forall|a: int, b: int| 0 <= a < ks.len() && 0 <= b < ks.len() && a != b implies ks[a] != ks[b] by {
                assert(keys@[a]@ == ks[a]);
                assert(keys@[b]@ == ks[b]);
            }
            assert(drip_view(self.drips) =~= Map::new(
                |k: Seq<char>| m.contains_key(k) && (!seen(keys@, 0, k) || kept(m[k], block).len() > 0),
                |k: Seq<char>| if seen(keys@, 0, k) { kept(m[k], block) } else { m[k] }));
            assert(ks.subrange(0, 0) =~= Seq::<Seq<char>>::empty());
        }
        // second pass: pay
        let mut out: Vec<(String, u64, bool)> = Vec::new();
        let mut i: usize = 0;
        while i < keys.len()
            invariant
                block == current_block_height,
                i <= keys@.len(),
                keys@.len() == ks.len(),
                forall|a: int, b: int| 0 <= a < ks.len() && 0 <= b < ks.len() && a != b ==> ks[a] != ks[b],
                forall|j: int| 0 <= j < keys@.len() ==> #[trigger] keys@[j]@ == ks[j],
                forall|k: Seq<char>| #![trigger m.contains_key(k)] m.contains_key(k) <==> ks.contains(k),
                self.wf(),
                c.wf(),
                self.owners@ == paid(c.owners@, m, ks.subrange(0, i as int), block),
                owners_total(self.owners) == owners_total(c.owners) + dues_of(m, ks.subrange(0, i as int), block),
                self.supply == c.supply,
                owners_total(c.owners) + dues_of(m, ks, block) <= u64::MAX,
                drip_view(self.drips) == Map::new(
                    |k: Seq<char>| m.contains_key(k) && (!seen(keys@, i as int, k) || kept(m[k], block).len() > 0),
                    |k: Seq<char>| if seen(keys@, i as int, k) { kept(m[k], block) } else { m[k] }),
                forall|x: int| 0 <= x < out@.len() ==> {
                    let e = #[trigger] out@[x];
                    seen(keys@, i as int, e.0@)
                },
                forall|x: int| 0 <= x < out@.len() ==> {
                    let e = #[trigger] out@[x];
                    e.1 as int == owned(self.owners@, e.0@) && e.2 == self.drips@.contains_key(e.0@)
                },
                self.payloads == c.payloads,
                ident_same(*self, c),
                market_same(*self, c),
                drops_same(*self, c),
                pool_same(*self, c),
            decreases keys@.len() - i,
        {
            let ghost before = drip_view(self.drips);
            let ghost k = ks[i as int];
            let ghost pre_owners = self.owners@;
            proof {
                assert(ks.contains(k));
                assert(!seen(keys@, i as int, k)) by {
                    if seen(keys@, i as int, k) {
                        let j = choose|j: int| 0 <= j < i && (#[trigger] keys@[j])@ == k;
                        assert(ks[j] == ks[i as int]);
                    }
                }
                assert(before.contains_key(k));
                assert(ks.subrange(0, i + 1).drop_last() =~= ks.subrange(0, i as int));
                lemma_dues_of_prefix(m, ks, i + 1, block);
                lemma_dues_of_prefix(m, ks, i as int, block);
                c.owners.lemma_total_bounds(|v: u64| v as int);
            }
            let ghost dstruct = self.drips;
            proof {
                assert(before[k] == m[k]);
                assert(dstruct@.contains_key(k));
                assert(before[k] == dstruct@[k]@);
            }
            let removed = self.drips.remove(&keys[i]);
            let ds: Vec<Drip> = match removed {
                Some(v) => v,
                None => {
                    proof {
                        assert(false);
                    }
                    Vec::new()
                },
            };
            proof {
                assert(ds@ == m[k]);
                assert(drip_view(self.drips) =~= before.remove(k));
            }
            let mut keep: Vec<Drip> = Vec::new();
            let mut here: u64 = 0;
            let mut j: usize = 0;
            while j < ds.len()
                invariant
                    block == current_block_height,
                block == current_block_height,
                    j <= ds@.len(),
                    ds@ == m[k],
                    dues(m[k], block) <= u64::MAX,
                    here == dues(ds@.subrange(0, j as int), block),
                    keep@ == kept(ds@.subrange(0, j as int), block),
                decreases ds@.len() - j,
            {
                proof {
                    assert(ds@.subrange(0, j + 1).drop_last() =~= ds@.subrange(0, j as int));
                    lemma_dues_prefix(ds@, j + 1, block);
                    lemma_dues_nonneg(ds@.subrange(0, j as int), block);
                }
                let d = ds[j];
                match due_of(&d, block) {
                    Some(v) => {
                        here = here + v;
                    },
                    None => {
                        proof {
                            assert(false);
                        }
                    },
                }
                let cur: u64 = if block > d.block_end { d.block_end } else { block };
                if cur < d.block_end {
                    let last: u64 = if cur > d.last_block_dripped { cur } else { d.last_block_dripped };
                    keep.push(Drip { last_block_dripped: last, ..d });
                }
                j = j + 1;
            }
            proof {
                assert(ds@.subrange(0, ds@.len() as int) =~= ds@);
            }
            credit_in(&mut self.owners, &keys[i], here);
            let has = keep.len() > 0;
            let ghost d_mid = drip_view(self.drips);
            let ghost kv = keep@;
            if has {
                self.drips.insert(keys[i].clone(), keep);
                proof {
                    assert(drip_view(self.drips) =~= d_mid.insert(k, kv));
                }
            }
            proof {
                let n1 = Map::new(
                    |q: Seq<char>| m.contains_key(q) && (!seen(keys@, i + 1, q) || kept(m[q], block).len() > 0),
                    |q: Seq<char>| if seen(keys@, i + 1, q) { kept(m[q], block) } else { m[q] });
                assert forall|q: Seq<char>| #[trigger] seen(keys@, i + 1, q) <==> (seen(keys@, i as int, q) || q == k) by {
                    if q == k {
                        assert(keys@[i as int]@ == q);
                    }
                    if seen(keys@, i + 1, q) {
                        let j = choose|j: int| 0 <= j < i + 1 && (#[trigger] keys@[j])@ == q;
                        if j < i {
                            assert(seen(keys@, i as int, q));
                        }
                    }
                }
                assert(drip_view(self.drips) =~= n1);
            }
            let bal: u64 = match self.owners.get(&keys[i]) {
                Some(v) => *v,
                None => 0,
            };
            if bal > 0 {
                out.push((keys[i].clone(), bal, has));
            }
            proof {
                assert forall|x: int| 0 <= x < out@.len() implies {
                    let e = #[trigger] out@[x];
                    seen(keys@, i + 1, e.0@)
                } by {
                    let e = out@[x];
                    if x < out@.len() - 1 || bal == 0 {
                        assert(seen(keys@, i as int, e.0@));
                        let j = choose|j: int| 0 <= j < i && (#[trigger] keys@[j])@ == e.0@;
                        assert(0 <= j < i + 1 && keys@[j]@ == e.0@);
                    } else {
                        assert(keys@[i as int]@ == e.0@);
                    }
                }
                assert forall|x: int| 0 <= x < out@.len() implies {
                    let e = #[trigger] out@[x];
                    e.1 as int == owned(self.owners@, e.0@) && e.2 == self.drips@.contains_key(e.0@)
                } by {
                    let e = out@[x];
                    if x < out@.len() - 1 || bal == 0 {
                        assert(seen(keys@, i as int, e.0@));
                        assert(e.0@ != k);
                    }
                }
            }
            i = i + 1;
        }
        proof {
            assert(ks.subrange(0, ks.len() as int) =~= ks);
            assert(drip_view(self.drips) =~= drips_after(m, block)) by {
                assert forall|q: Seq<char>| m.contains_key(q) implies #[trigger] seen(keys@, keys@.len() as int, q) by {
                    let j = choose|j: int| 0 <= j < ks.len() && ks[j] == q;
                    assert(keys@[j]@ == q);
                }
            }
        }
        Ok(out)
    }
}

proof fn lemma_dues_prefix(ds: Seq<Drip>, n: int, block: u64)
    requires
        0 <= n <= ds.len(),
    ensures
        dues(ds.subrange(0, n), block) <= dues(ds, block),
    decreases ds.len() - n,
{
    if n < ds.len() {
        lemma_dues_prefix(ds, n + 1, block);
        assert(ds.subrange(0, n + 1).drop_last() =~= ds.subrange(0, n));
        lemma_dues_nonneg(seq![ds[n]], block);
        assert(seq![ds[n]].drop_last() =~= Seq::<Drip>::empty());
    } else {
        assert(ds.subrange(0, n) =~= ds);
    }
}

proof fn lemma_dues_of_prefix(m: Map<Seq<char>, Seq<Drip>>, ks: Seq<Seq<char>>, n: int, block: u64)
    requires
        0 <= n <= ks.len(),
    ensures
        dues_of(m, ks.subrange(0, n), block) <= dues_of(m, ks, block),
        dues_of(m, ks.subrange(0, n), block) >= 0,
    decreases ks.len() - n,
{
    if n < ks.len() {
        lemma_dues_of_prefix(m, ks, n + 1, block);
        assert(ks.subrange(0, n + 1).drop_last() =~= ks.subrange(0, n));
        lemma_dues_nonneg(m[ks[n]], block);
        lemma_dues_of_nonneg(m, ks.subrange(0, n), block);
    } else {
        assert(ks.subrange(0, n) =~= ks);
        lemma_dues_of_nonneg(m, ks, block);
    }
}

proof fn lemma_dues_of_nonneg(m: Map<Seq<char>, Seq<Drip>>, ks: Seq<Seq<char>>, block: u64)
    ensures
        dues_of(m, ks, block) >= 0,
    decreases ks.len(),
{
    if ks.len() > 0 {
        lemma_dues_of_nonneg(m, ks.drop_last(), block);
        lemma_dues_nonneg(m[ks.last()], block);
    }
}

pub open spec fn grant_list(v: Seq<(String, (u64, u64))>) -> Seq<(Seq<char>, (u64, u64))> {
    v.map_values(|e: (String, (u64, u64))| (e.0@, e.1))
}

/// Every grant lasts at least one block, and its last block fits in a `u64`.
pub open spec fn grants_valid(gs: Seq<(Seq<char>, (u64, u64))>, block: u64) -> bool {
    forall|i: int| 0 <= i < gs.len() ==> (#[trigger] gs[i]).1.1 > 0 && block + gs[i].1.1 - 1 <= u64::MAX
}

/// The granted amounts, added up.
pub open spec fn grants_total(gs: Seq<(Seq<char>, (u64, u64))>) -> int
    decreases gs.len(),
{
    if gs.len() == 0 {
        0
    } else {
        grants_total(gs.drop_last()) + gs.last().1.0
    }
}

/// What each grant pays on its first block.
pub open spec fn first_outputs(gs: Seq<(Seq<char>, (u64, u64))>) -> Seq<(Seq<char>, u64)> {
    gs.map_values(|g: (Seq<char>, (u64, u64))| (g.0, if g.1.1 > 0 { g.1.0 / g.1.1 } else { 0u64 }))
}

/// The drips once each grant has started one at `block`, after what its UTXO had.
pub open spec fn started(m: Map<Seq<char>, Seq<Drip>>, gs: Seq<(Seq<char>, (u64, u64))>, block: u64) -> Map<Seq<char>, Seq<Drip>>
    decreases gs.len(),
{
    if gs.len() == 0 {
        m
    } else {
        with_drip(started(m, gs.drop_last(), block), gs.last().0, new_drip(gs.last().1.0, gs.last().1.1, block))
    }
}

/// The drips with `d` appended to those of `k`.
pub open spec fn with_drip(m: Map<Seq<char>, Seq<Drip>>, k: Seq<char>, d: Drip) -> Map<Seq<char>, Seq<Drip>> {
    m.insert(k, (if m.contains_key(k) { m[k] } else { Seq::empty() }).push(d))
}

/// Appends a drip to those of `k`.
fn add_drip(m: &mut StrMap<Vec<Drip>>, k: &String, d: Drip)
    requires
        old(m).wf(),
    ensures
        final(m).wf(),
        drip_view(*final(m)) == with_drip(drip_view(*old(m)), k@, d),
{
    let ghost before = drip_view(*m);
    let mut v: Vec<Drip> = match m.remove(k) {
        Some(v) => v,
        None => Vec::new(),
    };
    let ghost v0 = v@;
    proof {
        assert(v0 == (if before.contains_key(k@) { before[k@] } else { Seq::<Drip>::empty() }));
    }
    v.push(d);
    m.insert(k.clone(), v);
    proof {
        assert(drip_view(*m) =~= with_drip(before, k@, d));
    }
}

/// A drip start is carried out: the txid is new, the senders hold tokens, every
/// grant is valid, the grants add up to at most what the senders hold, and the
/// supply covers what is set aside.
pub open spec fn start_drip_ok(c: SCL01Contract, txid: Seq<char>, senders: Seq<String>, gs: Seq<(Seq<char>, (u64, u64))>, block: u64) -> bool {
    let s = sum_owned(c.owners@, strs(senders));
    &&& !c.payloads@.contains_key(txid)
    &&& s > 0
    &&& grants_valid(gs, block)
    &&& grants_total(gs) <= s
}

proof fn lemma_grants_prefix(gs: Seq<(Seq<char>, (u64, u64))>, n: int)
    requires
        0 <= n <= gs.len(),
    ensures
        0 <= grants_total(gs.subrange(0, n)) <= grants_total(gs),
    decreases gs.len() - n,
{
    if n < gs.len() {
        lemma_grants_prefix(gs, n + 1);
        assert(gs.subrange(0, n + 1).drop_last() =~= gs.subrange(0, n));
        lemma_grants_nonneg(gs.subrange(0, n));
    } else {
        assert(gs.subrange(0, n) =~= gs);
        lemma_grants_nonneg(gs);
    }
}

proof fn lemma_grants_nonneg(gs: Seq<(Seq<char>, (u64, u64))>)
    ensures
        grants_total(gs) >= 0,
    decreases gs.len(),
{
    if gs.len() > 0 {
        lemma_grants_nonneg(gs.drop_last());
    }
}

proof fn lemma_first_le_total(gs: Seq<(Seq<char>, (u64, u64))>)
    ensures
        sum_outputs(first_outputs(gs)) <= grants_total(gs),
    decreases gs.len(),
{
    if gs.len() > 0 {
        lemma_first_le_total(gs.drop_last());
        assert(first_outputs(gs).drop_last() =~= first_outputs(gs.drop_last()));
        let g = gs.last();
        if g.1.1 > 0 {
            assert(g.1.0 / g.1.1 <= g.1.0) by (nonlinear_arith)
                requires g.1.1 > 0;
        }
    }
}

/// The grants add up to at most `s`, each is valid; returns what they add up to
/// and what they pay on their first block.
fn check_grants(receivers: &Vec<(String, (u64, u64))>, s: u64, block: u64) -> (r: Option<(u64, u64)>)
    ensures
        match r {
            Some((t, f)) => grants_valid(grant_list(receivers@), block) && t == grants_total(grant_list(receivers@))
                && t <= s && f == sum_outputs(first_outputs(grant_list(receivers@))) && f <= t,
            None => !grants_valid(grant_list(receivers@), block) || grants_total(grant_list(receivers@)) > s,
        },
{
    let ghost gs = grant_list(receivers@);
    let mut t: u64 = 0;
    let mut f: u64 = 0;
    let mut i: usize = 0;
    while i < receivers.len()
        invariant
            i <= receivers@.len(),
            gs == grant_list(receivers@),
            t <= s,
            t == grants_total(gs.subrange(0, i as int)),
            f == sum_outputs(first_outputs(gs.subrange(0, i as int))),
            f <= t,
            grants_valid(gs.subrange(0, i as int), block),
        decreases receivers@.len() - i,
    {
        let a = receivers[i].1.0;
        let d = receivers[i].1.1;
        proof {
            assert(gs.subrange(0, i + 1).drop_last() =~= gs.subrange(0, i as int));
            assert(first_outputs(gs.subrange(0, i + 1)).drop_last() =~= first_outputs(gs.subrange(0, i as int)));
            assert(gs[i as int] == (receivers@[i as int].0@, receivers@[i as int].1));
        }
        if d == 0 || block > u64::MAX - (d - 1) {
            proof {
                assert(!grants_valid(gs, block)) by {
                    assert(gs[i as int].1.1 == d);
                }
            }
            return None;
        }
        if a > s - t {
            proof {
                lemma_grants_prefix(gs, i + 1);
            }
            return None;
        }
        proof {
            assert(a / d <= a) by (nonlinear_arith)
                requires d > 0;
        }
        t = t + a;
        f = f + a / d;
        proof {
            assert forall|j: int| 0 <= j < i + 1 implies (#[trigger] gs.subrange(0, i + 1)[j]).1.1 > 0
                && block + gs.subrange(0, i + 1)[j].1.1 - 1 <= u64::MAX by {
                if j < i {
                    assert(gs.subrange(0, i + 1)[j] == gs.subrange(0, i as int)[j]);
                }
            }
        }
        i = i + 1;
    }
    assert(gs.subrange(0, receivers@.len() as int) =~= gs);
    Some((t, f))
}

impl SCL01Contract {
    /// Sets aside the grants of `receivers` (UTXO, (amount, duration)) as drips
    /// starting at `current_block_height`, each paying its first block at once;
    /// what the senders held beyond the grants goes to `change_utxo`. The supply
    /// drops by what is set aside. Returns each receiver with its balance after
    /// its first payment, and the change UTXO with its balance.
    pub fn start_drip(&mut self, txid: &String, payload: &String, sender_utxos: &Vec<String>, receivers: &Vec<(String, (u64, u64))>, change_utxo: &String, current_block_height: u64) -> (r: Result<(Vec<(String, u64)>, (String, u64)), String>)
        requires
            old(self).wf(),
        ensures
            final(self).wf(),
            r.is_ok() == start_drip_ok(*old(self), txid@, sender_utxos@, grant_list(receivers@), current_block_height),
            r.is_err() ==> *final(self) == *old(self),
            r.is_ok() ==> ({
                let c = *old(self);
                let gs = grant_list(receivers@);
                let s = sum_owned(c.owners@, strs(sender_utxos@));
                let first = sum_outputs(first_outputs(gs));
                &&& final(self).owners@ == credit_all(credit(without(c.owners@, strs(sender_utxos@)), change_utxo@, s - grants_total(gs)), first_outputs(gs))
                &&& drip_view(final(self).drips) == started(drip_view(c.drips), gs, current_block_height)
                &&& final(self).supply == c.supply
                &&& owners_total(final(self).owners) == owners_total(c.owners) - (grants_total(gs) - first)
                &&& payload_view(final(self).payloads) == payload_view(c.payloads).insert(txid@, payload@)
                &&& ident_same(*final(self), c)
                &&& market_same(*final(self), c)
                &&& drops_same(*final(self), c)
                &&& pool_same(*final(self), c)
            }),
            r matches Ok(v) ==> v.0@.len() == receivers@.len()
                && (forall|i: int| 0 <= i < receivers@.len() ==> (#[trigger] v.0@[i]).0@ == receivers@[i].0@
                    && v.0@[i].1 as int == owned(final(self).owners@, receivers@[i].0@))
                && v.1.0@ == change_utxo@ && v.1.1 as int == owned(final(self).owners@, change_utxo@),
    {
        if self.payloads.contains_key(txid) {
            return Err(String::from_str("start_drip: payload already applied"));
        }
        let s = self.owned_sum(sender_utxos);
        if s == 0 {
            return Err(String::from_str("start_drip: owner amount is zero"));
        }
        let (total, first) = match check_grants(receivers, s, current_block_height) {
            Some(v) => v,
            None => return Err(String::from_str("start_drip: invalid or excessive grants")),
        };
        let ghost c = *self;
        let ghost gs = grant_list(receivers@);
        remove_all(&mut self.owners, sender_utxos);
        credit_in(&mut self.owners, change_utxo, s - total);
        let mut firsts: Vec<(String, u64)> = Vec::new();
        let ghost om = self.owners;
        let mut i: usize = 0;
        while i < receivers.len()
            invariant
                i <= receivers@.len(),
                self.owners == om,
                self.payloads == c.payloads,
                self.supply == c.supply,
                ident_same(*self, c),
                market_same(*self, c),
                drops_same(*self, c),
                pool_same(*self, c),
                gs == grant_list(receivers@),
                grants_valid(gs, current_block_height),
                self.drips.wf(),
                firsts@.len() == i,
                forall|j: int| 0 <= j < i ==> (#[trigger] firsts@[j]).0@ == receivers@[j].0@
                    && firsts@[j].1 == receivers@[j].1.0 / receivers@[j].1.1,
                drip_view(self.drips) == started(drip_view(c.drips), gs.subrange(0, i as int), current_block_height),
            decreases receivers@.len() - i,
        {
            let a = receivers[i].1.0;
            let d = receivers[i].1.1;
            proof {
                assert(gs[i as int] == (receivers@[i as int].0@, receivers@[i as int].1));
                assert(gs.subrange(0, i + 1).drop_last() =~= gs.subrange(0, i as int));
                assert(gs[i as int].1.1 > 0 && current_block_height + gs[i as int].1.1 - 1 <= u64::MAX);
            }
            let nd = Drip {
                block_end: current_block_height + (d - 1),
                drip_amount: a / d,
                amount: a,
                start_block: current_block_height,
                last_block_dripped: current_block_height,
            };
            proof {
                assert(nd == new_drip(a, d, current_block_height));
            }
            add_drip(&mut self.drips, &receivers[i].0, nd);
            firsts.push((receivers[i].0.clone(), a / d));
            i = i + 1;
        }
        proof {
            assert(gs.subrange(0, receivers@.len() as int) =~= gs);
            assert(outputs(firsts@) =~= first_outputs(gs));
            lemma_first_le_total(gs);
        }
        credit_outputs(&mut self.owners, &firsts);
        let change_bal: u64 = match self.owners.get(change_utxo) {
            Some(v) => *v,
            None => 0,
        };
        record_payload(&mut self.payloads, txid, payload);
        let mut drippers: Vec<(String, u64)> = Vec::new();
        let mut j: usize = 0;
        while j < firsts.len()
            invariant
                j <= firsts@.len(),
                firsts@.len() == receivers@.len(),
                forall|x: int| 0 <= x < firsts@.len() ==> (#[trigger] firsts@[x]).0@ == receivers@[x].0@,
                drippers@.len() == j,
                self.owners.wf(),
                forall|x: int| 0 <= x < j ==> (#[trigger] drippers@[x]).0@ == receivers@[x].0@
                    && drippers@[x].1 as int == owned(self.owners@, receivers@[x].0@),
            decreases firsts@.len() - j,
        {
            let bal: u64 = match self.owners.get(&firsts[j].0) {
                Some(v) => *v,
                None => 0,
            };
            drippers.push((firsts[j].0.clone(), bal));
            j = j + 1;
        }
        Ok((drippers, (change_utxo.clone(), change_bal)))
    }
}

/// A grant of `amount` over `duration` blocks started at `block` pays exactly
/// `amount` by its last block: its first block's payment plus what a payout at
/// the last block brings, and it has then ended.
pub proof fn lemma_drip_pays_in_full(amount: u64, duration: u64, block: u64)
    requires
        duration > 0,
        block + duration - 1 <= u64::MAX,
    ensures
        ({
            let d = new_drip(amount, duration, block);
            let end = (block + duration - 1) as u64;
            d.drip_amount + drip_due(d, end) == amount && !drip_runs(d, end)
        }),
{
    let d = new_drip(amount, duration, block);
    let r = amount / duration;
    assert(r * duration <= amount) by (nonlinear_arith)
        requires r == amount / duration, duration > 0;
    assert((duration - 1) * r + r == duration * r) by (nonlinear_arith);
    assert(drip_full(d) == duration * r);
}

/// Paying a drip at `b0` and then at a later `b1` pays what one payout at `b1` would.
pub proof fn lemma_drip_in_steps(d: Drip, b0: u64, b1: u64)
    requires
        d.start_block <= d.last_block_dripped <= d.block_end,
        b0 <= b1,
        drip_runs(d, b0),
    ensures
        drip_due(d, b0) + drip_due(drip_advance(d, b0), b1) == drip_due(d, b1),
{
    let c0 = drip_stop(d, b0);
    let c1 = drip_stop(d, b1);
    let l = d.last_block_dripped;
    let r = d.drip_amount;
    let d1 = drip_advance(d, b0);
    assert(drip_full(d1) == drip_full(d));
    if c0 > l {
        assert((c0 - l) * r + (c1 - c0) * r == (c1 - l) * r) by (nonlinear_arith);
    }
}

pub open spec fn pow10(n: nat) -> nat
    decreases n,
{
    if n == 0 {
        1
    } else {
        10 * pow10((n - 1) as nat)
    }
}

/// `10^n`, for `n` up to 19.
pub fn pow10_of(n: u32) -> (r: u64)
    requires
        n <= 19,
    ensures
        r == pow10(n as nat),
        r >= 1,
{
    proof {
        lemma_pow10_mono(n as nat, n as nat);
    }
    pow10_u64(n)
}

/// The product of two `u64`s.
pub fn mul_wide_pub(a: u64, b: u64) -> (r: u128)
    ensures
        r == a * b,
{
    mul_wide(a, b)
}

fn pow10_u64(n: u32) -> (r: u64)
    requires
        n <= 19,
    ensures
        r == pow10(n as nat),
{
    proof {
        reveal_with_fuel(pow10, 20);
        assert(pow10(19) == 10000000000000000000nat);
    }
    let mut r: u64 = 1;
    let mut i: u32 = 0;
    while i < n
        invariant
            i <= n <= 19,
            r == pow10(i as nat),
            pow10(19) == 10000000000000000000nat,
        decreases n - i,
    {
        proof {
            lemma_pow10_mono((i + 1) as nat, 19);
        }
        r = r * 10;
        i = i + 1;
    }
    r
}

proof fn lemma_pow10_mono(a: nat, b: nat)
    requires
        a <= b,
    ensures
        1 <= pow10(a) <= pow10(b),
    decreases b,
{
    if a < b {
        lemma_pow10_mono(a, (b - 1) as nat);
    } else if a > 0 {
        lemma_pow10_mono((a - 1) as nat, (a - 1) as nat);
    }
}

/// The bid is worth at least the listing, both amounts counted in whole tokens.
pub open spec fn bid_covers(b: Bid, l: Listing, dec: nat) -> bool {
    (b.bid_amount as nat / pow10(dec)) * b.bid_price >= (l.list_amt as nat / pow10(dec)) * l.price
}

/// The listings and bids once the bids are taken in order: a bid on an unknown
/// order, or for more than is listed, is dropped; a bid that covers its listing
/// marks it with `block`; each bid kept is filed under its id.
pub open spec fn bid_fold(ls: Map<Seq<char>, Listing>, bs: Map<Seq<char>, Bid>, bids: Seq<Bid>, ids: Seq<Seq<char>>, block: i32, dec: nat) -> (Map<Seq<char>, Listing>, Map<Seq<char>, Bid>)
    decreases bids.len(),
{
    if bids.len() == 0 {
        (ls, bs)
    } else {
        let (l1, b1) = bid_fold(ls, bs, bids.drop_last(), ids, block, dec);
        let b = bids.last();
        let o = b.order_id@;
        let id = ids[bids.len() - 1];
        if !l1.contains_key(o) || b.bid_amount > l1[o].list_amt {
            (l1, b1)
        } else if bid_covers(b, l1[o], dec) {
            (l1.insert(o, Listing { valid_bid_block: Some(block), ..l1[o] }), b1.insert(id, b))
        } else {
            (l1, b1.insert(id, b))
        }
    }
}

impl SCL01Contract {
    /// Files the bids, the `i`-th under `bidding_ids[i]`, as `bid_fold` says.
    pub fn bid(&mut self, txid: &String, payload: &String, bids: Vec<Bid>, bidding_ids: &Vec<String>, current_block_height: i32) -> (r: Result<i32, String>)
        requires
            old(self).wf(),
        ensures
            final(self).wf(),
            r.is_ok() == (!old(self).payloads@.contains_key(txid@) && old(self).listings@.len() > 0
                && bidding_ids@.len() >= bids@.len() && 0 <= old(self).decimals <= 19),
            r.is_err() ==> *final(self) == *old(self),
            r.is_ok() ==> ({
                let c = *old(self);
                let res = bid_fold(c.listings@, c.bids@, bids@, strs(bidding_ids@), current_block_height, c.decimals as nat);
                &&& r == Ok::<i32, String>(0)
                &&& final(self).listings@ == res.0
                &&& final(self).bids@ == res.1
                &&& payload_view(final(self).payloads) == payload_view(c.payloads).insert(txid@, payload@)
                &&& final(self).owners == c.owners
                &&& final(self).fulfillments == c.fulfillments
                &&& final(self).drips == c.drips
                &&& final(self).supply == c.supply
                &&& ident_same(*final(self), c)
                &&& drops_same(*final(self), c)
                &&& pool_same(*final(self), c)
            }),
    {
        if self.payloads.contains_key(txid) {
            return Err(String::from_str("bid: payload already applied"));
        }
        if self.listings.len() == 0 {
            return Err(String::from_str("bid: no listings for contract"));
        }
        if bidding_ids.len() < bids.len() {
            return Err(String::from_str("bid: a bid has no id"));
        }
        if self.decimals < 0 || self.decimals > 19 {
            return Err(String::from_str("bid: decimals out of range"));
        }
        let ghost c = *self;
        let ghost all = bids@;
        let ghost ids = strs(bidding_ids@);
        let ghost dec = self.decimals as nat;
        let unit = pow10_u64(self.decimals as u32);
        proof {
            lemma_pow10_mono(dec, dec);
        }
        // the bids in reverse, so that popping takes them in order
        let mut rest = bids;
        let mut rev: Vec<Bid> = Vec::new();
        while rest.len() > 0
            invariant
                rev@ + rest@.reverse() =~= all.reverse(),
            decreases rest@.len(),
        {
            let ghost r0 = rest@;
            let b = rest.pop().unwrap();
            proof {
                assert(r0 =~= rest@.push(b));
                assert(r0.reverse() =~= seq![b] + rest@.reverse());
            }
            rev.push(b);
        }
        let n_ids = bidding_ids.len();
        let mut i: usize = 0;
        while rev.len() > 0
            invariant
                i + rev@.len() == all.len(),
                all.len() <= n_ids,
                rev@.reverse() =~= all.subrange(i as int, all.len() as int),
                all.len() <= bidding_ids@.len(),
                ids == strs(bidding_ids@),
                unit == pow10(dec),
                unit >= 1,
                dec == c.decimals as nat,
                self.listings.wf(),
                self.bids.wf(),
                (self.listings@, self.bids@) == bid_fold(c.listings@, c.bids@, all.subrange(0, i as int), ids, current_block_height, dec),
                self.payloads == c.payloads,
                self.owners == c.owners,
                self.fulfillments == c.fulfillments,
                self.drips == c.drips,
                self.supply == c.supply,
                ident_same(*self, c),
                drops_same(*self, c),
                pool_same(*self, c),
                c.wf(),
            decreases rev@.len(),
        {
            let ghost r0 = rev@;
            let b = rev.pop().unwrap();
            proof {
                assert(r0 =~= rev@.push(b));
                assert(r0.reverse() =~= seq![b] + rev@.reverse());
                assert(all[i as int] == b) by {
                    assert(all.subrange(i as int, all.len() as int)[0] == b);
                }
                assert(all.subrange(0, i + 1).drop_last() =~= all.subrange(0, i as int));
                assert(all.subrange(i + 1, all.len() as int) =~= all.subrange(i as int, all.len() as int).subrange(1, all.len() - i));
                assert(all.subrange(i + 1, all.len() as int) =~= rev@.reverse());
                assert(ids[i as int] == bidding_ids@[i as int]@);
            }
            let found = match self.listings.get(&b.order_id) {
                Some(l) => Some((l.list_amt, l.price)),
                None => None,
            };
            match found {
                Some((list_amt, price)) => {
                    if b.bid_amount <= list_amt {
                        let q1 = b.bid_amount / unit;
                        let q2 = list_amt / unit;
                        proof {
                            assert(q1 as int * b.bid_price as int <= u64::MAX as int * u64::MAX as int) by (nonlinear_arith)
                                requires q1 <= u64::MAX, b.bid_price <= u64::MAX;
                            assert(q2 as int * price as int <= u64::MAX as int * u64::MAX as int) by (nonlinear_arith)
                                requires q2 <= u64::MAX, price <= u64::MAX;
                        }
                        let offered: u128 = q1 as u128 * b.bid_price as u128;
                        let asked: u128 = q2 as u128 * price as u128;
                        if offered >= asked {
                            let ghost lv = self.listings@[b.order_id@];
                            let old_l = self.listings.remove(&b.order_id);
                            match old_l {
                                Some(l) => {
                                    let nl = Listing { valid_bid_block: Some(current_block_height), ..l };
                                    proof {
                                        assert(nl == Listing { valid_bid_block: Some(current_block_height), ..lv });
                                    }
                                    self.listings.insert(b.order_id.clone(), nl);
                                },
                                None => {},
                            }
                        }
                        let ghost lm = self.listings@;
                        proof {
                            assert(lm =~= bid_fold(c.listings@, c.bids@, all.subrange(0, i + 1), ids, current_block_height, dec).0);
                        }
                        self.bids.insert(bidding_ids[i].clone(), b);
                    }
                },
                None => {},
            }
            i = i + 1;
        }
        proof {
            assert(all.subrange(0, i as int) =~= all);
        }
        record_payload(&mut self.payloads, txid, payload);
        Ok(0)
    }
}

/// What is left of `provided` after the pool's fee.
pub open spec fn fee_net(provided: u64, fee_ppm: u64) -> int {
    (provided * (PPM - fee_ppm)) / (PPM as int)
}

/// The constant-product output for `provided` tokens into a pool of `send`
/// and `recv` with product `k`, rounded down (never below zero).
pub open spec fn swap_out(k: u128, send: u64, recv: u64, provided: u64, fee_ppm: u64) -> int {
    let d = send + fee_net(provided, fee_ppm);
    if d <= 0 {
        0
    } else {
        let q = (k as int) / d + if (k as int) % d == 0 { 0int } else { 1int };
        if q >= recv { 0 } else { recv - q }
    }
}

/// `out` is further from `quoted` than `tol` millionths of `quoted`.
pub open spec fn off_tolerance(out: int, quoted: u64, tol_ppm: u64) -> bool {
    let diff = if out >= quoted { out - quoted } else { quoted - out };
    diff * PPM > tol_ppm * quoted
}

/// The slippage rule: an output within tolerance stands; one above it is cut
/// to `quoted` plus the tolerance; one below it gives zero (no swap).
pub open spec fn settle(out: int, quoted: u64, tol_ppm: u64) -> int {
    if off_tolerance(out, quoted, tol_ppm) {
        if out >= quoted {
            quoted + (quoted * tol_ppm) / (PPM as int)
        } else {
            0
        }
    } else {
        out
    }
}

/// The swap's output is never above `quoted` plus the tolerance, and a
/// positive output is never below `quoted` minus the tolerance.
pub proof fn lemma_settle_within_tolerance(out: int, quoted: u64, tol_ppm: u64)
    requires
        out >= 0,
    ensures
        settle(out, quoted, tol_ppm) * PPM <= quoted * (PPM + tol_ppm),
        settle(out, quoted, tol_ppm) == 0 || settle(out, quoted, tol_ppm) * PPM + tol_ppm * quoted >= quoted * PPM,
        settle(out, quoted, tol_ppm) >= 0,
{
    let v = settle(out, quoted, tol_ppm);
    let p = PPM as int;
    if off_tolerance(out, quoted, tol_ppm) {
        if out >= quoted {
            let f = (quoted * tol_ppm) / p;
            assert(f * p <= quoted * tol_ppm) by (nonlinear_arith)
                requires f == (quoted * tol_ppm) / p, p > 0;
            assert(f >= 0) by (nonlinear_arith)
                requires f == (quoted * tol_ppm) / p, p > 0, quoted >= 0, tol_ppm >= 0;
            assert((quoted + f) * p == quoted * p + f * p) by (nonlinear_arith);
            assert(quoted * (p + tol_ppm) == quoted * p + quoted * tol_ppm) by (nonlinear_arith);
            assert(quoted * tol_ppm >= 0) by (nonlinear_arith)
                requires quoted >= 0, tol_ppm >= 0;
        }
    } else {
        assert(quoted * (p + tol_ppm) == quoted * p + tol_ppm * quoted) by (nonlinear_arith);
        if out >= quoted {
            assert((out - quoted) * p <= tol_ppm * quoted);
            assert(out * p == (out - quoted) * p + quoted * p) by (nonlinear_arith);
        } else {
            assert((quoted - out) * p <= tol_ppm * quoted);
            assert(out * p == quoted * p - (quoted - out) * p) by (nonlinear_arith);
        }
    }
}

/// A pool's sides as (the sender's, the receiver's), when `cid` is one of its contracts.
pub open spec fn sides(p: LiquidityPool, cid: Seq<char>) -> Option<(u64, u64)> {
    if cid == p.contract_id_1@ {
        Some((p.pool_1, p.pool_2))
    } else if cid == p.contract_id_2@ {
        Some((p.pool_2, p.pool_1))
    } else {
        None
    }
}

/// The pool after a swap of `provided` in from `cid`'s side and `out` back.
pub open spec fn swapped_pools(p: LiquidityPool, cid: Seq<char>, provided: u64, out: int) -> (int, int) {
    if cid == p.contract_id_1@ {
        (p.pool_1 + provided, p.pool_2 - out)
    } else {
        (p.pool_1 - out, p.pool_2 + provided)
    }
}

/// The product of two `u64`s, which always fits in a `u128`.
fn mul_wide(a: u64, b: u64) -> (r: u128)
    ensures
        r == a * b,
{
    proof {
        assert(a * b <= u64::MAX as int * u64::MAX as int) by (nonlinear_arith)
            requires a <= u64::MAX, b <= u64::MAX;
    }
    a as u128 * b as u128
}

fn string_of(s: &str) -> (r: String)
    ensures
        r@ == s@,
{
    String::from_str(s)
}

impl SCL01Contract {
    /// Adds `provided_amount` to the first side of the pool and
    /// `provided_amount * liquidity_ratio` (the ratio in millionths, rounded
    /// down) to the second, and mints their sum as
    /// shares to `txid:0`. Returns that UTXO and the shares minted.
    pub fn provide_liquidity_lp(&mut self, txid: &str, payload: &str, provided_amount: u64) -> (r: Result<(String, u64), String>)
        requires
            old(self).wf(),
        ensures
            final(self).wf(),
            r.is_ok() == ({
                let c = *old(self);
                &&& c.liquidity_pool is Some
                &&& !c.payloads@.contains_key(txid@)
                &&& ({
                    let p = c.liquidity_pool->Some_0;
                    let extra = (provided_amount * p.liquidity_ratio) / (PPM as int);
                    &&& p.pool_1 + provided_amount <= u64::MAX
                    &&& p.pool_2 + extra <= u64::MAX
                    &&& c.supply + provided_amount + extra <= u64::MAX
                    &&& owners_total(c.owners) + provided_amount + extra <= u64::MAX
                })
            }),
            r.is_err() ==> *final(self) == *old(self),
            r.is_ok() ==> ({
                let c = *old(self);
                let p = c.liquidity_pool->Some_0;
                let extra = (provided_amount * p.liquidity_ratio) / (PPM as int);
                let q = final(self).liquidity_pool->Some_0;
                &&& final(self).liquidity_pool is Some
                &&& q.pool_1 == p.pool_1 + provided_amount
                &&& q.pool_2 == p.pool_2 + extra
                &&& q.k == q.pool_1 * q.pool_2
                &&& q.k >= p.pool_1 * p.pool_2
                &&& q.contract_id_1 == p.contract_id_1 && q.contract_id_2 == p.contract_id_2
                &&& q.fee_ppm == p.fee_ppm && q.liquidity_ratio == p.liquidity_ratio
                &&& q.swaps == p.swaps && q.liquidations == p.liquidations
                &&& final(self).owners@ == credit(c.owners@, out_utxo(txid@, '0'), provided_amount + extra)
                &&& final(self).supply == c.supply + provided_amount + extra
                &&& payload_view(final(self).payloads) == payload_view(c.payloads).insert(txid@, payload@)
                &&& r == Ok::<(String, u64), String>((r->Ok_0.0, (provided_amount + extra) as u64))
                &&& r->Ok_0.0@ == out_utxo(txid@, '0')
                &&& final(self).drips == c.drips
                &&& final(self).liquidated_tokens == c.liquidated_tokens
                &&& ident_same(*final(self), c)
                &&& market_same(*final(self), c)
                &&& drops_same(*final(self), c)
            }),
    {
        let tx = string_of(txid);
        let pl = string_of(payload);
        if self.payloads.contains_key(&tx) {
            return Err(String::from_str("provide_liquidity_lp: payload already applied"));
        }
        let (pool1, pool2, ratio) = match &self.liquidity_pool {
            Some(p) => (p.pool_1, p.pool_2, p.liquidity_ratio),
            None => return Err(String::from_str("provide_liquidity_lp: no liquidity pools")),
        };
        let wide: u128 = mul_wide(provided_amount, ratio) / (PPM as u128);
        if provided_amount > u64::MAX - pool1 || wide > (u64::MAX - pool2) as u128 {
            return Err(String::from_str("provide_liquidity_lp: pool overflow"));
        }
        let extra: u64 = wide as u64;
        if extra > u64::MAX - provided_amount || provided_amount + extra > u64::MAX - self.supply {
            return Err(String::from_str("provide_liquidity_lp: supply overflow"));
        }
        let total = self.owners.amount_sum();
        if provided_amount + extra > u64::MAX - total {
            return Err(String::from_str("provide_liquidity_lp: balance overflow"));
        }
        let minted = provided_amount + extra;
        let mut pool = self.liquidity_pool.take().unwrap();
        pool.pool_1 = pool1 + provided_amount;
        pool.pool_2 = pool2 + extra;
        proof {
            assert(pool.pool_1 as int * pool.pool_2 as int >= pool1 as int * pool2 as int) by (nonlinear_arith)
                requires pool.pool_1 >= pool1, pool.pool_2 >= pool2;
        }
        pool.k = mul_wide(pool.pool_1, pool.pool_2);
        self.liquidity_pool = Some(pool);
        let lp_utxo = utxo_string(&tx, '0');
        credit_in(&mut self.owners, &lp_utxo, minted);
        self.supply = self.supply + minted;
        record_payload(&mut self.payloads, &tx, &pl);
        Ok((lp_utxo, minted))
    }

    /// Swaps `provided_amount` tokens of `sender_contract_id` for the other
    /// side's, by the constant product less the fee, subject to `settle` with
    /// the quote and the tolerance (in millionths). Returns the amount swapped
    /// out; zero means no swap took place and nothing changed.
    pub fn swap_lp(&mut self, txid: &str, payload: &str, sender_contract_id: String, provided_amount: u64, quoted: u64, slipage_tolerance: u64) -> (r: Result<u64, String>)
        requires
            old(self).wf(),
        ensures
            final(self).wf(),
            r.is_ok() == ({
                let c = *old(self);
                &&& c.liquidity_pool is Some
                &&& !c.payloads@.contains_key(txid@)
                &&& ({
                    let p = c.liquidity_pool->Some_0;
                    &&& sides(p, sender_contract_id@) is Some
                    &&& p.fee_ppm <= PPM
                    &&& sides(p, sender_contract_id@)->Some_0.0 + provided_amount <= u64::MAX
                })
            }),
            r.is_err() ==> *final(self) == *old(self),
            r matches Ok(v) ==> ({
                let c = *old(self);
                let p = c.liquidity_pool->Some_0;
                let (send, recv) = sides(p, sender_contract_id@)->Some_0;
                let out = swap_out(p.k, send, recv, provided_amount, p.fee_ppm);
                let q = final(self).liquidity_pool->Some_0;
                &&& v == settle(out, quoted, slipage_tolerance)
                &&& v <= recv
                &&& (off_tolerance(out, quoted, slipage_tolerance) && out < quoted) ==> *final(self) == c
                &&& !(off_tolerance(out, quoted, slipage_tolerance) && out < quoted) ==> {
                    &&& final(self).liquidity_pool is Some
                    &&& (q.pool_1 as int, q.pool_2 as int) == swapped_pools(p, sender_contract_id@, provided_amount, v as int)
                    &&& q.k == q.pool_1 * q.pool_2
                    &&& q.swaps@ == p.swaps@.insert(txid@, (provided_amount, v))
                    &&& q.contract_id_1 == p.contract_id_1 && q.contract_id_2 == p.contract_id_2
                    &&& q.fee_ppm == p.fee_ppm && q.liquidity_ratio == p.liquidity_ratio
                    &&& q.liquidations == p.liquidations
                    &&& payload_view(final(self).payloads) == payload_view(c.payloads).insert(txid@, payload@)
                    &&& final(self).owners == c.owners
                    &&& final(self).supply == c.supply
                    &&& final(self).drips == c.drips
                    &&& final(self).liquidated_tokens == c.liquidated_tokens
                    &&& ident_same(*final(self), c)
                    &&& market_same(*final(self), c)
                    &&& drops_same(*final(self), c)
                }
            }),
    {
        let tx = string_of(txid);
        let pl = string_of(payload);
        if self.payloads.contains_key(&tx) {
            return Err(String::from_str("swap_lp: payload already applied"));
        }
        let (first, send, recv, k, fee) = match &self.liquidity_pool {
            Some(p) => {
                if sender_contract_id == p.contract_id_1 {
                    (true, p.pool_1, p.pool_2, p.k, p.fee_ppm)
                } else if sender_contract_id == p.contract_id_2 {
                    (false, p.pool_2, p.pool_1, p.k, p.fee_ppm)
                } else {
                    return Err(String::from_str("swap_lp: contract_id not associated with this liquidity pool"));
                }
            },
            None => return Err(String::from_str("swap_lp: no liquidity pools")),
        };
        if fee > PPM {
            return Err(String::from_str("swap_lp: fee above one"));
        }
        if provided_amount > u64::MAX - send {
            return Err(String::from_str("swap_lp: pool overflow"));
        }
        proof {
            assert(provided_amount as int * (PPM - fee) as int <= u64::MAX as int * PPM as int) by (nonlinear_arith)
                requires provided_amount <= u64::MAX, PPM - fee <= PPM, PPM - fee >= 0;
        }
        let net: u128 = (provided_amount as u128 * (PPM - fee) as u128) / (PPM as u128);
        proof {
            assert(net <= u64::MAX) by (nonlinear_arith)
                requires net == (provided_amount as int * (PPM - fee) as int) / (PPM as int), provided_amount as int * (PPM - fee) as int <= u64::MAX as int * PPM as int, PPM > 0;
        }
        let d: u128 = send as u128 + net;
        let out: u64 = if d == 0 {
            0
        } else {
            let q0: u128 = k / d;
            let q: u128 = if k % d == 0 {
                q0
            } else {
                proof {
                    assert(d >= 2);
                    assert(q0 * d <= k) by (nonlinear_arith)
                        requires q0 == k / d, d > 0;
                    assert(q0 < u128::MAX) by (nonlinear_arith)
                        requires q0 * d <= k, d >= 2, k <= u128::MAX;
                }
                q0 + 1
            };
            if q >= recv as u128 { 0 } else { recv - q as u64 }
        };
        let diff: u64 = if out >= quoted { out - quoted } else { quoted - out };
        proof {
            assert(diff as int * PPM <= u64::MAX as int * PPM) by (nonlinear_arith)
                requires diff <= u64::MAX;
            assert(slipage_tolerance as int * quoted as int <= u64::MAX as int * u64::MAX as int) by (nonlinear_arith)
                requires slipage_tolerance <= u64::MAX, quoted <= u64::MAX;
        }
        let off = diff as u128 * PPM as u128 > slipage_tolerance as u128 * quoted as u128;
        let v: u64 = if off {
            if out >= quoted {
                let extra: u128 = mul_wide(quoted, slipage_tolerance) / (PPM as u128);
                proof {
                    let p = PPM as int;
                    assert(extra * p <= quoted * slipage_tolerance) by (nonlinear_arith)
                        requires extra == (quoted * slipage_tolerance) / p, p > 0;
                    assert(extra * p < (out - quoted) * p);
                    assert(extra < out - quoted) by (nonlinear_arith)
                        requires extra * p < (out - quoted) * p, p > 0;
                }
                quoted + extra as u64
            } else {
                return Ok(0);
            }
        } else {
            out
        };
        let mut pool = self.liquidity_pool.take().unwrap();
        if first {
            pool.pool_1 = send + provided_amount;
            pool.pool_2 = recv - v;
        } else {
            pool.pool_2 = send + provided_amount;
            pool.pool_1 = recv - v;
        }
        pool.k = mul_wide(pool.pool_1, pool.pool_2);
        pool.swaps.insert(tx.clone(), (provided_amount, v));
        self.liquidity_pool = Some(pool);
        record_payload(&mut self.payloads, &tx, &pl);
        Ok(v)
    }
}

impl SCL01Contract {
    /// Burns `claim_amount` of the pool shares held by `lp_utxos` and withdraws
    /// that fraction of the supply from each side of the pool (rounded down).
    /// The shares left over, and the holders' drips, go to `txid:0`. Returns the
    /// two withdrawn amounts, `txid:0`, the shares left over, and whether drips moved.
    pub fn liquidate_postion_lp(&mut self, txid: &str, payload: &str, lp_utxos: &Vec<String>, claim_amount: u64, block_height: u64) -> (r: Result<(u64, u64, String, u64, bool), String>)
        requires
            old(self).wf(),
        ensures
            final(self).wf(),
            r.is_ok() == ({
                let c = *old(self);
                let s = sum_owned(c.owners@, strs(lp_utxos@));
                &&& c.liquidity_pool is Some
                &&& !c.payloads@.contains_key(txid@)
                &&& s > 0
                &&& claim_amount <= s
                &&& claim_amount <= c.supply
                &&& c.supply > 0
            }),
            r.is_err() ==> *final(self) == *old(self),
            r matches Ok(v) ==> ({
                let c = *old(self);
                let p = c.liquidity_pool->Some_0;
                let q = final(self).liquidity_pool->Some_0;
                let s = sum_owned(c.owners@, strs(lp_utxos@));
                let change = out_utxo(txid@, '0');
                &&& v.0 == (p.pool_1 * claim_amount) / (c.supply as int)
                &&& v.1 == (p.pool_2 * claim_amount) / (c.supply as int)
                &&& v.2@ == change
                &&& v.3 == s - claim_amount
                &&& v.4 == has_drips(drip_view(c.drips), strs(lp_utxos@), block_height)
                &&& final(self).liquidity_pool is Some
                &&& q.pool_1 == p.pool_1 - v.0
                &&& q.pool_2 == p.pool_2 - v.1
                &&& q.k == q.pool_1 * q.pool_2
                &&& q.k <= p.pool_1 * p.pool_2
                &&& q.liquidations@ == p.liquidations@.insert(txid@, (v.0, v.1))
                &&& q.swaps == p.swaps
                &&& q.contract_id_1 == p.contract_id_1 && q.contract_id_2 == p.contract_id_2
                &&& q.fee_ppm == p.fee_ppm && q.liquidity_ratio == p.liquidity_ratio
                &&& final(self).owners@ == credit(without(c.owners@, strs(lp_utxos@)), change, s - claim_amount)
                &&& drip_view(final(self).drips) == moved_drips(drip_view(c.drips), strs(lp_utxos@), change, block_height)
                &&& final(self).supply == c.supply - claim_amount
                &&& payload_view(final(self).payloads) == payload_view(c.payloads).insert(txid@, payload@)
                &&& final(self).liquidated_tokens == c.liquidated_tokens
                &&& ident_same(*final(self), c)
                &&& market_same(*final(self), c)
                &&& drops_same(*final(self), c)
            }),
    {
        let tx = string_of(txid);
        let pl = string_of(payload);
        if self.payloads.contains_key(&tx) {
            return Err(String::from_str("liquidate_postion_lp: payload already applied"));
        }
        let (pool1, pool2) = match &self.liquidity_pool {
            Some(p) => (p.pool_1, p.pool_2),
            None => return Err(String::from_str("liquidate_postion_lp: no liquidity pools")),
        };
        let total = self.owned_sum(lp_utxos);
        if total == 0 {
            return Err(String::from_str("liquidate_postion_lp: owner amount is zero"));
        }
        if claim_amount > total {
            return Err(String::from_str("liquidate_postion_lp: owner amount is less than the claim amount"));
        }
        if claim_amount > self.supply || self.supply == 0 {
            return Err(String::from_str("liquidate_postion_lp: claim is more than the supply"));
        }
        let ghost c = *self;
        let supply = self.supply;
        let t1w: u128 = mul_wide(pool1, claim_amount) / (supply as u128);
        let t2w: u128 = mul_wide(pool2, claim_amount) / (supply as u128);
        proof {
            assert(t1w <= pool1) by (nonlinear_arith)
                requires t1w == (pool1 * claim_amount) / (supply as int), claim_amount <= supply, supply > 0, pool1 >= 0;
            assert(t2w <= pool2) by (nonlinear_arith)
                requires t2w == (pool2 * claim_amount) / (supply as int), claim_amount <= supply, supply > 0, pool2 >= 0;
        }
        let t1 = t1w as u64;
        let t2 = t2w as u64;
        remove_all(&mut self.owners, lp_utxos);
        let change_utxo = utxo_string(&tx, '0');
        let moved = take_drips_of(&mut self.drips, lp_utxos, block_height);
        let has_moved = moved.len() > 0;
        let ghost d1 = drip_view(self.drips);
        if has_moved {
            self.drips.insert(change_utxo.clone(), moved);
            proof {
                assert(drip_view(self.drips) =~= d1.insert(change_utxo@, take_drips(drip_view(c.drips), strs(lp_utxos@), block_height).1));
            }
        }
        let change = total - claim_amount;
        credit_in(&mut self.owners, &change_utxo, change);
        let mut pool = self.liquidity_pool.take().unwrap();
        pool.pool_1 = pool1 - t1;
        pool.pool_2 = pool2 - t2;
        proof {
            assert(pool.pool_1 as int * pool.pool_2 as int <= pool1 as int * pool2 as int) by (nonlinear_arith)
                requires pool.pool_1 <= pool1, pool.pool_2 <= pool2, pool.pool_1 >= 0, pool.pool_2 >= 0;
        }
        pool.k = mul_wide(pool.pool_1, pool.pool_2);
        pool.liquidations.insert(tx.clone(), (t1, t2));
        self.liquidity_pool = Some(pool);
        self.supply = self.supply - claim_amount;
        record_payload(&mut self.payloads, &tx, &pl);
        Ok((t1, t2, change_utxo, change, has_moved))
    }
}

/// The airdrop's per-claim amount and position in its period, once a full period steps it down.
pub open spec fn dim_stepped(a: DimAirdrop) -> (u64, u64) {
    if a.step_period_amount == a.current_in_period {
        let cur: u64 = if a.current_airdrop > a.min_airdrop {
            if a.current_airdrop >= a.min_airdrop + a.step_down_amount {
                (a.current_airdrop - a.step_down_amount) as u64
            } else {
                a.min_airdrop
            }
        } else {
            a.current_airdrop
        };
        (cur, 0)
    } else {
        (a.current_airdrop, a.current_in_period)
    }
}

/// What the next claim of the airdrop pays: the current amount, cut to what is left of the pool.
pub open spec fn dim_claim_amount(a: DimAirdrop) -> u64 {
    let cur = dim_stepped(a).0;
    if a.amount_airdropped + cur >= a.pool_amount {
        if a.pool_amount >= a.amount_airdropped { (a.pool_amount - a.amount_airdropped) as u64 } else { 0 }
    } else {
        cur
    }
}

/// The airdrop's counters after one claim.
pub open spec fn dim_after_claim(a: DimAirdrop) -> DimAirdrop {
    DimAirdrop {
        current_airdrop: dim_stepped(a).0,
        current_in_period: (dim_stepped(a).1 + 1) as u64,
        amount_airdropped: (a.amount_airdropped + dim_claim_amount(a)) as u64,
        ..a
    }
}

/// The airdrop after `n` claims, and what they paid in all.
pub open spec fn dim_run(a: DimAirdrop, n: nat) -> (DimAirdrop, int)
    decreases n,
{
    if n == 0 {
        (a, 0)
    } else {
        let (b, t) = dim_run(a, (n - 1) as nat);
        (dim_after_claim(b), t + dim_claim_amount(b))
    }
}

/// Claims of a diminishing airdrop never pay out more than its pool: after any
/// number of claims, what they paid in all is what the airdrop counts as
/// airdropped, at most the pool; and the per-claim amount never grows.
pub proof fn lemma_dim_airdrop_claims(a: DimAirdrop, n: nat)
    requires
        a.amount_airdropped <= a.pool_amount,
    ensures
        ({
            let (b, t) = dim_run(a, n);
            &&& b.amount_airdropped == a.amount_airdropped + t
            &&& b.amount_airdropped <= b.pool_amount
            &&& b.pool_amount == a.pool_amount
            &&& b.current_airdrop <= a.current_airdrop
            &&& (a.amount_airdropped == 0 && b.amount_airdropped == b.pool_amount ==> t == a.pool_amount)
        }),
    decreases n,
{
    if n > 0 {
        lemma_dim_airdrop_claims(a, (n - 1) as nat);
    }
}

/// The claim is accepted: the airdrop exists, and under a single-drop rule the
/// claimant has not claimed before.
pub open spec fn dim_claim_ok(c: SCL01Contract, txid: Seq<char>, claim_id: Seq<char>, donater: Seq<char>, pending: bool) -> bool {
    let a = c.diminishing_airdrops@[claim_id];
    let amt = dim_claim_amount(a);
    &&& !c.payloads@.contains_key(txid)
    &&& c.diminishing_airdrops@.contains_key(claim_id)
    &&& !(a.single_drop && a.claimers@.contains_key(donater))
    &&& dim_stepped(a).1 < u64::MAX
    &&& a.amount_airdropped + amt <= u64::MAX
    &&& owners_total(c.owners) + amt <= u64::MAX
}

impl SCL01Contract {
    /// Claims the next amount of the diminishing airdrop `claim_id` for
    /// `reciever_utxo`: credited at once, or held as a pending claim when
    /// `pending`. The airdrop steps down after each full period and is removed
    /// once its pool is paid out. Returns the receiver, its balance counting the
    /// claim, and whether it has drips.
    pub fn claim_dim_airdrop(&mut self, txid: &String, payload: &String, claim_id: &String, reciever_utxo: &String, pending: bool, donater_pub_address: &String) -> (r: Result<(String, u64, bool), String>)
        requires
            old(self).wf(),
        ensures
            final(self).wf(),
            r.is_ok() == dim_claim_ok(*old(self), txid@, claim_id@, donater_pub_address@, pending),
            r.is_err() ==> *final(self) == *old(self),
            r matches Ok(v) ==> ({
                let c = *old(self);
                let a = c.diminishing_airdrops@[claim_id@];
                let amt = dim_claim_amount(a);
                let a2 = dim_after_claim(a);
                &&& v.0@ == reciever_utxo@
                &&& v.1 == owned(c.owners@, reciever_utxo@) + amt
                &&& v.2 == c.drips@.contains_key(reciever_utxo@)
                &&& final(self).supply == c.supply
                &&& pending ==> final(self).owners == c.owners
                    && final(self).pending_claims@ == c.pending_claims@.insert(reciever_utxo@, amt)
                &&& !pending ==> final(self).owners@ == credit(c.owners@, reciever_utxo@, amt as int)
                    && final(self).pending_claims@ == c.pending_claims@.remove(reciever_utxo@)
                &&& a2.amount_airdropped == a2.pool_amount ==> final(self).diminishing_airdrops@ == c.diminishing_airdrops@.remove(claim_id@)
                &&& a2.amount_airdropped != a2.pool_amount ==> final(self).diminishing_airdrops@.contains_key(claim_id@)
                    && final(self).diminishing_airdrops@.remove(claim_id@) == c.diminishing_airdrops@.remove(claim_id@)
                    && ({
                        let b = final(self).diminishing_airdrops@[claim_id@];
                        &&& b.current_airdrop == a2.current_airdrop
                        &&& b.current_in_period == a2.current_in_period
                        &&& b.amount_airdropped == a2.amount_airdropped
                        &&& b.pool_amount == a.pool_amount
                        &&& b.step_down_amount == a.step_down_amount
                        &&& b.step_period_amount == a.step_period_amount
                        &&& b.min_airdrop == a.min_airdrop
                        &&& b.max_airdrop == a.max_airdrop
                        &&& b.single_drop == a.single_drop
                        &&& b.claimers@ == if a.single_drop { a.claimers@.insert(donater_pub_address@, amt) } else { a.claimers@ }
                    })
                &&& payload_view(final(self).payloads) == payload_view(c.payloads).insert(txid@, payload@)
                &&& final(self).drips == c.drips
                &&& final(self).dges == c.dges
                &&& final(self).right_to_mint == c.right_to_mint
                &&& ident_same(*final(self), c)
                &&& market_same(*final(self), c)
                &&& pool_same(*final(self), c)
            }),
    {
        if self.payloads.contains_key(txid) {
            return Err(String::from_str("claim_dim_airdrop: payload already applied"));
        }
        let (cur, period, airdropped, pool, single, claimed) = match self.diminishing_airdrops.get(claim_id) {
            Some(a) => {
                let (cur, period) = if a.step_period_amount == a.current_in_period {
                    let cur: u64 = if a.current_airdrop > a.min_airdrop {
                        if a.current_airdrop - a.min_airdrop >= a.step_down_amount {
                            a.current_airdrop - a.step_down_amount
                        } else {
                            a.min_airdrop
                        }
                    } else {
                        a.current_airdrop
                    };
                    (cur, 0u64)
                } else {
                    (a.current_airdrop, a.current_in_period)
                };
                proof {
                    assert((cur, period) == dim_stepped(*a));
                    assert(a.claimers.wf());
                }
                (cur, period, a.amount_airdropped, a.pool_amount, a.single_drop, a.claimers.contains_key(donater_pub_address))
            },
            None => return Err(String::from_str("claim_dim_airdrop: diminishing airdrop claim id not found")),
        };
        if single && claimed {
            return Err(String::from_str("claim_dim_airdrop: address has already claimed"));
        }
        if period == u64::MAX {
            return Err(String::from_str("claim_dim_airdrop: claim count overflow"));
        }
        let amt: u64 = if cur >= pool || airdropped >= pool - cur {
            if pool >= airdropped { pool - airdropped } else { 0 }
        } else {
            cur
        };
        if amt > u64::MAX - airdropped {
            return Err(String::from_str("claim_dim_airdrop: amount overflow"));
        }
        let total = self.owners.amount_sum();
        if amt > u64::MAX - total {
            return Err(String::from_str("claim_dim_airdrop: balance overflow"));
        }
        let ghost c = *self;
        let prior: u64 = match self.owners.get(reciever_utxo) {
            Some(v) => *v,
            None => 0,
        };
        proof {
            self.owners.lemma_total_bounds(|v: u64| v as int);
        }
        if pending {
            self.pending_claims.insert(reciever_utxo.clone(), amt);
        } else {
            self.pending_claims.remove(reciever_utxo);
            credit_in(&mut self.owners, reciever_utxo, amt);
        }
        let has_drips = self.drips.contains_key(reciever_utxo);
        let mut a = self.diminishing_airdrops.remove(claim_id).unwrap();
        if a.single_drop {
            a.claimers.insert(donater_pub_address.clone(), amt);
        }
        a.current_airdrop = cur;
        a.current_in_period = period + 1;
        a.amount_airdropped = airdropped + amt;
        if a.amount_airdropped != a.pool_amount {
            self.diminishing_airdrops.insert(claim_id.clone(), a);
            proof {
                assert(self.diminishing_airdrops@.remove(claim_id@) =~= c.diminishing_airdrops@.remove(claim_id@));
            }
        }
        record_payload(&mut self.payloads, txid, payload);
        proof {
            assert forall|k: Seq<char>| #[trigger] self.diminishing_airdrops@.contains_key(k)
                implies self.diminishing_airdrops@[k].wf() by {
                if k != claim_id@ {
                    assert(c.diminishing_airdrops@.contains_key(k));
                }
            }
        }
        Ok((reciever_utxo.clone(), prior + amt, has_drips))
    }
}

/// A pool is set aside: the txid is new, the senders hold tokens, at least
/// `amount` of them, and the supply covers it.
pub open spec fn reserve_ok(c: SCL01Contract, txid: Seq<char>, senders: Seq<String>, amount: u64) -> bool {
    let s = sum_owned(c.owners@, strs(senders));
    &&& !c.payloads@.contains_key(txid)
    &&& s > 0
    &&& amount <= s
}

/// The owners, drips and supply once `amount` of the senders' tokens is set aside
/// and the rest, with the senders' drips, goes to `change`.
pub open spec fn reserved(c: SCL01Contract, d: SCL01Contract, senders: Seq<String>, amount: u64, change: Seq<char>, block: u64) -> bool {
    let s = sum_owned(c.owners@, strs(senders));
    &&& d.owners@ == credit(without(c.owners@, strs(senders)), change, s - amount)
    &&& drip_view(d.drips) == moved_drips(drip_view(c.drips), strs(senders), change, block)
    &&& d.supply == c.supply
    &&& owners_total(d.owners) == owners_total(c.owners) - amount
}

impl SCL01Contract {
    fn reserve_from(&mut self, senders: &Vec<String>, s: u64, amount: u64, change: &String, block: u64) -> (moved: bool)
        requires
            old(self).wf(),
            s == sum_owned(old(self).owners@, strs(senders@)),
            amount <= s,
        ensures
            final(self).wf(),
            reserved(*old(self), *final(self), senders@, amount, change@, block),
            moved == has_drips(drip_view(old(self).drips), strs(senders@), block),
            final(self).payloads == old(self).payloads,
            final(self).diminishing_airdrops == old(self).diminishing_airdrops,
            final(self).dges == old(self).dges,
            final(self).pending_claims == old(self).pending_claims,
            final(self).right_to_mint == old(self).right_to_mint,
            final(self).airdrop_amount == old(self).airdrop_amount,
            final(self).total_airdrops == old(self).total_airdrops,
            final(self).current_airdrops == old(self).current_airdrops,
            final(self).last_airdrop_split == old(self).last_airdrop_split,
            final(self).max_supply == old(self).max_supply,
            ident_same(*final(self), *old(self)),
            market_same(*final(self), *old(self)),
            pool_same(*final(self), *old(self)),
    {
        let ghost c = *self;
        remove_all(&mut self.owners, senders);
        let moved = take_drips_of(&mut self.drips, senders, block);
        let has_moved = moved.len() > 0;
        let ghost d1 = drip_view(self.drips);
        if has_moved {
            self.drips.insert(change.clone(), moved);
            proof {
                assert(drip_view(self.drips) =~= d1.insert(change@, take_drips(drip_view(c.drips), strs(senders@), block).1));
            }
        }
        credit_in(&mut self.owners, change, s - amount);
        has_moved
    }

    /// Sets aside `pool_amount` of the senders' tokens as a diminishing airdrop
    /// under the first sender's UTXO; the rest goes to `change_utxo`. Returns
    /// the change UTXO, its balance, and whether drips moved there.
    pub fn create_dim_airdrop(&mut self, txid: &String, payload: &String, sender_utxos: &Vec<String>, pool_amount: &u64, step_down_amount: &u64, step_period_amount: &u64, max_airdrop: &u64, min_airdrop: &u64, change_utxo: &String, single_drop: &bool, current_block_height: u64) -> (r: Result<(String, u64, bool), String>)
        requires
            old(self).wf(),
        ensures
            final(self).wf(),
            r.is_ok() == (sender_utxos@.len() > 0 && reserve_ok(*old(self), txid@, sender_utxos@, *pool_amount)),
            r.is_err() ==> *final(self) == *old(self),
            r matches Ok(v) ==> ({
                let c = *old(self);
                let a = final(self).diminishing_airdrops@[sender_utxos@[0]@];
                &&& reserved(c, *final(self), sender_utxos@, *pool_amount, change_utxo@, current_block_height)
                &&& v.0@ == change_utxo@
                &&& v.1 as int == owned(final(self).owners@, change_utxo@)
                &&& v.2 == has_drips(drip_view(c.drips), strs(sender_utxos@), current_block_height)
                &&& final(self).diminishing_airdrops@.contains_key(sender_utxos@[0]@)
                &&& final(self).diminishing_airdrops@.remove(sender_utxos@[0]@) == c.diminishing_airdrops@.remove(sender_utxos@[0]@)
                &&& a.pool_amount == *pool_amount && a.step_down_amount == *step_down_amount
                &&& a.step_period_amount == *step_period_amount && a.max_airdrop == *max_airdrop
                &&& a.min_airdrop == *min_airdrop && a.current_airdrop == *max_airdrop
                &&& a.current_in_period == 0 && a.amount_airdropped == 0
                &&& a.single_drop == *single_drop && a.claimers@ == Map::<Seq<char>, u64>::empty()
                &&& payload_view(final(self).payloads) == payload_view(c.payloads).insert(txid@, payload@)
                &&& final(self).dges == c.dges
                &&& final(self).pending_claims == c.pending_claims
                &&& final(self).right_to_mint == c.right_to_mint
                &&& ident_same(*final(self), c)
                &&& market_same(*final(self), c)
                &&& pool_same(*final(self), c)
            }),
    {
        if sender_utxos.len() == 0 {
            return Err(String::from_str("create_dim_airdrop: no senders"));
        }
        if self.payloads.contains_key(txid) {
            return Err(String::from_str("create_dim_airdrop: payload already applied"));
        }
        let s = self.owned_sum(sender_utxos);
        if s == 0 {
            return Err(String::from_str("create_dim_airdrop: owner amount is zero"));
        }
        if *pool_amount > s {
            return Err(String::from_str("create_dim_airdrop: pool amount is more than the owned amount"));
        }
        let ghost c = *self;
        let moved = self.reserve_from(sender_utxos, s, *pool_amount, change_utxo, current_block_height);
        let a = DimAirdrop {
            pool_amount: *pool_amount,
            step_down_amount: *step_down_amount,
            step_period_amount: *step_period_amount,
            max_airdrop: *max_airdrop,
            min_airdrop: *min_airdrop,
            current_airdrop: *max_airdrop,
            current_in_period: 0,
            amount_airdropped: 0,
            last_airdrop_split: None,
            claimers: StrMap::new(),
            single_drop: *single_drop,
        };
        self.diminishing_airdrops.insert(sender_utxos[0].clone(), a);
        record_payload(&mut self.payloads, txid, payload);
        proof {
            assert(self.diminishing_airdrops@.remove(sender_utxos@[0]@) =~= c.diminishing_airdrops@.remove(sender_utxos@[0]@));
            assert forall|k: Seq<char>| #[trigger] self.diminishing_airdrops@.contains_key(k)
                implies self.diminishing_airdrops@[k].wf() by {
                if k != sender_utxos@[0]@ {
                    assert(c.diminishing_airdrops@.contains_key(k));
                }
            }
        }
        let bal: u64 = match self.owners.get(change_utxo) {
            Some(v) => *v,
            None => 0,
        };
        Ok((change_utxo.clone(), bal, moved))
    }

    /// Sets aside `dge.pool_amount` of the senders' tokens as a donation pool
    /// under the first sender's UTXO; the rest goes to `change_utxo`. Returns
    /// the change UTXO, its balance, and whether drips moved there.
    pub fn create_dge(&mut self, txid: &String, payload: &String, sender_utxos: &Vec<String>, dge: DGE, change_utxo: &String, current_block_height: u64) -> (r: Result<(String, u64, bool), String>)
        requires
            old(self).wf(),
            dge.wf(),
        ensures
            final(self).wf(),
            r.is_ok() == (sender_utxos@.len() > 0 && reserve_ok(*old(self), txid@, sender_utxos@, dge.pool_amount)),
            r.is_err() ==> *final(self) == *old(self),
            r matches Ok(v) ==> ({
                let c = *old(self);
                &&& reserved(c, *final(self), sender_utxos@, dge.pool_amount, change_utxo@, current_block_height)
                &&& v.0@ == change_utxo@
                &&& v.1 as int == owned(final(self).owners@, change_utxo@)
                &&& v.2 == has_drips(drip_view(c.drips), strs(sender_utxos@), current_block_height)
                &&& final(self).dges@ == c.dges@.insert(sender_utxos@[0]@, dge)
                &&& payload_view(final(self).payloads) == payload_view(c.payloads).insert(txid@, payload@)
                &&& final(self).diminishing_airdrops == c.diminishing_airdrops
                &&& final(self).pending_claims == c.pending_claims
                &&& final(self).right_to_mint == c.right_to_mint
                &&& ident_same(*final(self), c)
                &&& market_same(*final(self), c)
                &&& pool_same(*final(self), c)
            }),
    {
        if sender_utxos.len() == 0 {
            return Err(String::from_str("create_dge: no senders"));
        }
        if self.payloads.contains_key(txid) {
            return Err(String::from_str("create_dge: payload already applied"));
        }
        let s = self.owned_sum(sender_utxos);
        if s == 0 {
            return Err(String::from_str("create_dge: owner amount is zero"));
        }
        if dge.pool_amount > s {
            return Err(String::from_str("create_dge: pool amount is more than the owned amount"));
        }
        let ghost c = *self;
        let amount = dge.pool_amount;
        let moved = self.reserve_from(sender_utxos, s, amount, change_utxo, current_block_height);
        self.dges.insert(sender_utxos[0].clone(), dge);
        record_payload(&mut self.payloads, txid, payload);
        proof {
            assert forall|k: Seq<char>| #[trigger] self.dges@.contains_key(k) implies self.dges@[k].wf() by {
                if k != sender_utxos@[0]@ {
                    assert(c.dges@.contains_key(k));
                }
            }
        }
        let bal: u64 = match self.owners.get(change_utxo) {
            Some(v) => *v,
            None => 0,
        };
        Ok((change_utxo.clone(), bal, moved))
    }
}

/// The tokens a donation of `donation` satoshis buys at `sats_rate` satoshis
/// per whole token, with `dec` decimals.
pub open spec fn dge_tokens(donation: u64, sats_rate: u64, dec: nat) -> int {
    (donation * pow10(dec)) / (sats_rate as int)
}

/// What a DGE claim of `donation` pays in all: the tokens bought, cut to what
/// is left of the pool.
pub open spec fn dge_amount(g: DGE, donation: u64, dec: nat) -> int {
    let t = dge_tokens(donation, g.sats_rate, dec);
    if t + g.current_amount_dropped >= g.pool_amount {
        g.pool_amount - g.current_amount_dropped
    } else {
        t
    }
}

/// The claim is accepted: the DGE exists, the donation is within its cap and
/// buys at least one unit, and the drip and balances fit.
pub open spec fn dge_claim_ok(c: SCL01Contract, txid: Seq<char>, claim_id: Seq<char>, donater: Seq<char>, donation: u64, block: u64) -> bool {
    let g = c.dges@[claim_id];
    let dec = c.decimals as nat;
    let amt = dge_amount(g, donation, dec);
    &&& !c.payloads@.contains_key(txid)
    &&& c.dges@.contains_key(claim_id)
    &&& !(g.single_drop && g.donaters@.contains_key(donater))
    &&& 0 <= c.decimals <= 19
    &&& g.sats_rate > 0
    &&& donation * pow10(dec) <= u64::MAX
    &&& donation * pow10(dec) <= g.max_drop * g.sats_rate
    &&& dge_tokens(donation, g.sats_rate, dec) > 0
    &&& g.current_amount_dropped <= g.pool_amount
    &&& g.drip_duration > 0
    &&& block + g.drip_duration - 1 <= u64::MAX
    &&& owners_total(c.owners) + amt <= u64::MAX
}

impl SCL01Contract {
    /// Turns a donation of `donation` satoshis into a drip of the tokens it buys
    /// (cut to what is left of the pool) to `reciever_utxo`, lasting the DGE's
    /// drip duration from `current_block_height`; the first block pays at once.
    /// Returns the receiver and its balance.
    pub fn claim_dge(&mut self, txid: &String, payload: &String, claim_id: &String, reciever_utxo: &String, donater: &String, donation: u64, current_block_height: u64) -> (r: Result<(String, u64), String>)
        requires
            old(self).wf(),
        ensures
            final(self).wf(),
            r.is_ok() == dge_claim_ok(*old(self), txid@, claim_id@, donater@, donation, current_block_height),
            r.is_err() ==> *final(self) == *old(self),
            r matches Ok(v) ==> ({
                let c = *old(self);
                let g = c.dges@[claim_id@];
                let amt = dge_amount(g, donation, c.decimals as nat);
                let d = new_drip(amt as u64, g.drip_duration, current_block_height);
                let h = final(self).dges@[claim_id@];
                &&& drip_view(final(self).drips) == with_drip(drip_view(c.drips), reciever_utxo@, d)
                &&& final(self).owners@ == credit(c.owners@, reciever_utxo@, d.drip_amount as int)
                &&& final(self).supply == c.supply
                &&& v.0@ == reciever_utxo@
                &&& v.1 as int == owned(final(self).owners@, reciever_utxo@)
                &&& final(self).dges@.contains_key(claim_id@)
                &&& final(self).dges@.remove(claim_id@) == c.dges@.remove(claim_id@)
                &&& h.current_amount_dropped == g.current_amount_dropped + amt
                &&& h.pool_amount == g.pool_amount && h.sats_rate == g.sats_rate && h.max_drop == g.max_drop
                &&& h.drip_duration == g.drip_duration && h.single_drop == g.single_drop
                &&& h.donaters@ == if g.single_drop { g.donaters@.insert(donater@, donation) } else { g.donaters@ }
                &&& payload_view(final(self).payloads) == payload_view(c.payloads).insert(txid@, payload@)
                &&& final(self).diminishing_airdrops == c.diminishing_airdrops
                &&& final(self).pending_claims == c.pending_claims
                &&& final(self).right_to_mint == c.right_to_mint
                &&& ident_same(*final(self), c)
                &&& market_same(*final(self), c)
                &&& pool_same(*final(self), c)
            }),
    {
        if self.payloads.contains_key(txid) {
            return Err(String::from_str("claim_dge: payload already applied"));
        }
        if self.decimals < 0 || self.decimals > 19 {
            return Err(String::from_str("claim_dge: decimals out of range"));
        }
        let ghost dec = self.decimals as nat;
        let unit = pow10_u64(self.decimals as u32);
        let (rate, max_drop, dropped, pool, duration, repeat) = match self.dges.get(claim_id) {
            Some(g) => {
                proof {
                    assert(g.wf());
                }
                (g.sats_rate, g.max_drop, g.current_amount_dropped, g.pool_amount, g.drip_duration,
                    g.single_drop && g.donaters.contains_key(donater))
            },
            None => return Err(String::from_str("claim_dge: dge claim id not found")),
        };
        if repeat {
            return Err(String::from_str("claim_dge: donater already exists"));
        }
        if rate == 0 {
            return Err(String::from_str("claim_dge: zero rate"));
        }
        let scaled: u64 = match donation.checked_mul(unit) {
            Some(v) => v,
            None => return Err(String::from_str("claim_dge: donation overflow")),
        };
        if scaled as u128 > mul_wide(max_drop, rate) {
            return Err(String::from_str("claim_dge: donation over maximum limit"));
        }
        let tokens = scaled / rate;
        if tokens == 0 {
            return Err(String::from_str("claim_dge: token allocation is zero"));
        }
        if dropped > pool {
            return Err(String::from_str("claim_dge: pool exhausted"));
        }
        let amt: u64 = if tokens >= pool - dropped { pool - dropped } else { tokens };
        if duration == 0 || current_block_height > u64::MAX - (duration - 1) {
            return Err(String::from_str("claim_dge: invalid drip duration"));
        }
        let total = self.owners.amount_sum();
        if amt > u64::MAX - total {
            return Err(String::from_str("claim_dge: balance overflow"));
        }
        let ghost c = *self;
        let drip_amt = amt / duration;
        proof {
            assert(drip_amt <= amt) by (nonlinear_arith)
                requires drip_amt == amt / duration, duration > 0;
        }
        let d = Drip {
            block_end: current_block_height + (duration - 1),
            drip_amount: drip_amt,
            amount: amt,
            start_block: current_block_height,
            last_block_dripped: current_block_height,
        };
        proof {
            assert(d == new_drip(amt, duration, current_block_height));
        }
        add_drip(&mut self.drips, reciever_utxo, d);
        credit_in(&mut self.owners, reciever_utxo, drip_amt);
        let mut g = self.dges.remove(claim_id).unwrap();
        g.current_amount_dropped = dropped + amt;
        if g.single_drop {
            g.donaters.insert(donater.clone(), donation);
        }
        self.dges.insert(claim_id.clone(), g);
        record_payload(&mut self.payloads, txid, payload);
        proof {
            assert(self.dges@.remove(claim_id@) =~= c.dges@.remove(claim_id@));
            assert forall|k: Seq<char>| #[trigger] self.dges@.contains_key(k) implies self.dges@[k].wf() by {
                if k != claim_id@ {
                    assert(c.dges@.contains_key(k));
                }
            }
        }
        let bal: u64 = match self.owners.get(reciever_utxo) {
            Some(v) => *v,
            None => 0,
        };
        Ok((reciever_utxo.clone(), bal))
    }
}

impl SCL01Contract {
    /// Exercises the right to mint held by `rtm`: `mint_amount` new tokens go
    /// to `reciever`, what is left of the allowance moves to `change_utxo`, and
    /// the right at `rtm` is used up. Returns the receiver, its balance, and
    /// whether it has drips.
    pub fn right_to_mint(&mut self, txid: &String, payload: &String, rtm: &String, reciever: &String, change_utxo: &String, mint_amount: &u64) -> (r: Result<(String, u64, bool), String>)
        requires
            old(self).wf(),
        ensures
            final(self).wf(),
            r.is_ok() == ({
                let c = *old(self);
                &&& !c.payloads@.contains_key(txid@)
                &&& c.right_to_mint@.contains_key(rtm@)
                &&& *mint_amount <= c.right_to_mint@[rtm@]
                &&& c.supply + *mint_amount <= u64::MAX
                &&& owners_total(c.owners) + *mint_amount <= u64::MAX
            }),
            r.is_err() ==> *final(self) == *old(self),
            r matches Ok(v) ==> ({
                let c = *old(self);
                let allowance = c.right_to_mint@[rtm@];
                let rights = if allowance > *mint_amount {
                    c.right_to_mint@.insert(change_utxo@, (allowance - *mint_amount) as u64)
                } else {
                    c.right_to_mint@
                };
                &&& final(self).right_to_mint@ == rights.remove(rtm@)
                &&& final(self).owners@ == credit(c.owners@, reciever@, *mint_amount as int)
                &&& final(self).supply == c.supply + *mint_amount
                &&& v.0@ == reciever@
                &&& v.1 as int == owned(final(self).owners@, reciever@)
                &&& v.2 == c.drips@.contains_key(reciever@)
                &&& payload_view(final(self).payloads) == payload_view(c.payloads).insert(txid@, payload@)
                &&& final(self).drips == c.drips
                &&& final(self).diminishing_airdrops == c.diminishing_airdrops
                &&& final(self).dges == c.dges
                &&& final(self).pending_claims == c.pending_claims
                &&& ident_same(*final(self), c)
                &&& market_same(*final(self), c)
                &&& pool_same(*final(self), c)
            }),
    {
        if self.payloads.contains_key(txid) {
            return Err(String::from_str("right_to_mint: payload already applied"));
        }
        let allowance: u64 = match self.right_to_mint.get(rtm) {
            Some(a) => *a,
            None => return Err(String::from_str("right_to_mint: rights not found")),
        };
        if *mint_amount > allowance {
            return Err(String::from_str("right_to_mint: mint amount is more than the allowance"));
        }
        let total = self.owners.amount_sum();
        if *mint_amount > u64::MAX - self.supply || *mint_amount > u64::MAX - total {
            return Err(String::from_str("right_to_mint: supply overflow"));
        }
        if allowance > *mint_amount {
            self.right_to_mint.insert(change_utxo.clone(), allowance - *mint_amount);
        }
        self.right_to_mint.remove(rtm);
        credit_in(&mut self.owners, reciever, *mint_amount);
        self.supply = self.supply + *mint_amount;
        record_payload(&mut self.payloads, txid, payload);
        let bal: u64 = match self.owners.get(reciever) {
            Some(v) => *v,
            None => 0,
        };
        Ok((reciever.clone(), bal, self.drips.contains_key(reciever)))
    }

    /// Claims one airdrop for `receiver`. The claim that would be the last one
    /// is only queued for the final split. Otherwise the airdrop amount is
    /// credited at once, or held as a pending claim when `pending`, and the
    /// supply grows by it. Returns the receiver's balance counting the claim
    /// (the airdrop amount alone for a queued claim).
    pub fn airdop(&mut self, txid: &String, payload: &String, receiver: &String, pending: bool) -> (r: Result<u64, String>)
        requires
            old(self).wf(),
        ensures
            final(self).wf(),
            r.is_ok() == ({
                let c = *old(self);
                &&& !c.payloads@.contains_key(txid@)
                &&& c.current_airdrops is Some && c.airdrop_amount is Some && c.total_airdrops is Some
                &&& c.current_airdrops->Some_0 < c.total_airdrops->Some_0
                &&& c.supply + c.airdrop_amount->Some_0 <= u64::MAX
                &&& owners_total(c.owners) + c.airdrop_amount->Some_0 <= u64::MAX
            }),
            r.is_err() ==> *final(self) == *old(self),
            r matches Ok(v) ==> ({
                let c = *old(self);
                let amt = c.airdrop_amount->Some_0;
                let cur = c.current_airdrops->Some_0;
                let last = cur + 1 == c.total_airdrops->Some_0;
                &&& payload_view(final(self).payloads) == payload_view(c.payloads).insert(txid@, payload@)
                &&& last ==> {
                    &&& v == amt
                    &&& final(self).last_airdrop_split is Some
                    &&& final(self).last_airdrop_split->Some_0@.map_values(|s: String| s@) == match c.last_airdrop_split {
                        Some(l) => l@.map_values(|s: String| s@),
                        None => Seq::<Seq<char>>::empty(),
                    }.push(receiver@)
                    &&& final(self).owners == c.owners
                    &&& final(self).supply == c.supply
                    &&& final(self).current_airdrops == c.current_airdrops
                    &&& final(self).pending_claims == c.pending_claims
                }
                &&& !last ==> {
                    &&& v == owned(c.owners@, receiver@) + amt
                    &&& final(self).current_airdrops == Some((cur + 1) as u64)
                    &&& final(self).supply == c.supply + amt
                    &&& final(self).last_airdrop_split == c.last_airdrop_split
                    &&& pending ==> final(self).owners == c.owners
                        && final(self).pending_claims@ == c.pending_claims@.insert(receiver@, amt)
                    &&& !pending ==> final(self).owners@ == credit(c.owners@, receiver@, amt as int)
                        && final(self).pending_claims@ == c.pending_claims@.remove(receiver@)
                }
                &&& final(self).drips == c.drips
                &&& final(self).airdrop_amount == c.airdrop_amount
                &&& final(self).total_airdrops == c.total_airdrops
                &&& final(self).diminishing_airdrops == c.diminishing_airdrops
                &&& final(self).dges == c.dges
                &&& final(self).right_to_mint == c.right_to_mint
                &&& final(self).max_supply == c.max_supply
                &&& ident_same(*final(self), c)
                &&& market_same(*final(self), c)
                &&& pool_same(*final(self), c)
            }),
    {
        if self.payloads.contains_key(txid) {
            return Err(String::from_str("airdop: payload already applied"));
        }
        let (cur, amt, total_drops) = match (self.current_airdrops, self.airdrop_amount, self.total_airdrops) {
            (Some(a), Some(b), Some(t)) => (a, b, t),
            _ => return Err(String::from_str("airdop: no airdrops")),
        };
        if cur >= total_drops {
            return Err(String::from_str("airdop: contract has reached max supply"));
        }
        let total = self.owners.amount_sum();
        if amt > u64::MAX - self.supply || amt > u64::MAX - total {
            return Err(String::from_str("airdop: supply overflow"));
        }
        record_payload(&mut self.payloads, txid, payload);
        if cur + 1 == total_drops {
            let mut split: Vec<String> = match self.last_airdrop_split.take() {
                Some(l) => l,
                None => Vec::new(),
            };
            let ghost before = split@;
            split.push(receiver.clone());
            proof {
                assert(split@.map_values(|s: String| s@) =~= before.map_values(|s: String| s@).push(receiver@));
            }
            self.last_airdrop_split = Some(split);
            return Ok(amt);
        }
        let prior: u64 = match self.owners.get(receiver) {
            Some(v) => *v,
            None => 0,
        };
        proof {
            self.owners.lemma_total_bounds(|v: u64| v as int);
        }
        if pending {
            self.pending_claims.insert(receiver.clone(), amt);
        } else {
            self.pending_claims.remove(receiver);
            credit_in(&mut self.owners, receiver, amt);
        }
        self.current_airdrops = Some(cur + 1);
        self.supply = self.supply + amt;
        Ok(prior + amt)
    }

    /// Completes the airdrop: one airdrop's worth is split evenly among the
    /// queued receivers, the airdrop count reaches its total, and the supply
    /// becomes the maximum supply. Returns each receiver with its share.
    pub fn airdop_split(&mut self) -> (r: Result<Vec<(String, u64)>, String>)
        requires
            old(self).wf(),
        ensures
            final(self).wf(),
            r.is_ok() == ({
                let c = *old(self);
                &&& c.max_supply is Some && c.airdrop_amount is Some
                &&& c.last_airdrop_split is Some ==> c.last_airdrop_split->Some_0@.len() > 0
                    && owners_total(c.owners) + c.airdrop_amount->Some_0 <= u64::MAX
            }),
            r.is_err() ==> *final(self) == *old(self),
            r matches Ok(v) ==> ({
                let c = *old(self);
                match c.last_airdrop_split {
                    None => v@.len() == 0 && *final(self) == c,
                    Some(l) => {
                        let share = (c.airdrop_amount->Some_0 as int) / (l@.len() as int);
                        &&& v@.len() == l@.len()
                        &&& forall|i: int| 0 <= i < l@.len() ==> (#[trigger] v@[i]).0@ == l@[i]@ && v@[i].1 == share
                        &&& final(self).owners@ == credit_all(c.owners@, v@.map_values(|e: (String, u64)| (e.0@, e.1)))
                        &&& final(self).current_airdrops == c.total_airdrops
                        &&& final(self).last_airdrop_split is None
                        &&& final(self).supply == c.max_supply->Some_0
                        &&& final(self).payloads == c.payloads
                        &&& final(self).drips == c.drips
                        &&& final(self).pending_claims == c.pending_claims
                        &&& ident_same(*final(self), c)
                        &&& market_same(*final(self), c)
                        &&& pool_same(*final(self), c)
                    },
                }
            }),
    {
        let max_supply = match self.max_supply {
            Some(m) => m,
            None => return Err(String::from_str("airdop_split: no max supply")),
        };
        let amt = match self.airdrop_amount {
            Some(a) => a,
            None => return Err(String::from_str("airdop_split: no airdrops")),
        };
        let n = match &self.last_airdrop_split {
            Some(l) => l.len(),
            None => return Ok(Vec::new()),
        };
        if n == 0 {
            return Err(String::from_str("airdop_split: no receivers"));
        }
        let total = self.owners.amount_sum();
        if amt > u64::MAX - total {
            return Err(String::from_str("airdop_split: balance overflow"));
        }
        let list = self.last_airdrop_split.take().unwrap();
        let share = amt / (n as u64);
        proof {
            assert(share * n <= amt) by (nonlinear_arith)
                requires share == (amt as int) / (n as int), n > 0;
        }
        let mut shares: Vec<(String, u64)> = Vec::new();
        let mut i: usize = 0;
        while i < n
            invariant
                i <= n == list@.len(),
                share * n <= amt,
                shares@.len() == i,
                forall|j: int| 0 <= j < i ==> (#[trigger] shares@[j]).0@ == list@[j]@ && shares@[j].1 == share,
                sum_outputs(outputs(shares@)) == share * i,
            decreases n - i,
        {
            let ghost before = shares@;
            shares.push((list[i].clone(), share));
            proof {
                assert(outputs(shares@).drop_last() =~= outputs(before));
                assert(share * (i + 1) == share * i + share) by (nonlinear_arith);
            }
            i = i + 1;
        }
        proof {
            assert(share * n <= amt);
            assert(outputs(shares@) =~= shares@.map_values(|e: (String, u64)| (e.0@, e.1)));
        }
        credit_outputs(&mut self.owners, &shares);
        self.current_airdrops = self.total_airdrops;
        self.supply = max_supply;
        Ok(shares)
    }
}

/// Payloads apply once: once the log holds a txid, every operation that takes
/// it is rejected, and a rejected operation leaves the state as it was (each
/// operation's contract says so), so applying the same `(txid, payload)` twice
/// gives the state after the first.
pub proof fn lemma_replay_rejected(c: SCL01Contract, txid: Seq<char>, senders: Seq<String>, receivers: Seq<(String, u64)>, amt: u64, gs: Seq<(Seq<char>, (u64, u64))>, block: u64, id: Seq<char>, donater: Seq<char>, pending: bool)
    requires
        payload_view(c.payloads).contains_key(txid),
    ensures
        c.payloads@.contains_key(txid),
        !transfer_ok(c, txid, senders, receivers),
        !burn_ok(c, txid, senders, amt),
        !list_ok(c, txid, senders, amt),
        !start_drip_ok(c, txid, senders, gs, block),
        !reserve_ok(c, txid, senders, amt),
        !dim_claim_ok(c, txid, id, donater, pending),
        !dge_claim_ok(c, txid, id, donater, amt, block),
{
}

/// The owners and drips once `amount` of the senders' tokens leaves them and
/// the rest, with the senders' drips, goes to `change`.
pub open spec fn set_aside(c: SCL01Contract, d: SCL01Contract, senders: Seq<String>, amount: u64, change: Seq<char>, block: u64) -> bool {
    let s = sum_owned(c.owners@, strs(senders));
    &&& d.owners@ == credit(without(c.owners@, strs(senders)), change, s - amount)
    &&& drip_view(d.drips) == moved_drips(drip_view(c.drips), strs(senders), change, block)
    &&& owners_total(d.owners) == owners_total(c.owners) - amount
}

/// Tokens go into a pool's reserve: the txid is new, the senders hold tokens,
/// at least `amount`, and the reserve can count them.
pub open spec fn pool_in_ok(c: SCL01Contract, txid: Seq<char>, senders: Seq<String>, amount: u64) -> bool {
    let s = sum_owned(c.owners@, strs(senders));
    let held: int = match c.liquidated_tokens {
        Some(t) => t as int,
        None => 0,
    };
    &&& !c.payloads@.contains_key(txid)
    &&& s > 0
    &&& amount <= s
    &&& held + amount <= u64::MAX
}

impl SCL01Contract {
    fn move_out(&mut self, senders: &Vec<String>, s: u64, amount: u64, change: &String, block: u64) -> (moved: bool)
        requires
            old(self).wf(),
            s == sum_owned(old(self).owners@, strs(senders@)),
            amount <= s,
        ensures
            final(self).wf(),
            set_aside(*old(self), *final(self), senders@, amount, change@, block),
            moved == has_drips(drip_view(old(self).drips), strs(senders@), block),
            final(self).payloads == old(self).payloads,
            final(self).supply == old(self).supply,
            final(self).liquidated_tokens == old(self).liquidated_tokens,
            final(self).liquidity_pool == old(self).liquidity_pool,
            ident_same(*final(self), *old(self)),
            market_same(*final(self), *old(self)),
            drops_same(*final(self), *old(self)),
    {
        let ghost c = *self;
        remove_all(&mut self.owners, senders);
        let moved = take_drips_of(&mut self.drips, senders, block);
        let has_moved = moved.len() > 0;
        let ghost d1 = drip_view(self.drips);
        if has_moved {
            self.drips.insert(change.clone(), moved);
            proof {
                assert(drip_view(self.drips) =~= d1.insert(change@, take_drips(drip_view(c.drips), strs(senders@), block).1));
            }
        }
        credit_in(&mut self.owners, change, s - amount);
        has_moved
    }

    fn pool_in(&mut self, txid: &String, payload: &String, sender_utxos: &Vec<String>, amount: u64, change_utxo: &String, block_height: u64) -> (r: Result<(String, u64, bool), String>)
        requires
            old(self).wf(),
        ensures
            final(self).wf(),
            r.is_ok() == pool_in_ok(*old(self), txid@, sender_utxos@, amount),
            r.is_err() ==> *final(self) == *old(self),
            r matches Ok(v) ==> ({
                let c = *old(self);
                let s = sum_owned(c.owners@, strs(sender_utxos@));
                &&& set_aside(c, *final(self), sender_utxos@, amount, change_utxo@, block_height)
                &&& final(self).liquidated_tokens == Some((match c.liquidated_tokens { Some(t) => t as int, None => 0 } + amount) as u64)
                &&& v.0@ == change_utxo@ && v.1 == s - amount
                &&& v.2 == has_drips(drip_view(c.drips), strs(sender_utxos@), block_height)
                &&& payload_view(final(self).payloads) == payload_view(c.payloads).insert(txid@, payload@)
                &&& final(self).supply == c.supply
                &&& final(self).liquidity_pool == c.liquidity_pool
                &&& ident_same(*final(self), c)
                &&& market_same(*final(self), c)
                &&& drops_same(*final(self), c)
            }),
    {
        if self.payloads.contains_key(txid) {
            return Err(String::from_str("payload already applied"));
        }
        let s = self.owned_sum(sender_utxos);
        if s == 0 {
            return Err(String::from_str("owner amount is zero"));
        }
        if amount > s {
            return Err(String::from_str("owner amount is less than the amount"));
        }
        let held: u64 = match self.liquidated_tokens {
            Some(t) => t,
            None => 0,
        };
        if amount > u64::MAX - held {
            return Err(String::from_str("reserve overflow"));
        }
        let moved = self.move_out(sender_utxos, s, amount, change_utxo, block_height);
        self.liquidated_tokens = Some(held + amount);
        record_payload(&mut self.payloads, txid, payload);
        Ok((change_utxo.clone(), s - amount, moved))
    }

    /// Moves `liquidation_amount` of the senders' tokens into the reserve held
    /// for a liquidity pool; the rest, and the senders' drips, go to `txid:1`
    /// (`txid:2` for the pool's second contract). Returns the change UTXO, the
    /// change, and whether drips moved there.
    pub fn provide_liquidity(&mut self, txid: &String, payload: &String, sender_utxos: &Vec<String>, liquidation_amount: u64, block_height: u64, is_contract_1: bool) -> (r: Result<(String, u64, bool), String>)
        requires
            old(self).wf(),
        ensures
            final(self).wf(),
            r.is_ok() == pool_in_ok(*old(self), txid@, sender_utxos@, liquidation_amount),
            r.is_err() ==> *final(self) == *old(self),
            r matches Ok(v) ==> ({
                let c = *old(self);
                let change = out_utxo(txid@, if is_contract_1 { '1' } else { '2' });
                &&& set_aside(c, *final(self), sender_utxos@, liquidation_amount, change, block_height)
                &&& final(self).liquidated_tokens == Some((match c.liquidated_tokens { Some(t) => t as int, None => 0 } + liquidation_amount) as u64)
                &&& v.0@ == change
                &&& v.1 == sum_owned(c.owners@, strs(sender_utxos@)) - liquidation_amount
                &&& payload_view(final(self).payloads) == payload_view(c.payloads).insert(txid@, payload@)
                &&& final(self).supply == c.supply
                &&& final(self).liquidity_pool == c.liquidity_pool
                &&& ident_same(*final(self), c)
                &&& market_same(*final(self), c)
                &&& drops_same(*final(self), c)
            }),
    {
        let change = utxo_string(txid, if is_contract_1 { '1' } else { '2' });
        self.pool_in(txid, payload, sender_utxos, liquidation_amount, &change, block_height)
    }

    /// Takes the `swap_amount` that the senders put into a swap out of their
    /// balances into the pool's reserve; the rest goes to `txid:1`.
    pub fn swap_claim(&mut self, txid: &String, payload: &String, sender_utxos: &Vec<String>, swap_amount: u64, block_height: u64) -> (r: Result<(String, u64, bool), String>)
        requires
            old(self).wf(),
        ensures
            final(self).wf(),
            r.is_ok() == pool_in_ok(*old(self), txid@, sender_utxos@, swap_amount),
            r.is_err() ==> *final(self) == *old(self),
            r matches Ok(v) ==> ({
                let c = *old(self);
                let change = out_utxo(txid@, '1');
                &&& set_aside(c, *final(self), sender_utxos@, swap_amount, change, block_height)
                &&& final(self).liquidated_tokens == Some((match c.liquidated_tokens { Some(t) => t as int, None => 0 } + swap_amount) as u64)
                &&& v.0@ == change
                &&& v.1 == sum_owned(c.owners@, strs(sender_utxos@)) - swap_amount
                &&& payload_view(final(self).payloads) == payload_view(c.payloads).insert(txid@, payload@)
                &&& final(self).supply == c.supply
                &&& final(self).liquidity_pool == c.liquidity_pool
                &&& ident_same(*final(self), c)
                &&& market_same(*final(self), c)
                &&& drops_same(*final(self), c)
            }),
    {
        let change = utxo_string(txid, '1');
        self.pool_in(txid, payload, sender_utxos, swap_amount, &change, block_height)
    }

    fn pool_out(&mut self, txid: &String, payload: &String, amount: u64, receiver: &String) -> (r: Result<(String, u64, bool), String>)
        requires
            old(self).wf(),
        ensures
            final(self).wf(),
            r.is_ok() == ({
                let c = *old(self);
                &&& !c.payloads@.contains_key(txid@)
                &&& c.liquidated_tokens is Some
                &&& amount <= c.liquidated_tokens->Some_0
                &&& owners_total(c.owners) + amount <= u64::MAX
            }),
            r.is_err() ==> *final(self) == *old(self),
            r matches Ok(v) ==> ({
                let c = *old(self);
                &&& final(self).owners@ == credit(c.owners@, receiver@, amount as int)
                &&& final(self).liquidated_tokens == Some((c.liquidated_tokens->Some_0 - amount) as u64)
                &&& v.0@ == receiver@
                &&& v.1 as int == owned(final(self).owners@, receiver@)
                &&& v.2 == c.drips@.contains_key(receiver@)
                &&& payload_view(final(self).payloads) == payload_view(c.payloads).insert(txid@, payload@)
                &&& final(self).drips == c.drips
                &&& final(self).supply == c.supply
                &&& final(self).liquidity_pool == c.liquidity_pool
                &&& ident_same(*final(self), c)
                &&& market_same(*final(self), c)
                &&& drops_same(*final(self), c)
            }),
    {
        if self.payloads.contains_key(txid) {
            return Err(String::from_str("payload already applied"));
        }
        let held = match self.liquidated_tokens {
            Some(t) => t,
            None => return Err(String::from_str("contract has no lp tokens assigned")),
        };
        if amount > held {
            return Err(String::from_str("amount is more than the reserve"));
        }
        let total = self.owners.amount_sum();
        if amount > u64::MAX - total {
            return Err(String::from_str("balance overflow"));
        }
        credit_in(&mut self.owners, receiver, amount);
        self.liquidated_tokens = Some(held - amount);
        record_payload(&mut self.payloads, txid, payload);
        let bal: u64 = match self.owners.get(receiver) {
            Some(v) => *v,
            None => 0,
        };
        Ok((receiver.clone(), bal, self.drips.contains_key(receiver)))
    }

    /// Pays out `swap_amount` from the pool's reserve to `txid:0`; a zero
    /// amount (a swap outside its tolerance) is an error.
    pub fn swap_recieve(&mut self, txid: &String, payload: &String, swap_amount: u64) -> (r: Result<(String, u64), String>)
        requires
            old(self).wf(),
        ensures
            final(self).wf(),
            r.is_ok() == ({
                let c = *old(self);
                &&& swap_amount > 0
                &&& !c.payloads@.contains_key(txid@)
                &&& c.liquidated_tokens is Some
                &&& swap_amount <= c.liquidated_tokens->Some_0
                &&& owners_total(c.owners) + swap_amount <= u64::MAX
            }),
            r.is_err() ==> *final(self) == *old(self),
            r matches Ok(v) ==> ({
                let c = *old(self);
                &&& final(self).owners@ == credit(c.owners@, out_utxo(txid@, '0'), swap_amount as int)
                &&& final(self).liquidated_tokens == Some((c.liquidated_tokens->Some_0 - swap_amount) as u64)
                &&& v.0@ == out_utxo(txid@, '0') && v.1 == swap_amount
                &&& payload_view(final(self).payloads) == payload_view(c.payloads).insert(txid@, payload@)
                &&& final(self).drips == c.drips
                &&& final(self).supply == c.supply
                &&& ident_same(*final(self), c)
                &&& market_same(*final(self), c)
                &&& drops_same(*final(self), c)
            }),
    {
        if swap_amount == 0 {
            return Err(String::from_str("swap_recieve: swap was not within tolerance"));
        }
        let receiver = utxo_string(txid, '0');
        match self.pool_out(txid, payload, swap_amount, &receiver) {
            Ok(_) => Ok((receiver, swap_amount)),
            Err(e) => Err(e),
        }
    }

    /// Releases `amount` from the pool's reserve to `txid:1` (`txid:2` for the
    /// pool's second contract). Returns the receiver, its balance, and whether
    /// it has drips.
    pub fn liquidate_position(&mut self, txid: &String, payload: &String, amount: u64, is_contract_1: bool) -> (r: Result<(String, u64, bool), String>)
        requires
            old(self).wf(),
        ensures
            final(self).wf(),
            r.is_ok() == ({
                let c = *old(self);
                &&& !c.payloads@.contains_key(txid@)
                &&& c.liquidated_tokens is Some
                &&& amount <= c.liquidated_tokens->Some_0
                &&& owners_total(c.owners) + amount <= u64::MAX
            }),
            r.is_err() ==> *final(self) == *old(self),
            r matches Ok(v) ==> ({
                let c = *old(self);
                let receiver = out_utxo(txid@, if is_contract_1 { '1' } else { '2' });
                &&& final(self).owners@ == credit(c.owners@, receiver, amount as int)
                &&& final(self).liquidated_tokens == Some((c.liquidated_tokens->Some_0 - amount) as u64)
                &&& v.0@ == receiver
                &&& v.1 as int == owned(final(self).owners@, receiver)
                &&& v.2 == c.drips@.contains_key(receiver)
                &&& payload_view(final(self).payloads) == payload_view(c.payloads).insert(txid@, payload@)
                &&& final(self).drips == c.drips
                &&& final(self).supply == c.supply
                &&& ident_same(*final(self), c)
                &&& market_same(*final(self), c)
                &&& drops_same(*final(self), c)
            }),
    {
        let receiver = utxo_string(txid, if is_contract_1 { '1' } else { '2' });
        self.pool_out(txid, payload, amount, &receiver)
    }
}

impl SCL01Contract {
    /// Rebinds the senders' tokens, spent by a transaction that carried no
    /// command, to that transaction's output: the whole balance and the drips
    /// go to the last receiver. Returns whether it has drips, and the balance moved.
    pub fn consolidate(&mut self, txid: &String, payload: &String, sender_utxos: &Vec<String>, receivers: &Vec<String>, current_block_height: u64) -> (r: Result<(bool, u64), String>)
        requires
            old(self).wf(),
        ensures
            final(self).wf(),
            r.is_ok() == (!old(self).payloads@.contains_key(txid@) && receivers@.len() > 0
                && sum_owned(old(self).owners@, strs(sender_utxos@)) > 0),
            r.is_err() ==> *final(self) == *old(self),
            r matches Ok(v) ==> ({
                let c = *old(self);
                let last = receivers@.last()@;
                &&& set_aside(c, *final(self), sender_utxos@, 0, last, current_block_height)
                &&& v.1 == sum_owned(c.owners@, strs(sender_utxos@))
                &&& v.0 == final(self).drips@.contains_key(last)
                &&& payload_view(final(self).payloads) == payload_view(c.payloads).insert(txid@, payload@)
                &&& final(self).supply == c.supply
                &&& conserved(c) ==> conserved(*final(self))
                &&& pool_same(*final(self), c)
                &&& ident_same(*final(self), c)
                &&& market_same(*final(self), c)
                &&& drops_same(*final(self), c)
            }),
    {
        if self.payloads.contains_key(txid) {
            return Err(String::from_str("consolidate: payload already applied"));
        }
        if receivers.len() == 0 {
            return Err(String::from_str("consolidate: no receiver"));
        }
        let s = self.owned_sum(sender_utxos);
        if s == 0 {
            return Err(String::from_str("consolidate: owner amount is zero"));
        }
        let last = &receivers[receivers.len() - 1];
        self.move_out(sender_utxos, s, 0, last, current_block_height);
        record_payload(&mut self.payloads, txid, payload);
        Ok((self.drips.contains_key(last), s))
    }
}

/// A UTXO whose index record the sweep clears: a void listing's, or the
/// reserved UTXO of a bid that goes.
pub open spec fn swept(c: SCL01Contract, spent: Seq<String>, x: Seq<char>) -> bool {
    (exists|k: Seq<char>| #[trigger] order_void(c, spent, k) && c.listings@[k].list_utxo@ == x)
    || (exists|k: Seq<char>| #[trigger] c.bids@.contains_key(k)
        && (order_void(c, spent, c.bids@[k].order_id@) || is_spent(spent, c.bids@[k].reseved_utxo@))
        && c.bids@[k].reseved_utxo@ == x)
}

proof fn lemma_push_holds(v: Seq<String>, s: String)
    ensures
        holds_str(v.push(s), s@),
        forall|y: Seq<char>| holds_str(v, y) ==> #[trigger] holds_str(v.push(s), y),
{
    assert(v.push(s)[v.len() as int] == s);
    assert forall|y: Seq<char>| holds_str(v, y) implies #[trigger] holds_str(v.push(s), y) by {
        let q = choose|q: int| 0 <= q < v.len() && (#[trigger] v[q])@ == y;
        assert(v.push(s)[q] == v[q]);
    }
}

/// Whether `u` is among the spent UTXOs.
pub open spec fn is_spent(spent: Seq<String>, u: Seq<char>) -> bool {
    exists|i: int| 0 <= i < spent.len() && (#[trigger] spent[i])@ == u
}

/// A listing whose UTXO was spent outside the protocol is void, unless an
/// accepted bid on it still holds its reserved UTXO (its trade is under way).
pub open spec fn order_void(c: SCL01Contract, spent: Seq<String>, order: Seq<char>) -> bool {
    &&& c.listings@.contains_key(order)
    &&& is_spent(spent, c.listings@[order].list_utxo@)
    &&& !(exists|k: Seq<char>| #[trigger] c.fulfillments@.contains_key(k) && c.fulfillments@[k]@ == order
        && c.bids@.contains_key(k) && !is_spent(spent, c.bids@[k].reseved_utxo@))
}

fn spent_has(spent: &Vec<String>, u: &String) -> (r: bool)
    ensures
        r == is_spent(spent@, u@),
{
    let mut i: usize = 0;
    while i < spent.len()
        invariant
            i <= spent@.len(),
            forall|j: int| 0 <= j < i ==> (#[trigger] spent@[j])@ != u@,
        decreases spent@.len() - i,
    {
        if spent[i] == *u {
            return true;
        }
        i = i + 1;
    }
    false
}

impl SCL01Contract {
    fn order_void_exec(&self, spent: &Vec<String>, order: &String) -> (r: bool)
        requires
            self.wf(),
        ensures
            r == order_void(*self, spent@, order@),
    {
        let lu = match self.listings.get(order) {
            Some(l) => l.list_utxo.clone(),
            None => return false,
        };
        if !spent_has(spent, &lu) {
            return false;
        }
        let keys = self.fulfillments.keys();
        let mut i: usize = 0;
        while i < keys.len()
            invariant
                i <= keys@.len(),
                self.wf(),
                keys@.len() == self.fulfillments.key_seq().len(),
                forall|j: int| 0 <= j < keys@.len() ==> #[trigger] keys@[j]@ == self.fulfillments.key_seq()[j],
                forall|k: Seq<char>| #![trigger self.fulfillments@.contains_key(k)] self.fulfillments@.contains_key(k) <==> self.fulfillments.key_seq().contains(k),
                forall|j: int| 0 <= j < i ==> !(self.fulfillments@[(#[trigger] keys@[j])@]@ == order@
                    && self.bids@.contains_key(keys@[j]@) && !is_spent(spent@, self.bids@[keys@[j]@].reseved_utxo@)),
            decreases keys@.len() - i,
        {
            proof {
                assert(self.fulfillments.key_seq().contains(keys@[i as int]@));
            }
            let o = self.fulfillments.get(&keys[i]).unwrap();
            if *o == *order {
                match self.bids.get(&keys[i]) {
                    Some(b) => {
                        if !spent_has(spent, &b.reseved_utxo) {
                            return false;
                        }
                    },
                    None => {},
                }
            }
            i = i + 1;
        }
        proof {
            assert forall|k: Seq<char>| #[trigger] self.fulfillments@.contains_key(k) && self.fulfillments@[k]@ == order@
                && self.bids@.contains_key(k) implies is_spent(spent@, self.bids@[k].reseved_utxo@) by {
                let j = choose|j: int| 0 <= j < self.fulfillments.key_seq().len() && self.fulfillments.key_seq()[j] == k;
                assert(keys@[j]@ == k);
            }
        }
        true
    }

    /// Clears what UTXOs spent outside the protocol leave behind: void
    /// listings (see `order_void`) go with their bids and those bids'
    /// fulfilments, and so does every bid whose reserved UTXO is spent.
    /// Returns the UTXOs whose index records go.
    pub fn remove_spent(&mut self, spent: &Vec<String>) -> (r: Vec<String>)
        requires
            old(self).wf(),
        ensures
            final(self).wf(),
            ({
                let c = *old(self);
                &&& final(self).listings@ == c.listings@.restrict(c.listings@.dom().filter(|k: Seq<char>| !order_void(c, spent@, k)))
                &&& final(self).bids@ == c.bids@.restrict(c.bids@.dom().filter(|k: Seq<char>|
                    !order_void(c, spent@, c.bids@[k].order_id@) && !is_spent(spent@, c.bids@[k].reseved_utxo@)))
                &&& final(self).fulfillments@ == c.fulfillments@.restrict(c.fulfillments@.dom().filter(|k: Seq<char>|
                    !(c.bids@.contains_key(k) && order_void(c, spent@, c.bids@[k].order_id@))))
                &&& final(self).owners == c.owners
                &&& final(self).payloads == c.payloads
                &&& final(self).drips == c.drips
                &&& final(self).supply == c.supply
                &&& ident_same(*final(self), c)
                &&& drops_same(*final(self), c)
                &&& pool_same(*final(self), c)
                &&& forall|i: int| 0 <= i < r@.len() ==> swept(c, spent@, (#[trigger] r@[i])@)
                &&& forall|x: Seq<char>| #[trigger] swept(c, spent@, x) ==> holds_str(r@, x)
            }),
    {
        let ghost c = *self;
        let mut cleared: Vec<String> = Vec::new();
        // the void orders, judged on the state as it was
        let lkeys = self.listings.keys();
        let mut void: Vec<String> = Vec::new();
        let mut i: usize = 0;
        while i < lkeys.len()
            invariant
                i <= lkeys@.len(),
                *self == c,
                c.wf(),
                lkeys@.len() == c.listings.key_seq().len(),
                forall|j: int| 0 <= j < lkeys@.len() ==> #[trigger] lkeys@[j]@ == c.listings.key_seq()[j],
                forall|k: Seq<char>| #![trigger c.listings@.contains_key(k)] c.listings@.contains_key(k) <==> c.listings.key_seq().contains(k),
                forall|j: int| 0 <= j < void@.len() ==> order_void(c, spent@, (#[trigger] void@[j])@),
                forall|j: int| 0 <= j < i && order_void(c, spent@, (#[trigger] lkeys@[j])@) ==> seen(void@, void@.len() as int, lkeys@[j]@),
            decreases lkeys@.len() - i,
        {
            if self.order_void_exec(spent, &lkeys[i]) {
                let ghost v0 = void@;
                void.push(lkeys[i].clone());
                proof {
                    assert forall|j: int| 0 <= j < i + 1 && order_void(c, spent@, (#[trigger] lkeys@[j])@) implies seen(void@, void@.len() as int, lkeys@[j]@) by {
                        if j < i {
                            let q = choose|q: int| 0 <= q < v0.len() && (#[trigger] v0[q])@ == lkeys@[j]@;
                            assert(void@[q] == v0[q]);
                        } else {
                            assert(void@[v0.len() as int]@ == lkeys@[j]@);
                        }
                    }
                }
            }
            i = i + 1;
        }
        proof {
            assert forall|k: Seq<char>| order_void(c, spent@, k) implies #[trigger] seen(void@, void@.len() as int, k) by {
                assert(c.listings.key_seq().contains(k));
                let j = choose|j: int| 0 <= j < c.listings.key_seq().len() && c.listings.key_seq()[j] == k;
                assert(lkeys@[j]@ == k);
            }
            assert forall|k: Seq<char>| #[trigger] seen(void@, void@.len() as int, k) implies order_void(c, spent@, k) by {
                let q = choose|q: int| 0 <= q < void@.len() && (#[trigger] void@[q])@ == k;
            }
        }
        // drop the void listings
        let mut j: usize = 0;
        while j < void.len()
            invariant
                j <= void@.len(),
                self.listings.wf(),
                forall|k: Seq<char>| order_void(c, spent@, k) <==> #[trigger] seen(void@, void@.len() as int, k),
                self.listings@ == c.listings@.restrict(c.listings@.dom().filter(|k: Seq<char>| !seen(void@, j as int, k))),
                forall|q: int| 0 <= q < cleared@.len() ==> swept(c, spent@, (#[trigger] cleared@[q])@),
                forall|k: Seq<char>| #[trigger] seen(void@, j as int, k) ==> holds_str(cleared@, c.listings@[k].list_utxo@),
                self.bids == c.bids,
                self.fulfillments == c.fulfillments,
                self.owners == c.owners,
                self.payloads == c.payloads,
                self.drips == c.drips,
                self.supply == c.supply,
                ident_same(*self, c),
                drops_same(*self, c),
                pool_same(*self, c),
                c.wf(),
            decreases void@.len() - j,
        {
            let ghost before = self.listings@;
            let ghost cl0 = cleared@;
            let ghost kj = void@[j as int]@;
            proof {
                assert(seen(void@, void@.len() as int, kj)) by {
                    assert(void@[j as int]@ == kj);
                }
                assert(order_void(c, spent@, kj));
            }
            match self.listings.remove(&void[j]) {
                Some(l) => {
                    proof {
                        lemma_push_holds(cl0, l.list_utxo);
                        assert(l == c.listings@[kj]);
                    }
                    cleared.push(l.list_utxo);
                },
                None => {
                    proof {
                        assert(seen(void@, j as int, kj));
                    }
                },
            }
            proof {
                assert forall|k: Seq<char>| #[trigger] seen(void@, j + 1, k) <==> (seen(void@, j as int, k) || k == void@[j as int]@) by {
                    if seen(void@, j + 1, k) {
                        let q = choose|q: int| 0 <= q < j + 1 && (#[trigger] void@[q])@ == k;
                        if q < j {
                            assert(seen(void@, j as int, k));
                        }
                    }
                    if k == void@[j as int]@ {
                        assert(void@[j as int]@ == k);
                    }
                    if seen(void@, j as int, k) {
                        let q = choose|q: int| 0 <= q < j && (#[trigger] void@[q])@ == k;
                        assert(0 <= q < j + 1);
                    }
                }
                assert(self.listings@ =~= c.listings@.restrict(c.listings@.dom().filter(|k: Seq<char>| !seen(void@, j + 1, k))));
                assert forall|k: Seq<char>| #[trigger] seen(void@, j + 1, k) implies holds_str(cleared@, c.listings@[k].list_utxo@) by {
                    if k != kj {
                        assert(seen(void@, j as int, k));
                    }
                }
            }
            j = j + 1;
        }
        proof {
            assert(self.listings@ =~= c.listings@.restrict(c.listings@.dom().filter(|k: Seq<char>| !order_void(c, spent@, k))));
            assert forall|k: Seq<char>| #[trigger] order_void(c, spent@, k) implies holds_str(cleared@, c.listings@[k].list_utxo@) by {
                assert(seen(void@, void@.len() as int, k));
            }
        }
        // drop the bids on void orders or with a spent reserved UTXO
        let bkeys = self.bids.keys();
        let mut i: usize = 0;
        while i < bkeys.len()
            invariant
                i <= bkeys@.len(),
                self.bids.wf(),
                self.fulfillments.wf(),
                c.wf(),
                bkeys@.len() == c.bids.key_seq().len(),
                forall|a: int, b: int| 0 <= a < bkeys@.len() && 0 <= b < bkeys@.len() && a != b ==> bkeys@[a]@ != bkeys@[b]@,
                forall|q: int| 0 <= q < bkeys@.len() ==> #[trigger] bkeys@[q]@ == c.bids.key_seq()[q],
                forall|k: Seq<char>| #![trigger c.bids@.contains_key(k)] c.bids@.contains_key(k) <==> c.bids.key_seq().contains(k),
                forall|k: Seq<char>| order_void(c, spent@, k) <==> #[trigger] seen(void@, void@.len() as int, k),
                self.bids@ == c.bids@.restrict(c.bids@.dom().filter(|k: Seq<char>| !(seen(bkeys@, i as int, k)
                    && (order_void(c, spent@, c.bids@[k].order_id@) || is_spent(spent@, c.bids@[k].reseved_utxo@))))),
                self.fulfillments@ == c.fulfillments@.restrict(c.fulfillments@.dom().filter(|k: Seq<char>| !(seen(bkeys@, i as int, k)
                    && c.bids@.contains_key(k) && order_void(c, spent@, c.bids@[k].order_id@)))),
                self.listings@ == c.listings@.restrict(c.listings@.dom().filter(|k: Seq<char>| !order_void(c, spent@, k))),
                self.listings.wf(),
                forall|q: int| 0 <= q < cleared@.len() ==> swept(c, spent@, (#[trigger] cleared@[q])@),
                forall|k: Seq<char>| #[trigger] order_void(c, spent@, k) ==> holds_str(cleared@, c.listings@[k].list_utxo@),
                forall|k: Seq<char>| #[trigger] seen(bkeys@, i as int, k) && c.bids@.contains_key(k)
                    && (order_void(c, spent@, c.bids@[k].order_id@) || is_spent(spent@, c.bids@[k].reseved_utxo@))
                    ==> holds_str(cleared@, c.bids@[k].reseved_utxo@),
                self.owners == c.owners,
                self.payloads == c.payloads,
                self.drips == c.drips,
                self.supply == c.supply,
                ident_same(*self, c),
                drops_same(*self, c),
                pool_same(*self, c),
            decreases bkeys@.len() - i,
        {
            let ghost k0 = bkeys@[i as int]@;
            proof {
                assert(c.bids.key_seq().contains(k0));
                assert(!seen(bkeys@, i as int, k0)) by {
                    if seen(bkeys@, i as int, k0) {
                        let q = choose|q: int| 0 <= q < i && (#[trigger] bkeys@[q])@ == k0;
                    }
                }
            }
            let (order, reserved) = match self.bids.get(&bkeys[i]) {
                Some(b) => (b.order_id.clone(), b.reseved_utxo.clone()),
                None => {
                    proof {
                        assert(false);
                    }
                    (String::new(), String::new())
                },
            };
            let order_gone = spent_has(&void, &order);
            let gone = order_gone || spent_has(spent, &reserved);
            proof {
                assert(order_gone == seen(void@, void@.len() as int, order@)) by {
                    if order_gone {
                        let q = choose|q: int| 0 <= q < void@.len() && (#[trigger] void@[q])@ == order@;
                    }
                }
            }
            let ghost cl0 = cleared@;
            proof {
                assert(c.bids@.contains_key(k0));
            }
            if gone {
                self.bids.remove(&bkeys[i]);
                proof {
                    lemma_push_holds(cl0, reserved);
                    assert(swept(c, spent@, reserved@));
                }
                cleared.push(reserved);
            }
            if order_gone {
                self.fulfillments.remove(&bkeys[i]);
            }
            proof {
                assert forall|k: Seq<char>| #[trigger] seen(bkeys@, i + 1, k) <==> (seen(bkeys@, i as int, k) || k == k0) by {
                    if seen(bkeys@, i + 1, k) {
                        let q = choose|q: int| 0 <= q < i + 1 && (#[trigger] bkeys@[q])@ == k;
                        if q < i {
                            assert(seen(bkeys@, i as int, k));
                        }
                    }
                    if k == k0 {
                        assert(bkeys@[i as int]@ == k);
                    }
                    if seen(bkeys@, i as int, k) {
                        let q = choose|q: int| 0 <= q < i && (#[trigger] bkeys@[q])@ == k;
                        assert(0 <= q < i + 1);
                    }
                }
                assert(self.bids@ =~= c.bids@.restrict(c.bids@.dom().filter(|k: Seq<char>| !(seen(bkeys@, i + 1, k)
                    && (order_void(c, spent@, c.bids@[k].order_id@) || is_spent(spent@, c.bids@[k].reseved_utxo@))))));
                assert(self.fulfillments@ =~= c.fulfillments@.restrict(c.fulfillments@.dom().filter(|k: Seq<char>| !(seen(bkeys@, i + 1, k)
                    && c.bids@.contains_key(k) && order_void(c, spent@, c.bids@[k].order_id@)))));
                assert forall|k: Seq<char>| #[trigger] seen(bkeys@, i + 1, k) && c.bids@.contains_key(k)
                    && (order_void(c, spent@, c.bids@[k].order_id@) || is_spent(spent@, c.bids@[k].reseved_utxo@))
                    implies holds_str(cleared@, c.bids@[k].reseved_utxo@) by {
                    if k != k0 {
                        assert(seen(bkeys@, i as int, k));
                    }
                }
            }
            i = i + 1;
        }
        proof {
            assert forall|k: Seq<char>| c.bids@.contains_key(k) implies #[trigger] seen(bkeys@, bkeys@.len() as int, k) by {
                let q = choose|q: int| 0 <= q < c.bids.key_seq().len() && c.bids.key_seq()[q] == k;
                assert(bkeys@[q]@ == k);
            }
            assert(self.bids@ =~= c.bids@.restrict(c.bids@.dom().filter(|k: Seq<char>|
                !order_void(c, spent@, c.bids@[k].order_id@) && !is_spent(spent@, c.bids@[k].reseved_utxo@))));
            assert(self.fulfillments@ =~= c.fulfillments@.restrict(c.fulfillments@.dom().filter(|k: Seq<char>|
                !(c.bids@.contains_key(k) && order_void(c, spent@, c.bids@[k].order_id@)))));
            assert forall|x: Seq<char>| #[trigger] swept(c, spent@, x) implies holds_str(cleared@, x) by {
                if exists|k: Seq<char>| #[trigger] order_void(c, spent@, k) && c.listings@[k].list_utxo@ == x {
                    let k = choose|k: Seq<char>| #[trigger] order_void(c, spent@, k) && c.listings@[k].list_utxo@ == x;
                } else {
                    let k = choose|k: Seq<char>| #[trigger] c.bids@.contains_key(k)
                        && (order_void(c, spent@, c.bids@[k].order_id@) || is_spent(spent@, c.bids@[k].reseved_utxo@))
                        && c.bids@[k].reseved_utxo@ == x;
                    assert(seen(bkeys@, bkeys@.len() as int, k));
                }
            }
        }
        cleared
    }
}

/// The drip that `start_drip` leaves at a receiver (a single `new_drip`) is
/// paid its whole amount by the first block's payment and one `drip` payout at
/// its last block (`dues` is what `drip` credits, `kept` what it keeps), after
/// which nothing of it is kept.
pub proof fn lemma_started_drip_pays_in_full(amount: u64, duration: u64, block: u64)
    requires
        duration > 0,
        block + duration - 1 <= u64::MAX,
    ensures
        ({
            let d = new_drip(amount, duration, block);
            let end = (block + duration - 1) as u64;
            &&& d.drip_amount + dues(seq![d], end) == amount
            &&& kept(seq![d], end).len() == 0
        }),
{
    let d = new_drip(amount, duration, block);
    let end = (block + duration - 1) as u64;
    lemma_drip_pays_in_full(amount, duration, block);
    assert(seq![d].drop_last() =~= Seq::<Drip>::empty());
    assert(seq![d].last() == d);
    assert(dues(Seq::<Drip>::empty(), end) == 0);
    assert(dues(seq![d], end) == dues(seq![d].drop_last(), end) + drip_due(seq![d].last(), end));
    assert(!drip_runs(d, end));
    assert(kept(seq![d], end) == kept(seq![d].drop_last(), end));
    assert(kept(Seq::<Drip>::empty(), end).len() == 0);
}

} // verus!
