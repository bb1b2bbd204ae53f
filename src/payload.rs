//! Reading the fields of command payloads.
use vstd::prelude::*;

use crate::text::{chars_of, decimal, digit_char, digit_value, digits_value, is_digit, string_from_chars};
use crate::textops::{
    all_digits, drop_char_exec, drop_chars, find_exec, lemma_digits_prefix_le, rfind, rfind_exec, slice_vec, parse_u64, parse_u64_exec, replace,
    replace_exec, split, split_exec, strip_exec, strip_special, occurs_at, find_from, rfind_from, split_from,
    unsigned_part, is_special,
};

verus! {

/// A field cleaned of brackets, braces and spaces.
pub open spec fn field(s: Seq<char>) -> Seq<char> {
    strip_special(s)
}

/// A field cleaned, with `TXID` standing for the enclosing transaction's id.
pub open spec fn utxo_field(s: Seq<char>, txid: Seq<char>) -> Seq<char> {
    replace(strip_special(s), "TXID"@, txid)
}

/// What follows the first occurrence of `kw`, up to the next one.
pub open spec fn after(p: Seq<char>, kw: Seq<char>) -> Option<Seq<char>> {
    let parts = split(p, kw);
    if parts.len() >= 2 { Some(parts[1]) } else { None }
}

/// The pieces of `s` cut at commas.
pub open spec fn fields(s: Seq<char>) -> Seq<Seq<char>> {
    split(s, ","@)
}

/// An output written `utxo(amount)`, with `TXID` replaced first.
pub open spec fn output_item(item: Seq<char>, txid: Seq<char>) -> Option<(Seq<char>, u64)> {
    let x = strip_special(replace(item, "TXID"@, txid));
    let d = split(x, "("@);
    if d.len() < 2 {
        None
    } else {
        match parse_u64(drop_chars(d[1], ')')) {
            Some(a) => Some((d[0], a)),
            None => None,
        }
    }
}

/// All the outputs of a list, when every one reads.
pub open spec fn output_items(items: Seq<Seq<char>>, txid: Seq<char>) -> Option<Seq<(Seq<char>, u64)>>
    decreases items.len(),
{
    if items.len() == 0 {
        Some(Seq::empty())
    } else {
        match (output_items(items.drop_last(), txid), output_item(items.last(), txid)) {
            (Some(a), Some(b)) => Some(a.push(b)),
            _ => None,
        }
    }
}

pub open spec fn str_views(v: Seq<String>) -> Seq<Seq<char>> {
    v.map_values(|s: String| s@)
}

pub open spec fn pair_views(v: Seq<(String, u64)>) -> Seq<(Seq<char>, u64)> {
    v.map_values(|e: (String, u64)| (e.0@, e.1))
}

/// Each piece cleaned.
pub open spec fn cleaned(ps: Seq<Seq<char>>) -> Seq<Seq<char>> {
    ps.map_values(|p: Seq<char>| strip_special(p))
}

pub(crate) fn vec_of(s: &str) -> (r: Vec<char>)
    ensures
        r@ == s@,
{
    chars_of(s)
}

pub(crate) fn text(v: &Vec<char>) -> (r: String)
    ensures
        r@ == v@,
{
    string_from_chars(v)
}

pub(crate) fn after_exec(p: &Vec<char>, kw: &Vec<char>) -> (r: Option<Vec<char>>)
    requires
        kw@.len() > 0,
    ensures
        match r {
            Some(v) => after(p@, kw@) == Some(v@),
            None => after(p@, kw@) is None,
        },
{
    let parts = split_exec(p, kw);
    if parts.len() < 2 {
        return None;
    }
    proof {
        assert(parts@.map_values(|q: Vec<char>| q@)[1] == parts@[1]@);
    }
    Some(slice_all(&parts[1]))
}

fn slice_all(v: &Vec<char>) -> (r: Vec<char>)
    ensures
        r@ == v@,
{
    let mut r: Vec<char> = Vec::new();
    let mut i: usize = 0;
    while i < v.len()
        invariant
            i <= v@.len(),
            r@ == v@.subrange(0, i as int),
        decreases v@.len() - i,
    {
        r.push(v[i]);
        proof {
            assert(v@.subrange(0, i + 1) =~= v@.subrange(0, i as int).push(v@[i as int]));
        }
        i = i + 1;
    }
    assert(v@.subrange(0, v@.len() as int) =~= v@);
    r
}

pub(crate) fn fields_exec(s: &Vec<char>) -> (r: Vec<Vec<char>>)
    ensures
        r@.map_values(|p: Vec<char>| p@) == fields(s@),
        r@.len() >= 1,
{
    let comma = vec_of(",");
    proof {
        reveal_strlit(",");
    }
    split_exec(s, &comma)
}

fn utxo_field_exec(s: &Vec<char>, txid: &Vec<char>) -> (r: String)
    ensures
        r@ == utxo_field(s@, txid@),
{
    let t = vec_of("TXID");
    proof {
        reveal_strlit("TXID");
    }
    let f = strip_exec(s);
    text(&replace_exec(&f, &t, txid))
}

pub(crate) fn field_exec(s: &Vec<char>) -> (r: String)
    ensures
        r@ == field(s@),
{
    text(&strip_exec(s))
}

fn number_field(s: &Vec<char>) -> (r: Option<u64>)
    ensures
        r == parse_u64(strip_special(s@)),
{
    parse_u64_exec(&strip_exec(s))
}

fn output_item_exec(item: &Vec<char>, txid: &Vec<char>) -> (r: Option<(String, u64)>)
    ensures
        match r {
            Some(o) => output_item(item@, txid@) == Some((o.0@, o.1)),
            None => output_item(item@, txid@) is None,
        },
{
    let t = vec_of("TXID");
    let open = vec_of("(");
    proof {
        reveal_strlit("TXID");
        reveal_strlit("(");
    }
    let x = strip_exec(&replace_exec(item, &t, txid));
    let d = split_exec(&x, &open);
    if d.len() < 2 {
        return None;
    }
    proof {
        assert(d@.map_values(|q: Vec<char>| q@)[0] == d@[0]@);
        assert(d@.map_values(|q: Vec<char>| q@)[1] == d@[1]@);
    }
    let amt = parse_u64_exec(&drop_char_exec(&d[1], ')'));
    match amt {
        Some(a) => Some((text(&d[0]), a)),
        None => None,
    }
}

fn output_items_exec(items: &Vec<Vec<char>>, txid: &Vec<char>) -> (r: Option<Vec<(String, u64)>>)
    ensures
        match r {
            Some(v) => output_items(items@.map_values(|p: Vec<char>| p@), txid@) == Some(pair_views(v@)),
            None => output_items(items@.map_values(|p: Vec<char>| p@), txid@) is None,
        },
{
    let ghost iv = items@.map_values(|p: Vec<char>| p@);
    let mut out: Vec<(String, u64)> = Vec::new();
    let mut i: usize = 0;
    while i < items.len()
        invariant
            i <= items@.len(),
            iv == items@.map_values(|p: Vec<char>| p@),
            output_items(iv.subrange(0, i as int), txid@) == Some(pair_views(out@)),
        decreases items@.len() - i,
    {
        proof {
            assert(iv.subrange(0, i + 1).drop_last() =~= iv.subrange(0, i as int));
            assert(iv[i as int] == items@[i as int]@);
        }
        match output_item_exec(&items[i], txid) {
            Some(o) => {
                let ghost before = out@;
                out.push(o);
                proof {
                    assert(pair_views(out@) =~= pair_views(before).push((o.0@, o.1)));
                }
            },
            None => {
                proof {
                    lemma_output_items_fail(iv, i + 1, txid@);
                }
                return None;
            },
        }
        i = i + 1;
    }
    assert(iv.subrange(0, items@.len() as int) =~= iv);
    Some(out)
}

proof fn lemma_output_items_fail(items: Seq<Seq<char>>, n: int, txid: Seq<char>)
    requires
        0 <= n <= items.len(),
        output_items(items.subrange(0, n), txid) is None,
    ensures
        output_items(items, txid) is None,
    decreases items.len() - n,
{
    if n < items.len() {
        assert(items.subrange(0, n + 1).drop_last() =~= items.subrange(0, n));
        lemma_output_items_fail(items, n + 1, txid);
    } else {
        assert(items.subrange(0, n) =~= items);
    }
}

fn cleaned_exec(ps: &Vec<Vec<char>>) -> (r: Vec<String>)
    ensures
        str_views(r@) == cleaned(ps@.map_values(|p: Vec<char>| p@)),
{
    let mut out: Vec<String> = Vec::new();
    let mut i: usize = 0;
    while i < ps.len()
        invariant
            i <= ps@.len(),
            out@.len() == i,
            forall|j: int| 0 <= j < i ==> (#[trigger] out@[j])@ == strip_special(ps@[j]@),
        decreases ps@.len() - i,
    {
        out.push(field_exec(&ps[i]));
        i = i + 1;
    }
    assert(str_views(out@) =~= cleaned(ps@.map_values(|p: Vec<char>| p@)));
    out
}

/// The first position at or after `i` whose character is not in `cs` (the length if none).
pub open spec fn first_kept(s: Seq<char>, cs: Seq<char>, i: int) -> int
    decreases s.len() - i,
{
    if i < 0 || i >= s.len() {
        s.len() as int
    } else if !cs.contains(s[i]) {
        i
    } else {
        first_kept(s, cs, i + 1)
    }
}

/// The last position at or before `j` whose character is not in `cs` (-1 if none).
pub open spec fn last_kept(s: Seq<char>, cs: Seq<char>, j: int) -> int
    decreases j + 1,
{
    if j < 0 || j >= s.len() {
        -1
    } else if !cs.contains(s[j]) {
        j
    } else {
        last_kept(s, cs, j - 1)
    }
}

/// `input` with the characters of `chars` cut from both ends; empty when
/// every character is one of them.
pub open spec fn trimmed(input: Seq<char>, chars: Seq<char>) -> Seq<char> {
    if first_kept(input, chars, 0) >= input.len() {
        Seq::empty()
    } else {
        input.subrange(first_kept(input, chars, 0), last_kept(input, chars, input.len() - 1) + 1)
    }
}

/// Cuts the characters of `chars` from both ends of `input`.
pub fn trim_chars<'a>(input: &'a str, chars: &'a str) -> (r: &'a str)
    ensures
        r@ == trimmed(input@, chars@),
{
    let s = vec_of(input);
    let c = vec_of(chars);
    let n = s.len();
    let mut a: usize = 0;
    while a < n && contains_char(&c, s[a])
        invariant
            a <= n == s@.len(),
            s@ == input@,
            c@ == chars@,
            first_kept(input@, chars@, 0) == first_kept(input@, chars@, a as int),
            forall|j: int| 0 <= j < a ==> chars@.contains(#[trigger] input@[j]),
        decreases n - a,
    {
        a = a + 1;
    }
    if a == n {
        let e = input.substring_char(0, 0);
        proof {
            assert(e@ =~= Seq::<char>::empty());
        }
        return e;
    }
    let mut b: usize = n - 1;
    while b > a && contains_char(&c, s[b])
        invariant
            a <= b < n == s@.len(),
            s@ == input@,
            c@ == chars@,
            !chars@.contains(input@[a as int]),
            last_kept(input@, chars@, n - 1) == last_kept(input@, chars@, b as int),
        decreases b,
    {
        b = b - 1;
    }
    input.substring_char(a, b + 1)
}

fn contains_char(c: &Vec<char>, x: char) -> (r: bool)
    ensures
        r == c@.contains(x),
{
    let mut i: usize = 0;
    while i < c.len()
        invariant
            i <= c@.len(),
            forall|j: int| 0 <= j < i ==> c@[j] != x,
        decreases c@.len() - i,
    {
        if c[i] == x {
            proof {
                assert(c@[i as int] == x);
            }
            return true;
        }
        i = i + 1;
    }
    false
}

/// The field cleaned of brackets, closing braces and spaces.
pub fn replace_payload_special_characters(input: &String) -> (r: String)
    ensures
        r@ == strip_special(input@),
{
    field_exec(&vec_of(input.as_str()))
}

/// The contract id at the head of a command: what comes before the first `:`, without `{`.
pub fn extract_contract_id(payload: &str) -> (r: Result<String, String>)
    ensures
        r matches Ok(v) && v@ == drop_chars(split(payload@, ":"@)[0], '{'),
{
    let colon = vec_of(":");
    proof {
        reveal_strlit(":");
    }
    let words = split_exec(&vec_of(payload), &colon);
    proof {
        assert(words@.map_values(|q: Vec<char>| q@)[0] == words@[0]@);
    }
    Ok(text(&drop_char_exec(&words[0], '{')))
}

/// The amount of a single-amount command `kw[amount]`.
pub open spec fn amount_after(p: Seq<char>, kw: Seq<char>) -> Option<u64> {
    match after(p, kw) {
        Some(rest) => parse_u64(strip_special(rest)),
        None => None,
    }
}

fn amount_after_exec(payload: &str, kw: &str) -> (r: Result<u64, String>)
    requires
        kw@.len() > 0,
    ensures
        match r {
            Ok(v) => amount_after(payload@, kw@) == Some(v),
            Err(_) => amount_after(payload@, kw@) is None,
        },
{
    let k = vec_of(kw);
    match after_exec(&vec_of(payload), &k) {
        Some(rest) => match number_field(&rest) {
            Some(v) => Ok(v),
            None => Err(String::from_str("Not valid payload")),
        },
        None => Err(String::from_str("Invalid liquidity pool payload")),
    }
}

/// The amount of a liquidity provision `PLP[amount]`.
pub fn handle_provide_liquidity_payload_lp(payload: &str) -> (r: Result<u64, String>)
    ensures
        match r {
            Ok(v) => amount_after(payload@, "PLP["@) == Some(v),
            Err(_) => amount_after(payload@, "PLP["@) is None,
        },
{
    proof {
        reveal_strlit("PLP[");
    }
    amount_after_exec(payload, "PLP[")
}

/// The amount of a position withdrawal `LLP[amount]`.
pub fn handle_liquidatation_payload_lp(payload: &str) -> (r: Result<u64, String>)
    ensures
        match r {
            Ok(v) => amount_after(payload@, "LLP["@) == Some(v),
            Err(_) => amount_after(payload@, "LLP["@) is None,
        },
{
    proof {
        reveal_strlit("LLP[");
    }
    amount_after_exec(payload, "LLP[")
}

/// The claim id and receiver of a claim `kw claim_id,receiver`.
pub open spec fn claim_fields(p: Seq<char>, kw: Seq<char>, txid: Seq<char>) -> Option<(Seq<char>, Seq<char>)> {
    match after(p, kw) {
        Some(rest) => {
            let f = fields(rest);
            if f.len() >= 2 { Some((strip_special(f[0]), utxo_field(f[1], txid))) } else { None }
        },
        None => None,
    }
}

fn claim_fields_exec(txid: &str, payload: &str, kw: &str) -> (r: Result<(String, String), String>)
    requires
        kw@.len() > 0,
    ensures
        match r {
            Ok(v) => claim_fields(payload@, kw@, txid@) == Some((v.0@, v.1@)),
            Err(_) => claim_fields(payload@, kw@, txid@) is None,
        },
{
    let k = vec_of(kw);
    let rest = match after_exec(&vec_of(payload), &k) {
        Some(rest) => rest,
        None => return Err(String::from_str("Invalid claim payload")),
    };
    let f = fields_exec(&rest);
    if f.len() < 2 {
        return Err(String::from_str("Invalid claim payload"));
    }
    proof {
        assert(f@.map_values(|q: Vec<char>| q@)[0] == f@[0]@);
        assert(f@.map_values(|q: Vec<char>| q@)[1] == f@[1]@);
    }
    Ok((field_exec(&f[0]), utxo_field_exec(&f[1], &vec_of(txid))))
}

/// The claim id and receiver of `CLAIM_DIMAIRDROP claim_id,receiver`.
pub fn handle_claim_diminishing_airdrop_payload(txid: &str, payload: &str) -> (r: Result<(String, String), String>)
    ensures
        match r {
            Ok(v) => claim_fields(payload@, "CLAIM_DIMAIRDROP"@, txid@) == Some((v.0@, v.1@)),
            Err(_) => claim_fields(payload@, "CLAIM_DIMAIRDROP"@, txid@) is None,
        },
{
    proof {
        reveal_strlit("CLAIM_DIMAIRDROP");
    }
    claim_fields_exec(txid, payload, "CLAIM_DIMAIRDROP")
}

/// The claim id and receiver of `CLAIM_DGE claim_id,receiver`.
pub fn handle_claim_dge_payload(txid: &str, payload: &str) -> (r: Result<(String, String), String>)
    ensures
        match r {
            Ok(v) => claim_fields(payload@, "CLAIM_DGE"@, txid@) == Some((v.0@, v.1@)),
            Err(_) => claim_fields(payload@, "CLAIM_DGE"@, txid@) is None,
        },
{
    proof {
        reveal_strlit("CLAIM_DGE");
    }
    claim_fields_exec(txid, payload, "CLAIM_DGE")
}

/// The fields of `RIGHTTOMINT rights_utxo,receiver,change,amount`.
pub open spec fn rtm_fields(p: Seq<char>, txid: Seq<char>) -> Option<(Seq<char>, Seq<char>, Seq<char>, u64)> {
    match after(p, "RIGHTTOMINT"@) {
        Some(rest) => {
            let f = fields(rest);
            if f.len() < 4 {
                None
            } else {
                match parse_u64(strip_special(f[3])) {
                    Some(a) => Some((strip_special(f[0]), utxo_field(f[1], txid), utxo_field(f[2], txid), a)),
                    None => None,
                }
            }
        },
        None => None,
    }
}

/// The rights UTXO, receiver, change UTXO and amount of a right-to-mint command.
pub fn handle_rtm_payload(txid: &str, payload: &str) -> (r: Result<(String, String, String, u64), String>)
    ensures
        match r {
            Ok(v) => rtm_fields(payload@, txid@) == Some((v.0@, v.1@, v.2@, v.3)),
            Err(_) => rtm_fields(payload@, txid@) is None,
        },
{
    let k = vec_of("RIGHTTOMINT");
    proof {
        reveal_strlit("RIGHTTOMINT");
    }
    let rest = match after_exec(&vec_of(payload), &k) {
        Some(rest) => rest,
        None => return Err(String::from_str("Invalid rtm payload")),
    };
    let f = fields_exec(&rest);
    if f.len() < 4 {
        return Err(String::from_str("Invalid rtm payload"));
    }
    let ghost fv = f@.map_values(|q: Vec<char>| q@);
    proof {
        assert(fv[0] == f@[0]@ && fv[1] == f@[1]@ && fv[2] == f@[2]@ && fv[3] == f@[3]@);
    }
    let t = vec_of(txid);
    let rights = field_exec(&f[0]);
    let receiver = utxo_field_exec(&f[1], &t);
    let change = utxo_field_exec(&f[2], &t);
    match number_field(&f[3]) {
        Some(a) => Ok((rights, receiver, change, a)),
        None => Err(String::from_str("Failed to parse mint amount")),
    }
}

/// What follows the last `-ExtraInfo-` marker: the trade terms appended last.
pub open spec fn trade_suffix(p: Seq<char>) -> Option<Seq<char>> {
    let i = rfind(p, "-ExtraInfo-"@);
    if i < 0 { None } else { Some(p.subrange(i + 11, p.len() as int)) }
}

/// The bid id, amount and price appended to an accepted trade's payload,
/// read after the last marker.
pub open spec fn trade_fields(p: Seq<char>) -> Option<(Seq<char>, u64, u64)> {
    match trade_suffix(p) {
        Some(rest) => {
            let f = fields(rest);
            if f.len() < 3 {
                None
            } else {
                match (parse_u64(strip_special(f[1])), parse_u64(strip_special(f[2]))) {
                    (Some(a), Some(b)) => Some((strip_special(f[0]), a, b)),
                    _ => None,
                }
            }
        },
        None => None,
    }
}

/// Reads back the trade terms that accepting or fulfilling a bid appends to its payload.
pub fn handle_payload_extra_trade_info(payload: &str) -> (r: Result<(String, u64, u64), String>)
    ensures
        match r {
            Ok(v) => trade_fields(payload@) == Some((v.0@, v.1, v.2)),
            Err(_) => trade_fields(payload@) is None,
        },
{
    let k = vec_of("-ExtraInfo-");
    proof {
        reveal_strlit("-ExtraInfo-");
    }
    let p = vec_of(payload);
    let n = p.len();
    let rest = match rfind_exec(&p, &k) {
        Some(i) => {
            proof {
                assert(k@.len() == 11);
                crate::textops::lemma_rfind_from(p@, k@, p@.len() - k@.len());
            }
            slice_vec(&p, i + 11, n)
        },
        None => return Err(String::from_str("Invalid payload")),
    };
    let f = fields_exec(&rest);
    if f.len() < 3 {
        return Err(String::from_str("Invalid payload"));
    }
    let ghost fv = f@.map_values(|q: Vec<char>| q@);
    proof {
        assert(fv[0] == f@[0]@ && fv[1] == f@[1]@ && fv[2] == f@[2]@);
    }
    let id = field_exec(&f[0]);
    let amount = match number_field(&f[1]) {
        Some(a) => a,
        None => return Err(String::from_str("Invalid payload")),
    };
    match number_field(&f[2]) {
        Some(p) => Ok((id, amount, p)),
        None => Err(String::from_str("Invalid payload")),
    }
}

/// The senders, outputs and last output of
/// `TRANSFER[snd1,snd2,...],[rcv1(amt),rcv2(amt),...]`.
pub open spec fn transfer_fields(p: Seq<char>, txid: Seq<char>) -> Option<(Seq<Seq<char>>, Seq<(Seq<char>, u64)>, Seq<char>)> {
    match after(p, "TRANSFER"@) {
        Some(rest) => {
            let parts = split(rest, "],["@);
            if parts.len() < 2 {
                None
            } else {
                match output_items(fields(parts[1]), txid) {
                    Some(outs) => Some((cleaned(fields(parts[0])), outs,
                        if outs.len() > 0 { outs.last().0 } else { Seq::empty() })),
                    None => None,
                }
            }
        },
        None => None,
    }
}

/// The senders, outputs and last output of a transfer command.
pub fn handle_transfer_payload(txid: &str, payload: &str) -> (r: Result<(Vec<String>, Vec<(String, u64)>, String), String>)
    ensures
        match r {
            Ok(v) => transfer_fields(payload@, txid@) == Some((str_views(v.0@), pair_views(v.1@), v.2@)),
            Err(_) => transfer_fields(payload@, txid@) is None,
        },
{
    let k = vec_of("TRANSFER");
    let sep = vec_of("],[");
    proof {
        reveal_strlit("TRANSFER");
        reveal_strlit("],[");
    }
    let rest = match after_exec(&vec_of(payload), &k) {
        Some(rest) => rest,
        None => return Err(String::from_str("Invalid transfer payload")),
    };
    let parts = split_exec(&rest, &sep);
    if parts.len() < 2 {
        return Err(String::from_str("Invalid transfer payload"));
    }
    let ghost pv = parts@.map_values(|q: Vec<char>| q@);
    proof {
        assert(pv[0] == parts@[0]@ && pv[1] == parts@[1]@);
    }
    let senders = cleaned_exec(&fields_exec(&parts[0]));
    let outs = match output_items_exec(&fields_exec(&parts[1]), &vec_of(txid)) {
        Some(o) => o,
        None => return Err(String::from_str("Invalid transfer payload")),
    };
    let last = if outs.len() > 0 {
        let ghost ov = pair_views(outs@);
        proof {
            assert(ov.last() == (outs@[outs@.len() - 1].0@, outs@[outs@.len() - 1].1));
        }
        outs[outs.len() - 1].0.clone()
    } else {
        String::new()
    };
    Ok((senders, outs, last))
}

/// A list of senders: each field with its brackets removed.
pub open spec fn bracketless(ps: Seq<Seq<char>>) -> Seq<Seq<char>> {
    ps.map_values(|p: Seq<char>| drop_chars(drop_chars(p, '['), ']'))
}

/// The fields of `LIST[s1,...],CHANGE,LIST_UTXO,LIST_AMT,PRICE,PAY_ADDR`:
/// senders, change UTXO, listing UTXO, pay address, amount, price.
pub open spec fn list_fields(p: Seq<char>, txid: Seq<char>) -> Option<(Seq<Seq<char>>, Seq<char>, Seq<char>, Seq<char>, u64, u64)> {
    match after(p, "LIST"@) {
        Some(rest) => {
            let parts = split(rest, "],"@);
            if parts.len() < 2 {
                None
            } else {
                let info = fields(parts[1]);
                if info.len() < 5 {
                    None
                } else {
                    match (parse_u64(strip_special(info[2])), parse_u64(strip_special(info[3]))) {
                        (Some(a), Some(pr)) => Some((bracketless(fields(parts[0])), utxo_field(info[0], txid),
                            utxo_field(info[1], txid), strip_special(info[4]), a, pr)),
                        _ => None,
                    }
                }
            }
        },
        None => None,
    }
}

fn bracketless_exec(ps: &Vec<Vec<char>>) -> (r: Vec<String>)
    ensures
        str_views(r@) == bracketless(ps@.map_values(|p: Vec<char>| p@)),
{
    let mut out: Vec<String> = Vec::new();
    let mut i: usize = 0;
    while i < ps.len()
        invariant
            i <= ps@.len(),
            out@.len() == i,
            forall|j: int| 0 <= j < i ==> (#[trigger] out@[j])@ == drop_chars(drop_chars(ps@[j]@, '['), ']'),
        decreases ps@.len() - i,
    {
        out.push(text(&drop_char_exec(&drop_char_exec(&ps[i], '['), ']')));
        i = i + 1;
    }
    assert(str_views(out@) =~= bracketless(ps@.map_values(|p: Vec<char>| p@)));
    out
}

/// The senders, change UTXO, listing UTXO, pay address, amount and price of a listing command.
pub fn handle_list_payload(txid: &str, payload: &str) -> (r: Result<(Vec<String>, String, String, String, u64, u64), String>)
    ensures
        match r {
            Ok(v) => list_fields(payload@, txid@) == Some((str_views(v.0@), v.1@, v.2@, v.3@, v.4, v.5)),
            Err(_) => list_fields(payload@, txid@) is None,
        },
{
    let k = vec_of("LIST");
    let sep = vec_of("],");
    proof {
        reveal_strlit("LIST");
        reveal_strlit("],");
    }
    let rest = match after_exec(&vec_of(payload), &k) {
        Some(rest) => rest,
        None => return Err(String::from_str("Invalid List payload")),
    };
    let parts = split_exec(&rest, &sep);
    if parts.len() < 2 {
        return Err(String::from_str("Invalid List payload"));
    }
    let ghost pv = parts@.map_values(|q: Vec<char>| q@);
    proof {
        assert(pv[0] == parts@[0]@ && pv[1] == parts@[1]@);
    }
    let senders = bracketless_exec(&fields_exec(&parts[0]));
    let info = fields_exec(&parts[1]);
    if info.len() < 5 {
        return Err(String::from_str("Invalid List payload"));
    }
    let ghost iv = info@.map_values(|q: Vec<char>| q@);
    proof {
        assert(iv[0] == info@[0]@ && iv[1] == info@[1]@ && iv[2] == info@[2]@ && iv[3] == info@[3]@ && iv[4] == info@[4]@);
    }
    let t = vec_of(txid);
    let change = utxo_field_exec(&info[0], &t);
    let listing = utxo_field_exec(&info[1], &t);
    let pay = field_exec(&info[4]);
    let amount = match number_field(&info[2]) {
        Some(a) => a,
        None => return Err(String::from_str("Invalid List payload. Listing amount invalid")),
    };
    match number_field(&info[3]) {
        Some(pr) => Ok((senders, change, listing, pay, amount, pr)),
        None => Err(String::from_str("Invalid List payload. Sell price invalid")),
    }
}

/// One bid `ORDER,AMT,PRICE,RES_UTXO`, when it reads; others are skipped.
pub open spec fn bid_item(s: Seq<char>, txid: Seq<char>) -> Option<(Seq<char>, u64, u64, Seq<char>)> {
    let f = fields(s);
    if f.len() < 4 {
        None
    } else {
        match (parse_u64(strip_special(f[1])), parse_u64(strip_special(f[2]))) {
            (Some(a), Some(pr)) => Some((strip_special(f[0]), a, pr, utxo_field(f[3], txid))),
            _ => None,
        }
    }
}

/// The bids that read, in order.
pub open spec fn bid_items(ps: Seq<Seq<char>>, txid: Seq<char>) -> Seq<(Seq<char>, u64, u64, Seq<char>)>
    decreases ps.len(),
{
    if ps.len() == 0 {
        Seq::empty()
    } else {
        match bid_item(ps.last(), txid) {
            Some(b) => bid_items(ps.drop_last(), txid).push(b),
            None => bid_items(ps.drop_last(), txid),
        }
    }
}

pub open spec fn bid_views(v: Seq<(String, u64, u64, String)>) -> Seq<(Seq<char>, u64, u64, Seq<char>)> {
    v.map_values(|e: (String, u64, u64, String)| (e.0@, e.1, e.2, e.3@))
}

/// The bids of `BID[ORDER,AMT,PRICE,RES_UTXO],...`; a bid that does not read is skipped.
pub fn handle_bid_payload(txid: &str, payload: &str) -> (r: Result<Vec<(String, u64, u64, String)>, String>)
    ensures
        match r {
            Ok(v) => after(payload@, "BID"@) matches Some(rest) && bid_views(v@) == bid_items(split(rest, "],"@), txid@),
            Err(_) => after(payload@, "BID"@) is None,
        },
{
    let k = vec_of("BID");
    let sep = vec_of("],");
    proof {
        reveal_strlit("BID");
        reveal_strlit("],");
    }
    let rest = match after_exec(&vec_of(payload), &k) {
        Some(rest) => rest,
        None => return Err(String::from_str("Invalid Bid payload")),
    };
    let parts = split_exec(&rest, &sep);
    let ghost pv = parts@.map_values(|q: Vec<char>| q@);
    let t = vec_of(txid);
    let mut out: Vec<(String, u64, u64, String)> = Vec::new();
    let mut i: usize = 0;
    while i < parts.len()
        invariant
            i <= parts@.len(),
            pv == parts@.map_values(|q: Vec<char>| q@),
            t@ == txid@,
            bid_views(out@) == bid_items(pv.subrange(0, i as int), txid@),
        decreases parts@.len() - i,
    {
        proof {
            assert(pv.subrange(0, i + 1).drop_last() =~= pv.subrange(0, i as int));
            assert(pv[i as int] == parts@[i as int]@);
        }
        let f = fields_exec(&parts[i]);
        if f.len() >= 4 {
            let ghost fv = f@.map_values(|q: Vec<char>| q@);
            proof {
                assert(fv[0] == f@[0]@ && fv[1] == f@[1]@ && fv[2] == f@[2]@ && fv[3] == f@[3]@);
            }
            match (number_field(&f[1]), number_field(&f[2])) {
                (Some(a), Some(pr)) => {
                    let ghost before = out@;
                    let item = (field_exec(&f[0]), a, pr, utxo_field_exec(&f[3], &t));
                    out.push(item);
                    proof {
                        assert(bid_views(out@) =~= bid_views(before).push((item.0@, item.1, item.2, item.3@)));
                    }
                },
                _ => {},
            }
        }
        i = i + 1;
    }
    assert(pv.subrange(0, parts@.len() as int) =~= pv);
    Ok(out)
}

/// The burners, amount and change UTXO of `BURN[b1,b2,...],AMT,CHANGE_UTXO`.
pub open spec fn burn_fields(p: Seq<char>, txid: Seq<char>) -> Option<(Seq<Seq<char>>, u64, Seq<char>)> {
    match after(p, "BURN"@) {
        Some(rest) => {
            let parts = split(rest, "],"@);
            if parts.len() < 2 {
                None
            } else {
                let info = fields(parts[1]);
                if info.len() < 2 {
                    None
                } else {
                    match parse_u64(strip_special(info[0])) {
                        Some(a) => Some((cleaned(fields(parts[0])), a, utxo_field(info[1], txid))),
                        None => None,
                    }
                }
            }
        },
        None => None,
    }
}

/// The burners, amount and change UTXO of a burn command.
pub fn handle_burn_payload(txid: &str, payload: &str) -> (r: Result<(Vec<String>, u64, String), String>)
    ensures
        match r {
            Ok(v) => burn_fields(payload@, txid@) == Some((str_views(v.0@), v.1, v.2@)),
            Err(_) => burn_fields(payload@, txid@) is None,
        },
{
    let k = vec_of("BURN");
    let sep = vec_of("],");
    proof {
        reveal_strlit("BURN");
        reveal_strlit("],");
    }
    let rest = match after_exec(&vec_of(payload), &k) {
        Some(rest) => rest,
        None => return Err(String::from_str("Invalid burn payload")),
    };
    let parts = split_exec(&rest, &sep);
    if parts.len() < 2 {
        return Err(String::from_str("Invalid burn payload"));
    }
    let ghost pv = parts@.map_values(|q: Vec<char>| q@);
    proof {
        assert(pv[0] == parts@[0]@ && pv[1] == parts@[1]@);
    }
    let burners = cleaned_exec(&fields_exec(&parts[0]));
    let info = fields_exec(&parts[1]);
    if info.len() < 2 {
        return Err(String::from_str("Invalid burn payload"));
    }
    let ghost iv = info@.map_values(|q: Vec<char>| q@);
    proof {
        assert(iv[0] == info@[0]@ && iv[1] == info@[1]@);
    }
    match number_field(&info[0]) {
        Some(a) => Ok((burners, a, utxo_field_exec(&info[1], &vec_of(txid)))),
        None => Err(String::from_str("Invalid burn payload")),
    }
}

/// The character is `lo` or `up`.
pub open spec fn either(c: char, lo: char, up: char) -> bool {
    c == lo || c == up
}

/// `true`, in any case, occurs in `s`.
pub open spec fn says_true(s: Seq<char>) -> bool {
    exists|i: int| 0 <= i && i + 4 <= s.len() && #[trigger] either(s[i], 't', 'T') && either(s[i + 1], 'r', 'R')
        && either(s[i + 2], 'u', 'U') && either(s[i + 3], 'e', 'E')
}

fn says_true_exec(s: &Vec<char>) -> (r: bool)
    ensures
        r == says_true(s@),
{
    let mut i: usize = 0;
    while s.len() >= 4 && i <= s.len() - 4
        invariant
            forall|j: int| 0 <= j < i && j + 4 <= s@.len() ==> !(#[trigger] either(s@[j], 't', 'T') && either(s@[j + 1], 'r', 'R')
                && either(s@[j + 2], 'u', 'U') && either(s@[j + 3], 'e', 'E')),
        decreases s@.len() - i,
    {
        if (s[i] == 't' || s[i] == 'T') && (s[i + 1] == 'r' || s[i + 1] == 'R') && (s[i + 2] == 'u' || s[i + 2] == 'U')
            && (s[i + 3] == 'e' || s[i + 3] == 'E') {
            proof {
                assert(either(s@[i as int], 't', 'T'));
            }
            return true;
        }
        i = i + 1;
    }
    proof {
        assert forall|j: int| 0 <= j && j + 4 <= s@.len() implies !(#[trigger] either(s@[j], 't', 'T') && either(s@[j + 1], 'r', 'R')
            && either(s@[j + 2], 'u', 'U') && either(s@[j + 3], 'e', 'E')) by {
            assert(j < i);
        }
    }
    false
}

/// One grant `utxo(amount,duration)` of a drip command: `None` when it does not
/// read, `Some(None)` when it lacks a duration and is skipped.
pub open spec fn grant_item(item: Seq<char>, txid: Seq<char>) -> Option<Option<(Seq<char>, (u64, u64))>> {
    let x = strip_special(replace(item, "TXID"@, txid));
    let d = split(x, "("@);
    if d.len() < 2 {
        None
    } else {
        let t = fields(drop_chars(d[1], ')'));
        if t.len() < 2 {
            Some(None)
        } else {
            match (parse_u64(t[0]), parse_u64(t[1])) {
                (Some(a), Some(b)) => Some(Some((d[0], (a, b)))),
                _ => None,
            }
        }
    }
}

/// The grants of a drip command, when every one reads.
pub open spec fn grant_items(items: Seq<Seq<char>>, txid: Seq<char>) -> Option<Seq<(Seq<char>, (u64, u64))>>
    decreases items.len(),
{
    if items.len() == 0 {
        Some(Seq::empty())
    } else {
        match (grant_items(items.drop_last(), txid), grant_item(items.last(), txid)) {
            (Some(a), Some(Some(g))) => Some(a.push(g)),
            (Some(a), Some(None)) => Some(a),
            _ => None,
        }
    }
}

pub open spec fn grant_views(v: Seq<(String, (u64, u64))>) -> Seq<(Seq<char>, (u64, u64))> {
    v.map_values(|e: (String, (u64, u64))| (e.0@, e.1))
}

/// The senders, grants and change UTXO of `DRIP[senders],[rec(amt,duration),...],CHANGE`.
pub open spec fn drip_fields(p: Seq<char>, txid: Seq<char>) -> Option<(Seq<Seq<char>>, Seq<(Seq<char>, (u64, u64))>, Seq<char>)> {
    match after(p, "DRIP"@) {
        Some(rest) => {
            let parts = split(rest, "],"@);
            if parts.len() < 3 {
                None
            } else {
                match grant_items(split(parts[1], "),"@), txid) {
                    Some(gs) => Some((cleaned(fields(parts[0])), gs, utxo_field(parts[2], txid))),
                    None => None,
                }
            }
        },
        None => None,
    }
}

fn grant_item_exec(item: &Vec<char>, txid: &Vec<char>) -> (r: Option<Option<(String, (u64, u64))>>)
    ensures
        match r {
            Some(Some(g)) => grant_item(item@, txid@) == Some(Some((g.0@, g.1))),
            Some(None) => grant_item(item@, txid@) == Some(None::<(Seq<char>, (u64, u64))>),
            None => grant_item(item@, txid@) is None,
        },
{
    let t = vec_of("TXID");
    let open = vec_of("(");
    proof {
        reveal_strlit("TXID");
        reveal_strlit("(");
    }
    let x = strip_exec(&replace_exec(item, &t, txid));
    let d = split_exec(&x, &open);
    if d.len() < 2 {
        return None;
    }
    let ghost dv = d@.map_values(|q: Vec<char>| q@);
    proof {
        assert(dv[0] == d@[0]@ && dv[1] == d@[1]@);
    }
    let tf = fields_exec(&drop_char_exec(&d[1], ')'));
    if tf.len() < 2 {
        return Some(None);
    }
    let ghost tv = tf@.map_values(|q: Vec<char>| q@);
    proof {
        assert(tv[0] == tf@[0]@ && tv[1] == tf@[1]@);
    }
    match (parse_u64_exec(&tf[0]), parse_u64_exec(&tf[1])) {
        (Some(a), Some(b)) => Some(Some((text(&d[0]), (a, b)))),
        _ => None,
    }
}

/// The senders, grants (receiver, (amount, duration)) and change UTXO of a drip command.
pub fn handle_drip_payload(txid: &str, payload: &str) -> (r: Result<(Vec<String>, Vec<(String, (u64, u64))>, String), String>)
    ensures
        match r {
            Ok(v) => drip_fields(payload@, txid@) == Some((str_views(v.0@), grant_views(v.1@), v.2@)),
            Err(_) => drip_fields(payload@, txid@) is None,
        },
{
    let k = vec_of("DRIP");
    let sep = vec_of("],");
    let rsep = vec_of("),");
    proof {
        reveal_strlit("DRIP");
        reveal_strlit("],");
        reveal_strlit("),");
    }
    let rest = match after_exec(&vec_of(payload), &k) {
        Some(rest) => rest,
        None => return Err(String::from_str("Invalid drip payload")),
    };
    let parts = split_exec(&rest, &sep);
    if parts.len() < 3 {
        return Err(String::from_str("Invalid drip payload"));
    }
    let ghost pv = parts@.map_values(|q: Vec<char>| q@);
    proof {
        assert(pv[0] == parts@[0]@ && pv[1] == parts@[1]@ && pv[2] == parts@[2]@);
    }
    let t = vec_of(txid);
    let change = utxo_field_exec(&parts[2], &t);
    let senders = cleaned_exec(&fields_exec(&parts[0]));
    let items = split_exec(&parts[1], &rsep);
    let ghost iv = items@.map_values(|q: Vec<char>| q@);
    let mut grants: Vec<(String, (u64, u64))> = Vec::new();
    let mut i: usize = 0;
    while i < items.len()
        invariant
            i <= items@.len(),
            iv == items@.map_values(|q: Vec<char>| q@),
            t@ == txid@,
            after(payload@, "DRIP"@) == Some(rest@),
            pv == split(rest@, "],"@),
            pv.len() >= 3,
            iv == split(pv[1], "),"@),
            str_views(senders@) == cleaned(fields(pv[0])),
            change@ == utxo_field(pv[2], txid@),
            grant_items(iv.subrange(0, i as int), txid@) == Some(grant_views(grants@)),
        decreases items@.len() - i,
    {
        proof {
            assert(iv.subrange(0, i + 1).drop_last() =~= iv.subrange(0, i as int));
            assert(iv[i as int] == items@[i as int]@);
        }
        match grant_item_exec(&items[i], &t) {
            Some(Some(g)) => {
                let ghost before = grants@;
                grants.push(g);
                proof {
                    assert(grant_views(grants@) =~= grant_views(before).push((g.0@, g.1)));
                }
            },
            Some(None) => {},
            None => {
                proof {
                    lemma_grant_items_fail(iv, i + 1, txid@);
                }
                return Err(String::from_str("Invalid Drip payload"));
            },
        }
        i = i + 1;
    }
    assert(iv.subrange(0, items@.len() as int) =~= iv);
    Ok((senders, grants, change))
}

proof fn lemma_grant_items_fail(items: Seq<Seq<char>>, n: int, txid: Seq<char>)
    requires
        0 <= n <= items.len(),
        grant_items(items.subrange(0, n), txid) is None,
    ensures
        grant_items(items, txid) is None,
    decreases items.len() - n,
{
    if n < items.len() {
        assert(items.subrange(0, n + 1).drop_last() =~= items.subrange(0, n));
        lemma_grant_items_fail(items, n + 1, txid);
    } else {
        assert(items.subrange(0, n) =~= items);
    }
}

/// The senders and the seven fields after them of `kw[senders],f0,...,f6`.
pub open spec fn pool_command(p: Seq<char>, kw: Seq<char>) -> Option<(Seq<Seq<char>>, Seq<Seq<char>>)> {
    match after(p, kw) {
        Some(rest) => {
            let parts = split(rest, "],"@);
            if parts.len() < 2 {
                None
            } else {
                let f = fields(parts[1]);
                if f.len() < 7 { None } else { Some((cleaned(fields(parts[0])), f)) }
            }
        },
        None => None,
    }
}

/// The fields of `DIMAIRDROP[senders],pool,step_amount,step_period,max,min,change,single_drop`.
pub open spec fn dim_fields(p: Seq<char>, txid: Seq<char>) -> Option<(Seq<Seq<char>>, u64, u64, u64, u64, u64, Seq<char>, bool)> {
    match pool_command(p, "DIMAIRDROP"@) {
        Some((s, f)) => match (parse_u64(strip_special(f[0])), parse_u64(strip_special(f[1])), parse_u64(strip_special(f[2])),
            parse_u64(strip_special(f[3])), parse_u64(strip_special(f[4]))) {
            (Some(a), Some(b), Some(c), Some(d), Some(e)) => Some((s, a, b, c, d, e, utxo_field(f[5], txid), says_true(strip_special(f[6])))),
            _ => None,
        },
        None => None,
    }
}

/// The fields of `DGE[senders],pool,sats_rate,max_drop,drip_duration,donation_addr,change,single_drop`.
pub open spec fn dge_fields(p: Seq<char>, txid: Seq<char>) -> Option<(Seq<Seq<char>>, u64, u64, u64, u64, Seq<char>, Seq<char>, bool)> {
    match pool_command(p, "DGE"@) {
        Some((s, f)) => match (parse_u64(strip_special(f[0])), parse_u64(strip_special(f[1])), parse_u64(strip_special(f[2])),
            parse_u64(strip_special(f[3]))) {
            (Some(a), Some(b), Some(c), Some(d)) => Some((s, a, b, c, d, strip_special(f[4]), utxo_field(f[5], txid), says_true(strip_special(f[6])))),
            _ => None,
        },
        None => None,
    }
}

fn pool_command_exec(payload: &str, kw: &Vec<char>) -> (r: Option<(Vec<String>, Vec<Vec<char>>)>)
    requires
        kw@.len() > 0,
    ensures
        match r {
            Some(v) => pool_command(payload@, kw@) == Some((str_views(v.0@), v.1@.map_values(|q: Vec<char>| q@))),
            None => pool_command(payload@, kw@) is None,
        },
{
    let sep = vec_of("],");
    proof {
        reveal_strlit("],");
    }
    let rest = match after_exec(&vec_of(payload), kw) {
        Some(rest) => rest,
        None => return None,
    };
    let parts = split_exec(&rest, &sep);
    if parts.len() < 2 {
        return None;
    }
    let ghost pv = parts@.map_values(|q: Vec<char>| q@);
    proof {
        assert(pv[0] == parts@[0]@ && pv[1] == parts@[1]@);
    }
    let senders = cleaned_exec(&fields_exec(&parts[0]));
    let f = fields_exec(&parts[1]);
    if f.len() < 7 {
        return None;
    }
    Some((senders, f))
}

/// The senders, pool, step-down amount, step period, maximum, minimum, change
/// UTXO and single-drop flag of a diminishing airdrop command.
pub fn handle_create_diminishing_airdrop_payload(txid: &str, payload: &str) -> (r: Result<(Vec<String>, u64, u64, u64, u64, u64, String, bool), String>)
    ensures
        match r {
            Ok(v) => dim_fields(payload@, txid@) == Some((str_views(v.0@), v.1, v.2, v.3, v.4, v.5, v.6@, v.7)),
            Err(_) => dim_fields(payload@, txid@) is None,
        },
{
    let k = vec_of("DIMAIRDROP");
    proof {
        reveal_strlit("DIMAIRDROP");
    }
    let (senders, f) = match pool_command_exec(payload, &k) {
        Some(v) => v,
        None => return Err(String::from_str("Invalid dim airdrop payload")),
    };
    let ghost fv = f@.map_values(|q: Vec<char>| q@);
    proof {
        assert(fv[0] == f@[0]@ && fv[1] == f@[1]@ && fv[2] == f@[2]@ && fv[3] == f@[3]@);
        assert(fv[4] == f@[4]@ && fv[5] == f@[5]@ && fv[6] == f@[6]@);
    }
    let pool = match number_field(&f[0]) {
        Some(v) => v,
        None => return Err(String::from_str("Failed to parse pool amount")),
    };
    let step = match number_field(&f[1]) {
        Some(v) => v,
        None => return Err(String::from_str("Failed to parse step down amount")),
    };
    let period = match number_field(&f[2]) {
        Some(v) => v,
        None => return Err(String::from_str("Failed to parse step period amount")),
    };
    let max = match number_field(&f[3]) {
        Some(v) => v,
        None => return Err(String::from_str("Failed to parse max airdrop amount")),
    };
    let min = match number_field(&f[4]) {
        Some(v) => v,
        None => return Err(String::from_str("Failed to parse min airdrop amount")),
    };
    let change = utxo_field_exec(&f[5], &vec_of(txid));
    let single = says_true_exec(&strip_exec(&f[6]));
    Ok((senders, pool, step, period, max, min, change, single))
}

/// The senders, pool, satoshi rate, maximum drop, drip duration, donation
/// address, change UTXO and single-drop flag of a DGE command.
pub fn handle_create_dge_payload(txid: &str, payload: &str) -> (r: Result<(Vec<String>, u64, u64, u64, u64, String, String, bool), String>)
    ensures
        match r {
            Ok(v) => dge_fields(payload@, txid@) == Some((str_views(v.0@), v.1, v.2, v.3, v.4, v.5@, v.6@, v.7)),
            Err(_) => dge_fields(payload@, txid@) is None,
        },
{
    let k = vec_of("DGE");
    proof {
        reveal_strlit("DGE");
    }
    let (senders, f) = match pool_command_exec(payload, &k) {
        Some(v) => v,
        None => return Err(String::from_str("Invalid dge creation payload")),
    };
    let ghost fv = f@.map_values(|q: Vec<char>| q@);
    proof {
        assert(fv[0] == f@[0]@ && fv[1] == f@[1]@ && fv[2] == f@[2]@ && fv[3] == f@[3]@);
        assert(fv[4] == f@[4]@ && fv[5] == f@[5]@ && fv[6] == f@[6]@);
    }
    let pool = match number_field(&f[0]) {
        Some(v) => v,
        None => return Err(String::from_str("Failed to parse pool amount")),
    };
    let rate = match number_field(&f[1]) {
        Some(v) => v,
        None => return Err(String::from_str("Failed to parse sats rate")),
    };
    let max_drop = match number_field(&f[2]) {
        Some(v) => v,
        None => return Err(String::from_str("Failed to parse max drop")),
    };
    let duration = match number_field(&f[3]) {
        Some(v) => v,
        None => return Err(String::from_str("Failed to parse drip duration")),
    };
    let address = field_exec(&f[4]);
    let change = utxo_field_exec(&f[5], &vec_of(txid));
    let single = says_true_exec(&strip_exec(&f[6]));
    Ok((senders, pool, rate, max_drop, duration, address, change, single))
}

/// The ticker, decimals and rights of `SCL03:TICKER,DEC,[utxo1(amt1),utxo2(amt2),...]`.
pub open spec fn mint_rtm_fields(p: Seq<char>, txid: Seq<char>) -> Option<(Seq<char>, u64, Seq<(Seq<char>, u64)>)> {
    match after(p, "SCL03:"@) {
        Some(rest) => {
            let m = fields(rest);
            let rs = split(rest, ",["@);
            if m.len() < 2 || rs.len() < 2 {
                None
            } else {
                match (parse_u64(strip_special(m[1])), output_items(fields(rs[1]), txid)) {
                    (Some(d), Some(rights)) => Some((strip_special(m[0]), d, rights)),
                    _ => None,
                }
            }
        },
        None => None,
    }
}

/// The ticker, decimals and rights to mint (UTXO, allowance) of an SCL03 mint command.
pub fn handle_mint_rtm_payload(payload: &str, txid: &str) -> (r: Result<(String, u64, Vec<(String, u64)>), String>)
    ensures
        match r {
            Ok(v) => mint_rtm_fields(payload@, txid@) == Some((v.0@, v.1, pair_views(v.2@))),
            Err(_) => mint_rtm_fields(payload@, txid@) is None,
        },
{
    let k = vec_of("SCL03:");
    let sep = vec_of(",[");
    proof {
        reveal_strlit("SCL03:");
        reveal_strlit(",[");
    }
    let rest = match after_exec(&vec_of(payload), &k) {
        Some(rest) => rest,
        None => return Err(String::from_str("Invalid mint rtm payload")),
    };
    let m = fields_exec(&rest);
    if m.len() < 2 {
        return Err(String::from_str("Invalid mint rtm payload"));
    }
    let ghost mv = m@.map_values(|q: Vec<char>| q@);
    proof {
        assert(mv[0] == m@[0]@ && mv[1] == m@[1]@);
    }
    let ticker = field_exec(&m[0]);
    let decimals = match number_field(&m[1]) {
        Some(d) => d,
        None => return Err(String::from_str("Not mint valid payload")),
    };
    let rs = split_exec(&rest, &sep);
    if rs.len() < 2 {
        return Err(String::from_str("Invalid mint rtm payload"));
    }
    let ghost rv = rs@.map_values(|q: Vec<char>| q@);
    proof {
        assert(rv[1] == rs@[1]@);
    }
    match output_items_exec(&fields_exec(&rs[1]), &vec_of(txid)) {
        Some(rights) => Ok((ticker, decimals, rights)),
        None => Err(String::from_str("Invalid Mint payload")),
    }
}

/// Six fractional digits: the first six of `f`, padded with zeros.
pub open spec fn six_digits(f: Seq<char>) -> Seq<char> {
    if f.len() >= 6 { f.subrange(0, 6) } else { f + Seq::new((6 - f.len()) as nat, |i: int| '0') }
}

/// A decimal fraction `W`, `W.F`, `.F` or `W.` read in millionths (digits
/// past the sixth dropped), when it fits in a `u64`.
pub open spec fn parse_ppm(s: Seq<char>) -> Option<u64> {
    let parts = split(s, "."@);
    let w = parts[0];
    let f = if parts.len() == 2 { parts[1] } else { Seq::empty() };
    let v = digits_value(w) * 1000000 + digits_value(six_digits(f));
    if parts.len() <= 2 && w.len() + f.len() > 0 && all_digits(w) && all_digits(f) && v <= u64::MAX {
        Some(v as u64)
    } else {
        None
    }
}

/// The value of a digit string, when it fits in a `u64`.
fn digits_u64(d: &Vec<char>) -> (r: Option<u64>)
    ensures
        match r {
            Some(v) => all_digits(d@) && v == digits_value(d@),
            None => !all_digits(d@) || digits_value(d@) > u64::MAX,
        },
{
    let mut v: u64 = 0;
    let mut i: usize = 0;
    while i < d.len()
        invariant
            i <= d@.len(),
            all_digits(d@.subrange(0, i as int)),
            v == digits_value(d@.subrange(0, i as int)),
        decreases d@.len() - i,
    {
        proof {
            assert(d@.subrange(0, i + 1).drop_last() =~= d@.subrange(0, i as int));
        }
        let c = d[i];
        if !('0' <= c && c <= '9') {
            proof {
                assert(!is_digit(d@[i as int]));
            }
            return None;
        }
        let dv = (c as u32 - '0' as u32) as u64;
        proof {
            assert(digit_value(c) == dv);
            assert forall|k: int| 0 <= k < i + 1 implies is_digit(#[trigger] d@.subrange(0, i + 1)[k]) by {
                if k < i {
                    assert(d@.subrange(0, i + 1)[k] == d@.subrange(0, i as int)[k]);
                }
            }
        }
        if v > (u64::MAX - dv) / 10 {
            proof {
                assert(v * 10 + dv > u64::MAX) by (nonlinear_arith)
                    requires v > (u64::MAX - dv) / 10, dv <= 9;
                lemma_digits_prefix_le(d@, i + 1);
            }
            return None;
        }
        v = v * 10 + dv;
        i = i + 1;
    }
    assert(d@.subrange(0, d@.len() as int) =~= d@);
    Some(v)
}

fn all_digits_exec(d: &Vec<char>) -> (r: bool)
    ensures
        r == all_digits(d@),
{
    let mut i: usize = 0;
    while i < d.len()
        invariant
            i <= d@.len(),
            forall|k: int| 0 <= k < i ==> is_digit(#[trigger] d@[k]),
        decreases d@.len() - i,
    {
        if !('0' <= d[i] && d[i] <= '9') {
            proof {
                assert(!is_digit(d@[i as int]));
            }
            return false;
        }
        i = i + 1;
    }
    true
}

/// Reads a decimal fraction in millionths, as `parse_ppm` says.
pub fn parse_ppm_exec(s: &Vec<char>) -> (r: Option<u64>)
    ensures
        r == parse_ppm(s@),
{
    let dot = vec_of(".");
    proof {
        reveal_strlit(".");
    }
    let parts = split_exec(s, &dot);
    if parts.len() > 2 {
        return None;
    }
    let ghost pv = parts@.map_values(|q: Vec<char>| q@);
    proof {
        assert(pv[0] == parts@[0]@);
        if parts@.len() == 2 {
            assert(pv[1] == parts@[1]@);
        }
    }
    let empty: Vec<char> = Vec::new();
    let f: &Vec<char> = if parts.len() == 2 { &parts[1] } else { &empty };
    proof {
        assert(f@ == (if pv.len() == 2 { pv[1] } else { Seq::<char>::empty() }));
    }
    if parts[0].len() == 0 && f.len() == 0 {
        return None;
    }
    if !all_digits_exec(f) {
        return None;
    }
    let w = match digits_u64(&parts[0]) {
        Some(w) => w,
        None => return None,
    };
    let mut six: Vec<char> = Vec::new();
    let mut k: usize = 0;
    while k < 6
        invariant
            k <= 6,
            six@ == six_digits(f@).subrange(0, k as int),
        decreases 6 - k,
    {
        let c = if k < f.len() { f[k] } else { '0' };
        six.push(c);
        proof {
            assert(six_digits(f@).subrange(0, k + 1) =~= six_digits(f@).subrange(0, k as int).push(six_digits(f@)[k as int]));
        }
        k = k + 1;
    }
    proof {
        assert(six_digits(f@).subrange(0, 6) =~= six_digits(f@));
        assert forall|j: int| 0 <= j < six@.len() implies is_digit(#[trigger] six@[j]) by {
            if j < f@.len() {
                assert(six@[j] == f@[j]);
            }
        }
    }
    let fv = match digits_u64(&six) {
        Some(v) => v,
        None => return None,
    };
    if w > (u64::MAX - fv) / 1000000 {
        proof {
            assert(w * 1000000 + fv > u64::MAX) by (nonlinear_arith)
                requires w > (u64::MAX - fv) / 1000000;
        }
        return None;
    }
    Some(w * 1000000 + fv)
}

/// The fields of `SLP[which,amount,quoted,tolerance]`: whether the first
/// field names side 0 (holds a `0`), the amount, the quote, and the tolerance
/// in millionths.
pub open spec fn swap_fields(p: Seq<char>) -> Option<(bool, u64, u64, u64)> {
    match after(p, "SLP["@) {
        Some(rest) => {
            let f = fields(rest);
            if f.len() < 4 {
                None
            } else {
                match (parse_u64(strip_special(f[1])), parse_u64(strip_special(f[2])), parse_ppm(strip_special(f[3]))) {
                    (Some(a), Some(q), Some(t)) => Some((f[0].contains('0'), a, q, t)),
                    _ => None,
                }
            }
        },
        None => None,
    }
}

/// The side, amount, quote and tolerance (in millionths) of a swap command.
pub fn handle_swap_payload_lp(payload: &str) -> (r: Result<(bool, u64, u64, u64), String>)
    ensures
        match r {
            Ok(v) => swap_fields(payload@) == Some(v),
            Err(_) => swap_fields(payload@) is None,
        },
{
    let k = vec_of("SLP[");
    proof {
        reveal_strlit("SLP[");
    }
    let rest = match after_exec(&vec_of(payload), &k) {
        Some(rest) => rest,
        None => return Err(String::from_str("Invalid liquidity pool payload")),
    };
    let f = fields_exec(&rest);
    if f.len() < 4 {
        return Err(String::from_str("Invalid liquidity pool payload"));
    }
    let ghost fv = f@.map_values(|q: Vec<char>| q@);
    proof {
        assert(fv[0] == f@[0]@ && fv[1] == f@[1]@ && fv[2] == f@[2]@ && fv[3] == f@[3]@);
    }
    let side = contains_char(&f[0], '0');
    let amount = match number_field(&f[1]) {
        Some(a) => a,
        None => return Err(String::from_str("Not valid payload")),
    };
    let quoted = match number_field(&f[2]) {
        Some(q) => q,
        None => return Err(String::from_str("Not valid payload")),
    };
    match parse_ppm_exec(&strip_exec(&f[3])) {
        Some(t) => Ok((side, amount, quoted, t)),
        None => Err(String::from_str("Not valid payload")),
    }
}

/// The receiver of `AIRDROP receiver_utxo`.
pub open spec fn airdrop_fields(p: Seq<char>, txid: Seq<char>) -> Option<Seq<char>> {
    match after(p, "AIRDROP"@) {
        Some(rest) => Some(utxo_field(rest, txid)),
        None => None,
    }
}

/// The receiver of an airdrop claim.
pub fn handle_airdrop_payload(txid: &str, command: &str) -> (r: Result<String, String>)
    ensures
        match r {
            Ok(v) => airdrop_fields(command@, txid@) == Some(v@),
            Err(_) => airdrop_fields(command@, txid@) is None,
        },
{
    let k = vec_of("AIRDROP");
    proof {
        reveal_strlit("AIRDROP");
    }
    match after_exec(&vec_of(command), &k) {
        Some(rest) => Ok(utxo_field_exec(&rest, &vec_of(txid))),
        None => Err(String::from_str("malformed airdrop command")),
    }
}

/// The UTXO named after `kw` (`CANCELLISTING` or `CANCELBID`).
pub open spec fn cancel_fields(p: Seq<char>, kw: Seq<char>) -> Option<Seq<char>> {
    match after(p, kw) {
        Some(rest) => Some(strip_special(rest)),
        None => None,
    }
}

fn cancel_exec(payload: &str, kw: &str) -> (r: Result<String, String>)
    requires
        kw@.len() > 0,
    ensures
        match r {
            Ok(v) => cancel_fields(payload@, kw@) == Some(v@),
            Err(_) => cancel_fields(payload@, kw@) is None,
        },
{
    let k = vec_of(kw);
    match after_exec(&vec_of(payload), &k) {
        Some(rest) => Ok(field_exec(&rest)),
        None => Err(String::from_str("malformed cancel command")),
    }
}

/// The listing UTXO of `CANCELLISTING LIST_UTXO`.
pub fn handle_cancel_listing_payload(payload: &str) -> (r: Result<String, String>)
    ensures
        match r {
            Ok(v) => cancel_fields(payload@, "CANCELLISTING"@) == Some(v@),
            Err(_) => cancel_fields(payload@, "CANCELLISTING"@) is None,
        },
{
    proof {
        reveal_strlit("CANCELLISTING");
    }
    cancel_exec(payload, "CANCELLISTING")
}

/// The reserved UTXO of `CANCELBID BID_UTXO`.
pub fn handle_cancel_bid_payload(payload: &str) -> (r: Result<String, String>)
    ensures
        match r {
            Ok(v) => cancel_fields(payload@, "CANCELBID"@) == Some(v@),
            Err(_) => cancel_fields(payload@, "CANCELBID"@) is None,
        },
{
    proof {
        reveal_strlit("CANCELBID");
    }
    cancel_exec(payload, "CANCELBID")
}

proof fn lemma_occurs_single(s: Seq<char>, c: char, j: int)
    ensures
        occurs_at(s, seq![c], j) == (0 <= j < s.len() && s[j] == c),
{
    if 0 <= j < s.len() {
        assert(s.subrange(j, j + 1) =~= seq![s[j]]);
        if s.subrange(j, j + 1) == seq![c] {
            assert(seq![c][0] == c);
        }
    }
}

proof fn lemma_find_first(s: Seq<char>, sep: Seq<char>, from: int, k: int)
    requires
        0 <= from <= k,
        sep.len() > 0,
        occurs_at(s, sep, k),
        forall|j: int| from <= j < k ==> !occurs_at(s, sep, j),
    ensures
        find_from(s, sep, from) == k,
    decreases k - from,
{
    if from < k {
        lemma_find_first(s, sep, from + 1, k);
    }
}

proof fn lemma_find_none(s: Seq<char>, sep: Seq<char>, from: int)
    requires
        0 <= from,
        sep.len() > 0,
        forall|j: int| from <= j ==> !occurs_at(s, sep, j),
    ensures
        find_from(s, sep, from) == -1,
    decreases s.len() - from,
{
    if from < s.len() && from + sep.len() <= s.len() {
        lemma_find_none(s, sep, from + 1);
    }
}

proof fn lemma_rfind_last(s: Seq<char>, sep: Seq<char>, i: int, k: int)
    requires
        0 <= k <= i,
        occurs_at(s, sep, k),
        forall|j: int| k < j <= i ==> !occurs_at(s, sep, j),
    ensures
        rfind_from(s, sep, i) == k,
    decreases i - k,
{
    if i > k {
        lemma_rfind_last(s, sep, i - 1, k);
    }
}

proof fn lemma_strip_plain(s: Seq<char>)
    requires
        forall|i: int| 0 <= i < s.len() ==> !is_special(#[trigger] s[i]),
    ensures
        strip_special(s) == s,
    decreases s.len(),
{
    if s.len() > 0 {
        assert(!is_special(s[s.len() - 1]));
        lemma_strip_plain(s.drop_last());
        assert(s.drop_last().push(s.last()) =~= s);
    }
}

proof fn lemma_decimal(n: nat)
    ensures
        decimal(n).len() > 0,
        forall|i: int| 0 <= i < decimal(n).len() ==> is_digit(#[trigger] decimal(n)[i]),
        digits_value(decimal(n)) == n,
    decreases n,
{
    let d = n % 10;
    assert(is_digit(digit_char(d)) && digit_value(digit_char(d)) == d) by {
        if d == 0 {} else if d == 1 {} else if d == 2 {} else if d == 3 {} else if d == 4 {}
        else if d == 5 {} else if d == 6 {} else if d == 7 {} else if d == 8 {} else {}
    }
    if n >= 10 {
        lemma_decimal(n / 10);
        let s = decimal(n);
        assert(s.drop_last() =~= decimal(n / 10));
        assert forall|i: int| 0 <= i < s.len() implies is_digit(#[trigger] s[i]) by {
            if i < s.len() - 1 {
                assert(s[i] == decimal(n / 10)[i]);
            }
        }
        assert(s.last() == digit_char(d));
        assert((n / 10) * 10 + n % 10 == n) by (nonlinear_arith);
        assert(digits_value(s) == digits_value(s.drop_last()) * 10 + digit_value(s.last()));
    } else {
        assert(decimal(n) =~= seq![digit_char(n)]);
        assert(decimal(n).drop_last() =~= Seq::<char>::empty());
        assert(n % 10 == n);
        assert(digits_value(decimal(n)) == digits_value(decimal(n).drop_last()) * 10 + digit_value(decimal(n).last()));
    }
}

proof fn lemma_parse_decimal(n: u64)
    ensures
        parse_u64(decimal(n as nat)) == Some(n),
{
    lemma_decimal(n as nat);
    let s = decimal(n as nat);
    assert(is_digit(s[0]));
    assert(unsigned_part(s) == s);
}

/// The trade terms appended to a payload are read back as they were: whatever
/// the payload, as long as the bid id holds no `-`, `,`, bracket, brace or space.
pub proof fn lemma_trade_terms_round_trip(payload: Seq<char>, bid_id: Seq<char>, amt: u64, price: u64)
    requires
        forall|i: int| 0 <= i < bid_id.len() ==> (#[trigger] bid_id[i]) != '-' && bid_id[i] != ',' && !is_special(bid_id[i]),
    ensures
        trade_fields(crate::contract::trade_payload(payload, bid_id, amt, price)) == Some((bid_id, amt, price)),
{
    reveal_strlit("-ExtraInfo-");
    let m = "-ExtraInfo-"@;
    assert(m.len() == 11 && m[10] == '-');
    let da = decimal(amt as nat);
    let dp = decimal(price as nat);
    lemma_decimal(amt as nat);
    lemma_decimal(price as nat);
    let tail = bid_id + seq![','] + da + seq![','] + dp;
    let t = crate::contract::trade_payload(payload, bid_id, amt, price);
    assert(t =~= payload + m + tail);
    let k = payload.len() as int;
    // the marker appended last is the last one
    assert(t.subrange(k, k + 11) =~= m);
    assert forall|i: int| 0 <= i < tail.len() implies (#[trigger] tail[i]) != '-' by {
        if i < bid_id.len() {
        } else if i == bid_id.len() {
        } else if i < bid_id.len() + 1 + da.len() {
            assert(tail[i] == da[i - bid_id.len() - 1]);
        } else if i == bid_id.len() + 1 + da.len() {
        } else {
            assert(tail[i] == dp[i - bid_id.len() - 2 - da.len()]);
        }
    }
    assert forall|j: int| k < j <= t.len() - 11 implies !occurs_at(t, m, j) by {
        if occurs_at(t, m, j) {
            assert(t.subrange(j, j + 11)[10] == m[10]);
            assert(t[j + 10] == tail[j + 10 - k - 11]);
        }
    }
    lemma_rfind_last(t, m, t.len() - 11, k);
    assert(trade_suffix(t) == Some(tail)) by {
        assert(t.subrange(k + 11, t.len() as int) =~= tail);
    }
    // the tail splits at its two commas
    let comma = seq![','];
    assert(","@ == comma) by {
        reveal_strlit(",");
    }
    let a1 = bid_id.len() as int;
    let a2 = a1 + 1 + da.len();
    assert forall|j: int| 0 <= j implies occurs_at(tail, comma, j) == (j == a1 || j == a2) by {
        lemma_occurs_single(tail, ',', j);
        if 0 <= j < tail.len() {
            if j < a1 {
                assert(tail[j] == bid_id[j]);
            } else if a1 < j < a2 {
                assert(tail[j] == da[j - a1 - 1]);
                assert(is_digit(da[j - a1 - 1]));
            } else if j > a2 {
                assert(tail[j] == dp[j - a2 - 1]);
                assert(is_digit(dp[j - a2 - 1]));
            }
        }
    }
    lemma_find_first(tail, comma, 0, a1);
    lemma_find_first(tail, comma, a1 + 1, a2);
    lemma_find_none(tail, comma, a2 + 1);
    assert(split_from(tail, comma, a2 + 1) == seq![tail.subrange(a2 + 1, tail.len() as int)]);
    assert(split_from(tail, comma, a1 + 1) == seq![tail.subrange(a1 + 1, a2)] + split_from(tail, comma, a2 + 1));
    assert(split_from(tail, comma, 0) == seq![tail.subrange(0, a1)] + split_from(tail, comma, a1 + 1));
    assert(tail.subrange(0, a1) =~= bid_id);
    assert(tail.subrange(a1 + 1, a2) =~= da);
    assert(tail.subrange(a2 + 1, tail.len() as int) =~= dp);
    let f = fields(tail);
    assert(f =~= seq![bid_id, da, dp]);
    lemma_strip_plain(bid_id);
    assert forall|i: int| 0 <= i < da.len() implies !is_special(#[trigger] da[i]) by {
        assert(is_digit(da[i]));
    }
    assert forall|i: int| 0 <= i < dp.len() implies !is_special(#[trigger] dp[i]) by {
        assert(is_digit(dp[i]));
    }
    lemma_strip_plain(da);
    lemma_strip_plain(dp);
    lemma_parse_decimal(amt);
    lemma_parse_decimal(price);
}

} // verus!
