//! Checking that a payload is the one committed in a transaction's `OP_RETURN`.
use vstd::prelude::*;

use crate::payload::{first_kept, last_kept, trim_chars, trimmed};
use crate::text::chars_of;
use crate::textops::{occurs_at, occurs_at_exec};

verus! {

/// The lowercase hex SHA-256 digest of the UTF-8 bytes of a string.
pub uninterp spec fn sha256_hex_of(s: Seq<char>) -> Seq<char>;

/// The plaintext that 64-bit MagicCrypt decryption under `key` gives for
/// `data`, or `None` when the data does not decrypt.
pub uninterp spec fn des64_decrypt_of(key: Seq<char>, data: Seq<u8>) -> Option<Seq<u8>>;

/// Relies on `crypto_hash::hex_digest` with `Algorithm::SHA256`: the digest of the bytes, in hex.
#[verifier::external_body]
fn sha256_hex(s: &str) -> (r: String)
    ensures
        r@ == sha256_hex_of(s@),
{
    crypto_hash::hex_digest(crypto_hash::Algorithm::SHA256, s.as_bytes())
}

/// Relies on `MagicCrypt64::new(key, None)` and `decrypt_bytes_to_bytes`
/// (what `new_magic_crypt!(key, 64)` builds): the plaintext, or an error.
#[verifier::external_body]
fn des64_decrypt(key: &str, data: &Vec<u8>) -> (r: Option<Vec<u8>>)
    ensures
        match r {
            Some(v) => des64_decrypt_of(key@, data@) == Some(v@),
            None => des64_decrypt_of(key@, data@) is None,
        },
{
    let mc = <magic_crypt::MagicCrypt64 as magic_crypt::MagicCryptTrait>::new(key, None::<&[u8]>);
    magic_crypt::MagicCryptTrait::decrypt_bytes_to_bytes(&mc, data).ok()
}

pub open spec fn hex_value(c: char) -> int {
    if '0' <= c && c <= '9' {
        c as int - '0' as int
    } else if 'a' <= c && c <= 'f' {
        c as int - 'a' as int + 10
    } else if 'A' <= c && c <= 'F' {
        c as int - 'A' as int + 10
    } else {
        -1
    }
}

/// The bytes that a string of hex digit pairs stands for.
pub open spec fn hex_decoded(s: Seq<char>) -> Option<Seq<u8>> {
    if s.len() % 2 == 0 && forall|i: int| 0 <= i < s.len() ==> hex_value(#[trigger] s[i]) >= 0 {
        Some(Seq::new((s.len() / 2) as nat, |i: int| (hex_value(s[2 * i]) * 16 + hex_value(s[2 * i + 1])) as u8))
    } else {
        None
    }
}

/// Relies on `hex::decode`: pairs of hex digits (either case) to bytes; an odd
/// length or another character is an error.
#[verifier::external_body]
pub(crate) fn hex_decode(s: &str) -> (r: Option<Vec<u8>>)
    ensures
        match r {
            Some(v) => hex_decoded(s@) == Some(v@),
            None => hex_decoded(s@) is None,
        },
{
    hex::decode(s).ok()
}

/// The payload as committed: cut of carriage returns, then of line feeds, at
/// both ends; `None` when nothing else is left.
pub open spec fn committed_text(payload: Seq<char>) -> Option<Seq<char>> {
    let cr = seq!['\r'];
    let lf = seq!['\n'];
    if exists|i: int| 0 <= i < payload.len() && payload[i] != '\r' && payload[i] != '\n' {
        Some(trimmed(trimmed(payload, cr), lf))
    } else {
        None
    }
}

/// The payload as its commitment is taken over.
pub fn commitment_text(payload: &str) -> (r: Option<&str>)
    ensures
        match r {
            Some(t) => committed_text(payload@) == Some(t@),
            None => committed_text(payload@) is None,
        },
{
    let s = chars_of(payload);
    let mut i: usize = 0;
    while i < s.len() && (s[i] == '\r' || s[i] == '\n')
        invariant
            i <= s@.len(),
            s@ == payload@,
            forall|j: int| 0 <= j < i ==> payload@[j] == '\r' || payload@[j] == '\n',
        decreases s@.len() - i,
    {
        i = i + 1;
    }
    if i == s.len() {
        return None;
    }
    proof {
        reveal_strlit("\r");
        reveal_strlit("\n");
        assert("\r"@ =~= seq!['\r']);
        assert("\n"@ =~= seq!['\n']);
        lemma_not_in_single('\r', payload@[i as int]);
    }
    let t1 = trim_chars(payload, "\r");
    proof {
        lemma_trim_keeps(payload@, "\r"@, i as int);
        let k = choose|k: int| 0 <= k < t1@.len() && t1@[k] == payload@[i as int];
        lemma_not_in_single('\n', t1@[k]);
    }
    let t2 = trim_chars(t1, "\n");
    Some(t2)
}

proof fn lemma_not_in_single(c: char, x: char)
    requires
        x != c,
    ensures
        !seq![c].contains(x),
{
    if seq![c].contains(x) {
        let j = choose|j: int| 0 <= j < seq![c].len() && seq![c][j] == x;
        assert(seq![c][0] == c);
    }
}

/// Trimming keeps every character that is not trimmed.
proof fn lemma_trim_keeps(s: Seq<char>, cs: Seq<char>, i: int)
    requires
        0 <= i < s.len(),
        !cs.contains(s[i]),
    ensures
        exists|k: int| 0 <= k < trimmed(s, cs).len() && trimmed(s, cs)[k] == s[i],
{
    lemma_first_kept(s, cs, 0, i);
    lemma_last_kept(s, cs, s.len() - 1, i);
    let a = first_kept(s, cs, 0);
    assert(trimmed(s, cs)[i - a] == s[i]);
}

proof fn lemma_first_kept(s: Seq<char>, cs: Seq<char>, from: int, i: int)
    requires
        0 <= from <= i < s.len(),
        !cs.contains(s[i]),
    ensures
        from <= first_kept(s, cs, from) <= i,
    decreases i - from,
{
    if cs.contains(s[from]) {
        lemma_first_kept(s, cs, from + 1, i);
    }
}

proof fn lemma_last_kept(s: Seq<char>, cs: Seq<char>, to: int, i: int)
    requires
        0 <= i <= to < s.len(),
        !cs.contains(s[i]),
    ensures
        i <= last_kept(s, cs, to) <= to,
    decreases to - i,
{
    if cs.contains(s[to]) {
        lemma_last_kept(s, cs, to - 1, i);
    }
}

/// Whether the committed digest, in hex, is the SHA-256 of the committed text.
pub fn digest_matches(digest: &str, committed: &str) -> (r: bool)
    ensures
        r == (digest@ == committed@),
{
    let a = chars_of(digest);
    let b = chars_of(committed);
    if a.len() != b.len() {
        return false;
    }
    let mut i: usize = 0;
    while i < a.len()
        invariant
            i <= a@.len() == b@.len(),
            a@ == digest@,
            b@ == committed@,
            forall|j: int| 0 <= j < i ==> a@[j] == b@[j],
        decreases a@.len() - i,
    {
        if a[i] != b[i] {
            return false;
        }
        i = i + 1;
    }
    assert(a@ =~= b@);
    true
}

/// Whether `op_return_hex` is the commitment of `payload`: the hex SHA-256 of
/// the payload cut of line breaks at both ends.
pub fn payload_committed(payload: &str, op_return_hex: &str) -> (r: bool)
    ensures
        r == (committed_text(payload@) matches Some(t) && sha256_hex_of(t) == op_return_hex@),
{
    match commitment_text(payload) {
        Some(t) => {
            let d = sha256_hex(t);
            digest_matches(d.as_str(), op_return_hex)
        },
        None => false,
    }
}

/// Bytes read as characters one for one (Latin-1).
pub open spec fn latin1(b: Seq<u8>) -> Seq<char> {
    b.map_values(|x: u8| x as char)
}

/// The text starts with a liquidity pool command: `SLP[`, `PLP[` or `LLP[`.
pub open spec fn is_lp_command(t: Seq<char>) -> bool {
    occurs_at(t, "SLP["@, 0) || occurs_at(t, "PLP["@, 0) || occurs_at(t, "LLP["@, 0)
}

/// Whether a decrypted plaintext holds a liquidity pool command.
pub fn plaintext_is_lp_command(plain: &Vec<u8>) -> (r: bool)
    ensures
        r == is_lp_command(latin1(plain@)),
{
    let mut t: Vec<char> = Vec::new();
    let mut i: usize = 0;
    while i < plain.len()
        invariant
            i <= plain@.len(),
            t@ == latin1(plain@.subrange(0, i as int)),
        decreases plain@.len() - i,
    {
        t.push(plain[i] as char);
        proof {
            assert(latin1(plain@.subrange(0, i + 1)) =~= latin1(plain@.subrange(0, i as int)).push(plain@[i as int] as char));
        }
        i = i + 1;
    }
    assert(plain@.subrange(0, plain@.len() as int) =~= plain@);
    let s = chars_of("SLP[");
    let p = chars_of("PLP[");
    let l = chars_of("LLP[");
    proof {
        reveal_strlit("SLP[");
        reveal_strlit("PLP[");
        reveal_strlit("LLP[");
    }
    occurs_at_exec(&t, &s, 0) || occurs_at_exec(&t, &p, 0) || occurs_at_exec(&t, &l, 0)
}

/// The plaintext of an encrypted pool command committed in `op_return_hex`
/// under the pool's contract id, when it decodes, decrypts, and holds a pool command.
pub fn lp_payload(contract_id: &str, op_return_hex: &str) -> (r: Option<Vec<u8>>)
    ensures
        match r {
            Some(v) => des64_decrypt_of(contract_id@, match hex_decoded(op_return_hex@) {
                    Some(b) => b,
                    None => Seq::empty(),
                }) == Some(v@) && is_lp_command(latin1(v@)),
            None => match des64_decrypt_of(contract_id@, match hex_decoded(op_return_hex@) {
                    Some(b) => b,
                    None => Seq::empty(),
                }) {
                Some(p) => !is_lp_command(latin1(p)),
                None => true,
            },
        },
{
    let bytes = match hex_decode(op_return_hex) {
        Some(b) => b,
        None => Vec::new(),
    };
    match des64_decrypt(contract_id, &bytes) {
        Some(p) => {
            if plaintext_is_lp_command(&p) {
                Some(p)
            } else {
                None
            }
        },
        None => None,
    }
}

} // verus!
