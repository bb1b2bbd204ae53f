//! Splitting, replacing and number parsing on character sequences.
use vstd::prelude::*;

use crate::text::{digit_value, digits_value, is_digit};

verus! {

/// `sep` occurs in `s` at position `i`.
pub open spec fn occurs_at(s: Seq<char>, sep: Seq<char>, i: int) -> bool {
    0 <= i && i + sep.len() <= s.len() && s.subrange(i, i + sep.len()) == sep
}

/// The first position at or after `from` where `sep` occurs, or -1.
pub open spec fn find_from(s: Seq<char>, sep: Seq<char>, from: int) -> int
    decreases s.len() - from,
{
    if from < 0 || from >= s.len() || from + sep.len() > s.len() {
        -1
    } else if occurs_at(s, sep, from) {
        from
    } else {
        find_from(s, sep, from + 1)
    }
}

/// The pieces of `s` from `start` on, cut at each occurrence of `sep` (left to right, not overlapping).
pub open spec fn split_from(s: Seq<char>, sep: Seq<char>, start: int) -> Seq<Seq<char>>
    recommends
        sep.len() > 0,
    decreases s.len() - start,
{
    if sep.len() == 0 || start < 0 || start > s.len() {
        seq![s.subrange(start, s.len() as int)]
    } else {
        let i = find_from(s, sep, start);
        if i < start || i + sep.len() > s.len() {
            seq![s.subrange(start, s.len() as int)]
        } else {
            seq![s.subrange(start, i)] + split_from(s, sep, i + sep.len())
        }
    }
}

/// `s` cut at each occurrence of `sep`, as `str::split` does.
pub open spec fn split(s: Seq<char>, sep: Seq<char>) -> Seq<Seq<char>> {
    split_from(s, sep, 0)
}

/// The pieces joined with `sep` between them.
pub open spec fn join(ps: Seq<Seq<char>>, sep: Seq<char>) -> Seq<char>
    decreases ps.len(),
{
    if ps.len() == 0 {
        Seq::empty()
    } else if ps.len() == 1 {
        ps[0]
    } else {
        join(ps.drop_last(), sep) + sep + ps.last()
    }
}

/// `s` with every occurrence of `pat` replaced by `rep`, as `str::replace` does.
pub open spec fn replace(s: Seq<char>, pat: Seq<char>, rep: Seq<char>) -> Seq<char> {
    join(split(s, pat), rep)
}

/// `s` without the character `c`.
pub open spec fn drop_chars(s: Seq<char>, c: char) -> Seq<char>
    decreases s.len(),
{
    if s.len() == 0 {
        s
    } else if s.last() == c {
        drop_chars(s.drop_last(), c)
    } else {
        drop_chars(s.drop_last(), c).push(s.last())
    }
}

/// The brackets, closing brace and space that payload fields are cleaned of.
pub open spec fn is_special(c: char) -> bool {
    c == '[' || c == ']' || c == '}' || c == ' '
}

/// `s` without brackets, closing braces and spaces.
pub open spec fn strip_special(s: Seq<char>) -> Seq<char>
    decreases s.len(),
{
    if s.len() == 0 {
        s
    } else if is_special(s.last()) {
        strip_special(s.drop_last())
    } else {
        strip_special(s.drop_last()).push(s.last())
    }
}

/// The number a decimal field stands for, as `u64`'s `FromStr` reads it: an
/// optional `+` and at least one digit, with a value that fits.
pub open spec fn parse_u64(s: Seq<char>) -> Option<u64> {
    let d = unsigned_part(s);
    if d.len() > 0 && all_digits(d) && digits_value(d) <= u64::MAX {
        Some(digits_value(d) as u64)
    } else {
        None
    }
}

/// `s` without a leading `+`.
pub open spec fn unsigned_part(s: Seq<char>) -> Seq<char> {
    if s.len() > 0 && s[0] == '+' { s.subrange(1, s.len() as int) } else { s }
}

pub open spec fn all_digits(d: Seq<char>) -> bool {
    forall|i: int| 0 <= i < d.len() ==> is_digit(#[trigger] d[i])
}

proof fn proof_split_progress(s: Seq<char>, sep: Seq<char>, start: int)
    requires
        sep.len() > 0,
        0 <= start <= s.len(),
        find_from(s, sep, start) >= 0,
    ensures
        start <= find_from(s, sep, start),
        find_from(s, sep, start) + sep.len() <= s.len(),
        s.len() - (find_from(s, sep, start) + sep.len()) < s.len() - start,
    decreases s.len() - start,
{
    lemma_find_from(s, sep, start);
}

pub proof fn lemma_find_from(s: Seq<char>, sep: Seq<char>, from: int)
    requires
        0 <= from,
        sep.len() > 0,
    ensures
        find_from(s, sep, from) == -1 || (from <= find_from(s, sep, from) && occurs_at(s, sep, find_from(s, sep, from))),
        forall|j: int| from <= j && (find_from(s, sep, from) == -1 || j < find_from(s, sep, from)) ==> !occurs_at(s, sep, j),
    decreases s.len() - from,
{
    if from < s.len() && from + sep.len() <= s.len() && !occurs_at(s, sep, from) {
        lemma_find_from(s, sep, from + 1);
        assert forall|j: int| from <= j && (find_from(s, sep, from) == -1 || j < find_from(s, sep, from)) implies !occurs_at(s, sep, j) by {
            if j > from {
                assert(from + 1 <= j);
            }
        }
    }
}

/// Whether `sep` occurs in `s` at position `i`.
pub fn occurs_at_exec(s: &Vec<char>, sep: &Vec<char>, i: usize) -> (r: bool)
    ensures
        r == occurs_at(s@, sep@, i as int),
{
    let n = s.len();
    if sep.len() > n || i > n - sep.len() {
        return false;
    }
    let mut j: usize = 0;
    while j < sep.len()
        invariant
            j <= sep@.len(),
            i + sep@.len() <= s@.len(),
            s@.len() <= usize::MAX,
            forall|k: int| 0 <= k < j ==> s@[i + k] == sep@[k],
        decreases sep@.len() - j,
    {
        if s[i + j] != sep[j] {
            proof {
                assert(s@.subrange(i as int, i + sep@.len())[j as int] != sep@[j as int]);
            }
            return false;
        }
        j = j + 1;
    }
    assert(s@.subrange(i as int, i + sep@.len()) =~= sep@);
    true
}

/// The first position at or after `from` where `sep` occurs.
pub fn find_exec(s: &Vec<char>, sep: &Vec<char>, from: usize) -> (r: Option<usize>)
    requires
        sep@.len() > 0,
    ensures
        match r {
            Some(i) => i as int == find_from(s@, sep@, from as int),
            None => find_from(s@, sep@, from as int) == -1,
        },
{
    let n = s.len();
    let mut i: usize = from;
    while i <= n && sep.len() <= n - i
        invariant
            from <= i,
            n == s@.len(),
            sep@.len() > 0,
            s@.len() <= usize::MAX,
            find_from(s@, sep@, from as int) == find_from(s@, sep@, i as int),
        decreases s@.len() - i,
    {
        if occurs_at_exec(s, sep, i) {
            return Some(i);
        }
        i = i + 1;
    }
    None
}

/// The last position at or before `i` where `sep` occurs, or -1.
pub open spec fn rfind_from(s: Seq<char>, sep: Seq<char>, i: int) -> int
    decreases i + 1,
{
    if i < 0 {
        -1
    } else if occurs_at(s, sep, i) {
        i
    } else {
        rfind_from(s, sep, i - 1)
    }
}

/// The last position where `sep` occurs in `s`, or -1.
pub open spec fn rfind(s: Seq<char>, sep: Seq<char>) -> int {
    rfind_from(s, sep, s.len() - sep.len())
}

pub proof fn lemma_rfind_from(s: Seq<char>, sep: Seq<char>, i: int)
    ensures
        rfind_from(s, sep, i) == -1 || (0 <= rfind_from(s, sep, i) <= i && occurs_at(s, sep, rfind_from(s, sep, i))),
        forall|j: int| rfind_from(s, sep, i) < j <= i ==> !occurs_at(s, sep, j),
    decreases i + 1,
{
    if i >= 0 && !occurs_at(s, sep, i) {
        lemma_rfind_from(s, sep, i - 1);
    }
}

/// The last position where `sep` occurs in `s`.
pub fn rfind_exec(s: &Vec<char>, sep: &Vec<char>) -> (r: Option<usize>)
    requires
        sep@.len() > 0,
    ensures
        match r {
            Some(i) => i as int == rfind(s@, sep@),
            None => rfind(s@, sep@) == -1,
        },
{
    let n = s.len();
    if sep.len() > n {
        proof {
            assert(rfind(s@, sep@) == -1);
        }
        return None;
    }
    let mut i: usize = n - sep.len() + 1;
    while i > 0
        invariant
            i <= n - sep@.len() + 1,
            n == s@.len(),
            sep@.len() <= n,
            rfind(s@, sep@) == rfind_from(s@, sep@, i - 1),
        decreases i,
    {
        if occurs_at_exec(s, sep, i - 1) {
            return Some(i - 1);
        }
        i = i - 1;
    }
    None
}

/// The pieces of `s` cut at each occurrence of the nonempty `sep`.
pub fn split_exec(s: &Vec<char>, sep: &Vec<char>) -> (r: Vec<Vec<char>>)
    requires
        sep@.len() > 0,
    ensures
        r@.map_values(|p: Vec<char>| p@) == split(s@, sep@),
        r@.len() >= 1,
{
    let mut out: Vec<Vec<char>> = Vec::new();
    let _n = s.len();
    let mut start: usize = 0;
    loop
        invariant
            start <= s@.len(),
            s@.len() <= usize::MAX,
            sep@.len() > 0,
            out@.map_values(|p: Vec<char>| p@) + split_from(s@, sep@, start as int) == split(s@, sep@),
        decreases s@.len() - start,
    {
        let ghost st = start as int;
        proof {
            lemma_find_from(s@, sep@, st);
        }
        match find_exec(s, sep, start) {
            Some(i) => {
                let piece = slice_vec(s, start, i);
                let ghost before = out@.map_values(|p: Vec<char>| p@);
                out.push(piece);
                proof {
                    proof_split_progress(s@, sep@, st);
                    assert(out@.map_values(|p: Vec<char>| p@) =~= before.push(s@.subrange(st, i as int)));
                    assert(split_from(s@, sep@, st) == seq![s@.subrange(st, i as int)] + split_from(s@, sep@, i + sep@.len()));
                    assert(before + split_from(s@, sep@, st) =~= before.push(s@.subrange(st, i as int)) + split_from(s@, sep@, i + sep@.len()));
                }
                start = i + sep.len();
            },
            None => {
                let piece = slice_vec(s, start, s.len());
                let ghost before = out@.map_values(|p: Vec<char>| p@);
                out.push(piece);
                proof {
                    assert(out@.map_values(|p: Vec<char>| p@) =~= before + split_from(s@, sep@, st));
                }
                return out;
            },
        }
    }
}

/// The characters of `s` from `a` up to `b`.
pub fn slice_vec(s: &Vec<char>, a: usize, b: usize) -> (r: Vec<char>)
    requires
        a <= b <= s@.len(),
    ensures
        r@ == s@.subrange(a as int, b as int),
{
    let mut r: Vec<char> = Vec::new();
    let mut i: usize = a;
    while i < b
        invariant
            a <= i <= b <= s@.len(),
            r@ == s@.subrange(a as int, i as int),
        decreases b - i,
    {
        r.push(s[i]);
        proof {
            assert(s@.subrange(a as int, i + 1) =~= s@.subrange(a as int, i as int).push(s@[i as int]));
        }
        i = i + 1;
    }
    r
}

/// The pieces joined with `sep` between them.
pub fn join_exec(ps: &Vec<Vec<char>>, sep: &Vec<char>) -> (r: Vec<char>)
    ensures
        r@ == join(ps@.map_values(|p: Vec<char>| p@), sep@),
{
    let ghost v = ps@.map_values(|p: Vec<char>| p@);
    let mut r: Vec<char> = Vec::new();
    let mut i: usize = 0;
    while i < ps.len()
        invariant
            i <= ps@.len(),
            v == ps@.map_values(|p: Vec<char>| p@),
            r@ == join(v.subrange(0, i as int), sep@),
        decreases ps@.len() - i,
    {
        proof {
            assert(v.subrange(0, i + 1).drop_last() =~= v.subrange(0, i as int));
        }
        if i > 0 {
            let mut k: usize = 0;
            let ghost r0 = r@;
            while k < sep.len()
                invariant
                    k <= sep@.len(),
                    r@ == r0 + sep@.subrange(0, k as int),
                decreases sep@.len() - k,
            {
                r.push(sep[k]);
                proof {
                    assert(sep@.subrange(0, k + 1) =~= sep@.subrange(0, k as int).push(sep@[k as int]));
                }
                k = k + 1;
            }
            proof {
                assert(sep@.subrange(0, sep@.len() as int) =~= sep@);
            }
        }
        let ghost r1 = r@;
        let mut k: usize = 0;
        while k < ps[i].len()
            invariant
                i < ps@.len(),
                k <= ps@[i as int]@.len(),
                r@ == r1 + ps@[i as int]@.subrange(0, k as int),
            decreases ps@[i as int]@.len() - k,
        {
            r.push(ps[i][k]);
            proof {
                assert(ps@[i as int]@.subrange(0, k + 1) =~= ps@[i as int]@.subrange(0, k as int).push(ps@[i as int]@[k as int]));
            }
            k = k + 1;
        }
        proof {
            assert(ps@[i as int]@.subrange(0, ps@[i as int]@.len() as int) =~= ps@[i as int]@);
            assert(v[i as int] == ps@[i as int]@);
            if i == 0 {
                assert(v.subrange(0, 1) =~= seq![v[0]]);
                assert(r@ =~= v[0]);
            } else {
                assert(r@ =~= join(v.subrange(0, i as int), sep@) + sep@ + v[i as int]);
            }
        }
        i = i + 1;
    }
    assert(v.subrange(0, ps@.len() as int) =~= v);
    r
}

/// `s` with every occurrence of the nonempty `pat` replaced by `rep`.
pub fn replace_exec(s: &Vec<char>, pat: &Vec<char>, rep: &Vec<char>) -> (r: Vec<char>)
    requires
        pat@.len() > 0,
    ensures
        r@ == replace(s@, pat@, rep@),
{
    let parts = split_exec(s, pat);
    join_exec(&parts, rep)
}

/// `s` without brackets, closing braces and spaces.
pub fn strip_exec(s: &Vec<char>) -> (r: Vec<char>)
    ensures
        r@ == strip_special(s@),
{
    let mut r: Vec<char> = Vec::new();
    let mut i: usize = 0;
    while i < s.len()
        invariant
            i <= s@.len(),
            r@ == strip_special(s@.subrange(0, i as int)),
        decreases s@.len() - i,
    {
        proof {
            assert(s@.subrange(0, i + 1).drop_last() =~= s@.subrange(0, i as int));
        }
        let c = s[i];
        if !(c == '[' || c == ']' || c == '}' || c == ' ') {
            r.push(c);
        }
        i = i + 1;
    }
    assert(s@.subrange(0, s@.len() as int) =~= s@);
    r
}

/// `s` without the character `c`.
pub fn drop_char_exec(s: &Vec<char>, c: char) -> (r: Vec<char>)
    ensures
        r@ == drop_chars(s@, c),
{
    let mut r: Vec<char> = Vec::new();
    let mut i: usize = 0;
    while i < s.len()
        invariant
            i <= s@.len(),
            r@ == drop_chars(s@.subrange(0, i as int), c),
        decreases s@.len() - i,
    {
        proof {
            assert(s@.subrange(0, i + 1).drop_last() =~= s@.subrange(0, i as int));
        }
        if s[i] != c {
            r.push(s[i]);
        }
        i = i + 1;
    }
    assert(s@.subrange(0, s@.len() as int) =~= s@);
    r
}

/// Reads a decimal `u64` as `u64`'s `FromStr` does.
pub fn parse_u64_exec(s: &Vec<char>) -> (r: Option<u64>)
    ensures
        r == parse_u64(s@),
{
    let start: usize = if s.len() > 0 && s[0] == '+' { 1 } else { 0 };
    let ghost d = unsigned_part(s@);
    proof {
        if start == 0 {
            assert(d =~= s@.subrange(0, s@.len() as int));
        }
    }
    if start >= s.len() {
        return None;
    }
    let mut v: u64 = 0;
    let mut i: usize = start;
    while i < s.len()
        invariant
            start <= i <= s@.len(),
            d == s@.subrange(start as int, s@.len() as int),
            d == unsigned_part(s@),
            forall|k: int| start <= k < i ==> is_digit(#[trigger] s@[k]),
            v == digits_value(s@.subrange(start as int, i as int)),
        decreases s@.len() - i,
    {
        let c = s[i];
        proof {
            assert(s@.subrange(start as int, i + 1).drop_last() =~= s@.subrange(start as int, i as int));
        }
        if !('0' <= c && c <= '9') {
            proof {
                assert(d[i - start] == c);
                assert(!is_digit(d[i - start]));
                assert(!all_digits(d));
            }
            return None;
        }
        let dv = (c as u32 - '0' as u32) as u64;
        proof {
            assert(is_digit(c));
            assert(digit_value(c) == dv);
        }
        if v > (u64::MAX - dv) / 10 {
            proof {
                assert(v * 10 + dv > u64::MAX) by (nonlinear_arith)
                    requires v > (u64::MAX - dv) / 10, dv <= 9;
                assert(digits_value(s@.subrange(start as int, i + 1)) == v * 10 + dv);
                lemma_digits_prefix_le(d, i + 1 - start);
                assert(d.subrange(0, i + 1 - start) =~= s@.subrange(start as int, i + 1));
                assert(forall|k: int| 0 <= k < d.len() ==> #[trigger] d[k] == s@[start + k]);
                assert(digits_value(d.subrange(0, i + 1 - start)) > u64::MAX);
                if all_digits(d) {
                    assert(digits_value(d) > u64::MAX);
                }
            }
            return None;
        }
        v = v * 10 + dv;
        i = i + 1;
    }
    proof {
        assert(s@.subrange(start as int, s@.len() as int) == d);
        assert forall|k: int| 0 <= k < d.len() implies is_digit(#[trigger] d[k]) by {
            assert(d[k] == s@[start + k]);
        }
    }
    Some(v)
}

/// A longer run of digits is worth at least its prefix.
pub proof fn lemma_digits_prefix_le(d: Seq<char>, n: int)
    requires
        0 <= n <= d.len(),
    ensures
        all_digits(d) ==> digits_value(d.subrange(0, n)) <= digits_value(d),
    decreases d.len() - n,
{
    if n < d.len() {
        lemma_digits_prefix_le(d, n + 1);
        assert(d.subrange(0, n + 1).drop_last() =~= d.subrange(0, n));
        if is_digit(d[n]) {
            assert(digits_value(d.subrange(0, n + 1)) == digits_value(d.subrange(0, n)) * 10 + digit_value(d[n]));
        }
    } else {
        assert(d.subrange(0, n) =~= d);
    }
}

} // verus!
