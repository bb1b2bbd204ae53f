//! What the sweeper does with a queued command on each pass.
use vstd::prelude::*;

use crate::records::PagingMetaData;
use crate::text::chars_of;

verus! {

/// Seconds a command may wait to be found valid before it is dropped.
pub const ACCEPT_WINDOW_SECS: u64 = 120;

/// What becomes of a queued command after it has been checked against the chain.
#[derive(Debug, PartialEq, Eq, Structural, Clone, Copy)]
pub enum QueueAction {
    /// Not yet valid, and still young: keep it and look again next pass.
    Wait,
    /// Never found valid within the acceptance window: drop it.
    Discard,
    /// Valid but not confirmed: apply it to the pending state and keep it.
    ApplyPending,
    /// Valid and confirmed: apply it to the confirmed state, then drop it and
    /// its cached transaction.
    ApplyConfirmed,
}

/// The rule of the sweep. A command in the claims queue is applied as
/// confirmed as soon as it is valid; one in the pending queue waits for its
/// confirmation, applied meanwhile to the pending state.
pub open spec fn queue_action_spec(valid: bool, confirmed: bool, age_secs: u64, claim: bool) -> QueueAction {
    if !valid {
        if age_secs > ACCEPT_WINDOW_SECS { QueueAction::Discard } else { QueueAction::Wait }
    } else if confirmed || claim {
        QueueAction::ApplyConfirmed
    } else {
        QueueAction::ApplyPending
    }
}

/// Decides what to do with a queued command that has waited `age_secs`, given
/// whether its payload matched the chain (`valid`) and whether its
/// transaction is confirmed.
pub fn queue_action(valid: bool, confirmed: bool, age_secs: u64, claim: bool) -> (r: QueueAction)
    ensures
        r == queue_action_spec(valid, confirmed, age_secs, claim),
{
    if !valid {
        if age_secs > ACCEPT_WINDOW_SECS {
            QueueAction::Discard
        } else {
            QueueAction::Wait
        }
    } else if confirmed || claim {
        QueueAction::ApplyConfirmed
    } else {
        QueueAction::ApplyPending
    }
}

/// Entries shown per page.
pub const PAGE_SIZE: usize = 100;

/// The pages that `entries` entries fill, at least one.
pub open spec fn page_count(entries: nat) -> nat {
    if entries == 0 { 1 } else { ((entries + PAGE_SIZE - 1) / (PAGE_SIZE as int)) as nat }
}

/// The page shown for a request of page `page`: zero reads as one, and a page
/// past the last reads as the last.
pub open spec fn clamped_page(entries: nat, page: nat) -> nat {
    if page == 0 { 1 } else if page > page_count(entries) { page_count(entries) } else { page }
}

/// The page count and the range (from, to) of the entries on the page shown
/// for a request of page `page`.
pub open spec fn page_range(entries: nat, page: nat) -> (nat, int, int) {
    let from: int = (clamped_page(entries, page) - 1) * PAGE_SIZE;
    let to: int = if from + PAGE_SIZE >= entries { entries as int } else { from + PAGE_SIZE };
    (page_count(entries), from, to)
}

/// The page count, the page shown, and the positions (from, to) of its
/// entries, for a request of page `page` (see `clamped_page`).
pub fn page_bounds(entries: usize, page: usize) -> (r: (usize, usize, usize, usize))
    ensures
        r.0 == page_count(entries as nat),
        r.1 == clamped_page(entries as nat, page as nat),
        (r.0 as nat, r.2 as int, r.3 as int) == page_range(entries as nat, page as nat),
        r.2 <= r.3 <= entries,
{
    let pages: usize = if entries == 0 { 1 } else { entries / PAGE_SIZE + if entries % PAGE_SIZE == 0 { 0 } else { 1 } };
    proof {
        if entries > 0 {
            assert((entries + 99) / 100 == entries / 100 + (if entries % 100 == 0 { 0int } else { 1int })) by (nonlinear_arith)
                requires entries > 0;
        }
    }
    let p: usize = if page == 0 { 1 } else if page > pages { pages } else { page };
    proof {
        assert(1 <= p <= pages);
        if entries == 0 {
            assert(p == 1);
        } else {
            assert((p - 1) * 100 < entries) by (nonlinear_arith)
                requires p <= pages, pages == entries / 100 + (if entries % 100 == 0 { 0int } else { 1int }), entries > 0, p >= 1;
        }
    }
    let from: usize = (p - 1) * PAGE_SIZE;
    let to: usize = if entries - from <= PAGE_SIZE { entries } else { from + PAGE_SIZE };
    (pages, p, from, to)
}

/// `a` comes before `b` in character order, looking from position `i` on.
pub open spec fn lex_lt_from(a: Seq<char>, b: Seq<char>, i: int) -> bool
    decreases a.len() - i,
{
    if i < 0 || i >= a.len() {
        i >= 0 && i < b.len()
    } else if i >= b.len() {
        false
    } else if a[i] != b[i] {
        a[i] < b[i]
    } else {
        lex_lt_from(a, b, i + 1)
    }
}

/// `a` comes before `b` in character order (the order of `String`).
pub open spec fn lex_lt(a: Seq<char>, b: Seq<char>) -> bool {
    lex_lt_from(a, b, 0)
}

proof fn lemma_lex_trans(a: Seq<char>, b: Seq<char>, c: Seq<char>, i: int)
    requires
        0 <= i,
        i <= a.len() && i <= b.len() && i <= c.len(),
        lex_lt_from(a, b, i),
        lex_lt_from(b, c, i),
    ensures
        lex_lt_from(a, c, i),
    decreases a.len() - i,
{
    if i < a.len() && i < b.len() && i < c.len() && a[i] == b[i] && b[i] == c[i] {
        lemma_lex_trans(a, b, c, i + 1);
    }
}

proof fn lemma_lex_irrefl(a: Seq<char>, i: int)
    requires
        0 <= i <= a.len(),
    ensures
        !lex_lt_from(a, a, i),
    decreases a.len() - i,
{
    if i < a.len() {
        lemma_lex_irrefl(a, i + 1);
    }
}

fn lex_lt_exec(a: &String, b: &String) -> (r: bool)
    ensures
        r == lex_lt(a@, b@),
{
    let x = chars_of(a.as_str());
    let y = chars_of(b.as_str());
    let mut i: usize = 0;
    while i < x.len() && i < y.len() && x[i] == y[i]
        invariant
            i <= x@.len() && i <= y@.len(),
            x@ == a@ && y@ == b@,
            lex_lt(a@, b@) == lex_lt_from(a@, b@, i as int),
        decreases x@.len() - i,
    {
        i = i + 1;
    }
    if i == x.len() {
        i < y.len()
    } else if i == y.len() {
        false
    } else {
        x[i] < y[i]
    }
}

/// Some string of `v` is `x`.
pub open spec fn holds_str(v: Seq<String>, x: Seq<char>) -> bool {
    exists|i: int| 0 <= i < v.len() && (#[trigger] v[i])@ == x
}

/// No later string comes before an earlier one.
pub open spec fn sorted_strs(v: Seq<String>) -> bool {
    forall|i: int, j: int| 0 <= i < j < v.len() ==> !lex_lt(v[j]@, v[i]@)
}

/// The keys in ascending order.
pub fn sort_keys(keys: &Vec<String>) -> (r: Vec<String>)
    ensures
        r@.len() == keys@.len(),
        sorted_strs(r@),
        forall|x: Seq<char>| holds_str(r@, x) <==> holds_str(keys@, x),
{
    let mut rest: Vec<String> = Vec::new();
    let mut k: usize = 0;
    while k < keys.len()
        invariant
            k <= keys@.len(),
            rest@.len() == k,
            forall|q: int| 0 <= q < k ==> (#[trigger] rest@[q])@ == keys@[q]@,
        decreases keys@.len() - k,
    {
        rest.push(keys[k].clone());
        k = k + 1;
    }
    let mut out: Vec<String> = Vec::new();
    proof {
        assert forall|x: Seq<char>| (holds_str(out@, x) || holds_str(rest@, x)) <==> holds_str(keys@, x) by {
            if holds_str(rest@, x) {
                let i = choose|i: int| 0 <= i < rest@.len() && (#[trigger] rest@[i])@ == x;
                assert(keys@[i]@ == x);
            }
            if holds_str(keys@, x) {
                let i = choose|i: int| 0 <= i < keys@.len() && (#[trigger] keys@[i])@ == x;
                assert(rest@[i]@ == x);
            }
        }
    }
    while rest.len() > 0
        invariant
            out@.len() + rest@.len() == keys@.len(),
            sorted_strs(out@),
            forall|i: int, j: int| 0 <= i < out@.len() && 0 <= j < rest@.len() ==> !lex_lt(rest@[j]@, out@[i]@),
            forall|x: Seq<char>| (holds_str(out@, x) || holds_str(rest@, x))
                <==> holds_str(keys@, x),
        decreases rest@.len(),
    {
        let mut m: usize = 0;
        let mut j: usize = 1;
        proof {
            lemma_lex_irrefl(rest@[0]@, 0);
        }
        while j < rest.len()
            invariant
                m < j <= rest@.len(),
                forall|q: int| 0 <= q < j ==> !lex_lt(rest@[q]@, rest@[m as int]@),
            decreases rest@.len() - j,
        {
            if lex_lt_exec(&rest[j], &rest[m]) {
                proof {
                    assert forall|q: int| 0 <= q < j + 1 implies !lex_lt(rest@[q]@, rest@[j as int]@) by {
                        if q < j && lex_lt(rest@[q]@, rest@[j as int]@) {
                            lemma_lex_trans(rest@[q]@, rest@[j as int]@, rest@[m as int]@, 0);
                        }
                        if q == j {
                            lemma_lex_irrefl(rest@[q]@, 0);
                        }
                    }
                }
                m = j;
            } else {
                proof {
                    lemma_lex_irrefl(rest@[m as int]@, 0);
                }
            }
            j = j + 1;
        }
        proof {
            lemma_lex_irrefl(rest@[m as int]@, 0);
        }
        let ghost r0 = rest@;
        let ghost o0 = out@;
        let x = rest.remove(m);
        out.push(x);
        proof {
            assert forall|a: int, b: int| 0 <= a < b < out@.len() implies !lex_lt(out@[b]@, out@[a]@) by {
                if b == o0.len() {
                    assert(out@[b] == r0[m as int]);
                    assert(out@[a] == o0[a]);
                } else {
                    assert(out@[a] == o0[a] && out@[b] == o0[b]);
                }
            }
            assert forall|a: int, b: int| 0 <= a < out@.len() && 0 <= b < rest@.len() implies !lex_lt(rest@[b]@, out@[a]@) by {
                let bb = if b < m { b } else { b + 1 };
                assert(rest@[b] == r0[bb]);
                if a == o0.len() {
                    assert(out@[a] == r0[m as int]);
                } else {
                    assert(out@[a] == o0[a]);
                }
            }
            assert forall|y: Seq<char>| (holds_str(out@, y) || holds_str(rest@, y))
                <==> (holds_str(o0, y) || holds_str(r0, y)) by {
                if holds_str(out@, y) {
                    let i = choose|i: int| 0 <= i < out@.len() && (#[trigger] out@[i])@ == y;
                    if i == o0.len() {
                        assert(r0[m as int]@ == y);
                    } else {
                        assert(o0[i]@ == y);
                    }
                }
                if holds_str(rest@, y) {
                    let i = choose|i: int| 0 <= i < rest@.len() && (#[trigger] rest@[i])@ == y;
                    let ii = if i < m { i } else { i + 1 };
                    assert(r0[ii]@ == y);
                }
                if holds_str(o0, y) {
                    let i = choose|i: int| 0 <= i < o0.len() && (#[trigger] o0[i])@ == y;
                    assert(out@[i]@ == y);
                }
                if holds_str(r0, y) {
                    let i = choose|i: int| 0 <= i < r0.len() && (#[trigger] r0[i])@ == y;
                    if i == m {
                        assert(out@[o0.len() as int]@ == y);
                    } else if i < m {
                        assert(rest@[i]@ == y);
                    } else {
                        assert(rest@[i - 1]@ == y);
                    }
                }
            }
        }
    }
    proof {
        assert forall|x: Seq<char>| holds_str(keys@, x) implies holds_str(out@, x) by {
            assert(!holds_str(rest@, x));
        }
    }
    out
}

/// One page of keys in ascending order, with its paging figures: page `p`
/// (the request clamped by `clamped_page`) holds the sorted keys from
/// `(p - 1) * 100` on, at most 100.
pub fn page_of_keys(keys: &Vec<String>, page: usize) -> (r: (Vec<String>, PagingMetaData))
    ensures
        ({
            let (pages, from, to) = page_range(keys@.len() as nat, page as nat);
            &&& r.0@.len() == to - from
            &&& r.1.total_pages == pages
            &&& r.1.current_page == clamped_page(keys@.len() as nat, page as nat)
            &&& r.1.page_entries == PAGE_SIZE
            &&& r.1.entries == keys@.len()
            &&& exists|s: Seq<String>| #[trigger] sorted_strs(s) && s.len() == keys@.len()
                && (forall|x: Seq<char>| holds_str(s, x) <==> holds_str(keys@, x))
                && r.0@ == s.subrange(from, to)
        }),
{
    let sorted = sort_keys(keys);
    let n = sorted.len();
    let (pages, shown, from, to) = page_bounds(n, page);
    let mut out: Vec<String> = Vec::new();
    let mut i: usize = from;
    while i < to
        invariant
            from <= i <= to <= n == sorted@.len(),
            out@ == sorted@.subrange(from as int, i as int),
        decreases to - i,
    {
        out.push(sorted[i].clone());
        proof {
            assert(sorted@.subrange(from as int, i + 1) =~= sorted@.subrange(from as int, i as int).push(sorted@[i as int]));
        }
        i = i + 1;
    }
    let meta = PagingMetaData { current_page: shown, total_pages: pages, page_entries: PAGE_SIZE, entries: n };
    proof {
        assert(sorted_strs(sorted@));
    }
    (out, meta)
}

} // verus!
