//! A finite map keyed by strings, kept as a list of entries with distinct keys.
use vstd::prelude::*;

verus! {

/// The map that a list of entries stands for; a later entry wins over an earlier one.
pub open spec fn map_of<V>(s: Seq<(Seq<char>, V)>) -> Map<Seq<char>, V>
    decreases s.len(),
{
    if s.len() == 0 {
        Map::empty()
    } else {
        map_of(s.drop_last()).insert(s.last().0, s.last().1)
    }
}

pub open spec fn keys_unique<V>(s: Seq<(Seq<char>, V)>) -> bool {
    forall|i: int, j: int| 0 <= i < s.len() && 0 <= j < s.len() && i != j ==> s[i].0 != s[j].0
}

/// The sum of `f` over the values of a list of entries.
pub open spec fn sum_by<V>(s: Seq<(Seq<char>, V)>, f: spec_fn(V) -> int) -> int
    decreases s.len(),
{
    if s.len() == 0 {
        0
    } else {
        sum_by(s.drop_last(), f) + f(s.last().1)
    }
}

pub proof fn lemma_map_of<V>(s: Seq<(Seq<char>, V)>)
    requires
        keys_unique(s),
    ensures
        forall|k: Seq<char>|
            #![trigger map_of(s).contains_key(k)]
            map_of(s).contains_key(k) <==> exists|i: int| 0 <= i < s.len() && s[i].0 == k,
        forall|i: int| 0 <= i < s.len() ==> map_of(s)[#[trigger] s[i].0] == s[i].1,
    decreases s.len(),
{
    if s.len() > 0 {
        let p = s.drop_last();
        assert(keys_unique(p));
        lemma_map_of(p);
        assert forall|k: Seq<char>|
            map_of(s).contains_key(k) <==> exists|i: int| 0 <= i < s.len() && s[i].0 == k by {
            if map_of(s).contains_key(k) {
                if k == s.last().0 {
                    assert(s[s.len() - 1].0 == k);
                } else {
                    assert(map_of(p).contains_key(k));
                    let i = choose|i: int| 0 <= i < p.len() && p[i].0 == k;
                    assert(s[i].0 == k);
                }
            }
            if exists|i: int| 0 <= i < s.len() && s[i].0 == k {
                let i = choose|i: int| 0 <= i < s.len() && s[i].0 == k;
                if i < s.len() - 1 {
                    assert(p[i].0 == k);
                }
            }
        }
        assert forall|i: int| 0 <= i < s.len() implies map_of(s)[#[trigger] s[i].0] == s[i].1 by {
            if i < s.len() - 1 {
                assert(p[i] == s[i]);
                assert(s[i].0 != s.last().0);
            }
        }
    }
}

proof fn lemma_sum_update<V>(s: Seq<(Seq<char>, V)>, i: int, e: (Seq<char>, V), f: spec_fn(V) -> int)
    requires
        0 <= i < s.len(),
    ensures
        sum_by(s.update(i, e), f) == sum_by(s, f) - f(s[i].1) + f(e.1),
    decreases s.len(),
{
    if i == s.len() - 1 {
        assert(s.update(i, e).drop_last() =~= s.drop_last());
    } else {
        lemma_sum_update(s.drop_last(), i, e, f);
        assert(s.update(i, e).drop_last() =~= s.drop_last().update(i, e));
    }
}

proof fn lemma_sum_remove<V>(s: Seq<(Seq<char>, V)>, i: int, f: spec_fn(V) -> int)
    requires
        0 <= i < s.len(),
    ensures
        sum_by(s.remove(i), f) == sum_by(s, f) - f(s[i].1),
    decreases s.len(),
{
    if i == s.len() - 1 {
        assert(s.remove(i) =~= s.drop_last());
    } else {
        lemma_sum_remove(s.drop_last(), i, f);
        assert(s.remove(i).drop_last() =~= s.drop_last().remove(i));
    }
}

proof fn lemma_sum_bounds<V>(s: Seq<(Seq<char>, V)>, f: spec_fn(V) -> int)
    requires
        forall|v: V| #[trigger] f(v) >= 0,
    ensures
        sum_by(s, f) >= 0,
        forall|i: int| 0 <= i < s.len() ==> f(#[trigger] s[i].1) <= sum_by(s, f),
    decreases s.len(),
{
    if s.len() > 0 {
        lemma_sum_bounds(s.drop_last(), f);
        assert forall|i: int| 0 <= i < s.len() implies f(#[trigger] s[i].1) <= sum_by(s, f) by {
            if i < s.len() - 1 {
                assert(s.drop_last()[i] == s[i]);
            }
            assert(f(s.last().1) >= 0);
        }
    }
}

proof fn lemma_sum_prefix<V>(s: Seq<(Seq<char>, V)>, n: int, f: spec_fn(V) -> int)
    requires
        0 <= n <= s.len(),
        forall|v: V| #[trigger] f(v) >= 0,
    ensures
        sum_by(s.subrange(0, n), f) <= sum_by(s, f),
    decreases s.len() - n,
{
    if n < s.len() {
        lemma_sum_prefix(s, n + 1, f);
        assert(s.subrange(0, n + 1).drop_last() =~= s.subrange(0, n));
        assert(f(s[n].1) >= 0);
    } else {
        assert(s.subrange(0, n) =~= s);
    }
}

/// A map from strings to values. Keys are compared by their characters.
pub struct StrMap<V> {
    entries: Vec<(String, V)>,
}

impl<V> View for StrMap<V> {
    type V = Map<Seq<char>, V>;

    closed spec fn view(&self) -> Map<Seq<char>, V> {
        map_of(self.pairs())
    }
}

impl<V> StrMap<V> {
    /// The entries in storage order, keys as character sequences.
    pub closed spec fn pairs(&self) -> Seq<(Seq<char>, V)> {
        self.entries@.map_values(|e: (String, V)| (e.0@, e.1))
    }

    /// Well-formed: no key is stored twice.
    pub closed spec fn wf(&self) -> bool {
        keys_unique(self.pairs())
    }

    /// The sum of `f` over the values of the map.
    pub closed spec fn total_by(&self, f: spec_fn(V) -> int) -> int {
        sum_by(self.pairs(), f)
    }

    /// The keys in storage order.
    pub closed spec fn key_seq(&self) -> Seq<Seq<char>> {
        self.entries@.map_values(|e: (String, V)| e.0@)
    }

    proof fn lemma_view(&self)
        requires
            keys_unique(self.pairs()),
        ensures
            self.key_seq().len() == self.pairs().len(),
            forall|k: Seq<char>|
                #![trigger self@.contains_key(k)]
                self@.contains_key(k) <==> self.key_seq().contains(k),
            forall|i: int, j: int|
                0 <= i < self.key_seq().len() && 0 <= j < self.key_seq().len() && i != j
                    ==> self.key_seq()[i] != self.key_seq()[j],
    {
        lemma_map_of(self.pairs());
        assert forall|k: Seq<char>| self@.contains_key(k) <==> self.key_seq().contains(k) by {
            if self@.contains_key(k) {
                let i = choose|i: int| 0 <= i < self.pairs().len() && self.pairs()[i].0 == k;
                assert(self.key_seq()[i] == k);
            }
            if self.key_seq().contains(k) {
                let i = choose|i: int| 0 <= i < self.key_seq().len() && self.key_seq()[i] == k;
                assert(self.pairs()[i].0 == k);
            }
        }
        assert forall|i: int, j: int|
            0 <= i < self.key_seq().len() && 0 <= j < self.key_seq().len() && i != j
                implies self.key_seq()[i] != self.key_seq()[j] by {
            assert(self.pairs()[i].0 == self.key_seq()[i]);
            assert(self.pairs()[j].0 == self.key_seq()[j]);
        }
    }

    /// With `f` never negative, the total is never negative and bounds each value.
    pub proof fn lemma_total_bounds(&self, f: spec_fn(V) -> int)
        requires
            self.wf(),
            forall|v: V| #[trigger] f(v) >= 0,
        ensures
            self.total_by(f) >= 0,
            forall|k: Seq<char>| #[trigger] self@.contains_key(k) ==> f(self@[k]) <= self.total_by(f),
    {
        lemma_sum_bounds(self.pairs(), f);
        lemma_map_of(self.pairs());
        assert forall|k: Seq<char>| #[trigger] self@.contains_key(k) implies f(self@[k]) <= self.total_by(f) by {
            let i = choose|i: int| 0 <= i < self.pairs().len() && self.pairs()[i].0 == k;
            assert(self@[self.pairs()[i].0] == self.pairs()[i].1);
        }
    }

    pub fn new() -> (r: Self)
        ensures
            r.wf(),
            r@ == Map::<Seq<char>, V>::empty(),
            forall|f: spec_fn(V) -> int| r.total_by(f) == 0,
    {
        let r = StrMap { entries: Vec::new() };
        assert(r.pairs() =~= Seq::empty());
        r
    }

    pub fn len(&self) -> (n: usize)
        requires
            self.wf(),
        ensures
            n == self@.len(),
            n == self.key_seq().len(),
    {
        proof {
            self.lemma_view();
            self.lemma_len();
        }
        self.entries.len()
    }

    proof fn lemma_len(&self)
        requires
            keys_unique(self.pairs()),
        ensures
            self@.len() == self.entries@.len(),
    {
        lemma_map_of(self.pairs());
        let ks = self.key_seq();
        self.lemma_view();
        assert(ks.no_duplicates());
        ks.unique_seq_to_set();
        assert(self@.dom() =~= ks.to_set());
    }

    fn index_of(&self, k: &String) -> (r: Option<usize>)
        requires
            self.wf(),
        ensures
            match r {
                Some(i) => i < self.entries@.len() && self.pairs()[i as int].0 == k@
                    && self@.contains_key(k@),
                None => !self@.contains_key(k@),
            },
    {
        proof {
            lemma_map_of(self.pairs());
        }
        let mut i: usize = 0;
        while i < self.entries.len()
            invariant
                i <= self.entries@.len(),
                self.wf(),
                forall|j: int| 0 <= j < i ==> self.pairs()[j].0 != k@,
            decreases self.entries@.len() - i,
        {
            assert(self.pairs()[i as int] == (self.entries@[i as int].0@, self.entries@[i as int].1));
            if self.entries[i].0 == *k {
                proof {
                    lemma_map_of(self.pairs());
                    assert(self.pairs()[i as int].0 == k@);
                }
                return Some(i);
            }
            i = i + 1;
        }
        None
    }

    pub fn contains_key(&self, k: &String) -> (r: bool)
        requires
            self.wf(),
        ensures
            r == self@.contains_key(k@),
    {
        self.index_of(k).is_some()
    }

    pub fn get(&self, k: &String) -> (r: Option<&V>)
        requires
            self.wf(),
        ensures
            match r {
                Some(v) => self@.contains_key(k@) && self@[k@] == *v,
                None => !self@.contains_key(k@),
            },
    {
        proof {
            lemma_map_of(self.pairs());
        }
        match self.index_of(k) {
            Some(i) => {
                assert(self.pairs()[i as int].1 == self.entries@[i as int].1);
                Some(&self.entries[i].1)
            },
            None => None,
        }
    }

    /// All keys, in storage order.
    pub fn keys(&self) -> (r: Vec<String>)
        requires
            self.wf(),
        ensures
            r@.len() == self.key_seq().len(),
            forall|i: int| 0 <= i < r@.len() ==> #[trigger] r@[i]@ == self.key_seq()[i],
            forall|k: Seq<char>|
                #![trigger self@.contains_key(k)]
                self@.contains_key(k) <==> self.key_seq().contains(k),
            forall|i: int, j: int|
                0 <= i < r@.len() && 0 <= j < r@.len() && i != j ==> r@[i]@ != r@[j]@,
    {
        proof {
            self.lemma_view();
        }
        let mut r: Vec<String> = Vec::new();
        let mut i: usize = 0;
        while i < self.entries.len()
            invariant
                i <= self.entries@.len(),
                r@.len() == i,
                forall|j: int| 0 <= j < i ==> #[trigger] r@[j]@ == self.key_seq()[j],
            decreases self.entries@.len() - i,
        {
            r.push(self.entries[i].0.clone());
            i = i + 1;
        }
        r
    }

    pub fn insert(&mut self, k: String, v: V)
        requires
            old(self).wf(),
        ensures
            final(self).wf(),
            final(self)@ == old(self)@.insert(k@, v),
            forall|f: spec_fn(V) -> int|
                #![trigger final(self).total_by(f)]
                final(self).total_by(f) == old(self).total_by(f) + f(v) - (if old(self)@.contains_key(k@) {
                    f(old(self)@[k@])
                } else {
                    0
                }),
    {
        proof {
            lemma_map_of(self.pairs());
        }
        let ghost s = self.pairs();
        let ghost kv = k@;
        match self.index_of(&k) {
            Some(i) => {
                self.entries.set(i, (k, v));
                proof {
                    assert(self.pairs() =~= s.update(i as int, (kv, v)));
                    assert(keys_unique(self.pairs()));
                    lemma_map_of(self.pairs());
                    assert(map_of(self.pairs()) =~= map_of(s).insert(kv, v)) by {
                        assert forall|q: Seq<char>| map_of(self.pairs()).contains_key(q)
                            <==> map_of(s).insert(kv, v).contains_key(q) by {
                            if exists|j: int| 0 <= j < s.len() && s[j].0 == q {
                                let j = choose|j: int| 0 <= j < s.len() && s[j].0 == q;
                                assert(self.pairs()[j].0 == q);
                            }
                            if exists|j: int| 0 <= j < s.len() && self.pairs()[j].0 == q {
                                let j = choose|j: int| 0 <= j < s.len() && self.pairs()[j].0 == q;
                                if j != i {
                                    assert(s[j].0 == q);
                                }
                            }
                        }
                        assert forall|q: Seq<char>| #[trigger] map_of(self.pairs()).contains_key(q)
                            implies map_of(self.pairs())[q] == map_of(s).insert(kv, v)[q] by {
                            let j = choose|j: int| 0 <= j < s.len() && self.pairs()[j].0 == q;
                            assert(map_of(self.pairs())[self.pairs()[j].0] == self.pairs()[j].1);
                            if j != i {
                                assert(map_of(s)[s[j].0] == s[j].1);
                            }
                        }
                    }
                    assert forall|f: spec_fn(V) -> int| #[trigger] self.total_by(f)
                        == sum_by(s, f) + f(v) - f(map_of(s)[kv]) by {
                        lemma_sum_update(s, i as int, (kv, v), f);
                        assert(map_of(s)[s[i as int].0] == s[i as int].1);
                    }
                }
            },
            None => {
                self.entries.push((k, v));
                proof {
                    assert(self.pairs() =~= s.push((kv, v)));
                    assert(self.pairs().drop_last() =~= s);
                    assert forall|a: int, b: int|
                        0 <= a < self.pairs().len() && 0 <= b < self.pairs().len() && a != b
                        implies self.pairs()[a].0 != self.pairs()[b].0 by {
                        if a == s.len() {
                            assert(!map_of(s).contains_key(kv));
                            assert(s[b].0 == self.pairs()[b].0);
                        } else if b == s.len() {
                            assert(s[a].0 == self.pairs()[a].0);
                        }
                    }
                }
            },
        }
    }

    pub fn remove(&mut self, k: &String) -> (r: Option<V>)
        requires
            old(self).wf(),
        ensures
            final(self).wf(),
            final(self)@ == old(self)@.remove(k@),
            match r {
                Some(v) => old(self)@.contains_key(k@) && old(self)@[k@] == v,
                None => !old(self)@.contains_key(k@),
            },
            forall|f: spec_fn(V) -> int|
                #![trigger final(self).total_by(f)]
                final(self).total_by(f) == old(self).total_by(f) - (if old(self)@.contains_key(k@) {
                    f(old(self)@[k@])
                } else {
                    0
                }),
    {
        proof {
            lemma_map_of(self.pairs());
        }
        let ghost s = self.pairs();
        match self.index_of(k) {
            Some(i) => {
                let (_, v) = self.entries.remove(i);
                proof {
                    assert(self.pairs() =~= s.remove(i as int));
                    assert(keys_unique(self.pairs()));
                    lemma_map_of(self.pairs());
                    assert(map_of(s)[s[i as int].0] == s[i as int].1);
                    assert(map_of(self.pairs()) =~= map_of(s).remove(k@)) by {
                        assert forall|q: Seq<char>| map_of(self.pairs()).contains_key(q)
                            <==> map_of(s).remove(k@).contains_key(q) by {
                            if q != k@ && exists|j: int| 0 <= j < s.len() && s[j].0 == q {
                                let j = choose|j: int| 0 <= j < s.len() && s[j].0 == q;
                                if j < i {
                                    assert(self.pairs()[j].0 == q);
                                } else {
                                    assert(self.pairs()[j - 1].0 == q);
                                }
                            }
                            if exists|j: int| 0 <= j < self.pairs().len() && self.pairs()[j].0 == q {
                                let j = choose|j: int| 0 <= j < self.pairs().len() && self.pairs()[j].0 == q;
                                if j < i {
                                    assert(s[j].0 == q);
                                } else {
                                    assert(s[j + 1].0 == q);
                                }
                            }
                        }
                        assert forall|q: Seq<char>| #[trigger] map_of(self.pairs()).contains_key(q)
                            implies map_of(self.pairs())[q] == map_of(s).remove(k@)[q] by {
                            let j = choose|j: int| 0 <= j < self.pairs().len() && self.pairs()[j].0 == q;
                            assert(map_of(self.pairs())[self.pairs()[j].0] == self.pairs()[j].1);
                            if j < i {
                                assert(map_of(s)[s[j].0] == s[j].1);
                            } else {
                                assert(map_of(s)[s[j + 1].0] == s[j + 1].1);
                            }
                        }
                    }
                    assert forall|f: spec_fn(V) -> int| #[trigger] self.total_by(f)
                        == sum_by(s, f) - f(map_of(s)[k@]) by {
                        lemma_sum_remove(s, i as int, f);
                    }
                }
                Some(v)
            },
            None => {
                proof {
                    assert(map_of(s) =~= map_of(s).remove(k@));
                }
                None
            },
        }
    }
}

impl StrMap<u64> {
    /// The values added up.
    pub open spec fn amount_total(&self) -> int {
        self.total_by(|v: u64| v as int)
    }

    /// The values added up, when that fits in a `u64`.
    pub fn amount_sum(&self) -> (r: u64)
        requires
            self.wf(),
            self.amount_total() <= u64::MAX,
        ensures
            r == self.amount_total(),
    {
        let mut acc: u64 = 0;
        let mut i: usize = 0;
        proof {
            lemma_sum_bounds(self.pairs(), |v: u64| v as int);
        }
        while i < self.entries.len()
            invariant
                i <= self.entries@.len(),
                self.amount_total() <= u64::MAX,
                acc == sum_by(self.pairs().subrange(0, i as int), |v: u64| v as int),
            decreases self.entries@.len() - i,
        {
            proof {
                let f = |v: u64| v as int;
                assert(self.pairs().subrange(0, i + 1).drop_last() =~= self.pairs().subrange(0, i as int));
                lemma_sum_prefix(self.pairs(), i + 1, f);
                assert(self.pairs()[i as int].1 == self.entries@[i as int].1);
            }
            acc = acc + self.entries[i].1;
            i = i + 1;
        }
        assert(self.pairs().subrange(0, i as int) =~= self.pairs());
        acc
    }

    /// A copy with the same entries.
    pub fn copy(&self) -> (r: Self)
        requires
            self.wf(),
        ensures
            r.wf(),
            r@ == self@,
            forall|f: spec_fn(u64) -> int| #[trigger] r.total_by(f) == self.total_by(f),
    {
        let mut entries: Vec<(String, u64)> = Vec::new();
        let mut i: usize = 0;
        while i < self.entries.len()
            invariant
                i <= self.entries@.len(),
                entries@.len() == i,
                forall|j: int| 0 <= j < i ==> (#[trigger] entries@[j]).0@ == self.entries@[j].0@
                    && entries@[j].1 == self.entries@[j].1,
            decreases self.entries@.len() - i,
        {
            let k = self.entries[i].0.clone();
            entries.push((k, self.entries[i].1));
            i = i + 1;
        }
        let r = StrMap { entries };
        assert(r.pairs() =~= self.pairs());
        r
    }
}

} // verus!
