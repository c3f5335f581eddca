//! Frequency tables of string values, and stable ranking by count.

use vstd::multiset::Multiset;
use vstd::prelude::*;

use crate::text::trimmed;

verus! {

/// `p` lists every index below `n` exactly once.
pub open spec fn is_permutation(p: Seq<usize>, n: nat) -> bool {
    &&& p.len() == n
    &&& forall|i: int| 0 <= i < p.len() ==> #[trigger] p[i] < n
    &&& forall|i: int, j: int| 0 <= i < j < p.len() ==> p[i] != p[j]
    &&& forall|x: usize| x < n ==> p.contains(x)
}

/// `p` orders indices by decreasing `key`, ties in increasing index order.
pub open spec fn ranks_by_desc(p: Seq<usize>, key: Seq<usize>) -> bool {
    forall|i: int, j: int|
        0 <= i < j < p.len() ==> {
            ||| key[p[i] as int] > key[p[j] as int]
            ||| (key[p[i] as int] == key[p[j] as int] && p[i] < p[j])
        }
}

/// The indices of `key`, ordered by decreasing value; equal values keep
/// their order (a stable sort).
pub fn rank_desc(key: &Vec<usize>) -> (p: Vec<usize>)
    ensures
        is_permutation(p@, key@.len()),
        ranks_by_desc(p@, key@),
{
    let n: usize = key.len();
    let mut p: Vec<usize> = Vec::new();
    let mut x: usize = 0;
    while x < n
        invariant
            x <= n,
            n == key@.len(),
            is_permutation(p@, x as nat),
            ranks_by_desc(p@, key@),
        decreases n - x,
    {
        let kx: usize = key[x];
        let mut pos: usize = 0;
        while pos < p.len() && key[p[pos]] >= kx
            invariant
                pos <= p@.len(),
                x < n,
                n == key@.len(),
                is_permutation(p@, x as nat),
                kx == key@[x as int],
                forall|q: int| 0 <= q < pos ==> key@[#[trigger] p@[q] as int] >= kx,
            decreases p@.len() - pos,
        {
            pos = pos + 1;
        }
        let ghost old_p = p@;
        proof {
            old_p.insert_ensures(pos as int, x);
            assert forall|q: int| pos <= q < old_p.len() implies key@[#[trigger] old_p[q] as int]
                < kx by {
                if q > pos {
                    assert(!(key@[old_p[pos as int] as int] > key@[old_p[q] as int])
                        ==> old_p[pos as int] < old_p[q]);
                }
            }
        }
        p.insert(pos, x);
        proof {
            assert forall|i: int, j: int| 0 <= i < j < p@.len() implies {
                ||| key@[p@[i] as int] > key@[p@[j] as int]
                ||| (key@[p@[i] as int] == key@[p@[j] as int] && p@[i] < p@[j])
            } by {
                if j < pos {
                    assert(p@[i] == old_p[i] && p@[j] == old_p[j]);
                } else if j == pos {
                    assert(p@[i] == old_p[i]);
                } else if i < pos {
                    assert(p@[i] == old_p[i] && p@[j] == old_p[j - 1]);
                } else if i == pos {
                    assert(p@[j] == old_p[j - 1]);
                } else {
                    assert(p@[i] == old_p[i - 1] && p@[j] == old_p[j - 1]);
                }
            }
            assert forall|y: usize| y < x + 1 implies p@.contains(y) by {
                if y == x {
                    assert(p@[pos as int] == x);
                } else {
                    assert(old_p.contains(y));
                    let q = choose|q: int| 0 <= q < old_p.len() && old_p[q] == y;
                    if q < pos {
                        assert(p@[q] == y);
                    } else {
                        assert(p@[q + 1] == y);
                    }
                }
            }
            assert forall|i: int, j: int| 0 <= i < j < p@.len() implies p@[i] != p@[j] by {
                if j < pos {
                    assert(p@[i] == old_p[i] && p@[j] == old_p[j]);
                } else if j == pos {
                    assert(p@[i] == old_p[i]);
                } else if i < pos {
                    assert(p@[i] == old_p[i] && p@[j] == old_p[j - 1]);
                } else if i == pos {
                    assert(p@[j] == old_p[j - 1]);
                } else {
                    assert(p@[i] == old_p[i - 1] && p@[j] == old_p[j - 1]);
                }
            }
            assert forall|i: int| 0 <= i < p@.len() implies #[trigger] p@[i] < x + 1 by {
                if i < pos {
                    assert(p@[i] == old_p[i]);
                } else if i > pos {
                    assert(p@[i] == old_p[i - 1]);
                }
            }
        }
        x = x + 1;
    }
    p
}


/// How often `k` occurs in the counts `m` (zero when absent).
pub open spec fn count_in(m: Map<Seq<char>, nat>, k: Seq<char>) -> nat {
    if m.contains_key(k) {
        m[k]
    } else {
        0
    }
}

/// `m` after one more occurrence of `k`.
pub open spec fn bump(m: Map<Seq<char>, nat>, k: Seq<char>) -> Map<Seq<char>, nat> {
    m.insert(k, count_in(m, k) + 1)
}

/// The sum of all counts in `m`.
pub open spec fn count_total(m: Map<Seq<char>, nat>) -> nat {
    Multiset::from_map(m).len()
}

/// `m` has finitely many keys, each non-blank, trimmed and counted at
/// least once.
pub open spec fn trimmed_counts(m: Map<Seq<char>, nat>) -> bool {
    &&& m.dom().finite()
    &&& forall|k: Seq<char>|
        #[trigger] m.contains_key(k) ==> k.len() > 0 && trimmed(k) == k && m[k] >= 1
}

/// No counts sum to zero.
pub(crate) proof fn lemma_count_total_empty()
    ensures
        count_total(Map::<Seq<char>, nat>::empty()) == 0,
{
    broadcast use vstd::multiset::group_multiset_axioms;

    assert(Multiset::from_map(Map::<Seq<char>, nat>::empty()) =~= Multiset::empty());
}

/// No single count exceeds the sum of the counts.
pub(crate) proof fn lemma_count_le_total(m: Map<Seq<char>, nat>, k: Seq<char>)
    requires
        m.dom().finite(),
    ensures
        count_in(m, k) <= count_total(m),
{
    broadcast use vstd::multiset::group_multiset_axioms;

    assert(Multiset::from_map(m).count(k) <= Multiset::from_map(m).len());
}

/// One more occurrence adds one to the sum of the counts.
pub(crate) proof fn lemma_count_total_bump(m: Map<Seq<char>, nat>, k: Seq<char>)
    requires
        m.dom().finite(),
    ensures
        bump(m, k).dom().finite(),
        count_total(bump(m, k)) == count_total(m) + 1,
{
    broadcast use vstd::multiset::group_multiset_axioms;

    let b = bump(m, k);
    assert(b.dom() =~= m.dom().insert(k));
    assert(Multiset::from_map(b) =~= Multiset::from_map(m).insert(k)) by {
        assert forall|v: Seq<char>|
            #[trigger] Multiset::from_map(b).count(v) == Multiset::from_map(m).insert(k).count(v) by {
            if v != k && !m.contains_key(v) {
                assert(!b.dom().contains(v));
            }
        }
    }
}

/// `v` lists the pairs of `m`, each key once.
pub open spec fn lists_exactly(v: Seq<(String, usize)>, m: Map<Seq<char>, nat>) -> bool {
    &&& forall|i: int|
        0 <= i < v.len() ==> m.contains_key(#[trigger] v[i].0@) && m[v[i].0@] == v[i].1
    &&& forall|i: int, j: int| 0 <= i < j < v.len() ==> v[i].0@ != v[j].0@
    &&& forall|k: Seq<char>| m.contains_key(k) ==> exists|i: int| 0 <= i < v.len() && #[trigger] v[i].0@ == k
}

/// Counts do not increase along `v`.
pub open spec fn by_count_desc(v: Seq<(String, usize)>) -> bool {
    forall|i: int, j: int| 0 <= i < j < v.len() ==> v[i].1 >= v[j].1
}

/// `v` holds the `k` most frequent values of `m` (all of them when there
/// are fewer), most frequent first; no value left out is more frequent than
/// one listed.
pub open spec fn is_top(v: Seq<(String, usize)>, m: Map<Seq<char>, nat>, k: nat) -> bool {
    &&& v.len() == (if k < m.dom().len() { k } else { m.dom().len() })
    &&& forall|i: int|
        0 <= i < v.len() ==> m.contains_key(#[trigger] v[i].0@) && m[v[i].0@] == v[i].1
    &&& forall|i: int, j: int| 0 <= i < j < v.len() ==> v[i].0@ != v[j].0@
    &&& by_count_desc(v)
    &&& forall|key: Seq<char>, i: int|
        #![trigger m[key], v[i]]
        m.contains_key(key) && 0 <= i < v.len() && (forall|j: int|
            0 <= j < v.len() ==> v[j].0@ != key) ==> m[key] <= v[i].1
}

/// The first entries of a list of the `k` most frequent values, copied to
/// `w`, are a list of the `j` most frequent values, for any `j <= k`.
pub(crate) proof fn lemma_top_prefix(
    v: Seq<(String, usize)>,
    w: Seq<(String, usize)>,
    m: Map<Seq<char>, nat>,
    k: nat,
    j: nat,
)
    requires
        is_top(v, m, k),
        j <= k,
        w.len() == (if j < v.len() { j } else { v.len() }),
        forall|i: int| 0 <= i < w.len() ==> (#[trigger] w[i]).0@ == v[i].0@ && w[i].1 == v[i].1,
    ensures
        is_top(w, m, j),
{
    assert forall|i: int| 0 <= i < w.len() implies m.contains_key(#[trigger] w[i].0@) && m[w[i].0@]
        == w[i].1 by {
        assert(m.contains_key(v[i].0@));
    }
    assert forall|a: int, b: int| 0 <= a < b < w.len() implies w[a].0@ != w[b].0@ && w[a].1
        >= w[b].1 by {
        assert(w[a].0@ == v[a].0@ && w[b].0@ == v[b].0@);
        assert(v[a].0@ != v[b].0@);
    }
    assert forall|key: Seq<char>, i: int|
        #![trigger m[key], w[i]]
        m.contains_key(key) && 0 <= i < w.len() && (forall|q: int|
            0 <= q < w.len() ==> w[q].0@ != key) implies m[key] <= w[i].1 by {
        assert(w[i].1 == v[i].1);
        if exists|q: int| 0 <= q < v.len() && v[q].0@ == key {
            let q = choose|q: int| 0 <= q < v.len() && v[q].0@ == key;
            if q < w.len() {
                assert(w[q].0@ == key);
            }
            assert(v[i].1 >= v[q].1);
        } else {
            assert(m[key] <= v[i].1);
        }
    }
}

/// A table of how often each string value occurred.
pub struct FreqTable {
    entries: Vec<(String, usize)>,
}

impl FreqTable {
    /// The keys, in the order in which they first occurred.
    pub closed spec fn keys(&self) -> Seq<Seq<char>> {
        self.entries@.map_values(|e: (String, usize)| e.0@)
    }

    #[verifier::type_invariant]
    closed spec fn keys_distinct(&self) -> bool {
        self.keys().no_duplicates()
    }

    /// Sum of all counts.
    pub closed spec fn total(&self) -> nat {
        sum_counts(self.entries@)
    }

    proof fn lemma_view_at(&self, i: int)
        requires
            self.keys().no_duplicates(),
            0 <= i < self.entries@.len(),
        ensures
            self@.contains_key(self.entries@[i].0@),
            self@[self.entries@[i].0@] == self.entries@[i].1,
            self.keys().index_of(self.entries@[i].0@) == i,
    {
        let k = self.entries@[i].0@;
        assert(self.keys()[i] == k);
        let j = self.keys().index_of(k);
        assert(self.keys()[j] == k);
    }

    /// An empty table.
    pub fn new() -> (t: Self)
        ensures
            t@ == Map::<Seq<char>, nat>::empty(),
            t.keys() == Seq::<Seq<char>>::empty(),
            t.total() == 0,
    {
        let t = FreqTable { entries: Vec::new() };
        assert(t@ =~= Map::<Seq<char>, nat>::empty());
        assert(t.keys() =~= Seq::<Seq<char>>::empty());
        t
    }

    /// Position of `key` among the entries.
    fn find(&self, key: &String) -> (r: Option<usize>)
        requires
            self.keys().no_duplicates(),
        ensures
            match r {
                Some(i) => i < self.entries@.len() && self.entries@[i as int].0@ == key@,
                None => !self@.contains_key(key@),
            },
    {
        let n: usize = self.entries.len();
        let mut i: usize = 0;
        while i < n
            invariant
                i <= n,
                n == self.entries@.len(),
                forall|j: int| 0 <= j < i ==> self.keys()[j] != key@,
            decreases n - i,
        {
            if self.entries[i].0 == *key {
                return Some(i);
            }
            assert(self.keys()[i as int] == self.entries@[i as int].0@);
            i = i + 1;
        }
        None
    }

    /// How often `key` occurred.
    pub fn get(&self, key: &String) -> (r: usize)
        ensures
            r == count_in(self@, key@),
    {
        proof {
            use_type_invariant(self);
        }
        match self.find(key) {
            Some(i) => {
                proof {
                    self.lemma_view_at(i as int);
                }
                self.entries[i].1
            },
            None => 0,
        }
    }

    /// Whether `key` has occurred.
    pub fn contains(&self, key: &String) -> (r: bool)
        ensures
            r == self@.contains_key(key@),
    {
        proof {
            use_type_invariant(self);
        }
        match self.find(key) {
            Some(i) => {
                proof {
                    self.lemma_view_at(i as int);
                }
                true
            },
            None => false,
        }
    }

    /// Records one more occurrence of `key`.
    pub fn add(&mut self, key: &str)
        requires
            count_in(old(self)@, key@) < usize::MAX,
        ensures
            final(self)@ == bump(old(self)@, key@),
            final(self).keys() == (if old(self)@.contains_key(key@) {
                old(self).keys()
            } else {
                old(self).keys().push(key@)
            }),
            final(self).total() == old(self).total() + 1,
    {
        proof {
            use_type_invariant(&*self);
        }
        let k: String = key.to_owned();
        let ghost old_entries = self.entries@;
        match self.find(&k) {
            Some(i) => {
                proof {
                    self.lemma_view_at(i as int);
                }
                let c: usize = self.entries[i].1;
                let name: String = self.entries[i].0.clone();
                let mut entries: Vec<(String, usize)> = Vec::new();
                std::mem::swap(&mut entries, &mut self.entries);
                entries.set(i, (name, c + 1));
                assert(entries@.map_values(|e: (String, usize)| e.0@) =~= old(self).keys());
                self.entries = entries;
                proof {
                    assert(self.keys() =~= old(self).keys());
                    assert forall|q: Seq<char>| #![auto] self@.contains_key(q) implies self@[q] == bump(old(self)@, key@)[q] by {
                        let j = self.keys().index_of(q);
                        assert(0 <= j < self.keys().len() && self.keys()[j] == q);
                    }
                    assert(self@ =~= bump(old(self)@, key@));
                    lemma_sum_counts_update(old_entries, i as int, (name, (c + 1) as usize));
                }
            },
            None => {
                let mut entries: Vec<(String, usize)> = Vec::new();
                std::mem::swap(&mut entries, &mut self.entries);
                entries.push((k, 1));
                proof {
                    assert(entries@.map_values(|e: (String, usize)| e.0@) =~= old(self).keys().push(key@));
                    assert(!old(self).keys().contains(key@));
                }
                self.entries = entries;
                proof {
                    let n = old_entries.len() as int;
                    assert(self.keys() =~= old(self).keys().push(key@));
                    assert(self.keys().no_duplicates()) by {
                        assert(!old(self).keys().contains(key@));
                    }
                    assert forall|q: Seq<char>| #![auto] self@.contains_key(q) implies self@[q] == bump(old(self)@, key@)[q] by {
                        let j = self.keys().index_of(q);
                        assert(0 <= j < self.keys().len() && self.keys()[j] == q);
                        if q != key@ {
                            assert(old(self).keys()[j] == q);
                            let j0 = old(self).keys().index_of(q);
                            assert(0 <= j0 < old(self).keys().len() && old(self).keys()[j0] == q);
                            assert(self.keys()[j0] == q);
                        } else {
                            assert(self.keys()[n] == q);
                        }
                    }
                    assert forall|q: Seq<char>| #![auto] bump(old(self)@, key@).contains_key(q) implies self@.contains_key(q) by {
                        if q != key@ {
                            let j0 = old(self).keys().index_of(q);
                            assert(self.keys()[j0] == q);
                        } else {
                            assert(self.keys()[n] == q);
                        }
                    }
                    assert(self@ =~= bump(old(self)@, key@));
                    assert(self.entries@.drop_last() =~= old_entries);
                }
            },
        }
    }

    /// Number of distinct values.
    pub fn len(&self) -> (r: usize)
        ensures
            r == self@.dom().len(),
            self@.dom().finite(),
    {
        proof {
            use_type_invariant(self);
            self.keys().unique_seq_to_set();
            assert(self@.dom() =~= self.keys().to_set());
        }
        self.entries.len()
    }

    /// The values with their counts, most frequent first; values with equal
    /// counts in the order in which they first occurred.
    pub fn ranked(&self) -> (v: Vec<(String, usize)>)
        ensures
            v@.len() == self@.dom().len(),
            lists_exactly(v@, self@),
            by_count_desc(v@),
            forall|i: int, j: int|
                0 <= i < j < v@.len() && v@[i].1 == v@[j].1 ==> self.keys().index_of(v@[i].0@)
                    < self.keys().index_of(v@[j].0@),
    {
        proof {
            use_type_invariant(self);
        }
        let n: usize = self.entries.len();
        let mut counts: Vec<usize> = Vec::new();
        let mut i: usize = 0;
        while i < n
            invariant
                i <= n,
                n == self.entries@.len(),
                counts@.len() == i,
                forall|j: int| 0 <= j < i ==> counts@[j] == #[trigger] self.entries@[j].1,
            decreases n - i,
        {
            counts.push(self.entries[i].1);
            i = i + 1;
        }
        let p: Vec<usize> = rank_desc(&counts);
        let mut v: Vec<(String, usize)> = Vec::new();
        let mut q: usize = 0;
        while q < n
            invariant
                q <= n,
                n == self.entries@.len(),
                counts@.len() == n,
                forall|j: int| 0 <= j < n ==> counts@[j] == #[trigger] self.entries@[j].1,
                is_permutation(p@, n as nat),
                ranks_by_desc(p@, counts@),
                self.keys().no_duplicates(),
                v@.len() == q,
                forall|j: int| 0 <= j < q ==> #[trigger] v@[j] == self.entries@[p@[j] as int],
            decreases n - q,
        {
            let idx: usize = p[q];
            let name: String = self.entries[idx].0.clone();
            v.push((name, self.entries[idx].1));
            q = q + 1;
        }
        proof {
            self.keys().unique_seq_to_set();
            assert(self@.dom() =~= self.keys().to_set());
            assert forall|j: int| 0 <= j < v@.len() implies self@.contains_key(#[trigger] v@[j].0@)
                && self@[v@[j].0@] == v@[j].1 by {
                self.lemma_view_at(p@[j] as int);
            }
            assert forall|a: int, b: int| 0 <= a < b < v@.len() implies v@[a].0@ != v@[b].0@ by {
                assert(self.keys()[p@[a] as int] == v@[a].0@);
                assert(self.keys()[p@[b] as int] == v@[b].0@);
            }
            assert forall|k: Seq<char>| self@.contains_key(k) implies exists|j: int|
                0 <= j < v@.len() && #[trigger] v@[j].0@ == k by {
                let e = self.keys().index_of(k);
                assert(0 <= e < n && self.keys()[e] == k);
                assert(p@.contains(e as usize));
                let j = choose|j: int| 0 <= j < p@.len() && p@[j] == e as usize;
                assert(v@[j].0@ == k);
            }
            assert forall|a: int, b: int| 0 <= a < b < v@.len() implies v@[a].1 >= v@[b].1 by {
                assert(counts@[p@[a] as int] == v@[a].1);
                assert(counts@[p@[b] as int] == v@[b].1);
            }
            assert forall|a: int, b: int|
                0 <= a < b < v@.len() && v@[a].1 == v@[b].1 implies self.keys().index_of(v@[a].0@)
                    < self.keys().index_of(v@[b].0@) by {
                assert(counts@[p@[a] as int] == v@[a].1);
                assert(counts@[p@[b] as int] == v@[b].1);
                self.lemma_view_at(p@[a] as int);
                self.lemma_view_at(p@[b] as int);
            }
        }
        v
    }

    /// The `k` most frequent values with their counts, most frequent first;
    /// values with equal counts in the order in which they first occurred.
    pub fn top(&self, k: usize) -> (v: Vec<(String, usize)>)
        ensures
            is_top(v@, self@, k as nat),
            forall|i: int, j: int|
                0 <= i < j < v@.len() && v@[i].1 == v@[j].1 ==> self.keys().index_of(v@[i].0@)
                    < self.keys().index_of(v@[j].0@),
    {
        let mut v: Vec<(String, usize)> = self.ranked();
        let ghost all = v@;
        v.truncate(k);
        proof {
            assert(v@ =~= all.take(if k < all.len() { k as int } else { all.len() as int }));
            assert forall|key: Seq<char>, i: int|
                #![trigger self@[key], v@[i]]
                self@.contains_key(key) && 0 <= i < v@.len() && (forall|j: int|
                    0 <= j < v@.len() ==> v@[j].0@ != key) implies self@[key] <= v@[i].1 by {
                let q = choose|q: int| 0 <= q < all.len() && #[trigger] all[q].0@ == key;
                if q < v@.len() {
                    assert(v@[q].0@ == key);
                }
                assert(all[i] == v@[i]);
            }
        }
        v
    }
}

impl View for FreqTable {
    type V = Map<Seq<char>, nat>;

    closed spec fn view(&self) -> Map<Seq<char>, nat> {
        Map::new(
            |k: Seq<char>| self.keys().contains(k),
            |k: Seq<char>| self.entries@[self.keys().index_of(k)].1 as nat,
        )
    }
}

/// Sum of the counts in `s`.
pub open spec fn sum_counts(s: Seq<(String, usize)>) -> nat
    decreases s.len(),
{
    if s.len() == 0 {
        0
    } else {
        sum_counts(s.drop_last()) + s.last().1 as nat
    }
}

proof fn lemma_sum_counts_update(s: Seq<(String, usize)>, i: int, e: (String, usize))
    requires
        0 <= i < s.len(),
    ensures
        sum_counts(s.update(i, e)) == sum_counts(s) - s[i].1 + e.1,
    decreases s.len(),
{
    if i < s.len() - 1 {
        lemma_sum_counts_update(s.drop_last(), i, e);
        assert(s.update(i, e).drop_last() =~= s.drop_last().update(i, e));
    } else {
        assert(s.update(i, e).drop_last() =~= s.drop_last());
    }
}

} // verus!
