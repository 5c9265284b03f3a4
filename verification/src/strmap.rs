//! A map from strings to strings that keeps its entries in insertion order.
use vstd::prelude::*;

verus! {

pub type Pair = (Seq<char>, Seq<char>);

/// The map that inserting the pairs one after the other, from the first to
/// the last, builds: a later pair with the same key wins.
pub open spec fn assoc(ps: Seq<Pair>) -> Map<Seq<char>, Seq<char>>
    decreases ps.len(),
{
    if ps.len() == 0 {
        Map::empty()
    } else {
        assoc(ps.drop_last()).insert(ps.last().0, ps.last().1)
    }
}

/// No key occurs twice.
pub open spec fn distinct_keys(ps: Seq<Pair>) -> bool {
    forall|i: int, j: int| 0 <= i < j < ps.len() ==> #[trigger] ps[i].0 != #[trigger] ps[j].0
}

/// Whether some pair has key `k`.
pub open spec fn has_key(ps: Seq<Pair>, k: Seq<char>) -> bool {
    exists|i: int| 0 <= i < ps.len() && #[trigger] ps[i].0 == k
}

/// The position of the pair with key `k`, where there is one.
pub open spec fn key_index(ps: Seq<Pair>, k: Seq<char>) -> int {
    choose|i: int| 0 <= i < ps.len() && #[trigger] ps[i].0 == k
}

/// The entries after setting `k` to `v`: an entry with key `k` keeps its
/// place and takes the new value, otherwise the pair goes last.
pub open spec fn insert_pairs(ps: Seq<Pair>, k: Seq<char>, v: Seq<char>) -> Seq<Pair> {
    if has_key(ps, k) {
        ps.update(key_index(ps, k), (k, v))
    } else {
        ps.push((k, v))
    }
}

pub proof fn lemma_assoc_dom(ps: Seq<Pair>, k: Seq<char>)
    ensures
        assoc(ps).contains_key(k) <==> has_key(ps, k),
    decreases ps.len(),
{
    if ps.len() > 0 {
        let t = ps.drop_last();
        lemma_assoc_dom(t, k);
        if has_key(t, k) {
            let i = choose|i: int| 0 <= i < t.len() && #[trigger] t[i].0 == k;
            assert(ps[i].0 == k);
        }
        if has_key(ps, k) && ps.last().0 != k {
            let i = choose|i: int| 0 <= i < ps.len() && #[trigger] ps[i].0 == k;
            assert(t[i].0 == k);
        }
        if ps.last().0 == k {
            assert(ps[ps.len() - 1].0 == k);
        }
    }
}

pub proof fn lemma_assoc_at(ps: Seq<Pair>, i: int)
    requires
        distinct_keys(ps),
        0 <= i < ps.len(),
    ensures
        assoc(ps).contains_key(ps[i].0),
        assoc(ps)[ps[i].0] == ps[i].1,
    decreases ps.len(),
{
    if i < ps.len() - 1 {
        let t = ps.drop_last();
        assert(t[i] == ps[i]);
        assert(distinct_keys(t)) by {
            assert forall|a: int, b: int| 0 <= a < b < t.len() implies #[trigger] t[a].0
                != #[trigger] t[b].0 by {
                assert(t[a] == ps[a] && t[b] == ps[b]);
            }
        }
        lemma_assoc_at(t, i);
        assert(ps[i].0 != ps[ps.len() - 1].0);
    }
}

pub proof fn lemma_assoc_update(ps: Seq<Pair>, i: int, v: Seq<char>)
    requires
        distinct_keys(ps),
        0 <= i < ps.len(),
    ensures
        assoc(ps.update(i, (ps[i].0, v))) =~= assoc(ps).insert(ps[i].0, v),
    decreases ps.len(),
{
    let q = ps.update(i, (ps[i].0, v));
    let t = ps.drop_last();
    assert(distinct_keys(t)) by {
        assert forall|a: int, b: int| 0 <= a < b < t.len() implies #[trigger] t[a].0
            != #[trigger] t[b].0 by {
            assert(t[a] == ps[a] && t[b] == ps[b]);
        }
    }
    if i == ps.len() - 1 {
        assert(q.drop_last() =~= t);
        lemma_assoc_dom(t, ps[i].0);
        if has_key(t, ps[i].0) {
            let j = choose|j: int| 0 <= j < t.len() && #[trigger] t[j].0 == ps[i].0;
            assert(ps[j].0 == ps[i].0);
        }
    } else {
        lemma_assoc_update(t, i, v);
        assert(q.drop_last() =~= t.update(i, (t[i].0, v)));
        assert(ps[i].0 != ps.last().0);
    }
}

/// Setting a key in distinct entries sets it in their map.
pub proof fn lemma_insert_pairs_assoc(ps: Seq<Pair>, k: Seq<char>, v: Seq<char>)
    requires
        distinct_keys(ps),
    ensures
        assoc(insert_pairs(ps, k, v)) == assoc(ps).insert(k, v),
{
    if has_key(ps, k) {
        let i = key_index(ps, k);
        lemma_assoc_update(ps, i, v);
    } else {
        assert(ps.push((k, v)).drop_last() =~= ps);
    }
}

/// A map from strings to strings, with its entries in insertion order.
#[derive(Clone)]
pub struct StrMap {
    entries: Vec<(String, String)>,
}

impl View for StrMap {
    type V = Map<Seq<char>, Seq<char>>;

    open spec fn view(&self) -> Map<Seq<char>, Seq<char>> {
        assoc(self.pairs())
    }
}

impl StrMap {
    /// The entries, in order.
    pub closed spec fn pairs(&self) -> Seq<Pair> {
        self.entries@.map_values(|e: (String, String)| (e.0@, e.1@))
    }

    /// Each key occurs in at most one entry.
    pub open spec fn wf(&self) -> bool {
        distinct_keys(self.pairs())
    }

    pub fn new() -> (r: Self)
        ensures
            r.wf(),
            r.pairs() == Seq::<Pair>::empty(),
            r@ == Map::<Seq<char>, Seq<char>>::empty(),
    {
        let r = StrMap { entries: Vec::new() };
        assert(r.pairs() =~= Seq::<Pair>::empty());
        r
    }

    /// The number of entries.
    pub fn len(&self) -> (r: usize)
        ensures
            r == self.pairs().len(),
    {
        self.entries.len()
    }

    /// The key and value of the entry at position `i`.
    pub fn entry(&self, i: usize) -> (r: (&String, &String))
        requires
            i < self.pairs().len(),
        ensures
            r.0@ == self.pairs()[i as int].0,
            r.1@ == self.pairs()[i as int].1,
    {
        let e = &self.entries[i];
        (&e.0, &e.1)
    }

    fn find(&self, key: &String) -> (r: Option<usize>)
        requires
            self.wf(),
        ensures
            match r {
                Some(i) => i < self.pairs().len() && self.pairs()[i as int].0 == key@,
                None => !has_key(self.pairs(), key@),
            },
    {
        let mut i: usize = 0;
        while i < self.entries.len()
            invariant
                0 <= i <= self.entries.len(),
                self.pairs().len() == self.entries.len(),
                forall|j: int| 0 <= j < i ==> #[trigger] self.pairs()[j].0 != key@,
            decreases self.entries.len() - i,
        {
            if self.entries[i].0 == *key {
                return Some(i);
            }
            assert(self.pairs()[i as int].0 == self.entries@[i as int].0@);
            i += 1;
        }
        None
    }

    /// Sets the value of `key`: an entry with that key keeps its place,
    /// a new key goes last.
    pub fn insert(&mut self, key: String, value: String)
        requires
            old(self).wf(),
        ensures
            final(self).wf(),
            final(self)@ == old(self)@.insert(key@, value@),
            final(self).pairs() == insert_pairs(old(self).pairs(), key@, value@),
    {
        let ghost ps = self.pairs();
        match self.find(&key) {
            Some(i) => {
                proof {
                    let k = key_index(ps, key@);
                    assert(0 <= k < ps.len() && ps[k].0 == key@);
                    if k != i {
                        if k < i {
                            assert(ps[k].0 != ps[i as int].0);
                        } else {
                            assert(ps[i as int].0 != ps[k].0);
                        }
                    }
                    lemma_assoc_update(ps, i as int, value@);
                }
                let kv = (key, value);
                self.entries.set(i, kv);
                assert(self.pairs() =~= ps.update(i as int, (ps[i as int].0, kv.1@)));
                assert(self.wf()) by {
                    let q = self.pairs();
                    assert forall|a: int, b: int| 0 <= a < b < q.len() implies #[trigger] q[a].0
                        != #[trigger] q[b].0 by {
                        assert(q[a].0 == ps[a].0 && q[b].0 == ps[b].0);
                    }
                }
            },
            None => {
                let kv = (key, value);
                self.entries.push(kv);
                assert(self.pairs() =~= ps.push((kv.0@, kv.1@)));
                assert(self.wf()) by {
                    let q = self.pairs();
                    assert forall|a: int, b: int| 0 <= a < b < q.len() implies #[trigger] q[a].0
                        != #[trigger] q[b].0 by {
                        if b == q.len() - 1 {
                            assert(ps[a].0 == q[a].0);
                        } else {
                            assert(q[a].0 == ps[a].0 && q[b].0 == ps[b].0);
                        }
                    }
                }
                assert(ps.push((kv.0@, kv.1@)).drop_last() =~= ps);
            },
        }
    }

    /// The value of `key`.
    pub fn get(&self, key: &str) -> (r: Option<&String>)
        requires
            self.wf(),
        ensures
            match r {
                Some(v) => self@.contains_key(key@) && v@ == self@[key@],
                None => !self@.contains_key(key@),
            },
    {
        let k = key.to_owned();
        proof {
            lemma_assoc_dom(self.pairs(), key@);
        }
        match self.find(&k) {
            Some(i) => {
                proof {
                    lemma_assoc_at(self.pairs(), i as int);
                }
                Some(&self.entries[i].1)
            },
            None => None,
        }
    }
}

} // verus!
