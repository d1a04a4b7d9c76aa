//! The in-memory index: for each live key, where its latest `Set` record is.
use vstd::prelude::*;

verus! {

/// Where one record lies: its segment's generation, its first byte, its length.
#[derive(Debug, Clone, Copy, PartialEq, Eq, Structural)]
pub struct Locator {
    pub gen: u64,
    pub pos: u64,
    pub len: u64,
}

/// A record copied during compaction: from where, and to where.
#[derive(Debug, Clone, Copy, PartialEq, Eq, Structural)]
pub struct Transfer {
    pub from: Locator,
    pub to: Locator,
}

/// The sum of the lengths.
pub open spec fn total_len(ls: Seq<Locator>) -> int
    decreases ls.len(),
{
    if ls.len() == 0 {
        0
    } else {
        total_len(ls.drop_last()) + ls.last().len
    }
}

pub open spec fn locators(es: Seq<(Seq<char>, Locator)>) -> Seq<Locator> {
    es.map_values(|e: (Seq<char>, Locator)| e.1)
}

pub open spec fn sources(ts: Seq<Transfer>) -> Seq<Locator> {
    ts.map_values(|t: Transfer| t.from)
}

/// The transfers write their records one after the other from the start of
/// segment `gen`, each as long as its source.
pub open spec fn packed(ts: Seq<Transfer>, gen: u64) -> bool {
    &&& total_len(sources(ts)) <= u64::MAX
    &&& forall|i: int|
        0 <= i < ts.len() ==> #[trigger] ts[i].to == (Locator {
            gen,
            pos: total_len(sources(ts).take(i)) as u64,
            len: ts[i].from.len,
        })
}

pub proof fn lemma_total_len_prefix(ls: Seq<Locator>, i: int)
    requires
        0 <= i <= ls.len(),
    ensures
        0 <= total_len(ls.take(i)) <= total_len(ls),
        i < ls.len() ==> total_len(ls.take(i + 1)) == total_len(ls.take(i)) + ls[i].len,
    decreases ls.len(),
{
    if i < ls.len() {
        assert(ls.take(i + 1).drop_last() =~= ls.take(i));
    }
    if ls.len() > 0 {
        if i == ls.len() {
            assert(ls.take(i) =~= ls);
            lemma_total_len_prefix(ls.drop_last(), 0);
        } else {
            lemma_total_len_prefix(ls.drop_last(), i);
            assert(ls.drop_last().take(i) =~= ls.take(i));
        }
    }
}

/// A map from keys to locators, kept as a list of distinct keys.
pub struct KeyIndex {
    entries: Vec<(String, Locator)>,
    map: Ghost<Map<Seq<char>, Locator>>,
}

impl View for KeyIndex {
    type V = Map<Seq<char>, Locator>;

    closed spec fn view(&self) -> Map<Seq<char>, Locator> {
        self.map@
    }
}

impl KeyIndex {
    /// The entries in their stored order.
    pub closed spec fn entries(&self) -> Seq<(Seq<char>, Locator)> {
        self.entries@.map_values(|e: (String, Locator)| (e.0@, e.1))
    }

    pub closed spec fn wf(&self) -> bool {
        &&& forall|i: int, j: int|
            0 <= i < j < self.entries@.len() ==> self.entries@[i].0@ != self.entries@[j].0@
        &&& forall|i: int|
            0 <= i < self.entries@.len() ==> #[trigger] self.map@.contains_key(
                self.entries@[i].0@,
            ) && self.map@[self.entries@[i].0@] == self.entries@[i].1
        &&& forall|k: Seq<char>|
            #[trigger] self.map@.contains_key(k) ==> exists|i: int|
                0 <= i < self.entries@.len() && self.entries@[i].0@ == k
    }

    /// Every key of the map stands once in the entries, with its locator.
    pub proof fn lemma_entries(&self)
        requires
            self.wf(),
        ensures
            forall|i: int, j: int|
                0 <= i < j < self.entries().len() ==> self.entries()[i].0 != self.entries()[j].0,
            forall|i: int|
                0 <= i < self.entries().len() ==> #[trigger] self@.contains_key(
                    self.entries()[i].0,
                ) && self@[self.entries()[i].0] == self.entries()[i].1,
            forall|k: Seq<char>|
                #[trigger] self@.contains_key(k) ==> exists|i: int|
                    0 <= i < self.entries().len() && self.entries()[i].0 == k,
    {
        assert forall|k: Seq<char>| #[trigger] self@.contains_key(k) implies exists|i: int|
            0 <= i < self.entries().len() && self.entries()[i].0 == k by {
            let i = choose|i: int| 0 <= i < self.entries@.len() && self.entries@[i].0@ == k;
            assert(self.entries()[i].0 == k);
        }
        assert forall|i: int|
            0 <= i < self.entries().len() implies #[trigger] self@.contains_key(
            self.entries()[i].0,
        ) && self@[self.entries()[i].0] == self.entries()[i].1 by {
            assert(self.entries()[i] == (self.entries@[i].0@, self.entries@[i].1));
        }
    }

    pub fn new() -> (r: KeyIndex)
        ensures
            r.wf(),
            r@ == Map::<Seq<char>, Locator>::empty(),
    {
        KeyIndex { entries: Vec::new(), map: Ghost(Map::empty()) }
    }

    /// The number of keys.
    pub fn len(&self) -> (r: usize)
        requires
            self.wf(),
        ensures
            r == self.entries().len(),
    {
        self.entries.len()
    }

    /// The position of `key` among the entries.
    fn find(&self, key: &String) -> (r: Option<usize>)
        requires
            self.wf(),
        ensures
            match r {
                Some(i) => i < self.entries@.len() && self.entries@[i as int].0@ == key@,
                None => !self@.contains_key(key@),
            },
    {
        let mut i: usize = 0;
        while i < self.entries.len()
            invariant
                self.wf(),
                i <= self.entries@.len(),
                forall|j: int| 0 <= j < i ==> self.entries@[j].0@ != key@,
            decreases self.entries@.len() - i,
        {
            if self.entries[i].0 == *key {
                return Some(i);
            }
            i = i + 1;
        }
        None
    }

    /// The locator of `key`.
    pub fn get(&self, key: &String) -> (r: Option<Locator>)
        requires
            self.wf(),
        ensures
            r == (if self@.contains_key(key@) {
                Some(self@[key@])
            } else {
                None
            }),
    {
        match self.find(key) {
            Some(i) => Some(self.entries[i].1),
            None => None,
        }
    }

    /// Points `key` at `loc`.
    pub fn insert(&mut self, key: String, loc: Locator)
        requires
            old(self).wf(),
        ensures
            final(self).wf(),
            final(self)@ == old(self)@.insert(key@, loc),
    {
        let ghost k = key@;
        match self.find(&key) {
            Some(i) => {
                self.entries.set(i, (key, loc));
                self.map = Ghost(self.map@.insert(k, loc));
                assert forall|a: int, b: int|
                    0 <= a < b < self.entries@.len() implies self.entries@[a].0@
                    != self.entries@[b].0@ by {
                    assert(old(self).entries@[a].0@ != old(self).entries@[b].0@);
                }
                assert forall|a: int|
                    0 <= a < self.entries@.len() implies #[trigger] self.map@.contains_key(
                    self.entries@[a].0@,
                ) && self.map@[self.entries@[a].0@] == self.entries@[a].1 by {
                    if a != i {
                        assert(old(self).map@.contains_key(old(self).entries@[a].0@));
                        assert(old(self).entries@[a].0@ != old(self).entries@[i as int].0@);
                    }
                }
                assert forall|k2: Seq<char>| #[trigger] self.map@.contains_key(k2) implies exists|
                    j: int,
                | 0 <= j < self.entries@.len() && self.entries@[j].0@ == k2 by {
                    if k2 != k {
                        let j = choose|j: int|
                            0 <= j < old(self).entries@.len() && old(self).entries@[j].0@ == k2;
                        assert(self.entries@[j].0@ == k2);
                    } else {
                        assert(self.entries@[i as int].0@ == k2);
                    }
                }
            },
            None => {
                self.entries.push((key, loc));
                self.map = Ghost(self.map@.insert(k, loc));
                assert forall|a: int|
                    0 <= a < old(self).entries@.len() implies old(self).entries@[a].0@ != k by {
                    assert(old(self).map@.contains_key(old(self).entries@[a].0@));
                }
                assert forall|a: int, b: int|
                    0 <= a < b < self.entries@.len() implies self.entries@[a].0@
                    != self.entries@[b].0@ by {
                    if b < old(self).entries@.len() {
                        assert(old(self).entries@[a].0@ != old(self).entries@[b].0@);
                    } else {
                        assert(old(self).entries@[a].0@ != k);
                    }
                }
                assert forall|a: int|
                    0 <= a < self.entries@.len() implies #[trigger] self.map@.contains_key(
                    self.entries@[a].0@,
                ) && self.map@[self.entries@[a].0@] == self.entries@[a].1 by {
                    if a < old(self).entries@.len() {
                        assert(old(self).map@.contains_key(old(self).entries@[a].0@));
                        assert(old(self).entries@[a].0@ != k);
                    }
                }
                assert forall|k2: Seq<char>| #[trigger] self.map@.contains_key(k2) implies exists|
                    j: int,
                | 0 <= j < self.entries@.len() && self.entries@[j].0@ == k2 by {
                    if k2 != k {
                        let j = choose|j: int|
                            0 <= j < old(self).entries@.len() && old(self).entries@[j].0@ == k2;
                        assert(self.entries@[j].0@ == k2);
                    } else {
                        assert(self.entries@[self.entries@.len() - 1].0@ == k2);
                    }
                }
            },
        }
    }

    /// Drops `key`; says whether it was there.
    pub fn remove(&mut self, key: &String) -> (r: bool)
        requires
            old(self).wf(),
        ensures
            final(self).wf(),
            r == old(self)@.contains_key(key@),
            final(self)@ == old(self)@.remove(key@),
    {
        match self.find(key) {
            Some(i) => {
                let ghost k = key@;
                let _ = self.entries.remove(i);
                self.map = Ghost(self.map@.remove(k));
                assert forall|a: int, b: int|
                    0 <= a < b < self.entries@.len() implies self.entries@[a].0@
                    != self.entries@[b].0@ by {
                    let oa = if a < i { a } else { a + 1 };
                    let ob = if b < i { b } else { b + 1 };
                    assert(self.entries@[a] == old(self).entries@[oa]);
                    assert(self.entries@[b] == old(self).entries@[ob]);
                }
                assert forall|a: int|
                    0 <= a < self.entries@.len() implies #[trigger] self.map@.contains_key(
                    self.entries@[a].0@,
                ) && self.map@[self.entries@[a].0@] == self.entries@[a].1 by {
                    let oa = if a < i { a } else { a + 1 };
                    assert(self.entries@[a] == old(self).entries@[oa]);
                    assert(old(self).entries@[i as int].0@ == k);
                    assert(old(self).entries@[oa].0@ != k);
                    assert(old(self).map@.contains_key(old(self).entries@[oa].0@));
                }
                assert forall|k2: Seq<char>| #[trigger] self.map@.contains_key(k2) implies exists|
                    j: int,
                | 0 <= j < self.entries@.len() && self.entries@[j].0@ == k2 by {
                    let j = choose|j: int|
                        0 <= j < old(self).entries@.len() && old(self).entries@[j].0@ == k2;
                    if j < i {
                        assert(self.entries@[j] == old(self).entries@[j]);
                    } else {
                        assert(self.entries@[j - 1] == old(self).entries@[j]);
                    }
                }
                true
            },
            None => {
                assert(self.map@.remove(key@) =~= self.map@);
                false
            },
        }
    }

    /// Moves every entry into segment `gen`, packed in entry order; `None`,
    /// with nothing changed, where the records together exceed `u64::MAX`
    /// bytes.
    pub fn relocate(&mut self, gen: u64) -> (r: Option<Vec<Transfer>>)
        requires
            old(self).wf(),
        ensures
            final(self).wf(),
            match r {
                None => final(self)@ == old(self)@ && final(self).entries() == old(self).entries()
                    && total_len(locators(old(self).entries()))
                    > u64::MAX,
                Some(ts) => {
                    &&& ts@.len() == old(self).entries().len()
                    &&& final(self).entries().len() == old(self).entries().len()
                    &&& packed(ts@, gen)
                    &&& forall|i: int|
                        0 <= i < ts@.len() ==> #[trigger] ts@[i].from == old(self).entries()[i].1
                            && final(self).entries()[i] == (old(self).entries()[i].0, ts@[i].to)
                },
            },
    {
        let ghost locs = locators(self.entries());
        let n = self.entries.len();
        let mut ts: Vec<Transfer> = Vec::new();
        let mut next: u64 = 0;
        let mut i: usize = 0;
        while i < n
            invariant
                n == self.entries@.len(),
                self == old(self),
                self.wf(),
                self@ == old(self)@,
                self.entries() == old(self).entries(),
                locs == locators(old(self).entries()),
                locs.len() == n,
                forall|t: int| 0 <= t < n ==> #[trigger] locs[t] == self.entries@[t].1,
                i <= n,
                ts@.len() == i,
                sources(ts@) =~= locs.take(i as int),
                next == total_len(locs.take(i as int)),
                forall|t: int|
                    0 <= t < i ==> #[trigger] ts@[t].to == (Locator {
                        gen,
                        pos: total_len(locs.take(t)) as u64,
                        len: locs[t].len,
                    }),
            decreases n - i,
        {
            let loc = self.entries[i].1;
            proof {
                lemma_total_len_prefix(locs, i as int);
                lemma_total_len_prefix(locs, (i + 1) as int);
            }
            if loc.len > u64::MAX - next {
                assert(locs[i as int] == loc);
                return None;
            }
            ts.push(Transfer { from: loc, to: Locator { gen, pos: next, len: loc.len } });
            next = next + loc.len;
            i = i + 1;
            assert(sources(ts@) =~= locs.take(i as int));
        }
        assert(locs.take(n as int) =~= locs);
        assert forall|t: int| 0 <= t < ts@.len() implies #[trigger] ts@[t].to == (Locator {
            gen,
            pos: total_len(sources(ts@).take(t)) as u64,
            len: ts@[t].from.len,
        }) by {
            assert(sources(ts@)[t] == ts@[t].from);
            assert(sources(ts@).take(t) =~= locs.take(t));
        }
        let mut fresh: Vec<(String, Locator)> = Vec::new();
        let ghost mut m = self.map@;
        assert forall|t: int| 0 <= t < n implies #[trigger] m[self.entries@[t].0@] == self.entries@[t].1 by {
            assert(self.map@.contains_key(self.entries@[t].0@));
        }
        let mut j: usize = 0;
        while j < n
            invariant
                n == self.entries@.len(),
                n == ts@.len(),
                self == old(self),
                self.wf(),
                j <= n,
                fresh@.len() == j,
                forall|t: int|
                    0 <= t < j ==> #[trigger] fresh@[t].0@ == self.entries@[t].0@ && fresh@[t].1
                        == ts@[t].to,
                forall|k: Seq<char>| #[trigger] m.contains_key(k) == self.map@.contains_key(k),
                forall|t: int|
                    0 <= t < j ==> #[trigger] m[self.entries@[t].0@] == ts@[t].to,
                forall|t: int|
                    j <= t < n ==> #[trigger] m[self.entries@[t].0@] == self.entries@[t].1,
            decreases n - j,
        {
            let k = self.entries[j].0.clone();
            proof {
                assert forall|t: int| j < t < n implies self.entries@[t].0@ != self.entries@[j as int].0@ by {}
                assert forall|t: int| 0 <= t < j implies self.entries@[t].0@ != self.entries@[j as int].0@ by {}
                assert(self.map@.contains_key(self.entries@[j as int].0@));
                m = m.insert(k@, ts@[j as int].to);
            }
            fresh.push((k, ts[j].to));
            j = j + 1;
        }
        proof {
            assert forall|t: int| 0 <= t < n implies #[trigger] m.contains_key(fresh@[t].0@) && m[fresh@[t].0@] == fresh@[t].1 by {
                assert(self.map@.contains_key(self.entries@[t].0@));
            }
            assert forall|k: Seq<char>| #[trigger] m.contains_key(k) implies exists|t: int|
                0 <= t < fresh@.len() && fresh@[t].0@ == k by {
                assert(self.map@.contains_key(k));
                let t = choose|t: int| 0 <= t < self.entries@.len() && self.entries@[t].0@ == k;
                assert(fresh@[t].0@ == k);
            }
            assert forall|a: int, b: int| 0 <= a < b < fresh@.len() implies fresh@[a].0@ != fresh@[b].0@ by {
                assert(self.entries@[a].0@ != self.entries@[b].0@);
            }
        }
        self.entries = fresh;
        self.map = Ghost(m);
        assert forall|t: int| 0 <= t < ts@.len() implies #[trigger] ts@[t].from == old(self).entries()[t].1
            && self.entries()[t] == (old(self).entries()[t].0, ts@[t].to) by {
            assert(locs[t] == old(self).entries@[t].1);
            assert(sources(ts@)[t] == ts@[t].from);
        }
        Some(ts)
    }
}

} // verus!
