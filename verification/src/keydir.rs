use vstd::prelude::*;

use crate::lex::{clone_bytes, key_cmp, lex_lt, lex_lt_transitive, lex_lt_trichotomy};

verus! {

/// Where the most recent value of a key lives on disk: the segment id, the
/// value's length, the byte offset of the value within that segment, and
/// the record's timestamp.
#[derive(Clone, Copy, Debug, PartialEq, Eq, Structural)]
pub struct KeyDirEntry {
    pub file_id: u32,
    pub value_sz: u32,
    pub value_pos: u32,
    pub tstamp: u32,
}

/// The in-memory index of the store: a map from key bytes to the location
/// of the key's most recent value, kept as a vector of entries sorted in
/// strictly increasing byte-lexicographic key order.
pub struct KeyDir {
    pub entries: Vec<(Vec<u8>, KeyDirEntry)>,
}

impl KeyDir {
    /// Entries are in strictly increasing key order (so keys are unique).
    pub open spec fn keys_sorted(self) -> bool {
        forall|i: int, j: int|
            0 <= i < j < self.entries@.len() ==> lex_lt(
                self.entries@[i].0@,
                self.entries@[j].0@,
            )
    }

    pub open spec fn contains_spec(self, k: Seq<u8>) -> bool {
        exists|i: int| 0 <= i < self.entries@.len() && self.entries@[i].0@ == k
    }

    pub open spec fn index_of(self, k: Seq<u8>) -> int {
        choose|i: int| 0 <= i < self.entries@.len() && self.entries@[i].0@ == k
    }

    proof fn lemma_unique(self)
        requires
            self.keys_sorted(),
        ensures
            forall|i: int, j: int|
                0 <= i < self.entries@.len() && 0 <= j < self.entries@.len()
                    && self.entries@[i].0@ == self.entries@[j].0@ ==> i == j,
    {
        assert forall|i: int, j: int|
            0 <= i < self.entries@.len() && 0 <= j < self.entries@.len()
                && self.entries@[i].0@ == self.entries@[j].0@ implies i == j by {
            if i < j {
                lex_lt_trichotomy(self.entries@[i].0@, self.entries@[j].0@);
            } else if j < i {
                lex_lt_trichotomy(self.entries@[j].0@, self.entries@[i].0@);
            }
        }
    }

    /// Each stored entry is visible in the map view under its own key.
    pub proof fn lemma_view_at(self)
        requires
            self.keys_sorted(),
        ensures
            forall|i: int|
                0 <= i < self.entries@.len() ==> self@.contains_key(#[trigger] self.entries@[i].0@)
                    && self@[self.entries@[i].0@] == self.entries@[i].1,
    {
        self.lemma_unique();
    }

    pub fn new() -> (r: KeyDir)
        ensures
            r.keys_sorted(),
            r@ == Map::<Seq<u8>, KeyDirEntry>::empty(),
    {
        let r = KeyDir { entries: Vec::new() };
        proof {
            assert(r@ =~= Map::<Seq<u8>, KeyDirEntry>::empty());
        }
        r
    }

    pub fn len(&self) -> (n: usize)
        ensures
            n == self.entries@.len(),
    {
        self.entries.len()
    }

    pub fn entry_at(&self, i: usize) -> (r: &(Vec<u8>, KeyDirEntry))
        requires
            i < self.entries@.len(),
        ensures
            *r == self.entries@[i as int],
    {
        &self.entries[i]
    }

    /// Finds the position of `k` in the sorted entry vector: the index of
    /// its entry when present, else the insertion point.
    fn find(&self, k: &Vec<u8>) -> (r: (usize, bool))
        requires
            self.keys_sorted(),
        ensures
            r.0 <= self.entries@.len(),
            forall|j: int| 0 <= j < r.0 ==> lex_lt(#[trigger] self.entries@[j].0@, k@),
            forall|j: int|
                r.0 < j < self.entries@.len() ==> lex_lt(k@, #[trigger] self.entries@[j].0@),
            r.1 ==> r.0 < self.entries@.len() && self.entries@[r.0 as int].0@ == k@,
            !r.1 && r.0 < self.entries@.len() ==> lex_lt(k@, self.entries@[r.0 as int].0@),
            r.1 == self.contains_spec(k@),
    {
        let n = self.entries.len();
        let mut i: usize = 0;
        let mut found = false;
        let mut past = false;
        while i < n && !found && !past
            invariant
                n == self.entries@.len(),
                i <= n,
                self.keys_sorted(),
                forall|j: int| 0 <= j < i ==> lex_lt(#[trigger] self.entries@[j].0@, k@),
                found ==> i < n && self.entries@[i as int].0@ == k@,
                past ==> i < n && lex_lt(k@, self.entries@[i as int].0@),
                !found && !past ==> forall|j: int|
                    0 <= j < i ==> lex_lt(#[trigger] self.entries@[j].0@, k@),
            decreases n - i + (if found || past { 0int } else { 1int }),
        {
            let c = key_cmp(&self.entries[i].0, k);
            if c == -1 {
                i = i + 1;
            } else if c == 0 {
                found = true;
            } else {
                past = true;
            }
        }
        proof {
            if found {
                self.lemma_unique();
                assert forall|j: int|
                    i < j < self.entries@.len() implies lex_lt(
                    k@,
                    #[trigger] self.entries@[j].0@,
                ) by {
                    assert(lex_lt(self.entries@[i as int].0@, self.entries@[j].0@));
                }
            } else {
                if past {
                    assert forall|j: int|
                        i < j < self.entries@.len() implies lex_lt(
                        k@,
                        #[trigger] self.entries@[j].0@,
                    ) by {
                        lex_lt_transitive(k@, self.entries@[i as int].0@, self.entries@[j].0@);
                    }
                }
                assert(!self.contains_spec(k@)) by {
                    if self.contains_spec(k@) {
                        let j = choose|j: int|
                            0 <= j < self.entries@.len() && self.entries@[j].0@ == k@;
                        lex_lt_trichotomy(self.entries@[j].0@, k@);
                    }
                }
            }
        }
        (i, found)
    }

    pub fn get(&self, k: &Vec<u8>) -> (r: Option<&KeyDirEntry>)
        requires
            self.keys_sorted(),
        ensures
            match r {
                Some(e) => self@.contains_key(k@) && *e == self@[k@],
                None => !self@.contains_key(k@),
            },
    {
        let (i, found) = self.find(k);
        if found {
            proof {
                self.lemma_view_at();
            }
            Some(&self.entries[i].1)
        } else {
            None
        }
    }

    pub fn contains_key(&self, k: &Vec<u8>) -> (r: bool)
        requires
            self.keys_sorted(),
        ensures
            r == self@.contains_key(k@),
    {
        let (_, found) = self.find(k);
        found
    }

    /// Insert-or-replace: afterwards `k` maps to `e` and nothing else moved.
    pub fn insert(&mut self, k: Vec<u8>, e: KeyDirEntry)
        requires
            old(self).keys_sorted(),
        ensures
            final(self).keys_sorted(),
            final(self)@ == old(self)@.insert(k@, e),
    {
        let (i, found) = self.find(&k);
        if found {
            self.entries.remove(i);
        }
        self.entries.insert(i, (k, e));
        proof {
            let oldm = old(self)@;
            let pre = if found {
                old(self).entries@.remove(i as int)
            } else {
                old(self).entries@
            };
            assert(self.entries@ == pre.insert(i as int, (k, e)));
            assert(self.keys_sorted()) by {
                assert forall|p: int, q: int|
                    0 <= p < q < self.entries@.len() implies lex_lt(
                    self.entries@[p].0@,
                    self.entries@[q].0@,
                ) by {
                    let n0 = old(self).entries@.len() as int;
                    if p == i as int {
                        assert(self.entries@[p].0@ == k@);
                    } else if q == i as int {
                    } else {
                    }
                }
            }
            assert(self.entries@[i as int] == (k, e));
            assert(self@ =~= oldm.insert(k@, e)) by {
                self.lemma_unique();
                old(self).lemma_unique();
                assert forall|q: Seq<u8>| #[trigger] self@.contains_key(q) implies oldm.insert(
                    k@,
                    e,
                ).contains_key(q) && self@[q] == oldm.insert(k@, e)[q] by {
                    let j = self.index_of(q);
                    assert(0 <= j < self.entries@.len() && self.entries@[j].0@ == q);
                    assert(self@[q] == self.entries@[j].1);
                    if j == i as int {
                        assert(q == k@);
                        assert(self@[q] == e);
                    } else {
                        assert(self.entries@[i as int].0@ == k@);
                        assert(q != k@);
                        let j0: int = if j < i as int {
                            j
                        } else if found {
                            j
                        } else {
                            j - 1
                        };
                        assert(old(self).entries@[j0] == self.entries@[j]);
                        assert(old(self).entries@[j0].0@ == q);
                        assert(old(self).contains_spec(q));
                        let jo = old(self).index_of(q);
                        assert(old(self).entries@[jo].0@ == q);
                        assert(jo == j0);
                        assert(oldm[q] == old(self).entries@[j0].1);
                    }
                }
                assert forall|q: Seq<u8>| #[trigger] oldm.insert(k@, e).contains_key(q) implies
                    self@.contains_key(q) by {
                    if q == k@ {
                        assert(self.entries@[i as int].0@ == q);
                    } else {
                        let j = old(self).index_of(q);
                        assert(0 <= j < old(self).entries@.len() && old(self).entries@[j].0@ == q);
                        if j < i as int {
                            assert(self.entries@[j] == old(self).entries@[j]);
                            assert(self.entries@[j].0@ == q);
                        } else {
                            if found {
                                assert(j != i as int);
                                assert(self.entries@[j] == old(self).entries@[j]);
                                assert(self.entries@[j].0@ == q);
                            } else {
                                assert(self.entries@[j + 1] == old(self).entries@[j]);
                                assert(self.entries@[j + 1].0@ == q);
                            }
                        }
                    }
                }
            }
        }
    }

    /// Drops the entry for `k`, if one is present.
    pub fn remove(&mut self, k: &Vec<u8>)
        requires
            old(self).keys_sorted(),
        ensures
            final(self).keys_sorted(),
            final(self)@ == old(self)@.remove(k@),
    {
        let (i, found) = self.find(k);
        if found {
            self.entries.remove(i);
            proof {
                let oldm = old(self)@;
                assert(self.entries@ == old(self).entries@.remove(i as int));
                assert(self@ =~= oldm.remove(k@)) by {
                    self.lemma_unique();
                    old(self).lemma_unique();
                    assert(old(self).entries@[i as int].0@ == k@);
                    assert forall|q: Seq<u8>| #[trigger] self@.contains_key(q) implies oldm.remove(
                        k@,
                    ).contains_key(q) && self@[q] == oldm.remove(k@)[q] by {
                        let j = self.index_of(q);
                        assert(0 <= j < self.entries@.len() && self.entries@[j].0@ == q);
                        assert(self@[q] == self.entries@[j].1);
                        let j0: int = if j < i as int {
                            j
                        } else {
                            j + 1
                        };
                        assert(old(self).entries@[j0] == self.entries@[j]);
                        assert(old(self).entries@[j0].0@ == q);
                        assert(j0 != i as int);
                        assert(q != k@);
                        assert(old(self).contains_spec(q));
                        let jo = old(self).index_of(q);
                        assert(old(self).entries@[jo].0@ == q);
                        assert(jo == j0);
                        assert(oldm[q] == old(self).entries@[j0].1);
                    }
                    assert forall|q: Seq<u8>| #[trigger] oldm.remove(k@).contains_key(q) implies
                        self@.contains_key(q) by {
                        let j = old(self).index_of(q);
                        assert(0 <= j < old(self).entries@.len() && old(self).entries@[j].0@ == q);
                        assert(j != i as int);
                        if j < i as int {
                            assert(self.entries@[j] == old(self).entries@[j]);
                            assert(self.entries@[j].0@ == q);
                        } else {
                            assert(self.entries@[j - 1] == old(self).entries@[j]);
                            assert(self.entries@[j - 1].0@ == q);
                        }
                    }
                }
            }
        } else {
            proof {
                assert(self@ =~= old(self)@.remove(k@));
            }
        }
    }


    /// A keydir's own entry vector is the canonical entry sequence of its map.
    pub proof fn lemma_live_entries(self)
        requires
            self.keys_sorted(),
        ensures
            entry_seq_matches(self@, entry_views(self.entries@)),
            live_entries(self@) == entry_views(self.entries@),
    {
        self.lemma_view_at();
        let ev = entry_views(self.entries@);
        assert(forall|p: int|
            0 <= p < ev.len() ==> #[trigger] ev[p] == (self.entries@[p].0@, self.entries@[p].1));
        assert forall|k: Seq<u8>| self@.contains_key(k) implies exists|p: int|
            0 <= p < ev.len() && ev[p].0 == k by {
            let j = self.index_of(k);
            assert(ev[j].0 == k);
        }
        assert(entry_seq_matches(self@, ev));
        let w = live_entries(self@);
        assert(entry_seq_matches(self@, w));
        lemma_entry_seq_unique(self@, w, ev);
    }

    /// All live keys, in strictly increasing byte-lexicographic order.
    pub fn keys(&self) -> (r: Vec<Vec<u8>>)
        requires
            self.keys_sorted(),
        ensures
            r@.len() == self.entries@.len(),
            forall|i: int| 0 <= i < r@.len() ==> r@[i]@ == self.entries@[i].0@,
            forall|i: int, j: int| 0 <= i < j < r@.len() ==> lex_lt(r@[i]@, r@[j]@),
            forall|i: int| 0 <= i < r@.len() ==> self@.contains_key(#[trigger] r@[i]@),
            forall|k: Seq<u8>|
                self@.contains_key(k) ==> exists|i: int| 0 <= i < r@.len() && r@[i]@ == k,
    {
        let mut r: Vec<Vec<u8>> = Vec::new();
        let mut i: usize = 0;
        while i < self.entries.len()
            invariant
                i <= self.entries@.len(),
                r@.len() == i,
                forall|j: int| 0 <= j < i ==> r@[j]@ == self.entries@[j].0@,
            decreases self.entries@.len() - i,
        {
            r.push(clone_bytes(&self.entries[i].0));
            i = i + 1;
        }
        proof {
            self.lemma_view_at();
            assert forall|k: Seq<u8>| self@.contains_key(k) implies exists|i: int|
                0 <= i < r@.len() && r@[i]@ == k by {
                let j = self.index_of(k);
                assert(r@[j]@ == k);
            }
        }
        r
    }

    /// An upper bound on the timestamps of all live entries.
    pub fn max_tstamp(&self) -> (m: u32)
        requires
            self.keys_sorted(),
        ensures
            forall|k: Seq<u8>| self@.contains_key(k) ==> self@[k].tstamp <= m,
    {
        let mut m: u32 = 0;
        let mut i: usize = 0;
        while i < self.entries.len()
            invariant
                i <= self.entries@.len(),
                forall|j: int| 0 <= j < i ==> self.entries@[j].1.tstamp <= m,
            decreases self.entries@.len() - i,
        {
            if self.entries[i].1.tstamp > m {
                m = self.entries[i].1.tstamp;
            }
            i = i + 1;
        }
        proof {
            self.lemma_view_at();
            assert forall|k: Seq<u8>| self@.contains_key(k) implies self@[k].tstamp <= m by {
                let j = self.index_of(k);
                assert(self.entries@[j].1.tstamp <= m);
            }
        }
        m
    }
}


/// The sorted entry sequence a keydir map denotes: keys strictly
/// increasing, every element a binding of the map, every key of the map
/// present.
pub open spec fn entry_seq_matches(
    kd: Map<Seq<u8>, KeyDirEntry>,
    s: Seq<(Seq<u8>, KeyDirEntry)>,
) -> bool {
    &&& forall|p: int, q: int| 0 <= p < q < s.len() ==> lex_lt(s[p].0, s[q].0)
    &&& forall|p: int| 0 <= p < s.len() ==> kd.contains_key(#[trigger] s[p].0) && kd[s[p].0] == s[p].1
    &&& forall|k: Seq<u8>| kd.contains_key(k) ==> exists|p: int| 0 <= p < s.len() && s[p].0 == k
}

/// The canonical entry sequence of a keydir map: its bindings in strictly
/// increasing key order.
pub open spec fn live_entries(kd: Map<Seq<u8>, KeyDirEntry>) -> Seq<(Seq<u8>, KeyDirEntry)> {
    choose|s: Seq<(Seq<u8>, KeyDirEntry)>| entry_seq_matches(kd, s)
}

/// Total encoded size of the records these entries stand for: for each,
/// a sixteen-byte header plus the key and the value.
pub open spec fn entries_size(s: Seq<(Seq<u8>, KeyDirEntry)>) -> int
    decreases s.len(),
{
    if s.len() == 0 {
        0
    } else {
        entries_size(s.drop_last()) + 16 + s.last().0.len() as int + s.last().1.value_sz as int
    }
}

pub proof fn lemma_entries_size_prefix(s: Seq<(Seq<u8>, KeyDirEntry)>, i: int)
    requires
        0 <= i <= s.len(),
    ensures
        entries_size(s) >= entries_size(s.subrange(0, i)),
    decreases s.len() - i,
{
    if i < s.len() {
        lemma_entries_size_prefix(s, i + 1);
        assert(s.subrange(0, i + 1).drop_last() =~= s.subrange(0, i));
        assert(s.subrange(0, i + 1).last() == s[i]);
    } else {
        assert(s.subrange(0, i) =~= s);
    }
}

/// At most one sorted entry sequence matches a given map.
pub proof fn lemma_entry_seq_unique(
    kd: Map<Seq<u8>, KeyDirEntry>,
    s1: Seq<(Seq<u8>, KeyDirEntry)>,
    s2: Seq<(Seq<u8>, KeyDirEntry)>,
)
    requires
        entry_seq_matches(kd, s1),
        entry_seq_matches(kd, s2),
    ensures
        s1 == s2,
    decreases s1.len(),
{
    if s1.len() == 0 {
        if s2.len() > 0 {
            assert(kd.contains_key(s2[0].0));
            let p = choose|p: int| 0 <= p < s1.len() && s1[p].0 == s2[0].0;
            assert(false);
        }
        assert(s1 =~= s2);
    } else {
        assert(s2.len() > 0) by {
            assert(kd.contains_key(s1[0].0));
            let p = choose|p: int| 0 <= p < s2.len() && s2[p].0 == s1[0].0;
        }
        // both heads are the least key of the map, so they agree
        assert(s1[0].0 == s2[0].0) by {
            let p1 = choose|p: int| 0 <= p < s1.len() && s1[p].0 == s2[0].0;
            let p2 = choose|p: int| 0 <= p < s2.len() && s2[p].0 == s1[0].0;
            if p1 > 0 {
                assert(lex_lt(s1[0].0, s1[p1].0));
            }
            if p2 > 0 {
                assert(lex_lt(s2[0].0, s2[p2].0));
            }
            lex_lt_trichotomy(s1[0].0, s2[0].0);
            if lex_lt(s1[0].0, s2[0].0) {
                if p2 > 0 {
                    lex_lt_transitive(s2[0].0, s1[0].0, s2[0].0);
                    lex_lt_trichotomy(s2[0].0, s2[0].0);
                }
            } else if lex_lt(s2[0].0, s1[0].0) {
                if p1 > 0 {
                    lex_lt_transitive(s1[0].0, s2[0].0, s1[0].0);
                    lex_lt_trichotomy(s1[0].0, s1[0].0);
                }
            }
        }
        let h = s1[0].0;
        let kd2 = kd.remove(h);
        assert(entry_seq_matches(kd2, s1.skip(1))) by {
            lemma_tail_matches(kd, s1);
        }
        assert(entry_seq_matches(kd2, s2.skip(1))) by {
            assert(s2[0].0 == h);
            lemma_tail_matches(kd, s2);
        }
        lemma_entry_seq_unique(kd2, s1.skip(1), s2.skip(1));
        assert(s1.len() == s2.len());
        assert forall|i: int| 0 <= i < s1.len() implies s1[i] == s2[i] by {
            if i == 0 {
                assert(s1[0].1 == kd[h] && s2[0].1 == kd[h]);
                assert(s1[i] =~= s2[i]);
            } else {
                assert(s1[i] == s1.skip(1)[i - 1]);
                assert(s2[i] == s2.skip(1)[i - 1]);
            }
        }
        assert(s1 =~= s2);
    }
}

/// Dropping a matching sequence's head matches the map without its least key.
proof fn lemma_tail_matches(kd: Map<Seq<u8>, KeyDirEntry>, s: Seq<(Seq<u8>, KeyDirEntry)>)
    requires
        entry_seq_matches(kd, s),
        s.len() > 0,
    ensures
        entry_seq_matches(kd.remove(s[0].0), s.skip(1)),
{
    let h = s[0].0;
    let t = s.skip(1);
    assert(forall|i: int| 0 <= i < t.len() ==> #[trigger] t[i] == s[i + 1]);
    assert forall|p: int| 0 <= p < t.len() implies kd.remove(h).contains_key(#[trigger] t[p].0)
        && kd.remove(h)[t[p].0] == t[p].1 by {
        assert(t[p] == s[p + 1]);
        assert(lex_lt(h, s[p + 1].0));
        lex_lt_trichotomy(h, s[p + 1].0);
    }
    assert forall|k: Seq<u8>| kd.remove(h).contains_key(k) implies exists|p: int|
        0 <= p < t.len() && t[p].0 == k by {
        let p = choose|p: int| 0 <= p < s.len() && s[p].0 == k;
        assert(p != 0);
        assert(t[p - 1].0 == k);
    }
}

/// The view of entry tuples holding exec byte vectors.
pub open spec fn entry_views(s: Seq<(Vec<u8>, KeyDirEntry)>) -> Seq<(Seq<u8>, KeyDirEntry)> {
    s.map_values(|e: (Vec<u8>, KeyDirEntry)| (e.0@, e.1))
}

impl View for KeyDir {
    type V = Map<Seq<u8>, KeyDirEntry>;

    open spec fn view(&self) -> Map<Seq<u8>, KeyDirEntry> {
        Map::new(
            |k: Seq<u8>| self.contains_spec(k),
            |k: Seq<u8>| self.entries@[self.index_of(k)].1,
        )
    }
}

} // verus!
