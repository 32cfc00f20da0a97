use vstd::prelude::*;

verus! {

/// Pairwise distinct keys.
pub open spec fn entries_distinct<V>(s: Seq<(String, V)>) -> bool {
    forall|i: int, j: int| 0 <= i < j < s.len() ==> s[i].0@ != s[j].0@
}

/// An association list from string keys to values, with pairwise distinct
/// keys, viewed in specifications as a `Map` from the keys' character
/// sequences to the values' views.
pub struct KvList<V> {
    entries: Vec<(String, V)>,
}

impl<V: View> View for KvList<V> {
    type V = Map<Seq<char>, V::V>;

    closed spec fn view(&self) -> Map<Seq<char>, V::V> {
        KvList::<V>::map_of(self.entries@)
    }
}

impl<V: View> KvList<V> {
    /// The map an entry sequence denotes; a later entry would win, though a
    /// well-formed list never repeats a key.
    pub closed spec fn map_of(s: Seq<(String, V)>) -> Map<Seq<char>, V::V>
        decreases s.len(),
    {
        if s.len() == 0 {
            Map::empty()
        } else {
            Self::map_of(s.drop_last()).insert(s.last().0@, s.last().1@)
        }
    }

    /// The stored keys in storage order.
    pub closed spec fn key_seq(&self) -> Seq<Seq<char>> {
        self.entries@.map(|i: int, e: (String, V)| e.0@)
    }

    pub closed spec fn wf(&self) -> bool {
        entries_distinct(self.entries@)
    }

    proof fn lemma_map_of_contains(s: Seq<(String, V)>, k: Seq<char>)
        ensures
            Self::map_of(s).contains_key(k) <==> exists|i: int| 0 <= i < s.len() && s[i].0@
                == k,
        decreases s.len(),
    {
        if s.len() > 0 {
            Self::lemma_map_of_contains(s.drop_last(), k);
            if s.last().0@ == k {
                assert(s[s.len() - 1].0@ == k);
            } else {
                if exists|i: int| 0 <= i < s.drop_last().len() && s.drop_last()[i].0@ == k {
                    let i = choose|i: int|
                        0 <= i < s.drop_last().len() && s.drop_last()[i].0@ == k;
                    assert(s[i].0@ == k);
                }
                if exists|i: int| 0 <= i < s.len() && s[i].0@ == k {
                    let i = choose|i: int| 0 <= i < s.len() && s[i].0@ == k;
                    assert(s.drop_last()[i].0@ == k);
                }
            }
        }
    }

    proof fn lemma_map_of_index(s: Seq<(String, V)>, i: int)
        requires
            entries_distinct(s),
            0 <= i < s.len(),
        ensures
            Self::map_of(s).contains_key(s[i].0@),
            Self::map_of(s)[s[i].0@] == s[i].1@,
        decreases s.len(),
    {
        if i == s.len() - 1 {
        } else {
            assert(entries_distinct(s.drop_last())) by {
                assert(forall|a: int, b: int|
                    0 <= a < b < s.drop_last().len() ==> s.drop_last()[a].0@ == s[a].0@
                        && s.drop_last()[b].0@ == s[b].0@);
            }
            Self::lemma_map_of_index(s.drop_last(), i);
            assert(s.drop_last()[i] == s[i]);
            assert(s[i].0@ != s.last().0@);
        }
    }

    /// How the stored keys stand to the map: every key of the map occurs in
    /// `key_seq`, every `key_seq` entry is a key of the map, and no key
    /// occurs twice.
    pub proof fn lemma_key_facts(&self)
        requires
            self.wf(),
        ensures
            forall|k: Seq<char>| #[trigger] self@.contains_key(k) ==> exists|i: int|
                0 <= i < self.key_seq().len() && self.key_seq()[i] == k,
            forall|i: int|
                0 <= i < self.key_seq().len() ==> self@.contains_key(
                    #[trigger] self.key_seq()[i],
                ),
            forall|i: int, j: int|
                0 <= i < j < self.key_seq().len() ==> self.key_seq()[i] != self.key_seq()[j],
    {
        assert forall|k: Seq<char>| #[trigger] self@.contains_key(k) implies exists|i: int|
            0 <= i < self.key_seq().len() && self.key_seq()[i] == k by {
            Self::lemma_map_of_contains(self.entries@, k);
            let i = choose|i: int| 0 <= i < self.entries@.len() && self.entries@[i].0@ == k;
            assert(self.key_seq()[i] == k);
        }
        assert forall|i: int| 0 <= i < self.key_seq().len() implies self@.contains_key(
            #[trigger] self.key_seq()[i],
        ) by {
            Self::lemma_map_of_index(self.entries@, i);
        }
    }

    pub fn new() -> (l: Self)
        ensures
            l@ == Map::<Seq<char>, V::V>::empty(),
            l.wf(),
            l.key_seq() == Seq::<Seq<char>>::empty(),
    {
        let l = KvList { entries: Vec::new() };
        proof {
            assert(l.key_seq() =~= Seq::<Seq<char>>::empty());
            assert(l@ =~= Map::<Seq<char>, V::V>::empty());
        }
        l
    }

    pub fn len(&self) -> (n: usize)
        ensures
            n == self.key_seq().len(),
    {
        self.entries.len()
    }

    pub fn key_at(&self, i: usize) -> (k: &String)
        requires
            i < self.key_seq().len(),
        ensures
            k@ == self.key_seq()[i as int],
            self@.contains_key(k@),
    {
        let k = &self.entries[i].0;
        proof {
            assert(self.key_seq()[i as int] == k@);
            Self::lemma_map_of_contains(self.entries@, k@);
            assert(self.entries@[i as int].0@ == k@);
        }
        k
    }

    pub fn val_at(&self, i: usize) -> (v: &V)
        requires
            self.wf(),
            i < self.key_seq().len(),
        ensures
            self@.contains_key(self.key_seq()[i as int]),
            v@ == self@[self.key_seq()[i as int]],
    {
        let v = &self.entries[i].1;
        proof {
            Self::lemma_map_of_index(self.entries@, i as int);
            assert(self.key_seq()[i as int] == self.entries@[i as int].0@);
        }
        v
    }

    pub fn get<'a>(&'a self, k: &String) -> (r: Option<&'a V>)
        requires
            self.wf(),
        ensures
            match r {
                Some(v) => self@.contains_key(k@) && v@ == self@[k@],
                None => !self@.contains_key(k@),
            },
    {
        let n = self.entries.len();
        let mut i: usize = 0;
        while i < n
            invariant
                n == self.entries@.len(),
                i <= n,
                self.wf(),
                forall|j: int| 0 <= j < i ==> self.entries@[j].0@ != k@,
            decreases n - i,
        {
            if self.entries[i].0 == *k {
                proof {
                    Self::lemma_map_of_index(self.entries@, i as int);
                }
                return Some(&self.entries[i].1);
            }
            i += 1;
        }
        proof {
            Self::lemma_map_of_contains(self.entries@, k@);
        }
        None
    }

    proof fn lemma_map_of_remove(s: Seq<(String, V)>, i: int)
        requires
            entries_distinct(s),
            0 <= i < s.len(),
        ensures
            Self::map_of(s.remove(i)) == Self::map_of(s).remove(s[i].0@),
            entries_distinct(s.remove(i)),
    {
        let t = s.remove(i);
        assert(entries_distinct(t)) by {
            assert forall|a: int, b: int| 0 <= a < b < t.len() implies t[a].0@ != t[b].0@ by {
                assert(t[a] == if a < i { s[a] } else { s[a + 1] });
                assert(t[b] == if b < i { s[b] } else { s[b + 1] });
            }
        }
        assert forall|k: Seq<char>|
            Self::map_of(t).contains_key(k) == Self::map_of(s).remove(s[i].0@).contains_key(
                k,
            ) by {
            Self::lemma_map_of_contains(t, k);
            Self::lemma_map_of_contains(s, k);
            if exists|j: int| 0 <= j < t.len() && t[j].0@ == k {
                let j = choose|j: int| 0 <= j < t.len() && t[j].0@ == k;
                if j < i {
                    assert(s[j].0@ == k);
                } else {
                    assert(s[j + 1].0@ == k);
                }
            }
            if k != s[i].0@ && exists|j: int| 0 <= j < s.len() && s[j].0@ == k {
                let j = choose|j: int| 0 <= j < s.len() && s[j].0@ == k;
                if j < i {
                    assert(t[j].0@ == k);
                } else {
                    assert(j != i);
                    assert(t[j - 1].0@ == k);
                }
            }
        }
        assert forall|k: Seq<char>| Self::map_of(t).contains_key(k) implies Self::map_of(t)[k]
            == Self::map_of(s).remove(s[i].0@)[k] by {
            Self::lemma_map_of_contains(t, k);
            let j = choose|j: int| 0 <= j < t.len() && t[j].0@ == k;
            Self::lemma_map_of_index(t, j);
            if j < i {
                Self::lemma_map_of_index(s, j);
            } else {
                Self::lemma_map_of_index(s, j + 1);
            }
        }
        assert(Self::map_of(t) =~= Self::map_of(s).remove(s[i].0@));
    }

    pub fn remove_key(&mut self, k: &String)
        requires
            old(self).wf(),
        ensures
            final(self)@ == old(self)@.remove(k@),
            final(self).wf(),
    {
        let n = self.entries.len();
        let mut i: usize = 0;
        while i < n
            invariant
                n == self.entries@.len(),
                i <= n,
                self == old(self),
                self.wf(),
                forall|j: int| 0 <= j < i ==> self.entries@[j].0@ != k@,
            decreases n - i,
        {
            if self.entries[i].0 == *k {
                proof {
                    Self::lemma_map_of_remove(self.entries@, i as int);
                }
                self.entries.remove(i);
                return;
            }
            i += 1;
        }
        proof {
            Self::lemma_map_of_contains(self.entries@, k@);
            assert(old(self)@.remove(k@) =~= old(self)@);
        }
    }

    pub fn set(&mut self, k: String, v: V)
        requires
            old(self).wf(),
        ensures
            final(self)@ == old(self)@.insert(k@, v@),
            final(self).wf(),
    {
        let ghost kk = k@;
        let ghost vv = v@;
        self.remove_key(&k);
        let ghost s1 = self.entries@;
        proof {
            Self::lemma_map_of_contains(s1, kk);
        }
        self.entries.push((k, v));
        proof {
            assert(self.entries@.drop_last() =~= s1);
            assert(self.entries@.last().0@ == kk && self.entries@.last().1@ == vv);
            assert(self@ == Self::map_of(s1).insert(kk, vv));
            assert(self@ =~= old(self)@.insert(kk, vv));
            assert forall|a: int, b: int|
                0 <= a < b < self.entries@.len() implies self.entries@[a].0@
                != self.entries@[b].0@ by {
                if b == self.entries@.len() - 1 {
                    assert(s1[a].0@ != kk);
                }
            }
        }
    }
}

} // verus!
