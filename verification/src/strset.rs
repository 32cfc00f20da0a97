use vstd::prelude::*;

verus! {

broadcast use vstd::seq_lib::lemma_seq_contains_after_push;

/// A finite collection of strings (glob patterns or hash identifiers),
/// viewed in specifications as a `Set<Seq<char>>`.
pub struct StrSet {
    items: Vec<String>,
}

impl View for StrSet {
    type V = Set<Seq<char>>;

    open spec fn view(&self) -> Set<Seq<char>> {
        self.seq().to_set()
    }
}

impl StrSet {
    /// The stored strings in storage order, for reasoning about iteration.
    pub closed spec fn seq(&self) -> Seq<Seq<char>> {
        self.items.deep_view()
    }

    pub fn new() -> (s: StrSet)
        ensures
            s@ == Set::<Seq<char>>::empty(),
            s.seq() == Seq::<Seq<char>>::empty(),
    {
        let s = StrSet { items: Vec::new() };
        proof {
            assert(s.seq() =~= Seq::<Seq<char>>::empty());
            assert(s@ =~= Set::<Seq<char>>::empty());
        }
        s
    }

    /// Number of stored entries (matches the set's cardinality only when no
    /// string was inserted twice, which `insert` guarantees).
    pub fn len(&self) -> (n: usize)
        ensures
            n == self.seq().len(),
    {
        self.items.len()
    }

    /// The string stored at position `i`.
    pub fn index(&self, i: usize) -> (s: &String)
        requires
            i < self.seq().len(),
        ensures
            s@ == self.seq()[i as int],
            self@.contains(s@),
    {
        let s = &self.items[i];
        proof {
            assert(self.seq()[i as int] == s@);
            assert(self.seq().contains(s@));
        }
        s
    }

    pub fn is_empty(&self) -> (r: bool)
        ensures
            r == self@.is_empty(),
    {
        let r = self.items.len() == 0;
        proof {
            if self.seq().len() == 0 {
                assert(forall|e: Seq<char>| !self.seq().contains(e));
                assert(self@ =~= Set::<Seq<char>>::empty());
            } else {
                assert(self.seq().contains(self.seq()[0]));
                assert(self@.contains(self.seq()[0]));
            }
        }
        r
    }

    pub fn contains(&self, x: &String) -> (r: bool)
        ensures
            r == self@.contains(x@),
    {
        let n = self.items.len();
        let mut i: usize = 0;
        while i < n
            invariant
                n == self.seq().len(),
                i <= n,
                forall|j: int| 0 <= j < i ==> self.seq()[j] != x@,
            decreases n - i,
        {
            if self.items[i] == *x {
                assert(self.seq()[i as int] == x@);
                assert(self.seq().contains(x@));
                return true;
            }
            i += 1;
        }
        assert(!self.seq().contains(x@));
        false
    }

    /// Adds `x` unless an equal string is already stored, so that storage
    /// stays free of duplicates.
    pub fn insert(&mut self, x: String)
        ensures
            final(self)@ == old(self)@.insert(x@),
    {
        if !self.contains(&x) {
            let ghost xv = x@;
            self.items.push(x);
            proof {
                assert(self.seq() =~= old(self).seq().push(xv));
                assert forall|e: Seq<char>| self@.contains(e) implies old(self)@.insert(
                    xv,
                ).contains(e) by {
                    let j = choose|j: int|
                        0 <= j < self.seq().len() && self.seq()[j] == e;
                    if j < old(self).seq().len() {
                        assert(old(self).seq().contains(e));
                    }
                }
                assert forall|e: Seq<char>| old(self)@.insert(xv).contains(e) implies
                    self@.contains(e) by {
                    if old(self)@.contains(e) {
                        let j = choose|j: int|
                            0 <= j < old(self).seq().len() && old(self).seq()[j] == e;
                        assert(self.seq()[j] == e);
                        assert(self.seq().contains(e));
                    } else {
                        assert(self.seq()[old(self).seq().len() as int] == xv);
                        assert(self.seq().contains(xv));
                    }
                }
                assert(self@ =~= old(self)@.insert(xv));
            }
        } else {
            proof {
                assert(self@ =~= old(self)@.insert(x@));
            }
        }
    }

    /// Removes every stored string equal to `x`.
    pub fn remove(&mut self, x: &String)
        ensures
            final(self)@ == old(self)@.remove(x@),
    {
        let mut kept: Vec<String> = Vec::new();
        let n = self.items.len();
        let mut i: usize = 0;
        while i < n
            invariant
                n == self.seq().len(),
                i <= n,
                forall|j: int| 0 <= j < kept.deep_view().len() ==> #[trigger] kept.deep_view()[j]
                    != x@ && self.seq().contains(kept.deep_view()[j]),
                forall|j: int|
                    0 <= j < i && self.seq()[j] != x@ ==> kept.deep_view().contains(
                        #[trigger] self.seq()[j],
                    ),
            decreases n - i,
        {
            if !(self.items[i] == *x) {
                let ghost kept0 = kept.deep_view();
                kept.push(self.items[i].clone());
                proof {
                    assert(kept.deep_view() =~= kept0.push(self.seq()[i as int]));
                    assert(self.seq().contains(self.seq()[i as int]));
                    assert forall|j: int|
                        0 <= j < i + 1 && self.seq()[j] != x@ implies kept.deep_view().contains(
                        #[trigger] self.seq()[j],
                    ) by {
                        if j < i {
                            let k = choose|k: int|
                                0 <= k < kept0.len() && kept0[k] == self.seq()[j];
                            assert(kept.deep_view()[k] == self.seq()[j]);
                        } else {
                            assert(kept.deep_view()[kept0.len() as int] == self.seq()[j]);
                        }
                    }
                }
            } else {
                proof {
                    assert(self.seq()[i as int] == x@);
                }
            }
            i += 1;
        }
        proof {
            assert forall|e: Seq<char>| kept.deep_view().to_set().contains(e) implies old(
                self,
            )@.remove(x@).contains(e) by {
                let j = choose|j: int|
                    0 <= j < kept.deep_view().len() && kept.deep_view()[j] == e;
            }
            assert forall|e: Seq<char>| old(self)@.remove(x@).contains(e) implies
                kept.deep_view().to_set().contains(e) by {
                let j = choose|j: int| 0 <= j < self.seq().len() && self.seq()[j] == e;
            }
        }
        self.items = kept;
        proof {
            assert(self@ =~= old(self)@.remove(x@));
        }
    }

    /// Adds every string of `other`.
    pub fn union_with(&mut self, other: &StrSet)
        ensures
            final(self)@ == old(self)@.union(other@),
    {
        let n = other.len();
        let mut i: usize = 0;
        while i < n
            invariant
                n == other.seq().len(),
                i <= n,
                forall|e: Seq<char>|
                    self@.contains(e) <==> old(self)@.contains(e) || exists|j: int|
                        0 <= j < i && other.seq()[j] == e,
            decreases n - i,
        {
            let ghost prev = self@;
            self.insert(other.index(i).clone());
            proof {
                assert forall|e: Seq<char>| self@.contains(e) implies old(self)@.contains(e)
                    || exists|j: int| 0 <= j < i + 1 && other.seq()[j] == e by {
                    if e == other.seq()[i as int] {
                        assert(other.seq()[i as int] == e);
                    }
                }
            }
            i += 1;
        }
        proof {
            assert forall|e: Seq<char>|
                self@.contains(e) == old(self)@.union(other@).contains(e) by {
                if other@.contains(e) {
                    let j = choose|j: int| 0 <= j < other.seq().len() && other.seq()[j] == e;
                }
            }
            assert(self@ =~= old(self)@.union(other@));
        }
    }

    pub fn is_subset_of(&self, other: &StrSet) -> (r: bool)
        ensures
            r == self@.subset_of(other@),
    {
        let n = self.items.len();
        let mut i: usize = 0;
        while i < n
            invariant
                n == self.seq().len(),
                i <= n,
                forall|j: int| 0 <= j < i ==> other@.contains(#[trigger] self.seq()[j]),
            decreases n - i,
        {
            if !other.contains(&self.items[i]) {
                assert(self@.contains(self.seq()[i as int]));
                return false;
            }
            i += 1;
        }
        assert forall|e: Seq<char>| self@.contains(e) implies other@.contains(e) by {
            let j = choose|j: int| 0 <= j < self.seq().len() && self.seq()[j] == e;
        }
        true
    }

    /// Whether the two collections hold the same set of strings.
    pub fn set_eq(&self, other: &StrSet) -> (r: bool)
        ensures
            r == (self@ == other@),
    {
        let r = self.is_subset_of(other) && other.is_subset_of(self);
        proof {
            if self@.subset_of(other@) && other@.subset_of(self@) {
                assert(self@ =~= other@);
            }
        }
        r
    }
}

impl Clone for StrSet {
    fn clone(&self) -> (r: Self)
        ensures
            r@ == self@,
            r.seq() == self.seq(),
    {
        let r = StrSet { items: self.items.clone() };
        proof {
            assert(r.seq() =~= self.seq());
        }
        r
    }
}

} // verus!
