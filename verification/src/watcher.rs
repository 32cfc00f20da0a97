use vstd::prelude::*;

use crate::kvlist::KvList;
use crate::matcher::glob_matches;
use crate::matcher::matches_path;
use crate::model::GlobSetView;
use crate::model::IndexView;
use crate::model::all_patterns;
use crate::model::index_inv;
use crate::model::pair_retired;
use crate::model::query_spec;
use crate::model::reconciled;
use crate::model::reconciled_all;
use crate::model::registered;
use crate::model::unsub_set;
use crate::model::unsubs_all;
use crate::strset::StrSet;

verus! {

/// The glob sets tracked for one hash: the patterns it still depends on
/// (`live`) and the patterns whose match against a changed path retires a
/// live pattern (`exclude`).
pub struct Glob {
    live: StrSet,
    exclude: StrSet,
}

impl View for Glob {
    type V = GlobSetView;

    closed spec fn view(&self) -> GlobSetView {
        GlobSetView { live: self.live@, exclude: self.exclude@ }
    }
}

impl Glob {
    pub fn new(live: StrSet, exclude: StrSet) -> (g: Glob)
        ensures
            g@ == (GlobSetView { live: live@, exclude: exclude@ }),
    {
        Glob { live, exclude }
    }

    pub fn live(&self) -> (s: &StrSet)
        ensures
            s@ == self@.live,
    {
        &self.live
    }

    pub fn exclude(&self) -> (s: &StrSet)
        ensures
            s@ == self@.exclude,
    {
        &self.exclude
    }
}

impl Clone for Glob {
    fn clone(&self) -> (g: Self)
        ensures
            g@ == self@,
    {
        Glob { live: self.live.clone(), exclude: self.exclude.clone() }
    }
}

/// Starting a watch session a second time is a programming error: the event
/// stream can be consumed only once per session.
#[derive(Clone, Copy, Debug, PartialEq, Eq, Structural)]
pub enum SessionError {
    StreamConsumed,
}

/// Tracks changes for hashes. A hash is an identifier for a set of files;
/// given a hash and glob patterns to track, the watcher reconciles filesystem
/// change batches into its index and answers which patterns are still
/// pending. The caller sends the returned subscribe and unsubscribe commands
/// to the event source; delivered change batches queue until a flush
/// reconciles them, which is what makes queries reflect every change that
/// happened before them.
pub struct HashGlobWatcher {
    hash_globs: KvList<Glob>,
    glob_status: KvList<StrSet>,
    pending: Vec<Vec<String>>,
    consumed: bool,
}

/// `m` after extending, for each pattern of `globs` in turn, the pattern's
/// hash set with `hash` (creating the entry when absent).
spec fn status_extended(
    m: Map<Seq<char>, Set<Seq<char>>>,
    globs: Seq<Seq<char>>,
    hash: Seq<char>,
) -> Map<Seq<char>, Set<Seq<char>>>
    decreases globs.len(),
{
    if globs.len() == 0 {
        m
    } else {
        let m1 = status_extended(m, globs.drop_last(), hash);
        let g = globs.last();
        m1.insert(
            g,
            (if m1.contains_key(g) {
                m1[g]
            } else {
                Set::empty()
            }).insert(hash),
        )
    }
}

proof fn lemma_status_extended(
    m: Map<Seq<char>, Set<Seq<char>>>,
    globs: Seq<Seq<char>>,
    hash: Seq<char>,
)
    ensures
        status_extended(m, globs, hash) == Map::new(
            |g: Seq<char>| m.contains_key(g) || globs.contains(g),
            |g: Seq<char>|
                if globs.contains(g) {
                    (if m.contains_key(g) {
                        m[g]
                    } else {
                        Set::empty()
                    }).insert(hash)
                } else {
                    m[g]
                },
        ),
    decreases globs.len(),
{
    let target = Map::new(
        |g: Seq<char>| m.contains_key(g) || globs.contains(g),
        |g: Seq<char>|
            if globs.contains(g) {
                (if m.contains_key(g) {
                    m[g]
                } else {
                    Set::empty()
                }).insert(hash)
            } else {
                m[g]
            },
    );
    if globs.len() == 0 {
        assert forall|g: Seq<char>| !globs.contains(g) by {}
        assert(status_extended(m, globs, hash) =~= target);
    } else {
        lemma_status_extended(m, globs.drop_last(), hash);
        let m1 = status_extended(m, globs.drop_last(), hash);
        let last = globs.last();
        let result = status_extended(m, globs, hash);
        assert(globs.contains(last)) by {
            assert(globs[globs.len() - 1] == last);
        }
        assert forall|g: Seq<char>|
            g != last implies globs.drop_last().contains(g) == globs.contains(g) by {
            if globs.drop_last().contains(g) {
                let i = choose|i: int|
                    0 <= i < globs.drop_last().len() && globs.drop_last()[i] == g;
                assert(globs[i] == g);
            }
            if globs.contains(g) {
                let i = choose|i: int| 0 <= i < globs.len() && globs[i] == g;
                assert(i != globs.len() - 1);
                assert(globs.drop_last()[i] == g);
            }
        }
        assert forall|g: Seq<char>|
            #[trigger] result.contains_key(g) == target.contains_key(g) by {}
        assert forall|g: Seq<char>| #[trigger] target.contains_key(g) implies result[g] =~=
            target[g] by {
            if g == last {
                if globs.drop_last().contains(g) {
                    assert(m1[g] == (if m.contains_key(g) {
                        m[g]
                    } else {
                        Set::empty()
                    }).insert(hash));
                    assert(result[g] == m1[g].insert(hash));
                } else {
                    assert(m1.contains_key(g) == m.contains_key(g));
                    if m.contains_key(g) {
                        assert(m1[g] == m[g]);
                    }
                }
            } else {
                assert(result[g] == m1[g]);
            }
        }
        assert(result =~~= target);
    }
}

impl HashGlobWatcher {
    /// The tracking index the watcher holds.
    pub closed spec fn index(&self) -> IndexView {
        IndexView { hash_globs: self.hash_globs@, glob_status: self.glob_status@ }
    }

    /// Change batches delivered by the event source and not yet reconciled,
    /// oldest first.
    pub closed spec fn pending_view(&self) -> Seq<Seq<Seq<char>>> {
        self.pending.deep_view()
    }

    /// Whether the event stream was already handed to a watch session.
    pub closed spec fn stream_consumed(&self) -> bool {
        self.consumed
    }

    /// Well-formed representation and a consistent index.
    pub closed spec fn wf(&self) -> bool {
        &&& self.hash_globs.wf()
        &&& self.glob_status.wf()
        &&& index_inv(self.index())
    }

    pub fn new() -> (w: HashGlobWatcher)
        ensures
            w.wf(),
            w.index() == IndexView::empty(),
            w.pending_view() == Seq::<Seq<Seq<char>>>::empty(),
            !w.stream_consumed(),
    {
        let w = HashGlobWatcher {
            hash_globs: KvList::new(),
            glob_status: KvList::new(),
            pending: Vec::new(),
            consumed: false,
        };
        proof {
            assert(w.index() =~~= IndexView::empty());
            assert(w.pending_view() =~= Seq::<Seq<Seq<char>>>::empty());
        }
        w
    }

    /// Whether the change batch retires the association between `hash` and
    /// `glob`, read from the current index.
    fn pair_retired_exec(&self, paths: &Vec<String>, hash: &String, glob: &String) -> (r:
        bool)
        requires
            self.wf(),
        ensures
            r == pair_retired(self.index(), paths.deep_view(), hash@, glob@),
    {
        let ghost v = self.index();
        let ghost pv = paths.deep_view();
        let hs = match self.glob_status.get(glob) {
            Some(hs) => hs,
            None => {
                return false;
            },
        };
        if !hs.contains(hash) {
            return false;
        }
        let gs = match self.hash_globs.get(hash) {
            Some(gs) => gs,
            None => {
                return false;
            },
        };
        let exc = gs.exclude();
        let n = paths.len();
        let mut i: usize = 0;
        while i < n
            invariant
                self.wf(),
                v == self.index(),
                pv == paths.deep_view(),
                n == pv.len(),
                n == paths@.len(),
                i <= n,
                v.glob_status.contains_key(glob@),
                v.glob_status[glob@].contains(hash@),
                v.hash_globs.contains_key(hash@),
                exc@ == v.hash_globs[hash@].exclude,
                forall|i2: int|
                    0 <= i2 < i ==> !(#[trigger] glob_matches(glob@, pv[i2]) && exists|
                        f: Seq<char>,
                    |
                        #[trigger] v.hash_globs[hash@].exclude.contains(f) && glob_matches(
                            f,
                            pv[i2],
                        )),
            decreases n - i,
        {
            if matches_path(glob.as_str(), paths[i].as_str()) {
                assert(glob_matches(glob@, pv[i as int]));
                let m = exc.len();
                let mut j: usize = 0;
                while j < m
                    invariant
                        self.wf(),
                        v == self.index(),
                        pv == paths.deep_view(),
                        n == pv.len(),
                        n == paths@.len(),
                        i < n,
                        m == exc.seq().len(),
                        j <= m,
                        v.glob_status.contains_key(glob@),
                        v.glob_status[glob@].contains(hash@),
                        v.hash_globs.contains_key(hash@),
                        exc@ == v.hash_globs[hash@].exclude,
                        glob_matches(glob@, pv[i as int]),
                        forall|j2: int|
                            0 <= j2 < j ==> !glob_matches(#[trigger] exc.seq()[j2], pv[i as int]),
                    decreases m - j,
                {
                    if matches_path(exc.index(j).as_str(), paths[i].as_str()) {
                        proof {
                            assert(exc@.contains(exc.seq()[j as int]));
                            assert(v.hash_globs[hash@].exclude.contains(exc.seq()[j as int])
                                && glob_matches(exc.seq()[j as int], pv[i as int]));
                            assert(pair_retired(v, pv, hash@, glob@));
                        }
                        return true;
                    }
                    j += 1;
                }
                proof {
                    assert forall|f: Seq<char>|
                        #[trigger] v.hash_globs[hash@].exclude.contains(f) implies
                        !glob_matches(f, pv[i as int]) by {
                        let j2 = choose|j2: int|
                            0 <= j2 < exc.seq().len() && exc.seq()[j2] == f;
                    }
                }
            }
            i += 1;
        }
        proof {
            if pair_retired(v, pv, hash@, glob@) {
                let i2 = choose|i2: int|
                    0 <= i2 < pv.len() && #[trigger] glob_matches(glob@, pv[i2]) && exists|
                        f: Seq<char>,
                    |
                        #[trigger] v.hash_globs[hash@].exclude.contains(f) && glob_matches(
                            f,
                            pv[i2],
                        );
            }
        }
        false
    }

    /// Registers `hash` with the given glob sets: the inverted index gains
    /// `hash` under every live pattern (stale entries of an earlier
    /// registration are deliberately not pruned), and the hash's own entry is
    /// replaced outright. The caller must first have flushed the event source
    /// and subscribed it to each live pattern.
    pub fn register(&mut self, hash: &String, live: &StrSet, exclude: &StrSet)
        requires
            old(self).wf(),
            hash@.len() > 0,
        ensures
            final(self).wf(),
            index_inv(final(self).index()),
            final(self).index() == registered(old(self).index(), hash@, live@, exclude@),
            final(self).pending_view() == old(self).pending_view(),
            final(self).stream_consumed() == old(self).stream_consumed(),
    {
        let ghost v0 = self.index();
        let n = live.len();
        let mut i: usize = 0;
        while i < n
            invariant
                self.hash_globs == old(self).hash_globs,
                self.pending == old(self).pending,
                self.consumed == old(self).consumed,
                self.hash_globs.wf(),
                self.glob_status.wf(),
                v0 == old(self).index(),
                n == live.seq().len(),
                i <= n,
                self.glob_status@ == status_extended(
                    v0.glob_status,
                    live.seq().take(i as int),
                    hash@,
                ),
            decreases n - i,
        {
            let g = live.index(i);
            let ghost pre = self.glob_status@;
            let mut hs2 = match self.glob_status.get(g) {
                Some(hs) => hs.clone(),
                None => StrSet::new(),
            };
            hs2.insert(hash.clone());
            self.glob_status.set(g.clone(), hs2);
            proof {
                assert(live.seq().take(i + 1).drop_last() =~= live.seq().take(i as int));
                assert(live.seq().take(i + 1).last() == live.seq()[i as int]);
                if !pre.contains_key(g@) {
                    assert(hs2@ =~= Set::<Seq<char>>::empty().insert(hash@));
                }
                assert(self.glob_status@ == status_extended(
                    v0.glob_status,
                    live.seq().take(i + 1),
                    hash@,
                ));
            }
            i += 1;
        }
        proof {
            assert(live.seq().take(n as int) =~= live.seq());
            lemma_status_extended(v0.glob_status, live.seq(), hash@);
        }
        if live.is_empty() {
            self.hash_globs.remove_key(hash);
        } else {
            self.hash_globs.set(hash.clone(), Glob::new(live.clone(), exclude.clone()));
        }
        proof {
            let r = registered(v0, hash@, live@, exclude@);
            assert forall|g: Seq<char>|
                self.glob_status@.contains_key(g) == r.glob_status.contains_key(g) && (
                self.glob_status@.contains_key(g) ==> self.glob_status@[g]
                    == r.glob_status[g]) by {
                assert(live@.contains(g) == live.seq().contains(g));
            }
            assert(self.glob_status@ =~= r.glob_status);
            assert(self.hash_globs@ =~= r.hash_globs);
            assert(self.index() =~~= r);
            crate::model::lemma_register_preserves_inv(v0, hash@, live@, exclude@);
        }
    }

    /// Applies one change batch of root-relative paths to the index and
    /// returns the patterns to unsubscribe from the event source: exactly
    /// those whose last watching hash retired them in this batch, so the
    /// source stops reporting changes that nobody tracks anymore, each once.
    pub fn reconcile_batch(&mut self, paths: &Vec<String>) -> (unsubs: StrSet)
        requires
            old(self).wf(),
        ensures
            final(self).wf(),
            index_inv(final(self).index()),
            final(self).index() == reconciled(old(self).index(), paths.deep_view()),
            unsubs@ == unsub_set(old(self).index(), paths.deep_view()),
            final(self).pending_view() == old(self).pending_view(),
            final(self).stream_consumed() == old(self).stream_consumed(),
    {
        let ghost v = self.index();
        let ghost pv = paths.deep_view();
        let ghost r = reconciled(v, pv);

        let mut new_hashes: KvList<Glob> = KvList::new();
        let hn = self.hash_globs.len();
        let mut i: usize = 0;
        while i < hn
            invariant
                self == old(self),
                self.wf(),
                v == self.index(),
                pv == paths.deep_view(),
                r == reconciled(v, pv),
                hn == self.hash_globs.key_seq().len(),
                i <= hn,
                new_hashes.wf(),
                forall|h: Seq<char>|
                    #[trigger] new_hashes@.contains_key(h) <==> r.hash_globs.contains_key(h)
                        && exists|j: int|
                        0 <= j < i && #[trigger] self.hash_globs.key_seq()[j] == h,
                forall|h: Seq<char>|
                    #[trigger] new_hashes@.contains_key(h) ==> new_hashes@[h]
                        == r.hash_globs[h],
            decreases hn - i,
        {
            let hkey = self.hash_globs.key_at(i).clone();
            let ghost hk = hkey@;
            let gv = self.hash_globs.val_at(i);
            let lv = gv.live();
            let mut kept = StrSet::new();
            let ln = lv.len();
            let mut j: usize = 0;
            while j < ln
                invariant
                    self == old(self),
                    self.wf(),
                    v == self.index(),
                    pv == paths.deep_view(),
                    i < hn,
                    hn == self.hash_globs.key_seq().len(),
                    hk == self.hash_globs.key_seq()[i as int],
                    hkey@ == hk,
                    v.hash_globs.contains_key(hk),
                    gv@ == v.hash_globs[hk],
                    lv@ == v.hash_globs[hk].live,
                    ln == lv.seq().len(),
                    j <= ln,
                    forall|g: Seq<char>|
                        #[trigger] kept@.contains(g) <==> exists|j2: int|
                            0 <= j2 < j && #[trigger] lv.seq()[j2] == g && !pair_retired(
                                v,
                                pv,
                                hk,
                                g,
                            ),
                decreases ln - j,
            {
                let c = lv.index(j);
                if !self.pair_retired_exec(paths, &hkey, c) {
                    kept.insert(c.clone());
                    proof {
                        assert(lv.seq()[j as int] == c@);
                    }
                }
                proof {
                    assert forall|g: Seq<char>| #[trigger] kept@.contains(g) implies exists|
                        j2: int,
                    |
                        0 <= j2 < j + 1 && #[trigger] lv.seq()[j2] == g && !pair_retired(
                            v,
                            pv,
                            hk,
                            g,
                        ) by {}
                }
                j += 1;
            }
            proof {
                assert forall|g: Seq<char>|
                    #[trigger] kept@.contains(g) == (v.hash_globs[hk].live.contains(g)
                        && !pair_retired(v, pv, hk, g)) by {
                    if v.hash_globs[hk].live.contains(g) && !pair_retired(v, pv, hk, g) {
                        let j2 = choose|j2: int|
                            0 <= j2 < lv.seq().len() && lv.seq()[j2] == g;
                    }
                }
            }
            let exc2 = gv.exclude().clone();
            if !kept.is_empty() {
                proof {
                    let gw = choose|g: Seq<char>| kept@.contains(g);
                    assert(v.hash_globs[hk].live.contains(gw) && !pair_retired(v, pv, hk, gw));
                    assert(r.hash_globs.contains_key(hk));
                    assert(kept@ =~= r.hash_globs[hk].live);
                }
                let g2 = Glob::new(kept, exc2);
                proof {
                    assert(g2@ =~~= r.hash_globs[hk]);
                }
                new_hashes.set(hkey, g2);
            } else {
                proof {
                    if r.hash_globs.contains_key(hk) {
                        let gw = choose|g: Seq<char>|
                            #[trigger] v.hash_globs[hk].live.contains(g) && !pair_retired(
                                v,
                                pv,
                                hk,
                                g,
                            );
                        assert(kept@.contains(gw));
                    }
                }
            }
            proof {
                assert forall|h: Seq<char>|
                    #[trigger] new_hashes@.contains_key(h) <==> r.hash_globs.contains_key(h)
                        && exists|j2: int|
                        0 <= j2 < i + 1 && #[trigger] self.hash_globs.key_seq()[j2] == h by {
                    if new_hashes@.contains_key(h) && h == hk {
                        assert(self.hash_globs.key_seq()[i as int] == h);
                    }
                }
            }
            i += 1;
        }

        let mut new_status: KvList<StrSet> = KvList::new();
        let mut unsubs = StrSet::new();
        let gn = self.glob_status.len();
        let mut i2: usize = 0;
        while i2 < gn
            invariant
                self == old(self),
                self.wf(),
                v == self.index(),
                pv == paths.deep_view(),
                r == reconciled(v, pv),
                gn == self.glob_status.key_seq().len(),
                i2 <= gn,
                new_status.wf(),
                forall|g: Seq<char>|
                    #[trigger] new_status@.contains_key(g) <==> r.glob_status.contains_key(g)
                        && exists|j: int|
                        0 <= j < i2 && #[trigger] self.glob_status.key_seq()[j] == g,
                forall|g: Seq<char>|
                    #[trigger] new_status@.contains_key(g) ==> new_status@[g]
                        == r.glob_status[g],
                forall|g: Seq<char>|
                    #[trigger] unsubs@.contains(g) <==> unsub_set(v, pv).contains(g) && exists|
                        j: int,
                    |
                        0 <= j < i2 && #[trigger] self.glob_status.key_seq()[j] == g,
            decreases gn - i2,
        {
            let gkey = self.glob_status.key_at(i2).clone();
            let ghost gk = gkey@;
            let hs = self.glob_status.val_at(i2);
            let mut keep_hs = StrSet::new();
            let hsn = hs.len();
            let mut j: usize = 0;
            while j < hsn
                invariant
                    self == old(self),
                    self.wf(),
                    v == self.index(),
                    pv == paths.deep_view(),
                    i2 < gn,
                    gn == self.glob_status.key_seq().len(),
                    gk == self.glob_status.key_seq()[i2 as int],
                    gkey@ == gk,
                    v.glob_status.contains_key(gk),
                    hs@ == v.glob_status[gk],
                    hsn == hs.seq().len(),
                    j <= hsn,
                    forall|h: Seq<char>|
                        #[trigger] keep_hs@.contains(h) <==> exists|j2: int|
                            0 <= j2 < j && #[trigger] hs.seq()[j2] == h && !pair_retired(
                                v,
                                pv,
                                h,
                                gk,
                            ),
                decreases hsn - j,
            {
                let h = hs.index(j);
                if !self.pair_retired_exec(paths, h, &gkey) {
                    keep_hs.insert(h.clone());
                    proof {
                        assert(hs.seq()[j as int] == h@);
                    }
                }
                proof {
                    assert forall|h2: Seq<char>| #[trigger] keep_hs@.contains(h2) implies
                        exists|j2: int|
                            0 <= j2 < j + 1 && #[trigger] hs.seq()[j2] == h2 && !pair_retired(
                                v,
                                pv,
                                h2,
                                gk,
                            ) by {}
                }
                j += 1;
            }
            proof {
                assert forall|h: Seq<char>|
                    #[trigger] keep_hs@.contains(h) == (v.glob_status[gk].contains(h)
                        && !pair_retired(v, pv, h, gk)) by {
                    if v.glob_status[gk].contains(h) && !pair_retired(v, pv, h, gk) {
                        let j2 = choose|j2: int|
                            0 <= j2 < hs.seq().len() && hs.seq()[j2] == h;
                    }
                }
            }
            if !keep_hs.is_empty() {
                // Some hash still watches the pattern: it stays subscribed.
                proof {
                    let hw = choose|h: Seq<char>| keep_hs@.contains(h);
                    assert(v.glob_status[gk].contains(hw) && !pair_retired(v, pv, hw, gk));
                    assert(r.glob_status.contains_key(gk));
                    assert(keep_hs@ =~= r.glob_status[gk]);
                    assert(!unsub_set(v, pv).contains(gk));
                }
                new_status.set(gkey, keep_hs);
            } else {
                // Every hash watching the pattern retired it: the entry goes
                // and the pattern is unsubscribed.
                proof {
                    if r.glob_status.contains_key(gk) {
                        let hw = choose|h: Seq<char>|
                            #[trigger] v.glob_status[gk].contains(h) && !pair_retired(
                                v,
                                pv,
                                h,
                                gk,
                            );
                        assert(keep_hs@.contains(hw));
                    }
                    assert(unsub_set(v, pv).contains(gk));
                }
                unsubs.insert(gkey);
            }
            proof {
                assert forall|g: Seq<char>|
                    #[trigger] new_status@.contains_key(g) <==> r.glob_status.contains_key(g)
                        && exists|j3: int|
                        0 <= j3 < i2 + 1 && #[trigger] self.glob_status.key_seq()[j3] == g by {
                    if new_status@.contains_key(g) && g == gk {
                        assert(self.glob_status.key_seq()[i2 as int] == g);
                    }
                }
                assert forall|g: Seq<char>|
                    #[trigger] unsubs@.contains(g) <==> unsub_set(v, pv).contains(g) && exists|
                        j3: int,
                    |
                        0 <= j3 < i2 + 1 && #[trigger] self.glob_status.key_seq()[j3] == g by {
                    if unsubs@.contains(g) && g == gk {
                        assert(self.glob_status.key_seq()[i2 as int] == g);
                    }
                }
            }
            i2 += 1;
        }

        proof {
            self.hash_globs.lemma_key_facts();
            self.glob_status.lemma_key_facts();
            assert forall|h: Seq<char>| #[trigger] r.hash_globs.contains_key(h) implies
                new_hashes@.contains_key(h) by {
                assert(v.hash_globs.contains_key(h));
            }
            assert(new_hashes@ =~= r.hash_globs);
            assert forall|g: Seq<char>| #[trigger] r.glob_status.contains_key(g) implies
                new_status@.contains_key(g) by {
                assert(v.glob_status.contains_key(g));
            }
            assert(new_status@ =~= r.glob_status);
            assert forall|g: Seq<char>| #[trigger] unsub_set(v, pv).contains(g) implies
                unsubs@.contains(g) by {
                assert(v.glob_status.contains_key(g));
            }
            assert(unsubs@ =~= unsub_set(v, pv));
            crate::model::lemma_reconcile_preserves_inv(v, pv);
        }
        self.hash_globs = new_hashes;
        self.glob_status = new_status;
        proof {
            assert(self.index() =~~= r);
        }
        unsubs
    }

    /// The subset of `candidates` the hash still depends on; a hash that is
    /// not tracked (never registered, or fully retired) leaves the candidates
    /// unchanged. A pure read: the caller flushes first when it needs the
    /// result to reflect earlier changes.
    pub fn query_pending(&self, hash: &String, candidates: &StrSet) -> (result: StrSet)
        requires
            self.wf(),
        ensures
            result@ == query_spec(self.index(), hash@, candidates@),
    {
        match self.hash_globs.get(hash) {
            Some(g) => {
                let lv = g.live();
                let mut result = StrSet::new();
                let n = candidates.len();
                let mut i: usize = 0;
                while i < n
                    invariant
                        lv@ == self.index().hash_globs[hash@].live,
                        n == candidates.seq().len(),
                        i <= n,
                        forall|c: Seq<char>|
                            #[trigger] result@.contains(c) <==> exists|j: int|
                                0 <= j < i && #[trigger] candidates.seq()[j] == c
                                    && lv@.contains(c),
                    decreases n - i,
                {
                    let c = candidates.index(i);
                    if lv.contains(c) {
                        result.insert(c.clone());
                        proof {
                            assert(candidates.seq()[i as int] == c@);
                        }
                    }
                    proof {
                        assert forall|c2: Seq<char>| #[trigger] result@.contains(c2) implies
                            exists|j: int|
                                0 <= j < i + 1 && #[trigger] candidates.seq()[j] == c2
                                    && lv@.contains(c2) by {}
                    }
                    i += 1;
                }
                proof {
                    assert forall|c: Seq<char>|
                        #[trigger] result@.contains(c) == (candidates@.contains(c)
                            && lv@.contains(c)) by {
                        if candidates@.contains(c) && lv@.contains(c) {
                            let j = choose|j: int|
                                0 <= j < candidates.seq().len() && candidates.seq()[j] == c;
                        }
                    }
                    assert(result@ =~= candidates@.intersect(lv@));
                }
                result
            },
            None => candidates.clone(),
        }
    }

    /// Queues a change batch of root-relative paths as observed by the event
    /// source; a later flush reconciles it.
    pub fn deliver(&mut self, batch: Vec<String>)
        requires
            old(self).wf(),
        ensures
            final(self).wf(),
            final(self).index() == old(self).index(),
            final(self).pending_view() == old(self).pending_view().push(batch.deep_view()),
            final(self).stream_consumed() == old(self).stream_consumed(),
    {
        let ghost bv = batch.deep_view();
        self.pending.push(batch);
        proof {
            assert(self.pending_view() =~= old(self).pending_view().push(bv));
        }
    }

    /// Reconciles every delivered change batch, oldest first, before
    /// returning: a batch delivered before this call is reflected in the
    /// index once it returns. Returns every pattern those batches
    /// unsubscribed.
    pub fn flush(&mut self) -> (unsubs: StrSet)
        requires
            old(self).wf(),
        ensures
            final(self).wf(),
            index_inv(final(self).index()),
            final(self).index() == reconciled_all(old(self).index(), old(self).pending_view()),
            final(self).pending_view() == Seq::<Seq<Seq<char>>>::empty(),
            unsubs@ == unsubs_all(old(self).index(), old(self).pending_view()),
            final(self).stream_consumed() == old(self).stream_consumed(),
    {
        let mut unsubs = StrSet::new();
        proof {
            assert(unsubs@.union(
                unsubs_all(self.index(), self.pending_view()),
            ) =~= unsubs_all(old(self).index(), old(self).pending_view()));
        }
        while self.pending.len() > 0
            invariant
                self.wf(),
                reconciled_all(self.index(), self.pending_view()) == reconciled_all(
                    old(self).index(),
                    old(self).pending_view(),
                ),
                unsubs@.union(unsubs_all(self.index(), self.pending_view())) == unsubs_all(
                    old(self).index(),
                    old(self).pending_view(),
                ),
                self.stream_consumed() == old(self).stream_consumed(),
            decreases self.pending.len(),
        {
            let ghost vcur = self.index();
            let ghost pcur = self.pending_view();
            let batch = self.pending.remove(0);
            proof {
                assert(batch.deep_view() == pcur[0]);
                assert(self.pending_view() =~= pcur.drop_first());
            }
            let u = self.reconcile_batch(&batch);
            unsubs.union_with(&u);
            proof {
                assert(unsubs@.union(unsubs_all(self.index(), self.pending_view())) =~=
                    unsubs_all(old(self).index(), old(self).pending_view()));
            }
        }
        proof {
            assert(self.pending_view() =~= Seq::<Seq<Seq<char>>>::empty());
            assert(unsubs@ =~= unsubs_all(old(self).index(), old(self).pending_view()));
        }
        unsubs
    }

    /// Starts the watch session: marks the one-shot event stream consumed and
    /// returns every pattern a tracked hash depends on, so the caller can
    /// subscribe the event source to each before consuming events. A second
    /// start is refused.
    pub fn watch(&mut self) -> (r: Result<StrSet, SessionError>)
        requires
            old(self).wf(),
        ensures
            final(self).wf(),
            final(self).index() == old(self).index(),
            final(self).pending_view() == old(self).pending_view(),
            final(self).stream_consumed(),
            old(self).stream_consumed() ==> (r matches Err(e) && e
                == SessionError::StreamConsumed),
            !old(self).stream_consumed() ==> (r matches Ok(pats) && pats@ == all_patterns(
                old(self).index(),
            )),
    {
        if self.consumed {
            return Err(SessionError::StreamConsumed);
        }
        self.consumed = true;
        let mut pats = StrSet::new();
        let hn = self.hash_globs.len();
        let mut i: usize = 0;
        while i < hn
            invariant
                self.wf(),
                self.index() == old(self).index(),
                self.pending == old(self).pending,
                self.consumed,
                hn == self.hash_globs.key_seq().len(),
                i <= hn,
                forall|p: Seq<char>|
                    #[trigger] pats@.contains(p) <==> exists|j: int|
                        0 <= j < i && self.hash_globs@[#[trigger] self.hash_globs.key_seq()[j]].live.contains(
                            p,
                        ),
            decreases hn - i,
        {
            let ghost hk = self.hash_globs.key_seq()[i as int];
            let gv = self.hash_globs.val_at(i);
            let lv = gv.live();
            let ln = lv.len();
            let mut j: usize = 0;
            while j < ln
                invariant
                    self.wf(),
                    self.index() == old(self).index(),
                    self.pending == old(self).pending,
                    self.consumed,
                    i < hn,
                    hn == self.hash_globs.key_seq().len(),
                    hk == self.hash_globs.key_seq()[i as int],
                    lv@ == self.hash_globs@[hk].live,
                    ln == lv.seq().len(),
                    j <= ln,
                    forall|p: Seq<char>|
                        #[trigger] pats@.contains(p) <==> (exists|j2: int|
                            0 <= j2 < i && self.hash_globs@[
                                #[trigger] self.hash_globs.key_seq()[j2]
                            ].live.contains(p)) || (exists|j2: int|
                            0 <= j2 < j && #[trigger] lv.seq()[j2] == p),
                decreases ln - j,
            {
                pats.insert(lv.index(j).clone());
                proof {
                    assert forall|p: Seq<char>| #[trigger] pats@.contains(p) implies (exists|
                        j2: int,
                    |
                        0 <= j2 < i && self.hash_globs@[
                            #[trigger] self.hash_globs.key_seq()[j2]
                        ].live.contains(p)) || (exists|j2: int|
                        0 <= j2 < j + 1 && #[trigger] lv.seq()[j2] == p) by {
                        if p == lv.seq()[j as int] {
                            assert(lv.seq()[j as int] == p);
                        }
                    }
                }
                j += 1;
            }
            proof {
                assert forall|p: Seq<char>| #[trigger] pats@.contains(p) implies exists|
                    j2: int,
                |
                    0 <= j2 < i + 1 && self.hash_globs@[
                        #[trigger] self.hash_globs.key_seq()[j2]
                    ].live.contains(p) by {
                    if exists|j2: int| 0 <= j2 < ln && lv.seq()[j2] == p {
                        assert(lv@.contains(p));
                        assert(self.hash_globs.key_seq()[i as int] == hk);
                    }
                }
                assert forall|p: Seq<char>|
                    (exists|j2: int|
                        0 <= j2 < i + 1 && self.hash_globs@[
                            #[trigger] self.hash_globs.key_seq()[j2]
                        ].live.contains(p)) implies pats@.contains(p) by {
                    let j2 = choose|j2: int|
                        0 <= j2 < i + 1 && self.hash_globs@[
                            #[trigger] self.hash_globs.key_seq()[j2]
                        ].live.contains(p);
                    if j2 == i {
                        let j3 = choose|j3: int|
                            0 <= j3 < lv.seq().len() && lv.seq()[j3] == p;
                    }
                }
            }
            i += 1;
        }
        proof {
            self.hash_globs.lemma_key_facts();
            assert forall|p: Seq<char>|
                #[trigger] pats@.contains(p) == all_patterns(old(self).index()).contains(
                    p,
                ) by {
                if pats@.contains(p) {
                    let j = choose|j: int|
                        0 <= j < hn && self.hash_globs@[
                            #[trigger] self.hash_globs.key_seq()[j]
                        ].live.contains(p);
                    assert(self.hash_globs@.contains_key(self.hash_globs.key_seq()[j]));
                }
                if all_patterns(old(self).index()).contains(p) {
                    let h = choose|h: Seq<char>|
                        #[trigger] old(self).index().hash_globs.contains_key(h) && old(
                            self,
                        ).index().hash_globs[h].live.contains(p);
                    let j = choose|j: int|
                        0 <= j < self.hash_globs.key_seq().len()
                            && self.hash_globs.key_seq()[j] == h;
                }
            }
            assert(pats@ =~= all_patterns(old(self).index()));
        }
        Ok(pats)
    }

    /// Registers a hash after reconciling every already delivered change
    /// batch, so a fresh registration cannot inherit a change that predates
    /// it. Returns the patterns those batches unsubscribed; the caller also
    /// subscribes the event source to each live pattern.
    pub fn watch_globs(&mut self, hash: &String, live: &StrSet, exclude: &StrSet) -> (unsubs:
        StrSet)
        requires
            old(self).wf(),
            hash@.len() > 0,
        ensures
            final(self).wf(),
            final(self).index() == registered(
                reconciled_all(old(self).index(), old(self).pending_view()),
                hash@,
                live@,
                exclude@,
            ),
            final(self).pending_view() == Seq::<Seq<Seq<char>>>::empty(),
            unsubs@ == unsubs_all(old(self).index(), old(self).pending_view()),
            final(self).stream_consumed() == old(self).stream_consumed(),
    {
        let unsubs = self.flush();
        self.register(hash, live, exclude);
        unsubs
    }

    /// Answers which of the candidate patterns the hash still depends on,
    /// after reconciling every already delivered change batch, so the answer
    /// reflects every change that happened before the call. In a full session
    /// the reconciliation loop sends the unsubscribe commands itself, so this
    /// query does not return them.
    pub fn changed_globs(&mut self, hash: &String, candidates: &StrSet) -> (result: StrSet)
        requires
            old(self).wf(),
        ensures
            final(self).wf(),
            final(self).index() == reconciled_all(
                old(self).index(),
                old(self).pending_view(),
            ),
            final(self).pending_view() == Seq::<Seq<Seq<char>>>::empty(),
            result@ == query_spec(final(self).index(), hash@, candidates@),
            final(self).stream_consumed() == old(self).stream_consumed(),
    {
        let _unsubs = self.flush();
        self.query_pending(hash, candidates)
    }
}

} // verus!
