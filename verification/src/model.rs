use vstd::prelude::*;

use crate::matcher::glob_matches;

verus! {

/// The patterns a tracked hash still depends on (`live`), and the patterns
/// whose match against a changed path is the trigger that retires one of the
/// hash's live patterns (`exclude`). The exclude set is deliberately not a
/// negative filter; see `pair_retired`.
#[verifier::ext_equal]
pub struct GlobSetView {
    pub live: Set<Seq<char>>,
    pub exclude: Set<Seq<char>>,
}

/// The tracking index: a map from hash to its glob sets, and the inverted
/// index from glob pattern to the hashes watching it.
#[verifier::ext_equal]
pub struct IndexView {
    pub hash_globs: Map<Seq<char>, GlobSetView>,
    pub glob_status: Map<Seq<char>, Set<Seq<char>>>,
}

impl IndexView {
    pub open spec fn empty() -> IndexView {
        IndexView {
            hash_globs: Map::empty(),
            glob_status: Map::empty(),
        }
    }
}

/// The index's consistency invariant: every live pattern of a tracked hash
/// is present in the inverted index and points back at the hash, a tracked
/// hash has a non-empty live set, and a pattern in the inverted index is
/// watched by at least one hash.
pub open spec fn index_inv(v: IndexView) -> bool {
    &&& forall|h: Seq<char>|
        #[trigger] v.hash_globs.contains_key(h) ==> !v.hash_globs[h].live.is_empty()
    &&& forall|g: Seq<char>| #[trigger] v.glob_status.contains_key(g) ==> !v.glob_status[g].is_empty()
    &&& forall|h: Seq<char>, g: Seq<char>|
        v.hash_globs.contains_key(h) && #[trigger] v.hash_globs[h].live.contains(g)
            ==> v.glob_status.contains_key(g) && v.glob_status[g].contains(h)
}

/// Whether a change batch retires the association between `hash` and `glob`:
/// the inverted index lists `hash` under `glob`, the hash is still tracked,
/// and some changed path matches `glob` and also matches one of the hash's
/// exclude patterns. All conditions are read from the state as it stood when
/// the batch arrived.
pub open spec fn pair_retired(
    v: IndexView,
    paths: Seq<Seq<char>>,
    hash: Seq<char>,
    glob: Seq<char>,
) -> bool {
    &&& v.glob_status.contains_key(glob)
    &&& v.glob_status[glob].contains(hash)
    &&& v.hash_globs.contains_key(hash)
    &&& exists|i: int|
        0 <= i < paths.len() && #[trigger] glob_matches(glob, paths[i]) && exists|f: Seq<char>|
            #[trigger] v.hash_globs[hash].exclude.contains(f) && glob_matches(f, paths[i])
}

/// The index after one change batch: every retired pair is removed from both
/// maps, and entries whose live set or hash set empties are deleted.
pub open spec fn reconciled(v: IndexView, paths: Seq<Seq<char>>) -> IndexView {
    IndexView {
        hash_globs: Map::new(
            |h: Seq<char>|
                v.hash_globs.contains_key(h) && exists|g: Seq<char>|
                    #[trigger] v.hash_globs[h].live.contains(g) && !pair_retired(
                        v,
                        paths,
                        h,
                        g,
                    ),
            |h: Seq<char>|
                GlobSetView {
                    live: Set::new(
                        |g: Seq<char>|
                            v.hash_globs[h].live.contains(g) && !pair_retired(v, paths, h, g),
                    ),
                    exclude: v.hash_globs[h].exclude,
                },
        ),
        glob_status: Map::new(
            |g: Seq<char>|
                v.glob_status.contains_key(g) && exists|h: Seq<char>|
                    #[trigger] v.glob_status[g].contains(h) && !pair_retired(v, paths, h, g),
            |g: Seq<char>|
                Set::new(
                    |h: Seq<char>|
                        v.glob_status[g].contains(h) && !pair_retired(v, paths, h, g),
                ),
        ),
    }
}

/// The patterns a change batch stops watching: those whose inverted-index
/// entry the batch deletes, because every hash watching them retired them.
/// Each is commanded unsubscribed from the event source, once per batch, so
/// the source stops reporting changes that nobody tracks anymore; a pattern
/// some hash still depends on stays subscribed.
pub open spec fn unsub_set(v: IndexView, paths: Seq<Seq<char>>) -> Set<Seq<char>> {
    Set::new(
        |g: Seq<char>|
            v.glob_status.contains_key(g) && !reconciled(v, paths).glob_status.contains_key(g),
    )
}

/// The index after registering `hash` with the given glob sets: the inverted
/// index is extended (never pruned) with `hash` under every live pattern,
/// and the hash's own entry is replaced outright. An empty live set leaves
/// the hash untracked.
pub open spec fn registered(
    v: IndexView,
    hash: Seq<char>,
    live: Set<Seq<char>>,
    exclude: Set<Seq<char>>,
) -> IndexView {
    IndexView {
        hash_globs: if live.is_empty() {
            v.hash_globs.remove(hash)
        } else {
            v.hash_globs.insert(hash, GlobSetView { live, exclude })
        },
        glob_status: Map::new(
            |g: Seq<char>| v.glob_status.contains_key(g) || live.contains(g),
            |g: Seq<char>|
                if live.contains(g) {
                    (if v.glob_status.contains_key(g) {
                        v.glob_status[g]
                    } else {
                        Set::empty()
                    }).insert(hash)
                } else {
                    v.glob_status[g]
                },
        ),
    }
}

/// What a query returns: the candidates still in the hash's live set, or
/// the candidates unchanged when the hash is not tracked (nothing is known to
/// have been retired, so nothing can be excluded).
pub open spec fn query_spec(
    v: IndexView,
    hash: Seq<char>,
    candidates: Set<Seq<char>>,
) -> Set<Seq<char>> {
    if v.hash_globs.contains_key(hash) {
        candidates.intersect(v.hash_globs[hash].live)
    } else {
        candidates
    }
}

/// The index after a sequence of change batches, oldest first.
pub open spec fn reconciled_all(v: IndexView, batches: Seq<Seq<Seq<char>>>) -> IndexView
    decreases batches.len(),
{
    if batches.len() == 0 {
        v
    } else {
        reconciled_all(reconciled(v, batches[0]), batches.drop_first())
    }
}

/// Every pattern unsubscribed over a sequence of change batches.
pub open spec fn unsubs_all(v: IndexView, batches: Seq<Seq<Seq<char>>>) -> Set<Seq<char>>
    decreases batches.len(),
{
    if batches.len() == 0 {
        Set::empty()
    } else {
        unsub_set(v, batches[0]).union(
            unsubs_all(reconciled(v, batches[0]), batches.drop_first()),
        )
    }
}

/// Every glob pattern some tracked hash still depends on; these are the
/// subscriptions the event source must hold.
pub open spec fn all_patterns(v: IndexView) -> Set<Seq<char>> {
    Set::new(
        |g: Seq<char>|
            exists|h: Seq<char>| #[trigger] v.hash_globs.contains_key(h)
                && v.hash_globs[h].live.contains(g),
    )
}

/// Registration preserves the index invariant: the freshly registered hash is
/// indexed under each of its live patterns, every other association is
/// kept, and no empty entry appears in either map.
pub proof fn lemma_register_preserves_inv(
    v: IndexView,
    hash: Seq<char>,
    live: Set<Seq<char>>,
    exclude: Set<Seq<char>>,
)
    requires
        index_inv(v),
    ensures
        index_inv(registered(v, hash, live, exclude)),
{
    let v2 = registered(v, hash, live, exclude);
    assert forall|h: Seq<char>, g: Seq<char>|
        v2.hash_globs.contains_key(h) && #[trigger] v2.hash_globs[h].live.contains(g)
        implies v2.glob_status.contains_key(g) && v2.glob_status[g].contains(h) by {
        if h == hash && !live.is_empty() {
            assert(live.contains(g));
        } else {
            assert(v.hash_globs.contains_key(h) && v.hash_globs[h].live.contains(g));
        }
    }
    assert forall|g: Seq<char>| #[trigger] v2.glob_status.contains_key(g) implies
        !v2.glob_status[g].is_empty() by {
        if live.contains(g) {
            assert(v2.glob_status[g].contains(hash));
        }
    }
}

/// Reconciling a change batch preserves the index invariant.
pub proof fn lemma_reconcile_preserves_inv(v: IndexView, paths: Seq<Seq<char>>)
    requires
        index_inv(v),
    ensures
        index_inv(reconciled(v, paths)),
{
    let v2 = reconciled(v, paths);
    assert forall|h: Seq<char>| #[trigger] v2.hash_globs.contains_key(h) implies
        !v2.hash_globs[h].live.is_empty() by {
        let g = choose|g: Seq<char>|
            #[trigger] v.hash_globs[h].live.contains(g) && !pair_retired(v, paths, h, g);
        assert(v2.hash_globs[h].live.contains(g));
    }
    assert forall|g: Seq<char>| #[trigger] v2.glob_status.contains_key(g) implies
        !v2.glob_status[g].is_empty() by {
        let h = choose|h: Seq<char>|
            #[trigger] v.glob_status[g].contains(h) && !pair_retired(v, paths, h, g);
        assert(v2.glob_status[g].contains(h));
    }
    assert forall|h: Seq<char>, g: Seq<char>|
        v2.hash_globs.contains_key(h) && #[trigger] v2.hash_globs[h].live.contains(g)
        implies v2.glob_status.contains_key(g) && v2.glob_status[g].contains(h) by {
        assert(v.hash_globs.contains_key(h) && v.hash_globs[h].live.contains(g));
        assert(v.glob_status.contains_key(g) && v.glob_status[g].contains(h));
        assert(!pair_retired(v, paths, h, g));
        assert(v2.glob_status.contains_key(g));
    }
}

/// The invariant holds after any sequence of change batches.
pub proof fn lemma_reconcile_all_preserves_inv(v: IndexView, batches: Seq<Seq<Seq<char>>>)
    requires
        index_inv(v),
    ensures
        index_inv(reconciled_all(v, batches)),
    decreases batches.len(),
{
    if batches.len() > 0 {
        lemma_reconcile_preserves_inv(v, batches[0]);
        lemma_reconcile_all_preserves_inv(reconciled(v, batches[0]), batches.drop_first());
    }
}

/// Reconciliation only shrinks the set of tracked hashes and each surviving
/// hash's live set.
pub proof fn lemma_reconcile_shrinks(v: IndexView, paths: Seq<Seq<char>>)
    ensures
        forall|h: Seq<char>| #[trigger] reconciled(v, paths).hash_globs.contains_key(h)
            ==> v.hash_globs.contains_key(h) && reconciled(
                v,
                paths,
            ).hash_globs[h].live.subset_of(v.hash_globs[h].live),
{
}

/// Query monotonicity across one change batch: while the hash stays tracked,
/// a query after the batch returns a subset of what it returned before; once
/// the hash is no longer tracked, the query returns the candidates unchanged.
pub proof fn lemma_query_monotonic(
    v: IndexView,
    paths: Seq<Seq<char>>,
    hash: Seq<char>,
    candidates: Set<Seq<char>>,
)
    ensures
        reconciled(v, paths).hash_globs.contains_key(hash) ==> query_spec(
            reconciled(v, paths),
            hash,
            candidates,
        ).subset_of(query_spec(v, hash, candidates)),
        !reconciled(v, paths).hash_globs.contains_key(hash) ==> query_spec(
            reconciled(v, paths),
            hash,
            candidates,
        ) == candidates,
{
    lemma_reconcile_shrinks(v, paths);
}

/// Query monotonicity across any number of change batches.
pub proof fn lemma_query_monotonic_batches(
    v: IndexView,
    batches: Seq<Seq<Seq<char>>>,
    hash: Seq<char>,
    candidates: Set<Seq<char>>,
)
    ensures
        reconciled_all(v, batches).hash_globs.contains_key(hash) ==> query_spec(
            reconciled_all(v, batches),
            hash,
            candidates,
        ).subset_of(query_spec(v, hash, candidates)),
    decreases batches.len(),
{
    if batches.len() > 0 {
        let v1 = reconciled(v, batches[0]);
        lemma_query_monotonic_batches(v1, batches.drop_first(), hash, candidates);
        if reconciled_all(v, batches).hash_globs.contains_key(hash) {
            lemma_reconciled_all_shrinks_dom(v1, batches.drop_first(), hash);
            lemma_query_monotonic(v, batches[0], hash, candidates);
        }
    }
}

/// Reconciling a batch sequence equals reconciling any prefix and then the
/// rest.
pub proof fn lemma_reconciled_all_split(v: IndexView, batches: Seq<Seq<Seq<char>>>, m: int)
    requires
        0 <= m <= batches.len(),
    ensures
        reconciled_all(v, batches) == reconciled_all(
            reconciled_all(v, batches.take(m)),
            batches.skip(m),
        ),
    decreases m,
{
    if m == 0 {
        assert(batches.take(0) =~= Seq::<Seq<Seq<char>>>::empty());
        assert(batches.skip(0) =~= batches);
    } else {
        let v1 = reconciled(v, batches[0]);
        lemma_reconciled_all_split(v1, batches.drop_first(), m - 1);
        assert(batches.take(m).drop_first() =~= batches.drop_first().take(m - 1));
        assert(batches.skip(m) =~= batches.drop_first().skip(m - 1));
        assert(batches.take(m)[0] == batches[0]);
    }
}

/// Query monotonicity against any earlier point: while the hash stays
/// tracked, the answer after all batches is a subset of the answer after the
/// first `m` of them.
pub proof fn lemma_query_monotonic_prefix(
    v: IndexView,
    batches: Seq<Seq<Seq<char>>>,
    m: int,
    hash: Seq<char>,
    candidates: Set<Seq<char>>,
)
    requires
        0 <= m <= batches.len(),
    ensures
        reconciled_all(v, batches).hash_globs.contains_key(hash) ==> query_spec(
            reconciled_all(v, batches),
            hash,
            candidates,
        ).subset_of(query_spec(reconciled_all(v, batches.take(m)), hash, candidates)),
{
    lemma_reconciled_all_split(v, batches, m);
    lemma_query_monotonic_batches(
        reconciled_all(v, batches.take(m)),
        batches.skip(m),
        hash,
        candidates,
    );
}

proof fn lemma_reconciled_all_shrinks_dom(
    v: IndexView,
    batches: Seq<Seq<Seq<char>>>,
    hash: Seq<char>,
)
    ensures
        reconciled_all(v, batches).hash_globs.contains_key(hash) ==> v.hash_globs.contains_key(
            hash,
        ),
    decreases batches.len(),
{
    if batches.len() > 0 {
        lemma_reconciled_all_shrinks_dom(reconciled(v, batches[0]), batches.drop_first(), hash);
        lemma_reconcile_shrinks(v, batches[0]);
    }
}

/// A batch that retires a pair removes it from both maps; once every hash
/// watching the pattern has retired it, the pattern is unsubscribed.
pub proof fn lemma_retirement_removes(
    v: IndexView,
    paths: Seq<Seq<char>>,
    hash: Seq<char>,
    glob: Seq<char>,
)
    requires
        pair_retired(v, paths, hash, glob),
    ensures
        reconciled(v, paths).hash_globs.contains_key(hash) ==> !reconciled(
            v,
            paths,
        ).hash_globs[hash].live.contains(glob),
        reconciled(v, paths).glob_status.contains_key(glob) ==> !reconciled(
            v,
            paths,
        ).glob_status[glob].contains(hash),
        (forall|h: Seq<char>|
            #[trigger] v.glob_status[glob].contains(h) ==> pair_retired(v, paths, h, glob))
            ==> unsub_set(v, paths).contains(glob),
{
    if forall|h: Seq<char>|
        #[trigger] v.glob_status[glob].contains(h) ==> pair_retired(v, paths, h, glob) {
        assert(!reconciled(v, paths).glob_status.contains_key(glob));
    }
}

/// A pattern a batch retires for a hash is not among the pending candidates
/// the hash is queried for afterwards, as long as the hash stays tracked.
pub proof fn lemma_retired_not_pending(
    v: IndexView,
    paths: Seq<Seq<char>>,
    hash: Seq<char>,
    glob: Seq<char>,
    candidates: Set<Seq<char>>,
)
    requires
        pair_retired(v, paths, hash, glob),
        reconciled(v, paths).hash_globs.contains_key(hash),
    ensures
        !query_spec(reconciled(v, paths), hash, candidates).contains(glob),
{
}

/// A batch none of whose paths matches any exclude pattern of `hash` leaves
/// the hash's entry exactly as it was.
pub proof fn lemma_no_exclude_match_no_retirement(
    v: IndexView,
    paths: Seq<Seq<char>>,
    hash: Seq<char>,
)
    requires
        index_inv(v),
        v.hash_globs.contains_key(hash),
        forall|f: Seq<char>, i: int|
            #[trigger] v.hash_globs[hash].exclude.contains(f) && 0 <= i < paths.len()
                ==> !glob_matches(f, #[trigger] paths[i]),
    ensures
        reconciled(v, paths).hash_globs.contains_key(hash),
        reconciled(v, paths).hash_globs[hash] == v.hash_globs[hash],
{
    let v2 = reconciled(v, paths);
    assert forall|g: Seq<char>| !pair_retired(v, paths, hash, g) by {
        if pair_retired(v, paths, hash, g) {
            let i = choose|i: int|
                0 <= i < paths.len() && #[trigger] glob_matches(g, paths[i]) && exists|
                    f: Seq<char>,
                |
                    #[trigger] v.hash_globs[hash].exclude.contains(f) && glob_matches(
                        f,
                        paths[i],
                    );
            let f = choose|f: Seq<char>|
                #[trigger] v.hash_globs[hash].exclude.contains(f) && glob_matches(f, paths[i]);
            assert(!glob_matches(f, paths[i]));
        }
    }
    assert(!v.hash_globs[hash].live.is_empty());
    assert(exists|g: Seq<char>| v.hash_globs[hash].live.contains(g)) by {
        if v.hash_globs[hash].live =~= Set::<Seq<char>>::empty() {
        }
    }
    let gw = choose|g: Seq<char>| v.hash_globs[hash].live.contains(g);
    assert(v.hash_globs[hash].live.contains(gw) && !pair_retired(v, paths, hash, gw));
    assert(v2.hash_globs.contains_key(hash));
    assert(v2.hash_globs[hash].live =~= v.hash_globs[hash].live);
    assert(v2.hash_globs[hash] =~= v.hash_globs[hash]);
}

/// A pattern no hash retires in a batch is not unsubscribed and stays in the
/// inverted index.
pub proof fn lemma_unsubscribe_only_on_retirement(
    v: IndexView,
    paths: Seq<Seq<char>>,
    glob: Seq<char>,
)
    requires
        index_inv(v),
        forall|h: Seq<char>| !pair_retired(v, paths, h, glob),
    ensures
        !unsub_set(v, paths).contains(glob),
        v.glob_status.contains_key(glob) ==> reconciled(v, paths).glob_status.contains_key(
            glob,
        ),
{
    if v.glob_status.contains_key(glob) {
        assert(!v.glob_status[glob].is_empty());
        assert(exists|h: Seq<char>| v.glob_status[glob].contains(h)) by {
            if v.glob_status[glob] =~= Set::<Seq<char>>::empty() {
            }
        }
        let h = choose|h: Seq<char>| v.glob_status[glob].contains(h);
        assert(v.glob_status[glob].contains(h) && !pair_retired(v, paths, h, glob));
    }
}

/// A pattern still watched by a hash the batch does not retire it for is not
/// unsubscribed from the event source: a pattern shared by two hashes stays
/// subscribed until both have retired it.
pub proof fn lemma_shared_pattern_kept(
    v: IndexView,
    paths: Seq<Seq<char>>,
    glob: Seq<char>,
    h2: Seq<char>,
)
    requires
        v.glob_status.contains_key(glob),
        v.glob_status[glob].contains(h2),
        !pair_retired(v, paths, h2, glob),
    ensures
        !unsub_set(v, paths).contains(glob),
        reconciled(v, paths).glob_status.contains_key(glob),
        reconciled(v, paths).glob_status[glob].contains(h2),
{
    assert(v.glob_status[glob].contains(h2) && !pair_retired(v, paths, h2, glob));
    assert(reconciled(v, paths).glob_status.contains_key(glob));
}

/// Registrations of distinct hashes commute: interleaved registration calls
/// for disjoint hashes reach the same index in either order.
pub proof fn lemma_register_commutes(
    v: IndexView,
    h1: Seq<char>,
    inc1: Set<Seq<char>>,
    exc1: Set<Seq<char>>,
    h2: Seq<char>,
    inc2: Set<Seq<char>>,
    exc2: Set<Seq<char>>,
)
    requires
        h1 != h2,
    ensures
        registered(registered(v, h1, inc1, exc1), h2, inc2, exc2) == registered(
            registered(v, h2, inc2, exc2),
            h1,
            inc1,
            exc1,
        ),
{
    let a = registered(registered(v, h1, inc1, exc1), h2, inc2, exc2);
    let b = registered(registered(v, h2, inc2, exc2), h1, inc1, exc1);
    assert(a.hash_globs =~= b.hash_globs);
    assert forall|g: Seq<char>| a.glob_status.contains_key(g) == b.glob_status.contains_key(
        g,
    ) by {}
    assert forall|g: Seq<char>| #[trigger] a.glob_status.contains_key(g) implies
        a.glob_status[g] =~= b.glob_status[g] by {}
    assert(a.glob_status =~= b.glob_status);
    assert(a =~~= b);
}

} // verus!
