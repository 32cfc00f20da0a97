use globwatcher::{HashGlobWatcher, SessionError, StrSet};

fn strset(items: &[&str]) -> StrSet {
    let mut s = StrSet::new();
    for it in items {
        s.insert((*it).to_owned());
    }
    s
}

fn batch(paths: &[&str]) -> Vec<String> {
    paths.iter().map(|p| (*p).to_owned()).collect()
}

fn assert_set_is(s: &StrSet, items: &[&str]) {
    assert!(s.set_eq(&strset(items)), "set does not hold exactly the expected strings");
}

#[test]
fn register_then_query_returns_candidates_in_live_set() {
    let mut w = HashGlobWatcher::new();
    w.register(&"h".to_owned(), &strset(&["a/*.js", "b/*.css"]), &strset(&[]));
    let r = w.query_pending(&"h".to_owned(), &strset(&["a/*.js", "c/*.md"]));
    assert_set_is(&r, &["a/*.js"]);
}

#[test]
fn query_unknown_hash_returns_candidates_unchanged() {
    let w = HashGlobWatcher::new();
    let r = w.query_pending(&"nope".to_owned(), &strset(&["a/*.js"]));
    assert_set_is(&r, &["a/*.js"]);
}

#[test]
fn retirement_on_exclude_match() {
    // The changed path matches both the live pattern and an exclude pattern,
    // so the association is retired and the pattern unsubscribed.
    let mut w = HashGlobWatcher::new();
    w.register(&"h".to_owned(), &strset(&["a/*.js"]), &strset(&["a/out.js"]));
    let unsubs = w.reconcile_batch(&batch(&["a/out.js"]));
    assert_set_is(&unsubs, &["a/*.js"]);
    // The live set emptied, so the hash entry is deleted and a query returns
    // the candidates unchanged (the hash is no longer tracked).
    let r = w.query_pending(&"h".to_owned(), &strset(&["a/*.js"]));
    assert_set_is(&r, &["a/*.js"]);
}

#[test]
fn no_retirement_when_no_exclude_matches() {
    // The changed path matches the live pattern but no exclude pattern:
    // nothing is retired.
    let mut w = HashGlobWatcher::new();
    w.register(&"h".to_owned(), &strset(&["a/*.js"]), &strset(&["a/out.js"]));
    let unsubs = w.reconcile_batch(&batch(&["a/other.js"]));
    assert!(unsubs.is_empty());
    let r = w.query_pending(&"h".to_owned(), &strset(&["a/*.js"]));
    assert_set_is(&r, &["a/*.js"]);
}

#[test]
fn no_retirement_when_path_matches_only_exclude() {
    // The changed path matches an exclude pattern but no pattern in the
    // inverted index: no association is selected, so nothing is retired.
    let mut w = HashGlobWatcher::new();
    w.register(&"h".to_owned(), &strset(&["dist/*.css"]), &strset(&["dist/build.log"]));
    let unsubs = w.reconcile_batch(&batch(&["dist/build.log"]));
    assert!(unsubs.is_empty());
    let r = w.query_pending(&"h".to_owned(), &strset(&["dist/*.css"]));
    assert_set_is(&r, &["dist/*.css"]);
}

#[test]
fn query_monotonic_while_tracked() {
    let mut w = HashGlobWatcher::new();
    w.register(
        &"h".to_owned(),
        &strset(&["dist/*.css", "src/*.ts"]),
        &strset(&["dist/*"]),
    );
    let r0 = w.query_pending(&"h".to_owned(), &strset(&["dist/*.css", "src/*.ts"]));
    assert_set_is(&r0, &["dist/*.css", "src/*.ts"]);
    // dist/app.css matches both the live pattern dist/*.css and the exclude
    // dist/*: that pattern is retired, the other stays.
    w.deliver(batch(&["dist/app.css"]));
    let r1 = w.changed_globs(&"h".to_owned(), &strset(&["dist/*.css", "src/*.ts"]));
    assert!(r1.is_subset_of(&r0));
    assert_set_is(&r1, &["src/*.ts"]);
    // The retired candidate alone now yields the empty set.
    let r2 = w.query_pending(&"h".to_owned(), &strset(&["dist/*.css"]));
    assert!(r2.is_empty());
}

#[test]
fn flush_reconciles_delivered_batches_before_returning() {
    let mut w = HashGlobWatcher::new();
    w.register(&"h".to_owned(), &strset(&["a/*.js"]), &strset(&["a/out.js"]));
    w.deliver(batch(&["a/out.js"]));
    // The change was delivered before the flush, so the flush reconciles it.
    let unsubs = w.flush();
    assert_set_is(&unsubs, &["a/*.js"]);
    let r = w.query_pending(&"h".to_owned(), &strset(&["a/*.js"]));
    assert_set_is(&r, &["a/*.js"]);
}

#[test]
fn changed_globs_observes_changes_delivered_before_the_call() {
    let mut w = HashGlobWatcher::new();
    w.register(
        &"h".to_owned(),
        &strset(&["dist/*.css", "src/*.ts"]),
        &strset(&["dist/*"]),
    );
    w.deliver(batch(&["dist/app.css"]));
    let r = w.changed_globs(&"h".to_owned(), &strset(&["dist/*.css"]));
    assert!(r.is_empty(), "the retirement delivered before the query must be visible");
}

#[test]
fn shared_pattern_not_unsubscribed_when_neither_hash_retires_it() {
    let mut w = HashGlobWatcher::new();
    w.register(&"h1".to_owned(), &strset(&["a/*.js"]), &strset(&["a/one.txt"]));
    w.register(&"h2".to_owned(), &strset(&["a/*.js"]), &strset(&["a/two.txt"]));
    // a/lib.js matches the shared pattern but no exclude of either hash.
    let unsubs = w.reconcile_batch(&batch(&["a/lib.js"]));
    assert!(unsubs.is_empty());
    assert_set_is(
        &w.query_pending(&"h1".to_owned(), &strset(&["a/*.js"])),
        &["a/*.js"],
    );
    assert_set_is(
        &w.query_pending(&"h2".to_owned(), &strset(&["a/*.js"])),
        &["a/*.js"],
    );
}

#[test]
fn shared_pattern_kept_until_both_hashes_retire_it() {
    let mut w = HashGlobWatcher::new();
    w.register(&"h1".to_owned(), &strset(&["a/*.js"]), &strset(&["a/*"]));
    w.register(&"h2".to_owned(), &strset(&["a/*.js"]), &strset(&["a/lib2.js"]));
    // a/lib.js matches the shared pattern and h1's exclude, but not h2's:
    // h1 retires the pattern, h2 still watches it, so no unsubscribe is sent.
    let unsubs = w.reconcile_batch(&batch(&["a/lib.js"]));
    assert!(unsubs.is_empty(), "a pattern h2 still watches stays subscribed");
    assert_set_is(
        &w.query_pending(&"h2".to_owned(), &strset(&["a/*.js"])),
        &["a/*.js"],
    );
    // Once h2, the last watcher, retires it too, it is unsubscribed.
    let unsubs2 = w.reconcile_batch(&batch(&["a/lib2.js"]));
    assert_set_is(&unsubs2, &["a/*.js"]);
}

#[test]
fn shared_pattern_unsubscribed_once_when_both_hashes_retire_it() {
    let mut w = HashGlobWatcher::new();
    w.register(&"h1".to_owned(), &strset(&["a/*.js"]), &strset(&["a/*.js"]));
    w.register(&"h2".to_owned(), &strset(&["a/*.js"]), &strset(&["a/*"]));
    let unsubs = w.reconcile_batch(&batch(&["a/lib.js"]));
    assert_set_is(&unsubs, &["a/*.js"]);
    assert_eq!(unsubs.len(), 1, "one unsubscribe command per pattern per batch");
}

#[test]
fn register_order_of_disjoint_hashes_does_not_matter() {
    let mut w1 = HashGlobWatcher::new();
    w1.register(&"h1".to_owned(), &strset(&["a/*.js"]), &strset(&["a/out.js"]));
    w1.register(&"h2".to_owned(), &strset(&["a/*.js", "b/*.rs"]), &strset(&[]));
    let mut w2 = HashGlobWatcher::new();
    w2.register(&"h2".to_owned(), &strset(&["a/*.js", "b/*.rs"]), &strset(&[]));
    w2.register(&"h1".to_owned(), &strset(&["a/*.js"]), &strset(&["a/out.js"]));
    for (hash, cands) in [("h1", vec!["a/*.js", "b/*.rs"]), ("h2", vec!["a/*.js", "b/*.rs"])] {
        let c = strset(&cands);
        let r1 = w1.query_pending(&hash.to_owned(), &c);
        let r2 = w2.query_pending(&hash.to_owned(), &c);
        assert!(r1.set_eq(&r2));
    }
}

#[test]
fn reregistration_replaces_live_set_but_keeps_stale_inverted_entries() {
    let mut w = HashGlobWatcher::new();
    w.register(&"h".to_owned(), &strset(&["a/*.js"]), &strset(&["a/*"]));
    w.register(&"h".to_owned(), &strset(&["b/*.rs"]), &strset(&["a/*"]));
    // The hash's own entry was replaced outright.
    let r = w.query_pending(&"h".to_owned(), &strset(&["a/*.js", "b/*.rs"]));
    assert_set_is(&r, &["b/*.rs"]);
    // The inverted index still lists the hash under the old pattern, so a
    // change matching the old pattern and an exclude still unsubscribes it.
    let unsubs = w.reconcile_batch(&batch(&["a/lib.js"]));
    assert_set_is(&unsubs, &["a/*.js"]);
    // The live set was untouched by that stale retirement.
    let r2 = w.query_pending(&"h".to_owned(), &strset(&["b/*.rs"]));
    assert_set_is(&r2, &["b/*.rs"]);
}

#[test]
fn register_with_empty_live_set_leaves_hash_untracked() {
    let mut w = HashGlobWatcher::new();
    w.register(&"h".to_owned(), &strset(&["a/*.js"]), &strset(&[]));
    w.register(&"h".to_owned(), &strset(&[]), &strset(&[]));
    // Untracked: candidates come back unchanged, even ones never registered.
    let r = w.query_pending(&"h".to_owned(), &strset(&["zzz"]));
    assert_set_is(&r, &["zzz"]);
}

#[test]
fn watch_returns_all_live_patterns_and_only_once() {
    let mut w = HashGlobWatcher::new();
    w.register(&"h1".to_owned(), &strset(&["a/*.js"]), &strset(&[]));
    w.register(&"h2".to_owned(), &strset(&["a/*.js", "b/*.rs"]), &strset(&[]));
    let pats = w.watch().expect("first session start succeeds");
    assert_set_is(&pats, &["a/*.js", "b/*.rs"]);
    match w.watch() {
        Err(SessionError::StreamConsumed) => {}
        Ok(_) => panic!("a second session start must be refused"),
    }
}

#[test]
fn end_to_end_scenario() {
    let mut w = HashGlobWatcher::new();
    let unsubs = w.watch_globs(
        &"h1".to_owned(),
        &strset(&["dist/*.css", "src/*.ts"]),
        &strset(&["dist/build.log", "dist/*"]),
    );
    assert!(unsubs.is_empty());
    w.deliver(batch(&["dist/app.css"]));
    let r = w.changed_globs(&"h1".to_owned(), &strset(&["dist/*.css"]));
    assert!(r.is_empty(), "the retired pattern is no longer pending");

    let _ = w.watch_globs(
        &"h2".to_owned(),
        &strset(&["dist/*.css"]),
        &strset(&[]),
    );
    w.deliver(batch(&["dist/app.css"]));
    let r2 = w.changed_globs(&"h2".to_owned(), &strset(&["dist/*.css"]));
    assert_set_is(&r2, &["dist/*.css"]);
}

#[test]
fn unsubscribe_accumulates_across_flushed_batches() {
    let mut w = HashGlobWatcher::new();
    w.register(&"h".to_owned(), &strset(&["a/*.js", "b/*.rs"]), &strset(&["a/*", "b/*"]));
    w.deliver(batch(&["a/x.js"]));
    w.deliver(batch(&["b/y.rs"]));
    let unsubs = w.flush();
    assert_set_is(&unsubs, &["a/*.js", "b/*.rs"]);
}
