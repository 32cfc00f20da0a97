use vstd::prelude::*;
use vstd::string::StrSliceExecFns;

verus! {

/// Whether `path` lies under `root`: it is the root itself, or starts with
/// the root text followed by a path separator.
pub open spec fn rooted(root: Seq<char>, path: Seq<char>) -> bool {
    ||| path == root
    ||| (path.len() > root.len() && path.subrange(0, root.len() as int) == root && path[
        root.len() as int
    ] == '/')
}

/// The tail of `path` after the root and its separator; the root itself is
/// expressed as the empty relative path.
pub open spec fn rel_of(root: Seq<char>, path: Seq<char>) -> Seq<char> {
    if path == root {
        Seq::empty()
    } else {
        path.subrange(root.len() + 1 as int, path.len() as int)
    }
}

/// Expresses `path` relative to `root`, or nothing when it lies outside the
/// root.
pub fn relative_to(root: &str, path: &str) -> (r: Option<String>)
    ensures
        rooted(root@, path@) ==> (r matches Some(rest) && rest@ == rel_of(root@, path@)),
        !rooted(root@, path@) ==> r is None,
{
    let rl = root.unicode_len();
    let pl = path.unicode_len();
    if pl < rl {
        return None;
    }
    let mut i: usize = 0;
    while i < rl
        invariant
            rl == root@.len(),
            pl == path@.len(),
            pl >= rl,
            i <= rl,
            forall|j: int| 0 <= j < i ==> path@[j] == root@[j],
        decreases rl - i,
    {
        if path.get_char(i) != root.get_char(i) {
            proof {
                if path@ == root@ {
                    assert(path@[i as int] == root@[i as int]);
                }
                if rooted(root@, path@) {
                    assert(path@.subrange(0, rl as int)[i as int] == path@[i as int]);
                }
            }
            return None;
        }
        i += 1;
    }
    if pl == rl {
        proof {
            assert(path@ =~= root@);
        }
        return Some(String::new());
    }
    proof {
        assert(path@.subrange(0, rl as int) =~= root@);
    }
    if path.get_char(rl) != '/' {
        return None;
    }
    let rest = path.substring_char(rl + 1, pl);
    Some(rest.to_owned())
}

/// A batch of absolute paths turned relative to the watched root, in order,
/// with paths outside the root discarded.
pub open spec fn relativized(root: Seq<char>, paths: Seq<Seq<char>>) -> Seq<Seq<char>>
    decreases paths.len(),
{
    if paths.len() == 0 {
        Seq::empty()
    } else {
        relativized(root, paths.drop_last()) + (if rooted(root, paths.last()) {
            seq![rel_of(root, paths.last())]
        } else {
            Seq::empty()
        })
    }
}

/// Converts a change batch of absolute paths to paths relative to the watched
/// root, discarding paths outside the root.
pub fn relativize_batch(root: &str, paths: &Vec<String>) -> (r: Vec<String>)
    ensures
        r.deep_view() == relativized(root@, paths.deep_view()),
{
    let mut r: Vec<String> = Vec::new();
    let n = paths.len();
    let mut i: usize = 0;
    while i < n
        invariant
            n == paths@.len(),
            i <= n,
            r.deep_view() == relativized(root@, paths.deep_view().take(i as int)),
        decreases n - i,
    {
        let ghost pre = r.deep_view();
        let ghost pv = paths.deep_view();
        match relative_to(root, paths[i].as_str()) {
            Some(rest) => {
                let ghost rv = rest@;
                r.push(rest);
                proof {
                    assert(r.deep_view() =~= pre.push(rv));
                }
            },
            None => {},
        }
        proof {
            assert(pv.take(i + 1).drop_last() =~= pv.take(i as int));
            assert(pv.take(i + 1).last() == pv[i as int]);
            if rooted(root@, pv[i as int]) {
                assert(r.deep_view() =~= relativized(root@, pv.take(i as int)) + seq![
                    rel_of(root@, pv[i as int]),
                ]);
            } else {
                assert(r.deep_view() =~= relativized(root@, pv.take(i as int))
                    + Seq::<Seq<char>>::empty());
            }
        }
        i += 1;
    }
    proof {
        assert(paths.deep_view().take(n as int) =~= paths.deep_view());
    }
    r
}

} // verus!
