//! The commit graph: ancestry, distances, and the merge base.
//!
//! A commit points to its parents. The empty id is a commit of its own,
//! without parents: it is the parent of every first commit, and so the
//! ancestor of every commit whose history is complete.

use crate::bytemap::ByteMap;
use crate::bytemap::ByteSet;
use crate::bytes::bytes_eq;
use crate::bytes::seq_views;
use crate::commit::CommitDataView;
use crate::commit::read_commit_data;
use crate::commit::stored_commit;
use crate::error::GitError;
use crate::object::ObjectStore;
use vstd::prelude::*;
use vstd::slice::slice_to_vec;

verus! {

/// The parents of the commit kept under `id`; none where no commit can be
/// read there.
pub open spec fn parents_of(store: Map<Seq<u8>, Seq<u8>>, id: Seq<u8>) -> Seq<Seq<u8>> {
    match stored_commit(store, id) {
        Ok(data) => data.parent_commits,
        Err(_) => Seq::empty(),
    }
}

/// Whether `parent` is a parent of `child`.
pub open spec fn is_parent(store: Map<Seq<u8>, Seq<u8>>, child: Seq<u8>, parent: Seq<u8>) -> bool {
    parents_of(store, child).contains(parent)
}

/// Whether `n` steps from a commit to a parent lead from `from` to `to`.
pub open spec fn reaches_in(
    store: Map<Seq<u8>, Seq<u8>>,
    from: Seq<u8>,
    to: Seq<u8>,
    n: nat,
) -> bool
    decreases n,
{
    if n == 0 {
        from == to
    } else {
        exists|mid: Seq<u8>|
            reaches_in(store, from, mid, (n - 1) as nat) && #[trigger] is_parent(store, mid, to)
    }
}

/// Whether some number of steps from a commit to a parent leads from `from`
/// to `to`.
pub open spec fn reaches(store: Map<Seq<u8>, Seq<u8>>, from: Seq<u8>, to: Seq<u8>) -> bool {
    exists|n: nat| reaches_in(store, from, to, n)
}

/// Whether `prev` is an ancestor of `post`: the empty id is an ancestor of
/// everything, and every other commit of itself and of what leads to it.
pub open spec fn is_ancestor(store: Map<Seq<u8>, Seq<u8>>, prev: Seq<u8>, post: Seq<u8>) -> bool {
    prev.len() == 0 || reaches(store, post, prev)
}

/// Whether every commit in the history of `tip` can be read.
pub open spec fn history_readable(store: Map<Seq<u8>, Seq<u8>>, tip: Seq<u8>) -> bool {
    forall|x: Seq<u8>| #[trigger] reaches(store, tip, x) ==> stored_commit(store, x) is Ok
}

/// Whether `e` is the error of a commit in the history of `tip` which
/// cannot be read.
pub open spec fn is_history_error(store: Map<Seq<u8>, Seq<u8>>, tip: Seq<u8>, e: GitError) -> bool {
    exists|x: Seq<u8>|
        #[trigger] reaches(store, tip, x) && stored_commit(store, x) == Err::<
            CommitDataView,
            GitError,
        >(e)
}

/// Whether the commit `x` can be read and has all its parents, but for the
/// empty id, in `s`.
pub open spec fn node_closed(store: Map<Seq<u8>, Seq<u8>>, x: Seq<u8>, s: Set<Seq<u8>>) -> bool {
    &&& stored_commit(store, x) is Ok
    &&& forall|p: Seq<u8>| #[trigger] is_parent(store, x, p) ==> p.len() == 0 || s.contains(p)
}

/// A step from `a` to its parent `b`, then `n` steps to `c`, are `n + 1`
/// steps from `a` to `c`.
pub proof fn lemma_reaches_prepend(
    store: Map<Seq<u8>, Seq<u8>>,
    a: Seq<u8>,
    b: Seq<u8>,
    c: Seq<u8>,
    n: nat,
)
    requires
        is_parent(store, a, b),
        reaches_in(store, b, c, n),
    ensures
        reaches_in(store, a, c, n + 1),
    decreases n,
{
    if n == 0 {
        assert(reaches_in(store, a, a, 0));
        assert(is_parent(store, a, c));
    } else {
        let mid = choose|mid: Seq<u8>|
            reaches_in(store, b, mid, (n - 1) as nat) && #[trigger] is_parent(store, mid, c);
        lemma_reaches_prepend(store, a, b, mid, (n - 1) as nat);
        assert(is_parent(store, mid, c));
    }
}

/// The empty id has no parents.
pub proof fn lemma_empty_id_has_no_parent(store: Map<Seq<u8>, Seq<u8>>, id: Seq<u8>, p: Seq<u8>)
    requires
        id.len() == 0,
    ensures
        !is_parent(store, id, p),
{
}

/// A set in which every commit has its parents, and which holds `post`,
/// holds all that `post` leads to, but for the empty id.
pub proof fn lemma_closed_set(
    store: Map<Seq<u8>, Seq<u8>>,
    s: Set<Seq<u8>>,
    post: Seq<u8>,
    x: Seq<u8>,
    n: nat,
)
    requires
        forall|y: Seq<u8>| s.contains(y) ==> #[trigger] node_closed(store, y, s),
        post.len() == 0 || s.contains(post),
        reaches_in(store, post, x, n),
    ensures
        x.len() == 0 || s.contains(x),
    decreases n,
{
    if n > 0 {
        let mid = choose|mid: Seq<u8>|
            reaches_in(store, post, mid, (n - 1) as nat) && #[trigger] is_parent(store, mid, x);
        lemma_closed_set(store, s, post, mid, (n - 1) as nat);
        if mid.len() == 0 {
            lemma_empty_id_has_no_parent(store, mid, x);
        } else {
            assert(node_closed(store, mid, s));
        }
    }
}

/// The search behind `is_prev_commit`: from `post` towards the parents,
/// passing over the commits in `searched_commits`, which grows by every
/// commit that the search looks into. What is found is an ancestor; where
/// nothing is found, every commit that the search looked into has its
/// parents among the commits passed over or looked into.
#[verifier::rlimit(40)]
pub fn is_prev_commit_search(
    store: &ObjectStore,
    prev_commit_hash: &[u8],
    post_commit_hash: &[u8],
    searched_commits: &mut ByteSet,
) -> (r: Result<bool, GitError>)
    requires
        store.wf(),
        old(searched_commits).wf(),
    ensures
        final(searched_commits).wf(),
        old(searched_commits)@.subset_of(final(searched_commits)@),
        final(searched_commits)@.contains(prev_commit_hash@) == old(searched_commits)@.contains(
            prev_commit_hash@,
        ),
        match r {
            Ok(found) => if found {
                is_ancestor(store@, prev_commit_hash@, post_commit_hash@)
            } else {
                &&& prev_commit_hash@.len() > 0
                &&& prev_commit_hash@ != post_commit_hash@
                &&& post_commit_hash@.len() == 0 || final(searched_commits)@.contains(
                    post_commit_hash@,
                )
                &&& forall|x: Seq<u8>|
                    final(searched_commits)@.contains(x) && !old(searched_commits)@.contains(x)
                        ==> #[trigger] node_closed(store@, x, final(searched_commits)@)
            },
            Err(e) => exists|x: Seq<u8>|
                #[trigger] reaches(store@, post_commit_hash@, x) && stored_commit(store@, x)
                    == Err::<CommitDataView, GitError>(e),
        },
        prev_commit_hash@ == post_commit_hash@ || prev_commit_hash@.len() == 0 ==> r == Ok::<
            bool,
            GitError,
        >(true),
    decreases store@.dom().difference(old(searched_commits)@).len(),
{
    let ghost entry = searched_commits@;
    let ghost all = store@.dom();
    proof {
        store.files.lemma_view();
    }
    if bytes_eq(prev_commit_hash, post_commit_hash) {
        proof {
            assert(reaches_in(store@, post_commit_hash@, prev_commit_hash@, 0));
        }
        return Ok(true);
    } else if prev_commit_hash.len() == 0 {
        return Ok(true);
    } else if post_commit_hash.len() == 0 {
        return Ok(false);
    }
    if searched_commits.contains(post_commit_hash) {
        return Ok(false);
    }
    let data = match read_commit_data(store, post_commit_hash) {
        Ok(data) => data,
        Err(e) => {
            proof {
                assert(reaches_in(store@, post_commit_hash@, post_commit_hash@, 0));
                assert(reaches(store@, post_commit_hash@, post_commit_hash@));
            }
            return Err(e);
        },
    };
    searched_commits.insert(slice_to_vec(post_commit_hash));
    let ghost parents = seq_views(data.parent_commits@);
    proof {
        assert(parents == parents_of(store@, post_commit_hash@));
        assert(all.contains(post_commit_hash@));
        assert(all.difference(entry).contains(post_commit_hash@));
        assert(all.difference(searched_commits@) =~= all.difference(entry).remove(
            post_commit_hash@,
        ));
    }
    let mut k: usize = 0;
    while k < data.parent_commits.len()
        invariant
            store.wf(),
            searched_commits.wf(),
            entry == old(searched_commits)@,
            k <= data.parent_commits@.len(),
            parents == seq_views(data.parent_commits@),
            parents == parents_of(store@, post_commit_hash@),
            stored_commit(store@, post_commit_hash@) is Ok,
            prev_commit_hash@.len() > 0,
            prev_commit_hash@ != post_commit_hash@,
            entry.insert(post_commit_hash@).subset_of(searched_commits@),
            !entry.contains(post_commit_hash@),
            all == store@.dom(),
            all.finite(),
            all.difference(searched_commits@).len() < all.difference(entry).len(),
            searched_commits@.contains(prev_commit_hash@) == entry.contains(prev_commit_hash@),
            forall|j: int| 0 <= j < k ==> (#[trigger] parents[j]).len() == 0
                || searched_commits@.contains(parents[j]),
            forall|x: Seq<u8>|
                searched_commits@.contains(x) && !entry.contains(x) && x != post_commit_hash@
                    ==> #[trigger] node_closed(store@, x, searched_commits@),
        decreases data.parent_commits@.len() - k,
    {
        let ghost before = searched_commits@;
        let parent = &data.parent_commits[k];
        proof {
            assert(parents[k as int] == parent@);
            assert(is_parent(store@, post_commit_hash@, parent@));
        }
        let r = is_prev_commit_search(store, prev_commit_hash, parent.as_slice(), searched_commits);
        proof {
            vstd::set_lib::lemma_len_subset(
                all.difference(searched_commits@),
                all.difference(before),
            );
        }
        match r {
            Err(e) => {
                proof {
                    let x = choose|x: Seq<u8>|
                        #[trigger] reaches(store@, parent@, x) && stored_commit(store@, x) == Err::<
                            CommitDataView,
                            GitError,
                        >(e);
                    let n = choose|n: nat| reaches_in(store@, parent@, x, n);
                    lemma_reaches_prepend(store@, post_commit_hash@, parent@, x, n);
                    assert(reaches(store@, post_commit_hash@, x));
                }
                return Err(e);
            },
            Ok(found) => {
                if found {
                    proof {
                        let n = choose|n: nat| reaches_in(store@, parent@, prev_commit_hash@, n);
                        lemma_reaches_prepend(
                            store@,
                            post_commit_hash@,
                            parent@,
                            prev_commit_hash@,
                            n,
                        );
                        assert(reaches(store@, post_commit_hash@, prev_commit_hash@));
                    }
                    return Ok(true);
                }
                proof {
                    let after = searched_commits@;
                    assert forall|x: Seq<u8>|
                        after.contains(x) && !entry.contains(x) && x
                            != post_commit_hash@ implies #[trigger] node_closed(
                        store@,
                        x,
                        after,
                    ) by {
                        if before.contains(x) {
                            assert(node_closed(store@, x, before));
                            assert forall|p: Seq<u8>| #[trigger]
                                is_parent(store@, x, p) implies p.len() == 0 || after.contains(
                                p,
                            ) by {
                                assert(p.len() == 0 || before.contains(p));
                            }
                        }
                    }
                    assert forall|j: int| 0 <= j < k + 1 implies (#[trigger] parents[j]).len() == 0
                        || after.contains(parents[j]) by {
                        if j < k {
                            assert(parents[j].len() == 0 || before.contains(parents[j]));
                        }
                    }
                }
            },
        }
        k += 1;
    }
    proof {
        let after = searched_commits@;
        assert(node_closed(store@, post_commit_hash@, after)) by {
            assert forall|p: Seq<u8>| #[trigger]
                is_parent(store@, post_commit_hash@, p) implies p.len() == 0 || after.contains(
                p,
            ) by {
                let j = choose|j: int| 0 <= j < parents.len() && parents[j] == p;
                assert(parents[j].len() == 0 || after.contains(parents[j]));
            }
        }
    }
    Ok(false)
}

/// Whether `prev_commit_hash` is an ancestor of `post_commit_hash`.
///
/// A commit is its own ancestor, and the empty id is an ancestor of every
/// commit, whatever the store holds. Else the answer is owed wherever the
/// history of `post_commit_hash` can be read; an error is that of a commit
/// in that history which cannot. The answer is no only where the whole
/// of that history was read.
pub fn is_prev_commit(store: &ObjectStore, prev_commit_hash: &[u8], post_commit_hash: &[u8]) -> (r:
    Result<bool, GitError>)
    requires
        store.wf(),
    ensures
        match r {
            Ok(found) => found == is_ancestor(store@, prev_commit_hash@, post_commit_hash@),
            Err(e) => is_history_error(store@, post_commit_hash@, e),
        },
        history_readable(store@, post_commit_hash@) ==> r is Ok,
        r == Ok::<bool, GitError>(false) ==> history_readable(store@, post_commit_hash@),
        prev_commit_hash@ == post_commit_hash@ || prev_commit_hash@.len() == 0 ==> r == Ok::<
            bool,
            GitError,
        >(true),
{
    let mut searched_commits = ByteSet::new();
    let r = is_prev_commit_search(store, prev_commit_hash, post_commit_hash, &mut searched_commits);
    proof {
        if r == Ok::<bool, GitError>(false) {
            let s = searched_commits@;
            if reaches(store@, post_commit_hash@, prev_commit_hash@) {
                let n = choose|n: nat| reaches_in(store@, post_commit_hash@, prev_commit_hash@, n);
                lemma_closed_set(store@, s, post_commit_hash@, prev_commit_hash@, n);
            }
            assert forall|x: Seq<u8>| #[trigger]
                reaches(store@, post_commit_hash@, x) implies stored_commit(store@, x) is Ok by {
                let n = choose|n: nat| reaches_in(store@, post_commit_hash@, x, n);
                lemma_closed_set(store@, s, post_commit_hash@, x, n);
                if x.len() > 0 {
                    assert(node_closed(store@, x, s));
                }
            }
        }
    }
    r
}

/// Whether `d` is the least number of steps that lead from `from` to `to`.
pub open spec fn is_depth(store: Map<Seq<u8>, Seq<u8>>, from: Seq<u8>, to: Seq<u8>, d: nat) -> bool {
    &&& reaches_in(store, from, to, d)
    &&& forall|m: nat| m < d ==> !reaches_in(store, from, to, m)
}

/// The least number of steps that lead from `from` to `to`, where some do.
pub open spec fn depth_of(store: Map<Seq<u8>, Seq<u8>>, from: Seq<u8>, to: Seq<u8>) -> nat {
    choose|d: nat| is_depth(store, from, to, d)
}

/// There is one least number of steps at most.
pub proof fn lemma_depth_unique(
    store: Map<Seq<u8>, Seq<u8>>,
    from: Seq<u8>,
    to: Seq<u8>,
    d: nat,
)
    requires
        is_depth(store, from, to, d),
    ensures
        depth_of(store, from, to) == d,
{
    let e = depth_of(store, from, to);
    assert(is_depth(store, from, to, e));
    if e < d {
        assert(!reaches_in(store, from, to, e));
    } else if d < e {
        assert(!reaches_in(store, from, to, d));
    }
}

/// Every distance in `dis` is the least number of steps from `start`, and
/// none is above `bound`.
pub open spec fn distances_sound(
    store: Map<Seq<u8>, Seq<u8>>,
    start: Seq<u8>,
    dis: Map<Seq<u8>, u128>,
    bound: nat,
) -> bool {
    forall|x: Seq<u8>| #[trigger]
        dis.contains_key(x) ==> is_depth(store, start, x, dis[x] as nat) && dis[x] <= bound
}

/// Every commit within `d` steps from `start` has a distance in `dis`.
pub open spec fn distances_complete(
    store: Map<Seq<u8>, Seq<u8>>,
    start: Seq<u8>,
    dis: Map<Seq<u8>, u128>,
    d: nat,
) -> bool {
    forall|x: Seq<u8>, n: nat|
        n <= d && #[trigger] reaches_in(store, start, x, n) ==> dis.contains_key(x)
}

/// `level` lists the commits at distance `d`.
pub open spec fn is_level(dis: Map<Seq<u8>, u128>, level: Seq<Seq<u8>>, d: nat) -> bool {
    &&& forall|x: Seq<u8>| #[trigger] dis.contains_key(x) && dis[x] == d ==> level.contains(x)
    &&& forall|j: int| 0 <= j < level.len() ==> dis.contains_key(#[trigger] level[j]) && dis[level[j]] == d
    &&& level.no_duplicates()
}

/// Every parent of `x` has a distance in `dis`.
pub open spec fn parents_found(
    store: Map<Seq<u8>, Seq<u8>>,
    dis: Map<Seq<u8>, u128>,
    x: Seq<u8>,
) -> bool {
    forall|p: Seq<u8>| #[trigger] is_parent(store, x, p) ==> dis.contains_key(p)
}

/// `new` holds what `old` holds, with the same distances.
pub open spec fn distances_extend(old: Map<Seq<u8>, u128>, new: Map<Seq<u8>, u128>) -> bool {
    forall|x: Seq<u8>| #[trigger] old.contains_key(x) ==> new.contains_key(x) && new[x] == old[x]
}

/// The commits of `dis` within `d` steps.
pub open spec fn within(dis: Map<Seq<u8>, u128>, d: nat) -> Set<Seq<u8>> {
    Set::new(|x: Seq<u8>| dis.contains_key(x) && dis[x] <= d)
}

/// `found`, then those of `parents`, in order, that are neither in `seen`
/// nor found before.
pub open spec fn with_new(
    seen: Set<Seq<u8>>,
    found: Seq<Seq<u8>>,
    parents: Seq<Seq<u8>>,
) -> Seq<Seq<u8>>
    decreases parents.len(),
{
    if parents.len() == 0 {
        found
    } else {
        let before = with_new(seen, found, parents.drop_last());
        if seen.contains(parents.last()) || before.contains(parents.last()) {
            before
        } else {
            before.push(parents.last())
        }
    }
}

/// What a breadth-first search that has come upon the commits `seen` finds
/// when it looks into the commits `level` in order: the parents of the
/// first in the order in which that commit lists them, then those of the
/// second, each commit once.
pub open spec fn level_after(
    store: Map<Seq<u8>, Seq<u8>>,
    seen: Set<Seq<u8>>,
    level: Seq<Seq<u8>>,
) -> Seq<Seq<u8>>
    decreases level.len(),
{
    if level.len() == 0 {
        Seq::empty()
    } else {
        with_new(
            seen,
            level_after(store, seen, level.drop_last()),
            parents_of(store, level.last()),
        )
    }
}

/// The commits at `k` steps from `start`, in the order in which a
/// breadth-first search from `start` comes upon them.
pub open spec fn bfs_level(store: Map<Seq<u8>, Seq<u8>>, start: Seq<u8>, k: nat) -> Seq<Seq<u8>>
    decreases k, 0nat,
{
    if k == 0 {
        seq![start]
    } else {
        level_after(
            store,
            bfs_seen(store, start, (k - 1) as nat),
            bfs_level(store, start, (k - 1) as nat),
        )
    }
}

/// The commits within `k` steps from `start`.
pub open spec fn bfs_seen(store: Map<Seq<u8>, Seq<u8>>, start: Seq<u8>, k: nat) -> Set<Seq<u8>>
    decreases k, 1nat,
{
    if k == 0 {
        set![start]
    } else {
        bfs_seen(store, start, (k - 1) as nat).union(bfs_level(store, start, k).to_set())
    }
}

/// Whether `levels` lists the commits at each number of steps from `start`
/// in the order of a breadth-first search, up to the first number of steps
/// at which there is none.
pub open spec fn are_bfs_levels(
    store: Map<Seq<u8>, Seq<u8>>,
    start: Seq<u8>,
    levels: Seq<Vec<Vec<u8>>>,
) -> bool {
    &&& forall|k: int|
        0 <= k < levels.len() ==> seq_views((#[trigger] levels[k])@) == bfs_level(
            store,
            start,
            k as nat,
        )
    &&& bfs_level(store, start, levels.len()).len() == 0
}

/// Once the parents of every commit at distance `d` have a distance, every
/// commit within `d + 1` steps has one.
proof fn lemma_level_complete(
    store: Map<Seq<u8>, Seq<u8>>,
    start: Seq<u8>,
    dis: Map<Seq<u8>, u128>,
    level: Seq<Seq<u8>>,
    d: nat,
)
    requires
        distances_sound(store, start, dis, d + 1),
        distances_complete(store, start, dis, d),
        is_level(dis, level, d),
        forall|j: int| 0 <= j < level.len() ==> parents_found(store, dis, #[trigger] level[j]),
    ensures
        distances_complete(store, start, dis, d + 1),
{
    assert forall|x: Seq<u8>, n: nat|
        n <= d + 1 && #[trigger] reaches_in(store, start, x, n) implies dis.contains_key(x) by {
        if n == d + 1 {
            let mid = choose|mid: Seq<u8>|
                reaches_in(store, start, mid, (n - 1) as nat) && #[trigger] is_parent(
                    store,
                    mid,
                    x,
                );
            assert(reaches_in(store, start, mid, d));
            assert(dis.contains_key(mid));
            let dm = dis[mid] as nat;
            assert(is_depth(store, start, mid, dm));
            if dm > d {
                assert(!reaches_in(store, start, mid, d));
            } else if dm == d {
                assert(level.contains(mid));
                let j = choose|j: int| 0 <= j < level.len() && level[j] == mid;
                assert(parents_found(store, dis, level[j]));
            } else {
                assert(is_parent(store, mid, x));
                assert(reaches_in(store, start, x, dm + 1));
            }
        }
    }
}

/// Once no commit is at distance `d`, every commit that `start` leads to
/// has a distance below `d`.
proof fn lemma_search_exhausted(
    store: Map<Seq<u8>, Seq<u8>>,
    start: Seq<u8>,
    dis: Map<Seq<u8>, u128>,
    d: nat,
    x: Seq<u8>,
    n: nat,
)
    requires
        distances_sound(store, start, dis, d),
        distances_complete(store, start, dis, d),
        forall|y: Seq<u8>| #[trigger] dis.contains_key(y) ==> dis[y] != d,
        dis.contains_key(start),
        reaches_in(store, start, x, n),
    ensures
        dis.contains_key(x),
        dis[x] < d,
    decreases n,
{
    if n == 0 {
    } else {
        let mid = choose|mid: Seq<u8>|
            reaches_in(store, start, mid, (n - 1) as nat) && #[trigger] is_parent(store, mid, x);
        lemma_search_exhausted(store, start, dis, d, mid, (n - 1) as nat);
        let dm = dis[mid] as nat;
        assert(is_depth(store, start, mid, dm));
        assert(is_parent(store, mid, x));
        assert(reaches_in(store, start, x, dm + 1));
    }
}

/// Gives each parent in `parents`, the parents of `node`, the distance
/// `d + 1` and a place in `next`, unless it has a distance already.
#[verifier::rlimit(40)]
fn discover_parents(
    store: &ObjectStore,
    start: &[u8],
    node: &[u8],
    parents: &Vec<Vec<u8>>,
    d: u128,
    dis: &mut ByteMap<u128>,
    next: &mut Vec<Vec<u8>>,
)
    requires
        old(dis).wf(),
        d < u128::MAX,
        seq_views(parents@) == parents_of(store@, node@),
        old(dis)@.contains_key(node@),
        old(dis)@[node@] == d,
        distances_sound(store@, start@, old(dis)@, (d + 1) as nat),
        distances_complete(store@, start@, old(dis)@, d as nat),
        is_level(old(dis)@, seq_views(old(next)@), (d + 1) as nat),
    ensures
        final(dis).wf(),
        distances_extend(old(dis)@, final(dis)@),
        distances_sound(store@, start@, final(dis)@, (d + 1) as nat),
        is_level(final(dis)@, seq_views(final(next)@), (d + 1) as nat),
        parents_found(store@, final(dis)@, node@),
        forall|x: Seq<u8>| #[trigger]
            final(dis)@.contains_key(x) && !old(dis)@.contains_key(x) ==> final(dis)@[x] == d + 1,
        seq_views(final(next)@) == with_new(
            within(old(dis)@, d as nat),
            seq_views(old(next)@),
            seq_views(parents@),
        ),
{
    let ghost all = seq_views(parents@);
    let ghost seen = within(old(dis)@, d as nat);
    let ghost found = seq_views(old(next)@);
    let mut k: usize = 0;
    proof {
        assert(all.take(0).len() == 0);
    }
    while k < parents.len()
        invariant
            seen == within(old(dis)@, d as nat),
            found == seq_views(old(next)@),
            seq_views(next@) == with_new(seen, found, all.take(k as int)),
            dis.wf(),
            k <= parents@.len(),
            d < u128::MAX,
            all == seq_views(parents@),
            all == parents_of(store@, node@),
            dis@.contains_key(node@),
            dis@[node@] == d,
            distances_extend(old(dis)@, dis@),
            distances_sound(store@, start@, dis@, (d + 1) as nat),
            distances_complete(store@, start@, old(dis)@, d as nat),
            is_level(dis@, seq_views(next@), (d + 1) as nat),
            forall|j: int| 0 <= j < k ==> dis@.contains_key(#[trigger] all[j]),
            forall|x: Seq<u8>| #[trigger]
                dis@.contains_key(x) && !old(dis)@.contains_key(x) ==> dis@[x] == d + 1,
        decreases parents@.len() - k,
    {
        let parent = &parents[k];
        proof {
            assert(all[k as int] == parent@);
            assert(is_parent(store@, node@, parent@));
            assert(all.take(k + 1).drop_last() =~= all.take(k as int));
            assert(all.take(k + 1).last() == parent@);
            let cur = seq_views(next@);
            if dis@.contains_key(parent@) {
                if dis@[parent@] <= d {
                    if !old(dis)@.contains_key(parent@) {
                        assert(dis@[parent@] == d + 1);
                    }
                    assert(seen.contains(parent@));
                } else {
                    assert(cur.contains(parent@));
                }
            } else {
                if cur.contains(parent@) {
                    let j = choose|j: int| 0 <= j < cur.len() && cur[j] == parent@;
                    assert(dis@.contains_key(cur[j]));
                }
                if seen.contains(parent@) {
                    assert(old(dis)@.contains_key(parent@));
                }
            }
        }
        if !dis.contains_key(parent.as_slice()) {
            let ghost before = dis@;
            let ghost level = seq_views(next@);
            let ghost pushed = next@;
            dis.insert(parent.clone(), d + 1);
            next.push(parent.clone());
            proof {
                let p = parent@;
                crate::bytes::lemma_seq_views_push(pushed, *parent);
                let new_level = seq_views(next@);
                assert(new_level =~= level.push(p));
                assert(is_depth(store@, start@, node@, d as nat));
                assert(reaches_in(store@, start@, p, (d + 1) as nat));
                assert forall|m: nat| m < d + 1 implies !reaches_in(store@, start@, p, m) by {
                    if reaches_in(store@, start@, p, m) {
                        assert(old(dis)@.contains_key(p));
                    }
                }
                assert forall|x: Seq<u8>| #[trigger] dis@.contains_key(x) && dis@[x] == d
                    + 1 implies new_level.contains(x) by {
                    if x == p {
                        assert(new_level[level.len() as int] == p);
                    } else {
                        assert(level.contains(x));
                        let j = choose|j: int| 0 <= j < level.len() && level[j] == x;
                        assert(new_level[j] == x);
                    }
                }
                assert forall|j: int| 0 <= j < new_level.len() implies dis@.contains_key(
                    #[trigger] new_level[j],
                ) && dis@[new_level[j]] == d + 1 by {
                    if j < level.len() {
                        assert(new_level[j] == level[j]);
                    }
                }
                assert forall|a: int, b: int|
                    0 <= a < new_level.len() && 0 <= b < new_level.len() && a
                        != b implies new_level[a] != new_level[b] by {
                    if a < level.len() && b < level.len() {
                        assert(level[a] != level[b]);
                    } else if a < level.len() {
                        assert(before.contains_key(level[a]));
                    } else if b < level.len() {
                        assert(before.contains_key(level[b]));
                    }
                }
            }
        }
        k += 1;
    }
    proof {
        assert forall|p: Seq<u8>| #[trigger] is_parent(store@, node@, p) implies dis@.contains_key(
            p,
        ) by {
            let j = choose|j: int| 0 <= j < all.len() && all[j] == p;
            assert(dis@.contains_key(all[j]));
        }
        assert(all.take(parents@.len() as int) =~= all);
    }
}

/// Looks into every commit of `level`, the commits at distance `d`, and
/// returns the commits at distance `d + 1`.
#[verifier::rlimit(40)]
fn expand_level(
    store: &ObjectStore,
    start: &[u8],
    level: &Vec<Vec<u8>>,
    d: u128,
    dis: &mut ByteMap<u128>,
) -> (r: Result<Vec<Vec<u8>>, GitError>)
    requires
        store.wf(),
        old(dis).wf(),
        d < u128::MAX,
        distances_sound(store@, start@, old(dis)@, d as nat),
        distances_complete(store@, start@, old(dis)@, d as nat),
        is_level(old(dis)@, seq_views(level@), d as nat),
    ensures
        final(dis).wf(),
        match r {
            Ok(next) => {
                &&& distances_extend(old(dis)@, final(dis)@)
                &&& distances_sound(store@, start@, final(dis)@, (d + 1) as nat)
                &&& distances_complete(store@, start@, final(dis)@, (d + 1) as nat)
                &&& is_level(final(dis)@, seq_views(next@), (d + 1) as nat)
                &&& forall|j: int|
                    0 <= j < level@.len() ==> stored_commit(store@, #[trigger] level@[j]@) is Ok
                &&& forall|x: Seq<u8>| #[trigger]
                    final(dis)@.contains_key(x) && !old(dis)@.contains_key(x) ==> final(dis)@[x]
                        == d + 1
                &&& seq_views(next@) == level_after(
                    store@,
                    within(old(dis)@, d as nat),
                    seq_views(level@),
                )
            },
            Err(e) => exists|x: Seq<u8>|
                #[trigger] reaches(store@, start@, x) && stored_commit(store@, x) == Err::<
                    CommitDataView,
                    GitError,
                >(e),
        },
{
    let mut next: Vec<Vec<u8>> = Vec::new();
    let ghost lv = seq_views(level@);
    let ghost seen = within(old(dis)@, d as nat);
    let mut i: usize = 0;
    proof {
        assert(seq_views(next@) =~= Seq::<Seq<u8>>::empty());
        assert(lv.take(0).len() == 0);
    }
    while i < level.len()
        invariant
            seen == within(old(dis)@, d as nat),
            seq_views(next@) == level_after(store@, seen, lv.take(i as int)),
            store.wf(),
            dis.wf(),
            d < u128::MAX,
            i <= level@.len(),
            lv == seq_views(level@),
            distances_extend(old(dis)@, dis@),
            distances_sound(store@, start@, dis@, (d + 1) as nat),
            distances_complete(store@, start@, old(dis)@, d as nat),
            is_level(old(dis)@, lv, d as nat),
            is_level(dis@, seq_views(next@), (d + 1) as nat),
            forall|j: int| 0 <= j < i ==> parents_found(store@, dis@, #[trigger] lv[j]),
            forall|j: int| 0 <= j < i ==> stored_commit(store@, #[trigger] level@[j]@) is Ok,
            forall|x: Seq<u8>| #[trigger]
                dis@.contains_key(x) && !old(dis)@.contains_key(x) ==> dis@[x] == d + 1,
        decreases level@.len() - i,
    {
        let node = &level[i];
        let ghost before = dis@;
        proof {
            assert(lv[i as int] == node@);
            assert(old(dis)@.contains_key(lv[i as int]));
            assert(dis@.contains_key(node@));
            assert(is_depth(store@, start@, node@, d as nat));
        }
        let data = match read_commit_data(store, node.as_slice()) {
            Ok(data) => data,
            Err(e) => {
                proof {
                    assert(reaches(store@, start@, node@));
                }
                return Err(e);
            },
        };
        proof {
            assert(distances_complete(store@, start@, dis@, d as nat)) by {
                assert forall|x: Seq<u8>, n: nat|
                    n <= d && #[trigger] reaches_in(store@, start@, x, n) implies dis@.contains_key(
                    x,
                ) by {
                    assert(old(dis)@.contains_key(x));
                }
            }
        }
        proof {
            assert(lv.take(i + 1).drop_last() =~= lv.take(i as int));
            assert(lv.take(i + 1).last() == node@);
            assert(within(before, d as nat) =~= seen) by {
                assert forall|x: Seq<u8>| within(before, d as nat).contains(x) implies seen.contains(
                    x,
                ) by {
                    if !old(dis)@.contains_key(x) {
                        assert(before[x] == d + 1);
                    }
                }
                assert forall|x: Seq<u8>| seen.contains(x) implies within(
                    before,
                    d as nat,
                ).contains(x) by {
                    assert(old(dis)@.contains_key(x));
                }
            }
        }
        discover_parents(store, start, node.as_slice(), &data.parent_commits, d, dis, &mut next);
        proof {
            let after = dis@;
            assert forall|x: Seq<u8>| #[trigger] old(dis)@.contains_key(x) implies after.contains_key(
                x,
            ) && after[x] == old(dis)@[x] by {
                assert(before.contains_key(x));
            }
            assert forall|j: int| 0 <= j < i + 1 implies parents_found(
                store@,
                after,
                #[trigger] lv[j],
            ) by {
                if j < i {
                    assert(parents_found(store@, before, lv[j]));
                    assert forall|p: Seq<u8>| #[trigger]
                        is_parent(store@, lv[j], p) implies after.contains_key(p) by {
                        assert(before.contains_key(p));
                    }
                }
            }
            assert forall|x: Seq<u8>| #[trigger]
                after.contains_key(x) && !old(dis)@.contains_key(x) implies after[x] == d + 1 by {
                if before.contains_key(x) {
                    assert(before[x] == d + 1);
                }
            }
        }
        i += 1;
    }
    proof {
        let after = dis@;
        assert(is_level(after, lv, d as nat)) by {
            assert forall|x: Seq<u8>| #[trigger] after.contains_key(x) && after[x]
                == d implies lv.contains(x) by {
                if !old(dis)@.contains_key(x) {
                    assert(after[x] == d + 1);
                }
            }
            assert forall|j: int| 0 <= j < lv.len() implies after.contains_key(#[trigger] lv[j])
                && after[lv[j]] == d by {
                assert(old(dis)@.contains_key(lv[j]));
            }
        }
        assert(distances_complete(store@, start@, after, d as nat)) by {
            assert forall|x: Seq<u8>, n: nat|
                n <= d && #[trigger] reaches_in(store@, start@, x, n) implies after.contains_key(
                x,
            ) by {
                assert(old(dis)@.contains_key(x));
            }
        }
        lemma_level_complete(store@, start@, after, lv, d as nat);
        assert(lv.take(level@.len() as int) =~= lv);
    }
    Ok(next)
}

/// What `get_parent_commit_dis` returns where the history of `start` can be
/// read: the commits that `start` leads to, each with the least number of
/// steps that lead to it.
pub open spec fn is_distance_map(
    store: Map<Seq<u8>, Seq<u8>>,
    start: Seq<u8>,
    dis: Map<Seq<u8>, u128>,
) -> bool {
    &&& forall|x: Seq<u8>| #[trigger] dis.contains_key(x) <==> reaches(store, start, x)
    &&& forall|x: Seq<u8>| #[trigger]
        dis.contains_key(x) ==> is_depth(store, start, x, dis[x] as nat) && dis[x] <= usize::MAX
}

/// Whether `levels` lists, for each distance, the commits at that distance
/// in `dis`, every commit of `dis` among them.
pub open spec fn are_levels(dis: Map<Seq<u8>, u128>, levels: Seq<Vec<Vec<u8>>>) -> bool {
    &&& forall|k: int|
        0 <= k < levels.len() ==> is_level(dis, seq_views((#[trigger] levels[k])@), k as nat)
    &&& forall|x: Seq<u8>| #[trigger] dis.contains_key(x) ==> dis[x] < levels.len()
}

/// The history of `commit_hash`, breadth first: the distance to each commit
/// in it, and the commits at each distance in the order in which the search
/// comes upon them.
#[verifier::rlimit(40)]
pub fn search_history(store: &ObjectStore, commit_hash: &[u8]) -> (r: Result<
    (ByteMap<u128>, Vec<Vec<Vec<u8>>>),
    GitError,
>)
    requires
        store.wf(),
    ensures
        match r {
            Ok(found) => found.0.wf() && is_distance_map(store@, commit_hash@, found.0@)
                && history_readable(store@, commit_hash@) && are_levels(found.0@, found.1@)
                && are_bfs_levels(store@, commit_hash@, found.1@),
            Err(e) => is_history_error(store@, commit_hash@, e),
        },
        history_readable(store@, commit_hash@) ==> r is Ok,
{
    let mut dis: ByteMap<u128> = ByteMap::new();
    dis.insert(slice_to_vec(commit_hash), 0u128);
    let mut level: Vec<Vec<u8>> = Vec::new();
    level.push(slice_to_vec(commit_hash));
    let mut levels: Vec<Vec<Vec<u8>>> = Vec::new();
    let mut d: u128 = 0;
    let ghost mut expanded: Set<Seq<u8>> = Set::empty();
    let ghost universe = store@.dom().insert(Seq::<u8>::empty());
    let n = store.files.len();
    proof {
        store.files.lemma_view();
        assert(reaches_in(store@, commit_hash@, commit_hash@, 0));
        assert(seq_views(level@) =~= seq![commit_hash@]);
        assert(seq_views(level@)[0] == commit_hash@);
        assert(within(dis@, 0) =~= set![commit_hash@]);
    }
    while level.len() > 0
        invariant
            seq_views(level@) == bfs_level(store@, commit_hash@, d as nat),
            within(dis@, d as nat) == bfs_seen(store@, commit_hash@, d as nat),
            forall|k: int|
                0 <= k < levels@.len() ==> seq_views((#[trigger] levels@[k])@) == bfs_level(
                    store@,
                    commit_hash@,
                    k as nat,
                ),
            store.wf(),
            dis.wf(),
            store@.dom().finite(),
            store@.dom().len() == n,
            universe == store@.dom().insert(Seq::<u8>::empty()),
            dis@.contains_key(commit_hash@),
            dis@[commit_hash@] == 0,
            distances_sound(store@, commit_hash@, dis@, d as nat),
            distances_complete(store@, commit_hash@, dis@, d as nat),
            is_level(dis@, seq_views(level@), d as nat),
            levels@.len() == d,
            forall|k: int|
                0 <= k < levels@.len() ==> is_level(
                    dis@,
                    seq_views((#[trigger] levels@[k])@),
                    k as nat,
                ),
            expanded.finite(),
            expanded.subset_of(universe),
            d <= expanded.len(),
            forall|x: Seq<u8>| #[trigger] dis@.contains_key(x) && dis@[x] < d ==> expanded.contains(x),
            forall|x: Seq<u8>| #[trigger]
                expanded.contains(x) ==> dis@.contains_key(x) && dis@[x] < d && stored_commit(
                    store@,
                    x,
                ) is Ok,
        decreases n + 1 - expanded.len(),
    {
        proof {
            vstd::set_lib::lemma_len_subset(expanded, universe);
        }
        let ghost before = dis@;
        let ghost lv = seq_views(level@);
        let next = match expand_level(store, commit_hash, &level, d, &mut dis) {
            Ok(next) => next,
            Err(e) => {
                return Err(e);
            },
        };
        proof {
            let grown = expanded.union(lv.to_set());
            vstd::seq_lib::seq_to_set_is_finite(lv);
            assert(grown.finite());
            assert forall|x: Seq<u8>| grown.contains(x) implies universe.contains(x)
                && dis@.contains_key(x) && dis@[x] < d + 1 && stored_commit(store@, x) is Ok by {
                if expanded.contains(x) {
                    assert(before.contains_key(x));
                } else {
                    let j = choose|j: int| 0 <= j < lv.len() && lv[j] == x;
                    assert(lv[j] == level@[j]@);
                    assert(stored_commit(store@, level@[j]@) is Ok);
                    assert(before.contains_key(lv[j]));
                    if x.len() != 0 {
                        assert(store@.contains_key(x));
                    } else {
                        assert(x =~= Seq::<u8>::empty());
                    }
                }
            }
            assert forall|x: Seq<u8>| #[trigger] dis@.contains_key(x) && dis@[x] < d
                + 1 implies grown.contains(x) by {
                if before.contains_key(x) {
                    if before[x] == d {
                        assert(lv.contains(x));
                    }
                } else {
                    assert(dis@[x] == d + 1);
                }
            }
            let first = lv[0];
            assert(before.contains_key(first) && before[first] == d);
            assert(lv.contains(first));
            assert(!expanded.contains(first));
            assert(expanded.insert(first).subset_of(grown));
            vstd::set_lib::lemma_len_subset(expanded.insert(first), grown);
            vstd::set_lib::lemma_len_subset(grown, universe);
            expanded = grown;
        }
        proof {
            let after = dis@;
            assert forall|k: int| 0 <= k < levels@.len() implies is_level(
                after,
                seq_views((#[trigger] levels@[k])@),
                k as nat,
            ) by {
                let l = seq_views(levels@[k]@);
                assert(is_level(before, l, k as nat));
                assert forall|x: Seq<u8>| #[trigger] after.contains_key(x) && after[x]
                    == k implies l.contains(x) by {
                    if !before.contains_key(x) {
                        assert(after[x] == d + 1);
                    }
                }
                assert forall|j: int| 0 <= j < l.len() implies after.contains_key(#[trigger] l[j])
                    && after[l[j]] == k by {
                    assert(before.contains_key(l[j]));
                }
            }
            assert(is_level(after, lv, d as nat)) by {
                assert forall|x: Seq<u8>| #[trigger] after.contains_key(x) && after[x]
                    == d implies lv.contains(x) by {
                    if !before.contains_key(x) {
                        assert(after[x] == d + 1);
                    }
                }
                assert forall|j: int| 0 <= j < lv.len() implies after.contains_key(#[trigger] lv[j])
                    && after[lv[j]] == d by {
                    assert(before.contains_key(lv[j]));
                }
            }
        }
        proof {
            let after = dis@;
            let nv = seq_views(next@);
            assert(nv == bfs_level(store@, commit_hash@, (d + 1) as nat));
            assert(within(after, (d + 1) as nat) =~= within(before, d as nat).union(nv.to_set())) by {
                assert forall|x: Seq<u8>| within(after, (d + 1) as nat).contains(
                    x,
                ) implies within(before, d as nat).union(nv.to_set()).contains(x) by {
                    if before.contains_key(x) {
                        assert(before[x] <= d);
                    } else {
                        assert(after[x] == d + 1);
                        assert(nv.contains(x));
                    }
                }
                assert forall|x: Seq<u8>| within(before, d as nat).union(nv.to_set()).contains(
                    x,
                ) implies within(after, (d + 1) as nat).contains(x) by {
                    if nv.to_set().contains(x) {
                        assert(nv.contains(x));
                        let j = choose|j: int| 0 <= j < nv.len() && nv[j] == x;
                        assert(after.contains_key(nv[j]));
                    } else {
                        assert(before.contains_key(x));
                    }
                }
            }
        }
        let ghost listed = levels@;
        levels.push(level);
        proof {
            assert forall|k: int| 0 <= k < levels@.len() implies seq_views(
                (#[trigger] levels@[k])@,
            ) == bfs_level(store@, commit_hash@, k as nat) by {
                if k < listed.len() {
                    assert(levels@[k] == listed[k]);
                }
            }
        }
        level = next;
        d = d + 1;
    }
    proof {
        let lv = seq_views(level@);
        assert(lv.len() == 0);
        assert forall|y: Seq<u8>| #[trigger] dis@.contains_key(y) implies dis@[y] != d by {
            if dis@[y] == d {
                assert(lv.contains(y));
            }
        }
        vstd::set_lib::lemma_len_subset(expanded, universe);
        assert forall|x: Seq<u8>| #[trigger] dis@.contains_key(x) <==> reaches(
            store@,
            commit_hash@,
            x,
        ) by {
            if dis@.contains_key(x) {
                assert(is_depth(store@, commit_hash@, x, dis@[x] as nat));
            }
            if reaches(store@, commit_hash@, x) {
                let k = choose|k: nat| reaches_in(store@, commit_hash@, x, k);
                lemma_search_exhausted(store@, commit_hash@, dis@, d as nat, x, k);
            }
        }
        assert forall|x: Seq<u8>| #[trigger] reaches(store@, commit_hash@, x) implies stored_commit(
            store@,
            x,
        ) is Ok by {
            let k = choose|k: nat| reaches_in(store@, commit_hash@, x, k);
            lemma_search_exhausted(store@, commit_hash@, dis@, d as nat, x, k);
            assert(expanded.contains(x));
        }
    }
    Ok((dis, levels))
}

/// The distance from `commit_hash` to each commit in its history: the
/// least number of steps from a commit to a parent that lead there.
///
/// The map is owed wherever the history can be read; an error is that of a
/// commit in the history which cannot.
pub fn get_parent_commit_dis(store: &ObjectStore, commit_hash: &[u8]) -> (r: Result<
    ByteMap<u128>,
    GitError,
>)
    requires
        store.wf(),
    ensures
        match r {
            Ok(dis) => dis.wf() && is_distance_map(store@, commit_hash@, dis@) && history_readable(
                store@,
                commit_hash@,
            ),
            Err(e) => exists|x: Seq<u8>|
                #[trigger] reaches(store@, commit_hash@, x) && stored_commit(store@, x) == Err::<
                    CommitDataView,
                    GitError,
                >(e),
        },
{
    match search_history(store, commit_hash) {
        Ok(found) => Ok(found.0),
        Err(e) => Err(e),
    }
}


/// The commits that have a distance in both maps, each with the sum of its
/// two distances.
pub fn merge_parent_commit_dis(dis1: &ByteMap<u128>, dis2: &ByteMap<u128>) -> (dis: ByteMap<u128>)
    requires
        dis1.wf(),
        dis2.wf(),
        forall|k: Seq<u8>| #[trigger] dis1@.contains_key(k) ==> dis1@[k] <= usize::MAX,
        forall|k: Seq<u8>| #[trigger] dis2@.contains_key(k) ==> dis2@[k] <= usize::MAX,
    ensures
        dis.wf(),
        forall|k: Seq<u8>| #[trigger]
            dis@.contains_key(k) <==> dis1@.contains_key(k) && dis2@.contains_key(k),
        forall|k: Seq<u8>| #[trigger] dis@.contains_key(k) ==> dis@[k] == dis1@[k] + dis2@[k],
{
    let mut dis: ByteMap<u128> = ByteMap::new();
    let ghost keys = dis2.spec_keys();
    let mut i: usize = 0;
    proof {
        dis2.lemma_view();
    }
    while i < dis2.len()
        invariant
            dis1.wf(),
            dis2.wf(),
            dis.wf(),
            i <= keys.len(),
            keys == dis2.spec_keys(),
            forall|k: Seq<u8>| #[trigger] dis1@.contains_key(k) ==> dis1@[k] <= usize::MAX,
            forall|k: Seq<u8>| #[trigger] dis2@.contains_key(k) ==> dis2@[k] <= usize::MAX,
            forall|j: int|
                0 <= j < keys.len() ==> dis2@.contains_key(#[trigger] keys[j]) && dis2@[keys[j]]
                    == dis2.spec_vals()[j],
            forall|k: Seq<u8>| dis2@.contains_key(k) <==> #[trigger] keys.contains(k),
            forall|k: Seq<u8>| #[trigger]
                dis@.contains_key(k) ==> dis1@.contains_key(k) && dis2@.contains_key(k) && dis@[k]
                    == dis1@[k] + dis2@[k],
            forall|j: int|
                0 <= j < i && dis1@.contains_key(#[trigger] keys[j]) ==> dis@.contains_key(keys[j]),
        decreases keys.len() - i,
    {
        let key = dis2.key_at(i);
        let val = *dis2.value_at(i);
        proof {
            assert(dis2@.contains_key(keys[i as int]));
        }
        match dis1.get(key.as_slice()) {
            Some(other) => {
                dis.insert(key.clone(), *other + val);
            },
            None => {},
        }
        i += 1;
    }
    proof {
        assert forall|k: Seq<u8>| dis1@.contains_key(k) && dis2@.contains_key(
            k,
        ) implies #[trigger] dis@.contains_key(k) by {
            assert(keys.contains(k));
            let j = choose|j: int| 0 <= j < keys.len() && keys[j] == k;
            assert(dis@.contains_key(keys[j]));
        }
    }
    dis
}

/// Whether both `a` and `b` lead to `x`.
pub open spec fn is_common_ancestor(
    store: Map<Seq<u8>, Seq<u8>>,
    a: Seq<u8>,
    b: Seq<u8>,
    x: Seq<u8>,
) -> bool {
    reaches(store, a, x) && reaches(store, b, x)
}

/// The least number of steps from `a` to `x`, plus that from `b` to `x`.
pub open spec fn base_cost(store: Map<Seq<u8>, Seq<u8>>, a: Seq<u8>, b: Seq<u8>, x: Seq<u8>) -> nat {
    depth_of(store, a, x) + depth_of(store, b, x)
}

/// Whether `x` is a common ancestor of `a` and `b` than which none is
/// nearer to the two.
pub open spec fn is_best_base(store: Map<Seq<u8>, Seq<u8>>, a: Seq<u8>, b: Seq<u8>, x: Seq<u8>) -> bool {
    &&& is_common_ancestor(store, a, b, x)
    &&& forall|y: Seq<u8>| #[trigger]
        is_common_ancestor(store, a, b, y) ==> base_cost(store, a, b, x) <= base_cost(
            store,
            a,
            b,
            y,
        )
}

/// Whether `x` is the one common ancestor of `a` and `b` that is nearest
/// to the two.
pub open spec fn is_merge_base(store: Map<Seq<u8>, Seq<u8>>, a: Seq<u8>, b: Seq<u8>, x: Seq<u8>) -> bool {
    &&& is_best_base(store, a, b, x)
    &&& forall|y: Seq<u8>| #[trigger] is_best_base(store, a, b, y) ==> y == x
}

/// The merge base of `a` and `b`: the common ancestor nearest to the two.
/// `NoCommonAncestor` where they have none, `AmbiguousMergeBase` where two
/// or more are equally near.
pub open spec fn merge_base_spec(store: Map<Seq<u8>, Seq<u8>>, a: Seq<u8>, b: Seq<u8>) -> Result<
    Seq<u8>,
    GitError,
> {
    if !(exists|x: Seq<u8>| is_common_ancestor(store, a, b, x)) {
        Err(GitError::NoCommonAncestor)
    } else if exists|x: Seq<u8>| is_merge_base(store, a, b, x) {
        Ok(choose|x: Seq<u8>| is_merge_base(store, a, b, x))
    } else {
        Err(GitError::AmbiguousMergeBase)
    }
}

/// Whether `a` or `b` leads to `x`.
pub open spec fn in_either_history(
    store: Map<Seq<u8>, Seq<u8>>,
    a: Seq<u8>,
    b: Seq<u8>,
    x: Seq<u8>,
) -> bool {
    reaches(store, a, x) || reaches(store, b, x)
}

/// The merge base of `c1` and `c2`.
///
/// Where both histories can be read the result is `merge_base_spec`; else
/// the error is that of a commit in one of them which cannot be read.
#[verifier::rlimit(40)]
pub fn get_merge_base(store: &ObjectStore, c1: &[u8], c2: &[u8]) -> (r: Result<Vec<u8>, GitError>)
    requires
        store.wf(),
    ensures
        match r {
            Ok(base) => history_readable(store@, c1@) && history_readable(store@, c2@)
                && merge_base_spec(store@, c1@, c2@) == Ok::<Seq<u8>, GitError>(base@),
            Err(e) => if history_readable(store@, c1@) && history_readable(store@, c2@) {
                merge_base_spec(store@, c1@, c2@) == Err::<Seq<u8>, GitError>(e)
            } else {
                exists|x: Seq<u8>|
                    #[trigger] in_either_history(store@, c1@, c2@, x) && stored_commit(store@, x)
                        == Err::<CommitDataView, GitError>(e)
            },
        },
{
    let dis1 = match get_parent_commit_dis(store, c1) {
        Ok(dis) => dis,
        Err(e) => {
            proof {
                let x = choose|x: Seq<u8>|
                    #[trigger] reaches(store@, c1@, x) && stored_commit(store@, x) == Err::<
                        CommitDataView,
                        GitError,
                    >(e);
                assert(reaches(store@, c1@, x));
                assert(!history_readable(store@, c1@));
                assert(in_either_history(store@, c1@, c2@, x));
            }
            return Err(e);
        },
    };
    let dis2 = match get_parent_commit_dis(store, c2) {
        Ok(dis) => dis,
        Err(e) => {
            proof {
                let x = choose|x: Seq<u8>|
                    #[trigger] reaches(store@, c2@, x) && stored_commit(store@, x) == Err::<
                        CommitDataView,
                        GitError,
                    >(e);
                assert(reaches(store@, c2@, x));
                assert(!history_readable(store@, c2@));
                assert(in_either_history(store@, c1@, c2@, x));
            }
            return Err(e);
        },
    };
    let dis = merge_parent_commit_dis(&dis1, &dis2);
    let ghost keys = dis.spec_keys();
    let ghost vals = dis.spec_vals();
    proof {
        dis.lemma_view();
        assert forall|j: int| 0 <= j < keys.len() implies is_common_ancestor(
            store@,
            c1@,
            c2@,
            #[trigger] keys[j],
        ) && base_cost(store@, c1@, c2@, keys[j]) == vals[j] by {
            let x = keys[j];
            assert(dis@.contains_key(x));
            assert(dis1@.contains_key(x) && dis2@.contains_key(x));
            lemma_depth_unique(store@, c1@, x, dis1@[x] as nat);
            lemma_depth_unique(store@, c2@, x, dis2@[x] as nat);
        }
        assert forall|x: Seq<u8>| #[trigger]
            is_common_ancestor(store@, c1@, c2@, x) implies keys.contains(x) by {
            assert(dis1@.contains_key(x) && dis2@.contains_key(x));
            assert(dis@.contains_key(x));
        }
    }
    let mut min_dis: u128 = 0;
    let mut min_cnt: usize = 0;
    let mut best: usize = 0;
    let ghost mut other: int = 0;
    let mut i: usize = 0;
    while i < dis.len()
        invariant
            dis.wf(),
            keys == dis.spec_keys(),
            vals == dis.spec_vals(),
            keys.len() == vals.len(),
            i <= keys.len(),
            min_cnt <= i,
            (min_cnt == 0) == (i == 0),
            min_cnt >= 1 ==> best < i && vals[best as int] == min_dis && forall|j: int|
                0 <= j < i ==> #[trigger] vals[j] >= min_dis,
            min_cnt == 1 ==> forall|j: int| 0 <= j < i && j != best ==> #[trigger] vals[j] > min_dis,
            min_cnt > 1 ==> 0 <= other < i && other != best && vals[other] == min_dis,
        decreases keys.len() - i,
    {
        let v = *dis.value_at(i);
        if min_cnt == 0 || v < min_dis {
            best = i;
            min_dis = v;
            min_cnt = 1;
        } else if v == min_dis {
            proof {
                if min_cnt == 1 {
                    other = i as int;
                }
            }
            min_cnt += 1;
        }
        i += 1;
    }
    if min_cnt == 0 {
        proof {
            assert forall|x: Seq<u8>| !is_common_ancestor(store@, c1@, c2@, x) by {
                if is_common_ancestor(store@, c1@, c2@, x) {
                    assert(keys.contains(x));
                }
            }
        }
        Err(GitError::NoCommonAncestor)
    } else if min_cnt > 1 {
        proof {
            let x = keys[best as int];
            let y = keys[other];
            crate::bytemap::lemma_sorted_index(keys, best as int);
            crate::bytemap::lemma_sorted_index(keys, other);
            assert(x != y);
            assert(is_best_base(store@, c1@, c2@, x)) by {
                assert forall|z: Seq<u8>| #[trigger]
                    is_common_ancestor(store@, c1@, c2@, z) implies base_cost(store@, c1@, c2@, x)
                    <= base_cost(store@, c1@, c2@, z) by {
                    let j = choose|j: int| 0 <= j < keys.len() && keys[j] == z;
                    assert(vals[j] >= min_dis);
                    assert(is_common_ancestor(store@, c1@, c2@, keys[j]));
                }
            }
            assert(is_best_base(store@, c1@, c2@, y)) by {
                assert forall|z: Seq<u8>| #[trigger]
                    is_common_ancestor(store@, c1@, c2@, z) implies base_cost(store@, c1@, c2@, y)
                    <= base_cost(store@, c1@, c2@, z) by {
                    let j = choose|j: int| 0 <= j < keys.len() && keys[j] == z;
                    assert(vals[j] >= min_dis);
                    assert(is_common_ancestor(store@, c1@, c2@, keys[j]));
                }
            }
            assert(is_common_ancestor(store@, c1@, c2@, x));
            assert forall|z: Seq<u8>| !is_merge_base(store@, c1@, c2@, z) by {
                if is_merge_base(store@, c1@, c2@, z) {
                    assert(x == z);
                    assert(y == z);
                }
            }
        }
        Err(GitError::AmbiguousMergeBase)
    } else {
        let base = dis.key_at(best).clone();
        proof {
            let x = keys[best as int];
            assert(is_common_ancestor(store@, c1@, c2@, x));
            assert(is_best_base(store@, c1@, c2@, x)) by {
                assert forall|z: Seq<u8>| #[trigger]
                    is_common_ancestor(store@, c1@, c2@, z) implies base_cost(store@, c1@, c2@, x)
                    <= base_cost(store@, c1@, c2@, z) by {
                    let j = choose|j: int| 0 <= j < keys.len() && keys[j] == z;
                    assert(vals[j] >= min_dis);
                    assert(is_common_ancestor(store@, c1@, c2@, keys[j]));
                }
            }
            assert forall|z: Seq<u8>| #[trigger] is_best_base(store@, c1@, c2@, z) implies z
                == x by {
                assert(is_common_ancestor(store@, c1@, c2@, z));
                let j = choose|j: int| 0 <= j < keys.len() && keys[j] == z;
                assert(is_common_ancestor(store@, c1@, c2@, keys[j]));
                assert(base_cost(store@, c1@, c2@, z) <= base_cost(store@, c1@, c2@, x));
                if j != best {
                    assert(vals[j] > min_dis);
                }
            }
            assert(is_merge_base(store@, c1@, c2@, x));
            let z = choose|z: Seq<u8>| is_merge_base(store@, c1@, c2@, z);
            assert(is_best_base(store@, c1@, c2@, x));
            assert(z == x);
        }
        Ok(base)
    }
}

/// Every commit is its own ancestor, and the empty id is an ancestor of
/// every commit.
pub proof fn lemma_ancestry(store: Map<Seq<u8>, Seq<u8>>, c: Seq<u8>)
    ensures
        is_ancestor(store, c, c),
        is_ancestor(store, Seq::<u8>::empty(), c),
{
    assert(reaches_in(store, c, c, 0));
}

/// The merge base of `a` and `b` is that of `b` and `a`.
pub proof fn lemma_merge_base_symmetric(store: Map<Seq<u8>, Seq<u8>>, a: Seq<u8>, b: Seq<u8>)
    ensures
        merge_base_spec(store, a, b) == merge_base_spec(store, b, a),
{
    assert forall|x: Seq<u8>|
        is_best_base(store, a, b, x) == is_best_base(store, b, a, x) by {
        if is_best_base(store, a, b, x) {
            lemma_best_base_symmetric(store, a, b, x);
        }
        if is_best_base(store, b, a, x) {
            lemma_best_base_symmetric(store, b, a, x);
        }
    }
    if exists|x: Seq<u8>| is_common_ancestor(store, a, b, x) {
        let x = choose|x: Seq<u8>| is_common_ancestor(store, a, b, x);
        assert(is_common_ancestor(store, b, a, x));
    }
    if exists|x: Seq<u8>| is_common_ancestor(store, b, a, x) {
        let x = choose|x: Seq<u8>| is_common_ancestor(store, b, a, x);
        assert(is_common_ancestor(store, a, b, x));
    }
    if exists|x: Seq<u8>| is_merge_base(store, a, b, x) {
        let x = choose|x: Seq<u8>| is_merge_base(store, a, b, x);
        assert(is_merge_base(store, b, a, x)) by {
            assert forall|y: Seq<u8>| #[trigger] is_best_base(store, b, a, y) implies y == x by {
                assert(is_best_base(store, a, b, y));
            }
        }
        let y = choose|y: Seq<u8>| is_merge_base(store, b, a, y);
        assert(is_best_base(store, b, a, x));
        assert(x == y);
    }
    if exists|x: Seq<u8>| is_merge_base(store, b, a, x) {
        let x = choose|x: Seq<u8>| is_merge_base(store, b, a, x);
        assert(is_merge_base(store, a, b, x)) by {
            assert forall|y: Seq<u8>| #[trigger] is_best_base(store, a, b, y) implies y == x by {
                assert(is_best_base(store, b, a, y));
            }
        }
    }
}

/// A nearest common ancestor of `a` and `b` is one of `b` and `a`.
proof fn lemma_best_base_symmetric(store: Map<Seq<u8>, Seq<u8>>, a: Seq<u8>, b: Seq<u8>, x: Seq<u8>)
    requires
        is_best_base(store, a, b, x),
    ensures
        is_best_base(store, b, a, x),
{
    assert forall|y: Seq<u8>| #[trigger] is_common_ancestor(store, b, a, y) implies base_cost(
        store,
        b,
        a,
        x,
    ) <= base_cost(store, b, a, y) by {
        assert(is_common_ancestor(store, a, b, y));
    }
}

/// What a commit with one parent leads to, where that parent is a first
/// commit: itself, its parent after one step, and the empty id after two.
pub proof fn lemma_short_history(
    store: Map<Seq<u8>, Seq<u8>>,
    a: Seq<u8>,
    base: Seq<u8>,
    x: Seq<u8>,
    n: nat,
)
    requires
        parents_of(store, a) == seq![base],
        parents_of(store, base) == seq![Seq::<u8>::empty()],
        reaches_in(store, a, x, n),
    ensures
        (n == 0 && x == a) || (n == 1 && x == base) || (n == 2 && x.len() == 0),
    decreases n,
{
    if n > 0 {
        let mid = choose|mid: Seq<u8>|
            reaches_in(store, a, mid, (n - 1) as nat) && #[trigger] is_parent(store, mid, x);
        lemma_short_history(store, a, base, mid, (n - 1) as nat);
        if n == 1 {
            assert(seq![base].contains(x));
            assert(seq![base][0] == base);
        } else if n == 2 {
            assert(seq![Seq::<u8>::empty()].contains(x));
            assert(seq![Seq::<u8>::empty()][0] == Seq::<u8>::empty());
        } else {
            lemma_empty_id_has_no_parent(store, mid, x);
        }
    }
}

/// The distances in the history of a commit with one parent, where that
/// parent is a first commit: one step to the parent, two to the empty id.
pub proof fn lemma_short_depths(store: Map<Seq<u8>, Seq<u8>>, a: Seq<u8>, base: Seq<u8>)
    requires
        parents_of(store, a) == seq![base],
        parents_of(store, base) == seq![Seq::<u8>::empty()],
    ensures
        a != base,
        a.len() > 0,
        base.len() > 0,
        reaches(store, a, base),
        reaches(store, a, Seq::<u8>::empty()),
        depth_of(store, a, base) == 1,
        depth_of(store, a, Seq::<u8>::empty()) == 2,
{
    let none = Seq::<u8>::empty();
    assert(seq![base][0] == base);
    assert(seq![none][0] == none);
    assert(parents_of(store, base)[0] == none);
    assert(parents_of(store, a)[0] == base);
    assert(base.len() > 0 && a.len() > 0 && a != base) by {
        if base.len() == 0 {
            assert(parents_of(store, base).len() == 0);
        }
        if a.len() == 0 {
            assert(parents_of(store, a).len() == 0);
        }
    }
    assert(reaches_in(store, a, a, 0));
    assert(is_parent(store, a, base));
    assert(reaches_in(store, a, base, 1));
    assert(is_parent(store, base, none));
    assert(reaches_in(store, a, none, 2));
    assert(is_depth(store, a, base, 1));
    assert(is_depth(store, a, none, 2)) by {
        assert forall|m: nat| m < 2 implies !reaches_in(store, a, none, m) by {
            if reaches_in(store, a, none, m) {
                lemma_short_history(store, a, base, none, m);
            }
        }
    }
    lemma_depth_unique(store, a, base, 1);
    lemma_depth_unique(store, a, none, 2);
}

/// The merge base of two different commits that have one parent, the same
/// for both, which is a first commit: that parent.
pub proof fn lemma_merge_base_of_siblings(
    store: Map<Seq<u8>, Seq<u8>>,
    a: Seq<u8>,
    b: Seq<u8>,
    base: Seq<u8>,
)
    requires
        a != b,
        parents_of(store, a) == seq![base],
        parents_of(store, b) == seq![base],
        parents_of(store, base) == seq![Seq::<u8>::empty()],
    ensures
        merge_base_spec(store, a, b) == Ok::<Seq<u8>, GitError>(base),
{
    let none = Seq::<u8>::empty();
    lemma_short_depths(store, a, base);
    lemma_short_depths(store, b, base);
    assert(is_common_ancestor(store, a, b, base));
    assert forall|y: Seq<u8>| #[trigger] is_common_ancestor(store, a, b, y) implies y == base || y
        == none by {
        let n = choose|n: nat| reaches_in(store, a, y, n);
        let m = choose|m: nat| reaches_in(store, b, y, m);
        lemma_short_history(store, a, base, y, n);
        lemma_short_history(store, b, base, y, m);
        if y.len() == 0 {
            assert(y =~= none);
        }
    }
    assert(base_cost(store, a, b, base) == 2);
    assert(base_cost(store, a, b, none) == 4);
    assert(is_best_base(store, a, b, base));
    assert(is_merge_base(store, a, b, base)) by {
        assert forall|y: Seq<u8>| #[trigger] is_best_base(store, a, b, y) implies y == base by {
            assert(is_common_ancestor(store, a, b, y));
            if y == none {
                assert(is_common_ancestor(store, a, b, base));
            }
        }
    }
    let found = choose|x: Seq<u8>| is_merge_base(store, a, b, x);
    assert(is_best_base(store, a, b, found));
}

} // verus!
