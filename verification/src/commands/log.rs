//! The history of the current commit.

use crate::bytes::seq_views;
use crate::commit::CommitData;
use crate::commit::CommitDataView;
use crate::commit::read_commit_data;
use crate::commit::stored_commit;
use crate::error::GitError;
use crate::graph::are_bfs_levels;
use crate::graph::are_levels;
use crate::graph::bfs_level;
use crate::graph::depth_of;
use crate::graph::history_readable;
use crate::graph::is_history_error;
use crate::graph::is_level;
use crate::graph::reaches;
use crate::graph::search_history;
use crate::reference::current_commit_of;
use crate::reference::get_current_commit;
use crate::reference::Repository;
use vstd::prelude::*;

verus! {

/// One commit of a history: its id, and what it records.
#[derive(Debug)]
pub struct LogEntry {
    pub hash: Vec<u8>,
    pub data: CommitData,
}

/// Whether `entries` holds the commit `x`.
pub open spec fn is_logged(entries: Seq<LogEntry>, x: Seq<u8>) -> bool {
    exists|i: int| 0 <= i < entries.len() && (#[trigger] entries[i]).hash@ == x
}

/// The ids of `entries`, in order.
pub open spec fn hashes_of(entries: Seq<LogEntry>) -> Seq<Seq<u8>> {
    Seq::new(entries.len(), |i: int| entries[i].hash@)
}

/// The commits of `level`, in order, without the empty id.
pub open spec fn named(level: Seq<Seq<u8>>) -> Seq<Seq<u8>>
    decreases level.len(),
{
    if level.len() == 0 {
        Seq::empty()
    } else if level.last().len() > 0 {
        named(level.drop_last()).push(level.last())
    } else {
        named(level.drop_last())
    }
}

/// The commits within less than `n` steps from `start`, but for the empty
/// id, in the order in which a breadth-first search from `start` comes upon
/// them: `start`, then its parents in the order in which it lists them,
/// then theirs.
pub open spec fn bfs_order(store: Map<Seq<u8>, Seq<u8>>, start: Seq<u8>, n: nat) -> Seq<Seq<u8>>
    decreases n,
{
    if n == 0 {
        Seq::empty()
    } else {
        bfs_order(store, start, (n - 1) as nat) + named(bfs_level(store, start, (n - 1) as nat))
    }
}

/// Whether `hashes` are the commits of the history of `start` in the order
/// of a breadth-first search: all the commits up to the first number of
/// steps at which the search finds none.
pub open spec fn is_bfs_order(
    store: Map<Seq<u8>, Seq<u8>>,
    start: Seq<u8>,
    hashes: Seq<Seq<u8>>,
) -> bool {
    exists|n: nat|
        bfs_level(store, start, n).len() == 0 && hashes == #[trigger] bfs_order(store, start, n)
}

/// Once the search finds no commit at some number of steps, it finds none
/// farther off, and the order is settled.
pub proof fn lemma_bfs_order_settles(
    store: Map<Seq<u8>, Seq<u8>>,
    start: Seq<u8>,
    n: nat,
    m: nat,
)
    requires
        n <= m,
        bfs_level(store, start, n).len() == 0,
    ensures
        bfs_level(store, start, m).len() == 0,
        bfs_order(store, start, m) == bfs_order(store, start, n),
    decreases m - n,
{
    if n < m {
        lemma_bfs_order_settles(store, start, n, (m - 1) as nat);
        let last = bfs_level(store, start, (m - 1) as nat);
        assert(named(last) =~= Seq::<Seq<u8>>::empty());
        assert(bfs_order(store, start, m) =~= bfs_order(store, start, (m - 1) as nat));
    }
}

/// There is one breadth-first order of a history.
pub proof fn lemma_bfs_order_unique(
    store: Map<Seq<u8>, Seq<u8>>,
    start: Seq<u8>,
    a: Seq<Seq<u8>>,
    b: Seq<Seq<u8>>,
)
    requires
        is_bfs_order(store, start, a),
        is_bfs_order(store, start, b),
    ensures
        a == b,
{
    let n = choose|n: nat|
        bfs_level(store, start, n).len() == 0 && a == #[trigger] bfs_order(store, start, n);
    let m = choose|m: nat|
        bfs_level(store, start, m).len() == 0 && b == #[trigger] bfs_order(store, start, m);
    if n <= m {
        lemma_bfs_order_settles(store, start, n, m);
    } else {
        lemma_bfs_order_settles(store, start, m, n);
    }
}

/// Whether `entries` is the history of `start`: every entry is a commit
/// that `start` leads to, with what the store has for it; every such
/// commit but the empty id is among them, once; a commit that is nearer to
/// `start` comes before one that is farther; and the commits come in the
/// order of a breadth-first search.
pub open spec fn is_history(
    store: Map<Seq<u8>, Seq<u8>>,
    start: Seq<u8>,
    entries: Seq<LogEntry>,
) -> bool {
    &&& forall|i: int|
        0 <= i < entries.len() ==> (#[trigger] entries[i]).hash@.len() > 0 && reaches(
            store,
            start,
            entries[i].hash@,
        ) && stored_commit(store, entries[i].hash@) == Ok::<CommitDataView, GitError>(
            entries[i].data@,
        )
    &&& forall|x: Seq<u8>| x.len() > 0 && #[trigger] reaches(store, start, x) ==> is_logged(entries, x)
    &&& forall|i: int, j: int|
        0 <= i < j < entries.len() ==> (#[trigger] entries[i]).hash@ != (#[trigger] entries[j]).hash@
            && depth_of(store, start, entries[i].hash@) <= depth_of(store, start, entries[j].hash@)
    &&& is_bfs_order(store, start, hashes_of(entries))
}

/// The history of the current commit, breadth first: the commit that
/// `HEAD` stands for, then its parents in the order in which it lists
/// them, then theirs, each commit once. An
/// error is that of `HEAD`, or of a commit in the history which cannot be
/// read; there is none where all of them can.
#[verifier::rlimit(40)]
pub fn log(repo: &Repository) -> (r: Result<Vec<LogEntry>, GitError>)
    requires
        repo.wf(),
    ensures
        match current_commit_of(repo.objects@, repo.heads@, repo.head@) {
            Err(e) => r matches Err(x) && x == e,
            Ok(start) => {
                &&& match r {
                    Ok(entries) => is_history(repo.objects@, start, entries@),
                    Err(e) => is_history_error(repo.objects@, start, e),
                }
                &&& history_readable(repo.objects@, start) ==> r is Ok
            },
        },
{
    let start = match get_current_commit(repo) {
        Ok(hash) => hash,
        Err(e) => {
            return Err(e);
        },
    };
    let (dis, levels) = match search_history(&repo.objects, start.as_slice()) {
        Ok(found) => found,
        Err(e) => {
            return Err(e);
        },
    };
    let ghost store = repo.objects@;
    let mut entries: Vec<LogEntry> = Vec::new();
    let mut k: usize = 0;
    while k < levels.len()
        invariant
            repo.wf(),
            store == repo.objects@,
            current_commit_of(repo.objects@, repo.heads@, repo.head@) == Ok::<Seq<u8>, GitError>(
                start@,
            ),
            dis.wf(),
            k <= levels@.len(),
            are_levels(dis@, levels@),
            are_bfs_levels(store, start@, levels@),
            hashes_of(entries@) == bfs_order(store, start@, k as nat),
            crate::graph::is_distance_map(store, start@, dis@),
            forall|i: int|
                0 <= i < entries@.len() ==> (#[trigger] entries@[i]).hash@.len() > 0 && reaches(
                    store,
                    start@,
                    entries@[i].hash@,
                ) && stored_commit(store, entries@[i].hash@) == Ok::<CommitDataView, GitError>(
                    entries@[i].data@,
                ),
            forall|x: Seq<u8>|
                x.len() > 0 && #[trigger] dis@.contains_key(x) && dis@[x] < k ==> is_logged(
                    entries@,
                    x,
                ),
            forall|i: int|
                0 <= i < entries@.len() ==> dis@.contains_key((#[trigger] entries@[i]).hash@)
                    && dis@[entries@[i].hash@] < k,
            forall|i: int, j: int|
                0 <= i < j < entries@.len() ==> (#[trigger] entries@[i]).hash@ != (
                #[trigger] entries@[j]).hash@ && dis@[entries@[i].hash@] <= dis@[entries@[j].hash@],
        decreases levels@.len() - k,
    {
        let level = &levels[k];
        let ghost lv = seq_views(level@);
        let ghost base = entries@.len();
        let mut j: usize = 0;
        proof {
            assert(is_level(dis@, seq_views(levels@[k as int]@), k as nat));
            assert(lv == bfs_level(store, start@, k as nat));
            assert(lv.take(0).len() == 0);
            assert(hashes_of(entries@) + named(lv.take(0)) =~= hashes_of(entries@));
        }
        while j < level.len()
            invariant
                lv == bfs_level(store, start@, k as nat),
                hashes_of(entries@) == bfs_order(store, start@, k as nat) + named(
                    lv.take(j as int),
                ),
                repo.wf(),
                store == repo.objects@,
                current_commit_of(repo.objects@, repo.heads@, repo.head@) == Ok::<
                    Seq<u8>,
                    GitError,
                >(start@),
                j <= level@.len(),
                lv == seq_views(level@),
                is_level(dis@, lv, k as nat),
                crate::graph::is_distance_map(store, start@, dis@),
                forall|i: int|
                    0 <= i < entries@.len() ==> (#[trigger] entries@[i]).hash@.len() > 0 && reaches(
                        store,
                        start@,
                        entries@[i].hash@,
                    ) && stored_commit(store, entries@[i].hash@) == Ok::<
                        CommitDataView,
                        GitError,
                    >(entries@[i].data@),
                forall|x: Seq<u8>|
                    x.len() > 0 && #[trigger] dis@.contains_key(x) && dis@[x] < k ==> is_logged(
                        entries@,
                        x,
                    ),
                forall|i: int| 0 <= i < j && (#[trigger] lv[i]).len() > 0 ==> is_logged(entries@, lv[i]),
                base <= entries@.len(),
                forall|i: int|
                    0 <= i < entries@.len() ==> dis@.contains_key((#[trigger] entries@[i]).hash@)
                        && (if i < base {
                        dis@[entries@[i].hash@] < k
                    } else {
                        dis@[entries@[i].hash@] == k && exists|jj: int|
                            0 <= jj < j && #[trigger] lv[jj] == entries@[i].hash@
                    }),
                forall|i: int, j: int|
                    0 <= i < j < entries@.len() ==> (#[trigger] entries@[i]).hash@ != (
                    #[trigger] entries@[j]).hash@ && dis@[entries@[i].hash@]
                        <= dis@[entries@[j].hash@],
            decreases level@.len() - j,
        {
            let id = &level[j];
            proof {
                assert(lv[j as int] == id@);
                assert(dis@.contains_key(lv[j as int]));
                assert(reaches(store, start@, id@));
                assert(lv.take(j + 1).drop_last() =~= lv.take(j as int));
                assert(lv.take(j + 1).last() == id@);
            }
            if id.len() > 0 {
                let data = match read_commit_data(&repo.objects, id.as_slice()) {
                    Ok(data) => data,
                    Err(e) => {
                        return Err(e);
                    },
                };
                let ghost before = entries@;
                entries.push(LogEntry { hash: id.clone(), data });
                proof {
                    assert(hashes_of(entries@) =~= hashes_of(before).push(id@));
                    assert(hashes_of(entries@) =~= bfs_order(store, start@, k as nat) + named(
                        lv.take(j + 1),
                    ));
                    assert forall|x: Seq<u8>| is_logged(before, x) implies is_logged(
                        entries@,
                        x,
                    ) by {
                        let i = choose|i: int|
                            0 <= i < before.len() && (#[trigger] before[i]).hash@ == x;
                        assert(entries@[i] == before[i]);
                    }
                    assert(entries@[before.len() as int].hash@ == id@);
                    assert(is_logged(entries@, id@));
                    assert forall|i: int| 0 <= i < entries@.len() implies dis@.contains_key(
                        (#[trigger] entries@[i]).hash@,
                    ) && (if i < base {
                        dis@[entries@[i].hash@] < k
                    } else {
                        dis@[entries@[i].hash@] == k && exists|jj: int|
                            0 <= jj < j + 1 && #[trigger] lv[jj] == entries@[i].hash@
                    }) by {
                        if i < before.len() {
                            assert(entries@[i] == before[i]);
                            if i >= base {
                                let jj = choose|jj: int|
                                    0 <= jj < j && #[trigger] lv[jj] == before[i].hash@;
                                assert(lv[jj] == entries@[i].hash@);
                            }
                        } else {
                            assert(lv[j as int] == entries@[i].hash@);
                        }
                    }
                    assert forall|a: int, b: int| 0 <= a < b < entries@.len() implies (
                    #[trigger] entries@[a]).hash@ != (#[trigger] entries@[b]).hash@
                        && dis@[entries@[a].hash@] <= dis@[entries@[b].hash@] by {
                        assert(entries@[a] == before[a]);
                        if b < before.len() {
                            assert(entries@[b] == before[b]);
                        } else {
                            if a >= base {
                                let jj = choose|jj: int|
                                    0 <= jj < j && #[trigger] lv[jj] == before[a].hash@;
                                assert(lv[jj] != lv[j as int]);
                            }
                        }
                    }
                }
            } else {
                proof {
                    assert forall|i: int| 0 <= i < entries@.len() implies dis@.contains_key(
                        (#[trigger] entries@[i]).hash@,
                    ) && (if i < base {
                        dis@[entries@[i].hash@] < k
                    } else {
                        dis@[entries@[i].hash@] == k && exists|jj: int|
                            0 <= jj < j + 1 && #[trigger] lv[jj] == entries@[i].hash@
                    }) by {
                        if i >= base {
                            let jj = choose|jj: int|
                                0 <= jj < j && #[trigger] lv[jj] == entries@[i].hash@;
                            assert(lv[jj] == entries@[i].hash@);
                        }
                    }
                }
            }
            j += 1;
        }
        proof {
            assert(lv.take(level@.len() as int) =~= lv);
            assert forall|x: Seq<u8>|
                x.len() > 0 && #[trigger] dis@.contains_key(x) && dis@[x] < k
                    + 1 implies is_logged(entries@, x) by {
                if dis@[x] == k {
                    assert(lv.contains(x));
                    let i = choose|i: int| 0 <= i < lv.len() && lv[i] == x;
                    assert(is_logged(entries@, lv[i]));
                }
            }
        }
        k += 1;
    }
    proof {
        assert forall|x: Seq<u8>| x.len() > 0 && #[trigger] reaches(store, start@, x) implies is_logged(
            entries@,
            x,
        ) by {
            assert(dis@.contains_key(x));
        }
        assert forall|i: int, j: int| 0 <= i < j < entries@.len() implies (
        #[trigger] entries@[i]).hash@ != (#[trigger] entries@[j]).hash@ && depth_of(
            store,
            start@,
            entries@[i].hash@,
        ) <= depth_of(store, start@, entries@[j].hash@) by {
            let a = entries@[i].hash@;
            let b = entries@[j].hash@;
            assert(dis@.contains_key(a) && dis@.contains_key(b));
            crate::graph::lemma_depth_unique(store, start@, a, dis@[a] as nat);
            crate::graph::lemma_depth_unique(store, start@, b, dis@[b] as nat);
        }
    }
    Ok(entries)
}

} // verus!
