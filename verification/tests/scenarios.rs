use rust_git::commands::add::add;
use rust_git::commands::branch::branch;
use rust_git::commands::branch::BranchOutcome;
use rust_git::commands::checkout::checkout;
use rust_git::commands::commit::commit_index;
use rust_git::commands::init::init;
use rust_git::commands::log::log;
use rust_git::commands::merge::merge;
use rust_git::commands::merge::MergeOutcome;
use rust_git::commands::rm::remove;
use rust_git::commands::status::check_has_uncommitted;
use rust_git::commands::status::status;
use rust_git::commit::read_commit_data;
use rust_git::error::GitError;
use rust_git::graph::get_merge_base;
use rust_git::graph::is_prev_commit;
use rust_git::hash::sha1;
use rust_git::index::read_index;
use rust_git::reference::get_current_branch;
use rust_git::reference::get_current_commit;
use rust_git::reference::get_head;
use rust_git::reference::Repository;
use rust_git::storage::list_commit;
use rust_git::workspace::FileKind;
use rust_git::workspace::WorkFile;
use rust_git::workspace::Workspace;

fn put(ws: &mut Workspace, path: &str, data: &[u8]) {
    ws.files.insert(
        path.as_bytes().to_vec(),
        WorkFile { kind: FileKind::Regular, mode: 0o644, data: data.to_vec() },
    );
}

fn fresh() -> (Repository, Workspace) {
    (init(Some(b"main".to_vec())), Workspace::new(b"/repo".to_vec()))
}

fn stage(repo: &mut Repository, ws: &Workspace, path: &str) {
    add(repo, ws, &vec![path.as_bytes().to_vec()]).unwrap();
}

fn record(repo: &mut Repository, ws: &Workspace, message: &str) -> Vec<u8> {
    commit_index(repo, ws, message.as_bytes().to_vec(), b"20240101000000000".to_vec(), b"tester".to_vec())
        .unwrap()
}

fn first_commit() -> (Repository, Workspace, Vec<u8>) {
    let (mut repo, mut ws) = fresh();
    put(&mut ws, "a.txt", b"hi\n");
    stage(&mut repo, &ws, "/repo/a.txt");
    let c1 = record(&mut repo, &ws, "c1");
    (repo, ws, c1)
}

fn new_branch(repo: &mut Repository, name: &str) {
    assert!(matches!(
        branch(repo, Some(vec![name.as_bytes().to_vec()]), false),
        Ok(BranchOutcome::Created)
    ));
}

fn paths_of(repo: &Repository, commit: &[u8]) -> Vec<(Vec<u8>, Vec<u8>)> {
    let mut out: Vec<(Vec<u8>, Vec<u8>)> =
        list_commit(&repo.objects, commit).unwrap().into_iter().map(|l| (l.path, l.entry.hash)).collect();
    out.sort();
    out
}

#[test]
fn init_attaches_head_to_an_empty_branch() {
    let repo = init(Some(b"main".to_vec()));
    assert_eq!(repo.head, b"ref: refs/heads/main".to_vec());
    assert_eq!(get_head(&repo, b"main"), Ok(Vec::new()));
    assert_eq!(repo.index, Vec::<u8>::new());
    let plain = init(None);
    assert_eq!(plain.head, b"ref: refs/heads/master".to_vec());
    assert_eq!(get_current_branch(&plain), Ok(Some(b"master".to_vec())));
}

#[test]
fn add_then_commit_on_a_fresh_repository() {
    let (mut repo, mut ws) = fresh();
    put(&mut ws, "a.txt", b"hi\n");
    let out = add(&mut repo, &ws, &vec![b"/repo/a.txt".to_vec()]).unwrap();
    assert_eq!(out.add_log.len(), 1);
    assert_eq!(out.add_log.get(b"a.txt").unwrap().hash, sha1(b"hi\n"));
    let index = read_index(&repo.index).unwrap();
    assert_eq!(index.get(b"a.txt").unwrap().hash, b"55ca6286e3e4f4fba5d0448333fa99fc5a404a73".to_vec());
    let head_before = repo.head.clone();
    let c1 = record(&mut repo, &ws, "c1");
    assert_eq!(get_head(&repo, b"main"), Ok(c1.clone()));
    assert_eq!(repo.head, head_before);
    let data = read_commit_data(&repo.objects, &c1).unwrap();
    assert_eq!(data.message, b"c1".to_vec());
    assert_eq!(data.user, b"tester".to_vec());
    assert_eq!(data.parent_commits, vec![Vec::<u8>::new()]);
    assert_eq!(paths_of(&repo, &c1), vec![(b"a.txt".to_vec(), sha1(b"hi\n"))]);
}

#[test]
fn commit_ids_are_the_same_across_runs() {
    let (_, _, first) = first_commit();
    let (_, _, second) = first_commit();
    assert_eq!(first, second);
    assert_eq!(first.len(), 40);
}

#[test]
fn index_agrees_with_the_tree_after_commit() {
    let (mut repo, mut ws) = fresh();
    put(&mut ws, "a.txt", b"1");
    put(&mut ws, "a/b.txt", b"2");
    put(&mut ws, "a/c/d.txt", b"3");
    put(&mut ws, "z", b"4");
    stage(&mut repo, &ws, "/repo");
    let c = record(&mut repo, &ws, "all");
    let index = read_index(&repo.index).unwrap();
    let mut staged: Vec<(Vec<u8>, Vec<u8>)> = Vec::new();
    for i in 0..index.len() {
        staged.push((index.key_at(i).clone(), index.value_at(i).hash.clone()));
    }
    assert_eq!(staged.len(), 4);
    assert_eq!(paths_of(&repo, &c), staged);
}

#[test]
fn checkout_add_commit_gives_the_same_root_tree() {
    let (mut repo, mut ws) = fresh();
    put(&mut ws, "a.txt", b"1");
    put(&mut ws, "dir/b.txt", b"2");
    stage(&mut repo, &ws, "/repo");
    let c = record(&mut repo, &ws, "first");
    assert_eq!(checkout(&mut repo, &mut ws, &c, true, false), Ok(()));
    assert_eq!(get_current_branch(&repo), Ok(None));
    assert_eq!(checkout(&mut repo, &mut ws, b"main", true, false), Ok(()));
    stage(&mut repo, &ws, "/repo");
    let again = record(&mut repo, &ws, "second");
    let first_tree = read_commit_data(&repo.objects, &c).unwrap().tree_hash;
    let second_tree = read_commit_data(&repo.objects, &again).unwrap().tree_hash;
    assert_eq!(first_tree, second_tree);
}

#[test]
fn every_commit_is_its_own_ancestor() {
    let (repo, _, c1) = first_commit();
    assert_eq!(is_prev_commit(&repo.objects, &c1, &c1), Ok(true));
    assert_eq!(is_prev_commit(&repo.objects, b"", &c1), Ok(true));
    assert_eq!(is_prev_commit(&repo.objects, &c1, b""), Ok(false));
    assert_eq!(is_prev_commit(&repo.objects, b"", b""), Ok(true));
}

#[test]
fn fast_forward_merge() {
    let (mut repo, mut ws, c1) = first_commit();
    new_branch(&mut repo, "feat");
    assert_eq!(checkout(&mut repo, &mut ws, b"feat", true, false), Ok(()));
    put(&mut ws, "b.txt", b"x");
    stage(&mut repo, &ws, "/repo/b.txt");
    let c2 = record(&mut repo, &ws, "c2");
    assert_eq!(checkout(&mut repo, &mut ws, b"main", true, false), Ok(()));
    assert!(ws.files.get(b"b.txt").is_none());
    assert_eq!(get_head(&repo, b"main"), Ok(c1.clone()));
    let objects_before = repo.objects.files.len();
    let outcome = merge(&mut repo, &mut ws, b"feat", true, b"tester".to_vec(), b"t".to_vec());
    assert!(matches!(outcome, Ok(MergeOutcome::FastForward)));
    assert_eq!(get_head(&repo, b"main"), Ok(c2.clone()));
    assert_eq!(get_head(&repo, b"feat"), Ok(c2.clone()));
    assert_eq!(repo.objects.files.len(), objects_before);
    assert_eq!(ws.files.get(b"a.txt").unwrap().data, b"hi\n".to_vec());
    assert_eq!(ws.files.get(b"b.txt").unwrap().data, b"x".to_vec());
    assert_eq!(is_prev_commit(&repo.objects, &c1, &c2), Ok(true));
    assert_eq!(is_prev_commit(&repo.objects, &c2, &c1), Ok(false));
    let again = merge(&mut repo, &mut ws, b"feat", true, b"tester".to_vec(), b"t".to_vec());
    assert!(matches!(again, Ok(MergeOutcome::AlreadyUpToDate)));
}

fn two_sides(base: &[u8], ours: Option<&[u8]>, theirs: Option<&[u8]>) -> (Repository, Workspace) {
    let (mut repo, mut ws) = fresh();
    put(&mut ws, "a.txt", base);
    stage(&mut repo, &ws, "/repo");
    record(&mut repo, &ws, "base");
    new_branch(&mut repo, "A");
    new_branch(&mut repo, "B");
    for (name, content) in [("A", ours), ("B", theirs)] {
        assert_eq!(checkout(&mut repo, &mut ws, name.as_bytes(), true, false), Ok(()));
        match content {
            Some(data) => put(&mut ws, "a.txt", data),
            None => {
                ws.files.remove(b"a.txt");
            }
        }
        stage(&mut repo, &ws, "/repo");
        record(&mut repo, &ws, name);
    }
    assert_eq!(checkout(&mut repo, &mut ws, b"A", true, false), Ok(()));
    (repo, ws)
}

#[test]
fn three_way_merge_with_disjoint_adds() {
    let (mut repo, mut ws, base) = first_commit();
    new_branch(&mut repo, "A");
    new_branch(&mut repo, "B");
    assert_eq!(checkout(&mut repo, &mut ws, b"A", true, false), Ok(()));
    put(&mut ws, "p.txt", b"P");
    stage(&mut repo, &ws, "/repo/p.txt");
    let a = record(&mut repo, &ws, "A adds p");
    assert_eq!(checkout(&mut repo, &mut ws, b"B", true, false), Ok(()));
    assert!(ws.files.get(b"p.txt").is_none());
    put(&mut ws, "q.txt", b"Q");
    stage(&mut repo, &ws, "/repo/q.txt");
    let b = record(&mut repo, &ws, "B adds q");
    assert_eq!(checkout(&mut repo, &mut ws, b"A", true, false), Ok(()));
    assert_eq!(get_merge_base(&repo.objects, &a, &b), Ok(base.clone()));
    assert_eq!(get_merge_base(&repo.objects, &b, &a), Ok(base.clone()));
    let outcome = merge(&mut repo, &mut ws, b"B", true, b"tester".to_vec(), b"20240102".to_vec());
    let id = match outcome {
        Ok(MergeOutcome::Merged(id)) => id,
        _ => panic!("the merge did not make a commit"),
    };
    assert_eq!(get_head(&repo, b"A"), Ok(id.clone()));
    assert_eq!(get_head(&repo, b"B"), Ok(b.clone()));
    let data = read_commit_data(&repo.objects, &id).unwrap();
    assert_eq!(data.parent_commits, vec![a.clone(), b.clone()]);
    assert_eq!(data.message, b"Merge branch A and B.".to_vec());
    assert_eq!(
        paths_of(&repo, &id),
        vec![
            (b"a.txt".to_vec(), sha1(b"hi\n")),
            (b"p.txt".to_vec(), sha1(b"P")),
            (b"q.txt".to_vec(), sha1(b"Q")),
        ]
    );
    assert_eq!(repo.index, Vec::<u8>::new());
    assert_eq!(ws.files.get(b"q.txt").unwrap().data, b"Q".to_vec());
    assert_eq!(ws.files.get(b"p.txt").unwrap().data, b"P".to_vec());
    let history = log(&repo).unwrap();
    let ids: Vec<Vec<u8>> = history.into_iter().map(|e| e.hash).collect();
    assert_eq!(ids, vec![id, a, b, base]);
}

#[test]
fn content_conflict_is_reported_by_line() {
    let (mut repo, mut ws) = two_sides(b"1\n2\n3\n", Some(b"1\nA\n3\n"), Some(b"1\nB\n3\n"));
    let head_before = get_head(&repo, b"A").unwrap();
    let index_before = repo.index.clone();
    let outcome = merge(&mut repo, &mut ws, b"B", true, b"tester".to_vec(), b"t".to_vec());
    match outcome {
        Ok(MergeOutcome::Conflict(reports, operations)) => {
            assert_eq!(reports.len(), 1);
            assert_eq!(reports[0].path, b"/repo/a.txt".to_vec());
            assert_eq!(reports[0].messages, vec![b"Merge conflict in /repo/a.txt: 2".to_vec()]);
            assert_eq!(operations.len(), 0);
        }
        _ => panic!("the merge did not report a conflict"),
    }
    assert_eq!(get_head(&repo, b"A"), Ok(head_before));
    assert_eq!(repo.index, index_before);
    assert_eq!(ws.files.get(b"a.txt").unwrap().data, b"1\nA\n3\n".to_vec());
}

#[test]
fn removing_what_the_other_side_modified_is_a_conflict() {
    let (mut repo, mut ws) = two_sides(b"1\n", None, Some(b"2\n"));
    let head_before = get_head(&repo, b"A").unwrap();
    let index_before = repo.index.clone();
    let outcome = merge(&mut repo, &mut ws, b"B", true, b"tester".to_vec(), b"t".to_vec());
    match outcome {
        Ok(MergeOutcome::Conflict(reports, operations)) => {
            assert_eq!(reports.len(), 0);
            assert_eq!(operations.len(), 1);
            assert_eq!(operations.get(b"a.txt"), Some(&true));
        }
        _ => panic!("the merge did not report a conflict"),
    }
    assert_eq!(get_head(&repo, b"A"), Ok(head_before));
    assert_eq!(repo.index, index_before);
    assert!(ws.files.get(b"a.txt").is_none());
}

#[test]
fn merge_needs_a_branch_and_a_clean_directory() {
    let (mut repo, mut ws, c1) = first_commit();
    new_branch(&mut repo, "feat");
    assert!(matches!(
        merge(&mut repo, &mut ws, b"nowhere", true, b"u".to_vec(), b"t".to_vec()),
        Err(GitError::UnknownBranch)
    ));
    put(&mut ws, "a.txt", b"changed");
    assert_eq!(check_has_uncommitted(&repo, &ws), Ok(true));
    assert!(matches!(
        merge(&mut repo, &mut ws, b"feat", false, b"u".to_vec(), b"t".to_vec()),
        Err(GitError::DirtyWorkspace)
    ));
    assert_eq!(checkout(&mut repo, &mut ws, b"feat", false, false), Err(GitError::DirtyWorkspace));
    put(&mut ws, "a.txt", b"hi\n");
    assert_eq!(check_has_uncommitted(&repo, &ws), Ok(false));
    assert_eq!(checkout(&mut repo, &mut ws, &c1, false, false), Ok(()));
    assert_eq!(get_current_commit(&repo), Ok(c1));
    assert!(matches!(
        merge(&mut repo, &mut ws, b"feat", true, b"u".to_vec(), b"t".to_vec()),
        Err(GitError::DetachedHead)
    ));
    assert_eq!(
        commit_index(&mut repo, &ws, b"m".to_vec(), b"t".to_vec(), b"u".to_vec()),
        Err(GitError::DetachedHead)
    );
    assert_eq!(checkout(&mut repo, &mut ws, b"neither", true, false), Err(GitError::UnknownTarget));
}

#[test]
fn status_and_remove() {
    let (mut repo, mut ws, _) = first_commit();
    put(&mut ws, "dir/b.txt", b"b");
    put(&mut ws, "dir/c.txt", b"c");
    stage(&mut repo, &ws, "/repo/dir");
    put(&mut ws, "a.txt", b"new");
    stage(&mut repo, &ws, "/repo/a.txt");
    let (added, removed, modified) = status(&repo).unwrap();
    assert_eq!(added.len(), 2);
    assert_eq!(removed.len(), 0);
    assert_eq!(modified.len(), 1);
    assert_eq!(modified.get(b"a.txt").unwrap().0.hash, sha1(b"hi\n"));
    assert_eq!(modified.get(b"a.txt").unwrap().1.hash, sha1(b"new"));
    assert!(matches!(
        remove(&mut repo, &mut ws, &vec![b"/repo/dir".to_vec()], false, false),
        Err(GitError::DirectoryWithoutRecursion)
    ));
    assert!(matches!(
        remove(&mut repo, &mut ws, &vec![b"/elsewhere/x".to_vec()], true, false),
        Err(GitError::OutsideRepository)
    ));
    let out = remove(&mut repo, &mut ws, &vec![b"/repo/dir".to_vec()], true, true).unwrap();
    assert_eq!(out.remove_log.len(), 2);
    assert!(ws.files.get(b"dir/b.txt").is_some());
    let index = read_index(&repo.index).unwrap();
    assert_eq!(index.len(), 1);
    let out = remove(&mut repo, &mut ws, &vec![b"/repo/a.txt".to_vec()], false, false).unwrap();
    assert_eq!(out.remove_log.len(), 1);
    assert!(ws.files.get(b"a.txt").is_none());
    let (added, removed, modified) = status(&repo).unwrap();
    assert_eq!((added.len(), removed.len(), modified.len()), (0, 1, 0));
}

#[test]
fn add_drops_what_is_gone_from_below_the_path() {
    let (mut repo, mut ws, _) = first_commit();
    put(&mut ws, "dir/b.txt", b"b");
    stage(&mut repo, &ws, "/repo");
    ws.files.remove(b"dir/b.txt");
    let out = add(&mut repo, &ws, &vec![b"/repo/a.txt".to_vec()]).unwrap();
    assert_eq!(out.remove_log.len(), 0);
    assert_eq!(out.index.len(), 2);
    let out = add(&mut repo, &ws, &vec![b"/repo/dir".to_vec()]).unwrap();
    assert_eq!(out.remove_log.len(), 1);
    assert_eq!(out.remove_log.get(b"dir/b.txt").unwrap().hash, sha1(b"b"));
    assert_eq!(out.index.len(), 1);
    assert!(matches!(
        add(&mut repo, &ws, &vec![b"/other".to_vec()]),
        Err(GitError::OutsideRepository)
    ));
}

#[test]
fn branches_are_created_listed_and_deleted() {
    let (mut repo, mut ws, c1) = first_commit();
    new_branch(&mut repo, "old");
    assert!(matches!(
        branch(&mut repo, Some(vec![b"old".to_vec()]), false),
        Err(GitError::BranchExists)
    ));
    assert!(matches!(
        branch(&mut repo, Some(vec![b"x".to_vec(), b"y".to_vec()]), false),
        Err(GitError::InvalidArgument)
    ));
    match branch(&mut repo, None, false) {
        Ok(BranchOutcome::Listed(names, current)) => {
            assert_eq!(names, vec![b"main".to_vec(), b"old".to_vec()]);
            assert_eq!(current, Some(b"main".to_vec()));
        }
        _ => panic!("the branches were not listed"),
    }
    put(&mut ws, "b.txt", b"b");
    stage(&mut repo, &ws, "/repo");
    record(&mut repo, &ws, "c2");
    assert!(matches!(
        branch(&mut repo, Some(vec![b"main".to_vec()]), true),
        Err(GitError::CurrentBranch)
    ));
    assert_eq!(checkout(&mut repo, &mut ws, b"old", true, false), Ok(()));
    assert!(matches!(
        branch(&mut repo, Some(vec![b"main".to_vec()]), true),
        Err(GitError::NotAncestor)
    ));
    assert_eq!(checkout(&mut repo, &mut ws, b"main", true, false), Ok(()));
    assert_eq!(get_head(&repo, b"old"), Ok(c1));
    assert!(matches!(branch(&mut repo, Some(vec![b"old".to_vec()]), true), Ok(BranchOutcome::Deleted)));
    assert_eq!(get_head(&repo, b"old"), Err(GitError::UnknownBranch));
    assert_eq!(checkout(&mut repo, &mut ws, b"fresh", true, true), Ok(()));
    assert_eq!(get_current_branch(&repo), Ok(Some(b"fresh".to_vec())));
}
