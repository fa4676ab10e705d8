use rust_git::bytemap::ByteSet;
use rust_git::clock::clip_time;
use rust_git::clock::get_time_string;
use rust_git::clock::TIME_LIMIT;
use rust_git::commands::add::add;
use rust_git::commands::add::register_files;
use rust_git::commands::branch::branch;
use rust_git::commands::branch::delete_branches;
use rust_git::commands::branch::BranchOutcome;
use rust_git::commands::checkout::checkout;
use rust_git::commands::commit::commit_index;
use rust_git::commands::commit::commit_index_now;
use rust_git::commands::init::init;
use rust_git::commands::log::log;
use rust_git::commands::merge::merge;
use rust_git::commands::merge::merge_now;
use rust_git::commands::merge::MergeOutcome;
use rust_git::commands::rm::remove;
use rust_git::commit::read_commit_data;
use rust_git::error::GitError;
use rust_git::commit::Commit;
use rust_git::commit::CommitData;
use rust_git::commit::CommitTrait;
use rust_git::graph::is_prev_commit;
use rust_git::graph::is_prev_commit_search;
use rust_git::graph::search_history;
use rust_git::storage::restore_tree;
use rust_git::storage::Leaf;
use rust_git::hash::sha1;
use rust_git::index::read_index;
use rust_git::index::write_index;
use rust_git::index::Index;
use rust_git::index::IndexEntry;
use rust_git::object::read_object;
use rust_git::object::write_object;
use rust_git::object::ObjectStore;
use rust_git::object::ObjectType;
use rust_git::reference::get_current_branch;
use rust_git::reference::get_head;
use rust_git::reference::is_prev_branch;
use rust_git::reference::Repository;
use rust_git::serialize::serialize;
use rust_git::tree_build::create_tree_for_path;
use rust_git::bytemap::ByteMap;
use rust_git::tree::read_tree_entries;
use rust_git::tree::TreeEntry;
use rust_git::tree::TreeEntryType;
use rust_git::workspace::FileKind;
use rust_git::workspace::WorkFile;
use rust_git::workspace::Workspace;

fn put(ws: &mut Workspace, path: &str, data: &[u8]) {
    ws.files.insert(
        path.as_bytes().to_vec(),
        WorkFile { kind: FileKind::Regular, mode: 0o644, data: data.to_vec() },
    );
}

fn fresh() -> (Repository, Workspace) {
    (init(Some(b"main".to_vec())), Workspace::new(b"/repo".to_vec()))
}

fn record(repo: &mut Repository, ws: &Workspace, message: &str) -> Vec<u8> {
    add(repo, ws, &vec![b"/repo".to_vec()]).unwrap();
    commit_index(repo, ws, message.as_bytes().to_vec(), b"20240101000000000".to_vec(), b"tester".to_vec())
        .unwrap()
}

fn new_branch(repo: &mut Repository, name: &str) {
    assert!(matches!(
        branch(repo, Some(vec![name.as_bytes().to_vec()]), false),
        Ok(BranchOutcome::Created)
    ));
}

#[test]
fn ancestry_of_ids_that_the_store_has_not() {
    let store = ObjectStore::new();
    let unknown = sha1(b"unknown");
    assert_eq!(is_prev_commit(&store, &unknown, &unknown), Ok(true));
    assert_eq!(is_prev_commit(&store, b"", &unknown), Ok(true));
    assert_eq!(is_prev_commit(&store, b"", b""), Ok(true));
    assert_eq!(is_prev_commit(&store, b"not an id", b"not an id"), Ok(true));
    let other = sha1(b"other");
    assert_eq!(is_prev_commit(&store, &other, &unknown), Err(GitError::BrokenObject));
}

#[test]
fn a_branch_is_its_own_ancestor_whatever_its_head() {
    let (mut repo, _) = fresh();
    repo.heads.insert(b"lost".to_vec(), sha1(b"lost"));
    assert_eq!(is_prev_branch(&repo, b"lost", b"lost"), Ok(true));
    assert_eq!(is_prev_branch(&repo, b"main", b"lost"), Ok(true));
    assert_eq!(is_prev_branch(&repo, b"lost", b"main"), Ok(false));
    assert_eq!(is_prev_branch(&repo, b"none", b"main"), Err(GitError::UnknownBranch));
}

#[test]
fn log_follows_a_detached_head() {
    let (mut repo, mut ws) = fresh();
    put(&mut ws, "a.txt", b"one");
    let c1 = record(&mut repo, &ws, "c1");
    put(&mut ws, "a.txt", b"two");
    let c2 = record(&mut repo, &ws, "c2");
    assert_eq!(checkout(&mut repo, &mut ws, &c1, true, false), Ok(()));
    assert_eq!(get_current_branch(&repo), Ok(None));
    let ids: Vec<Vec<u8>> = log(&repo).unwrap().into_iter().map(|e| e.hash).collect();
    assert_eq!(ids, vec![c1.clone()]);
    assert_eq!(checkout(&mut repo, &mut ws, b"main", true, false), Ok(()));
    let ids: Vec<Vec<u8>> = log(&repo).unwrap().into_iter().map(|e| e.hash).collect();
    assert_eq!(ids, vec![c2, c1]);
}

#[test]
fn log_of_a_head_that_names_no_branch() {
    let (mut repo, _) = fresh();
    repo.heads.remove(b"main");
    assert!(matches!(log(&repo), Err(GitError::MalformedHead)));
    repo.head = b"neither".to_vec();
    assert!(matches!(log(&repo), Err(GitError::MalformedHead)));
}

#[test]
fn log_of_a_branch_without_commits_is_empty() {
    let (repo, _) = fresh();
    assert_eq!(log(&repo).unwrap().len(), 0);
}

#[test]
fn the_first_branch_that_may_not_go_decides_the_error() {
    let (mut repo, mut ws) = fresh();
    put(&mut ws, "a.txt", b"one");
    record(&mut repo, &ws, "c1");
    new_branch(&mut repo, "old");
    new_branch(&mut repo, "side");
    assert_eq!(checkout(&mut repo, &mut ws, b"side", true, false), Ok(()));
    put(&mut ws, "b.txt", b"two");
    record(&mut repo, &ws, "c2");
    assert_eq!(checkout(&mut repo, &mut ws, b"main", true, false), Ok(()));
    let heads_before = (get_head(&repo, b"old"), get_head(&repo, b"side"));
    let names = |list: &[&str]| list.iter().map(|n| n.as_bytes().to_vec()).collect::<Vec<_>>();
    assert_eq!(delete_branches(&mut repo, &names(&["old", "none", "side"])), Err(GitError::UnknownBranch));
    assert_eq!(delete_branches(&mut repo, &names(&["old", "side", "none"])), Err(GitError::NotAncestor));
    assert_eq!(delete_branches(&mut repo, &names(&["old", "main", "side"])), Err(GitError::CurrentBranch));
    assert_eq!((get_head(&repo, b"old"), get_head(&repo, b"side")), heads_before);
    assert_eq!(delete_branches(&mut repo, &names(&[])), Ok(()));
    assert_eq!(delete_branches(&mut repo, &names(&["old"])), Ok(()));
    assert_eq!(get_head(&repo, b"old"), Err(GitError::UnknownBranch));
    repo.head = sha1(b"nothing");
    assert_eq!(delete_branches(&mut repo, &names(&["side"])), Err(GitError::MalformedHead));
}

#[test]
fn a_directory_in_which_nothing_lies() {
    let (mut repo, mut ws) = fresh();
    put(&mut ws, "a.txt", b"one");
    ws.files.insert(
        b"empty".to_vec(),
        WorkFile { kind: FileKind::Directory, mode: 0o755, data: Vec::new() },
    );
    let mut found = ByteSet::new();
    assert_eq!(register_files(&ws, b"empty", &mut found, false), Err(GitError::DirectoryWithoutRecursion));
    assert_eq!(register_files(&ws, b"empty", &mut found, true), Ok(()));
    assert_eq!(found.len(), 0);
    assert!(matches!(
        remove(&mut repo, &mut ws, &vec![b"/repo/empty".to_vec()], false, false),
        Err(GitError::DirectoryWithoutRecursion)
    ));
    assert!(ws.files.contains_key(b"empty"));
    let out = add(&mut repo, &ws, &vec![b"/repo".to_vec()]).unwrap();
    assert_eq!(out.index.len(), 1);
    assert!(out.index.contains_key(b"a.txt"));
    let out = remove(&mut repo, &mut ws, &vec![b"/repo/empty".to_vec()], true, false).unwrap();
    assert_eq!(out.remove_log.len(), 0);
    assert!(!ws.files.contains_key(b"empty"));
    assert!(ws.files.contains_key(b"a.txt"));
}

#[test]
fn an_empty_index_file_is_an_empty_index() {
    assert_eq!(read_index(b"").unwrap().len(), 0);
    let empty: Index = ByteMap::new();
    let text = write_index(&empty).unwrap();
    assert_eq!(text, b"RElSQw==".to_vec());
    assert_eq!(read_index(&text).unwrap().len(), 0);
    assert!(matches!(read_index(b"!"), Err(GitError::MalformedIndex)));
}

#[test]
fn an_index_that_was_written_is_read_back() {
    let mut index: Index = ByteMap::new();
    for name in ["b.txt", "a/x", "a.txt"] {
        index.insert(
            name.as_bytes().to_vec(),
            IndexEntry { path: name.as_bytes().to_vec(), hash: sha1(name.as_bytes()) },
        );
    }
    let back = read_index(&write_index(&index).unwrap()).unwrap();
    assert_eq!(back.len(), 3);
    for i in 0..3 {
        assert_eq!(back.key_at(i), index.key_at(i));
        assert_eq!(back.value_at(i).path, index.value_at(i).path);
        assert_eq!(back.value_at(i).hash, index.value_at(i).hash);
    }
}

#[test]
fn base64_text_has_four_bytes_for_three() {
    assert_eq!(serialize(b"").len(), 0);
    assert_eq!(serialize(b"a").len(), 4);
    assert_eq!(serialize(b"ab").len(), 4);
    assert_eq!(serialize(b"abc").len(), 4);
    assert_eq!(serialize(b"abcd").len(), 8);
    assert_eq!(serialize(&[0u8; 300]).len(), 400);
}

#[test]
fn an_object_that_was_written_is_read_back() {
    let mut store = ObjectStore::new();
    let id = sha1(b"body");
    assert_eq!(write_object(&mut store, &id, ObjectType::Tree, b"body"), Ok(()));
    assert_eq!(read_object(&store, &id, ObjectType::Tree), Ok(b"body".to_vec()));
    assert_eq!(read_object(&store, &id, ObjectType::Blob), Err(GitError::CorruptObject));
    assert_eq!(write_object(&mut store, &id, ObjectType::Blob, b"other"), Ok(()));
    assert_eq!(read_object(&store, &id, ObjectType::Tree), Ok(b"body".to_vec()));
    assert_eq!(write_object(&mut store, b"short", ObjectType::Blob, b"x"), Err(GitError::BrokenObject));
}

#[test]
fn the_time_of_a_commit_is_short() {
    let time = clip_time(get_time_string());
    assert_eq!(time, clip_time(time.clone()));
    assert!(time.len() >= 17 && time.len() <= TIME_LIMIT);
    assert!(time.iter().all(|b| b.is_ascii_digit()));
    assert_eq!(clip_time(Vec::new()), Vec::<u8>::new());
    assert_eq!(clip_time(b"20240101000000000".to_vec()), b"20240101000000000".to_vec());
    assert_eq!(clip_time(vec![7u8; 32]), vec![7u8; 32]);
    let long: Vec<u8> = (0u8..40).collect();
    assert_eq!(clip_time(long), (0u8..32).collect::<Vec<u8>>());
}

#[test]
fn commit_at_the_time_of_the_machine() {
    let (mut repo, mut ws) = fresh();
    put(&mut ws, "a.txt", b"one");
    add(&mut repo, &ws, &vec![b"/repo".to_vec()]).unwrap();
    let id = commit_index_now(&mut repo, &ws, b"now".to_vec(), b"tester".to_vec()).unwrap();
    assert_eq!(get_head(&repo, b"main"), Ok(id.clone()));
    let data = read_commit_data(&repo.objects, &id).unwrap();
    assert_eq!(data.message, b"now".to_vec());
    assert!(data.time.len() <= TIME_LIMIT && data.time.len() >= 17);
    assert_eq!(data.parent_commits, vec![Vec::<u8>::new()]);
}

#[test]
fn merge_at_the_time_of_the_machine() {
    let (mut repo, mut ws) = fresh();
    put(&mut ws, "a.txt", b"one");
    let base = record(&mut repo, &ws, "base");
    new_branch(&mut repo, "side");
    new_branch(&mut repo, "old");
    assert!(matches!(
        merge_now(&mut repo, &mut ws, b"side", false, b"tester".to_vec()),
        Ok(MergeOutcome::AlreadyUpToDate)
    ));
    assert_eq!(checkout(&mut repo, &mut ws, b"side", false, false), Ok(()));
    put(&mut ws, "s.txt", b"side");
    let theirs = record(&mut repo, &ws, "side");
    assert_eq!(checkout(&mut repo, &mut ws, b"old", false, false), Ok(()));
    put(&mut ws, "o.txt", b"old");
    let ours = record(&mut repo, &ws, "old");
    assert_eq!(checkout(&mut repo, &mut ws, b"main", false, false), Ok(()));
    assert!(matches!(
        merge_now(&mut repo, &mut ws, b"none", false, b"tester".to_vec()),
        Err(GitError::UnknownBranch)
    ));
    assert!(matches!(
        merge_now(&mut repo, &mut ws, b"side", false, b"tester".to_vec()),
        Ok(MergeOutcome::FastForward)
    ));
    assert_eq!(get_head(&repo, b"main"), Ok(theirs.clone()));
    assert_eq!(ws.files.get(b"s.txt").unwrap().data, b"side".to_vec());
    assert_eq!(checkout(&mut repo, &mut ws, &base, true, false), Ok(()));
    assert!(matches!(
        merge_now(&mut repo, &mut ws, b"side", true, b"tester".to_vec()),
        Err(GitError::DetachedHead)
    ));
    assert_eq!(checkout(&mut repo, &mut ws, b"old", true, false), Ok(()));
    match merge_now(&mut repo, &mut ws, b"side", true, b"tester".to_vec()) {
        Ok(MergeOutcome::Merged(id)) => {
            let data = read_commit_data(&repo.objects, &id).unwrap();
            assert_eq!(data.parent_commits, vec![ours, theirs]);
            assert!(data.time.len() <= TIME_LIMIT && data.time.len() >= 17);
            assert_eq!(get_head(&repo, b"old"), Ok(id));
        }
        _ => panic!("the merge made no commit"),
    }
    assert_eq!(ws.files.get(b"s.txt").unwrap().data, b"side".to_vec());
    assert_eq!(ws.files.get(b"o.txt").unwrap().data, b"old".to_vec());
}

#[test]
fn the_tree_of_a_subdirectory_ends_where_its_files_end() {
    let mut store = ObjectStore::new();
    let mut table: ByteMap<TreeEntry> = ByteMap::new();
    for path in ["a/x", "a/y/z", "ab", "b/k"] {
        table.insert(
            path.as_bytes().to_vec(),
            TreeEntry {
                entry_type: TreeEntryType::Blob,
                name: Vec::new(),
                hash: sha1(path.as_bytes()),
            },
        );
    }
    let (link, end) = create_tree_for_path(&mut store, &table, 0, 4, 0).unwrap();
    assert_eq!(end, 2);
    assert_eq!(link.name, b"a".to_vec());
    assert_eq!(link.entry_type, TreeEntryType::Tree);
    let entries = read_tree_entries(&store, &link.hash).unwrap();
    let names: Vec<Vec<u8>> = entries.iter().map(|e| e.name.clone()).collect();
    assert_eq!(names, vec![b"x".to_vec(), b"y".to_vec()]);
    assert_eq!(entries[0].hash, sha1(b"a/x"));
    assert_eq!(entries[1].entry_type, TreeEntryType::Tree);
    let (link, end) = create_tree_for_path(&mut store, &table, 1, 2, 2).unwrap();
    assert_eq!((link.name, end), (b"y".to_vec(), 2));
    let (link, end) = create_tree_for_path(&mut store, &table, 3, 4, 0).unwrap();
    assert_eq!((link.name, end), (b"b".to_vec(), 4));
}

#[test]
fn a_conflict_whose_blob_is_gone_is_an_error() {
    let (mut repo, mut ws) = fresh();
    put(&mut ws, "a.txt", b"1\n2\n");
    record(&mut repo, &ws, "base");
    new_branch(&mut repo, "side");
    put(&mut ws, "a.txt", b"1\nA\n");
    let ours = record(&mut repo, &ws, "ours");
    assert_eq!(checkout(&mut repo, &mut ws, b"side", true, false), Ok(()));
    put(&mut ws, "a.txt", b"1\nB\n");
    record(&mut repo, &ws, "theirs");
    assert_eq!(checkout(&mut repo, &mut ws, b"main", true, false), Ok(()));
    let kept = repo.objects.files.get(&sha1(b"1\nB\n")).unwrap().clone();
    repo.objects.files.remove(&sha1(b"1\nB\n"));
    let index_before = repo.index.clone();
    assert!(matches!(
        merge(&mut repo, &mut ws, b"side", true, b"tester".to_vec(), b"t".to_vec()),
        Err(GitError::BrokenObject)
    ));
    assert_eq!(get_head(&repo, b"main"), Ok(ours.clone()));
    assert_eq!(repo.index, index_before);
    assert_eq!(ws.files.get(b"a.txt").unwrap().data, b"1\nA\n".to_vec());
    repo.objects.files.insert(sha1(b"1\nB\n"), b"!".to_vec());
    assert!(matches!(
        merge(&mut repo, &mut ws, b"side", true, b"tester".to_vec(), b"t".to_vec()),
        Err(GitError::CorruptObject)
    ));
    repo.objects.files.insert(sha1(b"1\nB\n"), kept);
    match merge(&mut repo, &mut ws, b"side", true, b"tester".to_vec(), b"t".to_vec()) {
        Ok(MergeOutcome::Conflict(reports, operations)) => {
            assert_eq!(reports.len(), 1);
            assert_eq!(reports[0].messages, vec![b"Merge conflict in /repo/a.txt: 2".to_vec()]);
            assert_eq!(operations.len(), 0);
        }
        _ => panic!("the merge did not report a conflict"),
    }
}

#[test]
fn a_history_that_cannot_be_read_stops_the_merge() {
    let (mut repo, mut ws) = fresh();
    put(&mut ws, "a.txt", b"one");
    let base = record(&mut repo, &ws, "base");
    new_branch(&mut repo, "side");
    put(&mut ws, "b.txt", b"two");
    record(&mut repo, &ws, "ours");
    assert_eq!(checkout(&mut repo, &mut ws, b"side", true, false), Ok(()));
    put(&mut ws, "c.txt", b"three");
    record(&mut repo, &ws, "theirs");
    assert_eq!(checkout(&mut repo, &mut ws, b"main", true, false), Ok(()));
    repo.objects.files.remove(&base);
    let heads_before = (get_head(&repo, b"main"), get_head(&repo, b"side"));
    assert!(matches!(
        merge(&mut repo, &mut ws, b"side", true, b"tester".to_vec(), b"t".to_vec()),
        Err(GitError::BrokenObject)
    ));
    assert_eq!((get_head(&repo, b"main"), get_head(&repo, b"side")), heads_before);
    assert!(matches!(
        merge(&mut repo, &mut ws, b"main", true, b"tester".to_vec(), b"t".to_vec()),
        Ok(MergeOutcome::AlreadyUpToDate)
    ));
}

fn node(store: &mut ObjectStore, name: &str, parents: &[&Vec<u8>]) -> Vec<u8> {
    let data = CommitData {
        message: name.as_bytes().to_vec(),
        user: b"u".to_vec(),
        time: b"t".to_vec(),
        tree_hash: Vec::new(),
        parent_commits: if parents.is_empty() {
            vec![Vec::new()]
        } else {
            parents.iter().map(|p| (*p).clone()).collect()
        },
    };
    let mut commit = Commit { hash: None, data: Some(data) };
    commit.write_commit(store).unwrap();
    commit.hash.unwrap()
}

#[test]
fn the_history_comes_in_the_order_of_the_search() {
    let mut repo = init(Some(b"main".to_vec()));
    let root = node(&mut repo.objects, "root", &[]);
    let left = node(&mut repo.objects, "left", &[&root]);
    let right = node(&mut repo.objects, "right", &[&root]);
    let far = node(&mut repo.objects, "far", &[&right]);
    let tip = node(&mut repo.objects, "tip", &[&far, &left, &right]);
    repo.heads.insert(b"main".to_vec(), tip.clone());
    let ids: Vec<Vec<u8>> = log(&repo).unwrap().into_iter().map(|e| e.hash).collect();
    assert_eq!(ids, vec![tip.clone(), far.clone(), left.clone(), right.clone(), root.clone()]);
    let other = node(&mut repo.objects, "other", &[&left, &far, &right]);
    repo.heads.insert(b"main".to_vec(), other.clone());
    let ids: Vec<Vec<u8>> = log(&repo).unwrap().into_iter().map(|e| e.hash).collect();
    assert_eq!(ids, vec![other.clone(), left.clone(), far.clone(), right.clone(), root.clone()]);
    let (_, levels) = search_history(&repo.objects, &other).unwrap();
    assert_eq!(levels.len(), 4);
    assert_eq!(levels[0], vec![other]);
    assert_eq!(levels[1], vec![left, far, right]);
    assert_eq!(levels[2], vec![root]);
    assert_eq!(levels[3], vec![Vec::<u8>::new()]);
}

#[test]
fn a_search_passes_over_what_was_searched() {
    let mut store = ObjectStore::new();
    let root = node(&mut store, "root", &[]);
    let mid = node(&mut store, "mid", &[&root]);
    let tip = node(&mut store, "tip", &[&mid]);
    let mut searched = ByteSet::new();
    assert_eq!(is_prev_commit_search(&store, &root, &tip, &mut searched), Ok(true));
    assert!(searched.contains(&tip) && searched.contains(&mid) && !searched.contains(&root));
    let mut searched = ByteSet::new();
    searched.insert(mid.clone());
    searched.insert(b"no commit".to_vec());
    assert_eq!(is_prev_commit_search(&store, &root, &tip, &mut searched), Ok(false));
    assert_eq!(searched.len(), 3);
    assert!(searched.contains(&tip));
    let mut searched = ByteSet::new();
    searched.insert(root.clone());
    assert_eq!(is_prev_commit_search(&store, &root, &tip, &mut searched), Ok(true));
    assert!(searched.contains(&root));
    let mut searched = ByteSet::new();
    searched.insert(tip.clone());
    assert_eq!(is_prev_commit_search(&store, &tip, &tip, &mut searched), Ok(true));
    assert_eq!(is_prev_commit_search(&store, &sha1(b"none"), &tip, &mut searched), Ok(false));
    assert_eq!(searched.len(), 1);
}

#[test]
fn files_written_before_a_failure_stay() {
    let mut store = ObjectStore::new();
    let id = sha1(b"one");
    assert_eq!(write_object(&mut store, &id, ObjectType::Blob, b"one"), Ok(()));
    let leaf = |path: &str, hash: &Vec<u8>, kind: TreeEntryType| Leaf {
        path: path.as_bytes().to_vec(),
        entry: TreeEntry { entry_type: kind, name: path.as_bytes().to_vec(), hash: hash.clone() },
    };
    let leaves = vec![
        leaf("a", &id, TreeEntryType::Blob),
        leaf("b", &id, TreeEntryType::Bexe),
        leaf("c", &sha1(b"gone"), TreeEntryType::Blob),
        leaf("d", &id, TreeEntryType::Blob),
    ];
    let mut files: ByteMap<WorkFile> = ByteMap::new();
    assert_eq!(restore_tree(&store, &mut files, &leaves), Err(GitError::BrokenObject));
    assert_eq!(files.len(), 2);
    assert_eq!(files.get(b"a").unwrap().data, b"one".to_vec());
    assert_eq!(files.get(b"b").unwrap().mode, 0o755);
    let taken = vec![leaf("x", &id, TreeEntryType::Blob), leaf("x", &id, TreeEntryType::Bsym)];
    let mut files: ByteMap<WorkFile> = ByteMap::new();
    assert_eq!(restore_tree(&store, &mut files, &taken), Err(GitError::PathOccupied));
    assert_eq!(files.len(), 1);
    assert_eq!(files.get(b"x").unwrap().kind, FileKind::Regular);
    let mut files: ByteMap<WorkFile> = ByteMap::new();
    let first = vec![leaf("a", &id, TreeEntryType::Blob), leaf("b", &id, TreeEntryType::Bexe)];
    assert_eq!(restore_tree(&store, &mut files, &first), Ok(()));
    assert_eq!(files.len(), 2);
}
