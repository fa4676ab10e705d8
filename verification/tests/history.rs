use rust_git::bytemap::ByteMap;
use rust_git::commit::Commit;
use rust_git::commit::CommitData;
use rust_git::commit::CommitTrait;
use rust_git::diff::diff_commit_to_commit;
use rust_git::error::GitError;
use rust_git::graph::get_merge_base;
use rust_git::graph::get_parent_commit_dis;
use rust_git::graph::is_prev_commit;
use rust_git::graph::merge_parent_commit_dis;
use rust_git::graph::search_history;
use rust_git::hash::sha1;
use rust_git::object::ObjectStore;
use rust_git::reference::create_head;
use rust_git::reference::delete_head;
use rust_git::reference::get_all_heads;
use rust_git::reference::get_current_branch;
use rust_git::reference::get_current_commit;
use rust_git::reference::is_prev_branch;
use rust_git::reference::store_current_branch_commit;
use rust_git::reference::store_current_branch_ref;
use rust_git::reference::store_head;
use rust_git::reference::try_get_head;
use rust_git::commands::init::init;
use rust_git::three_way::conflict_ranges;
use rust_git::three_way::conflict_report;
use rust_git::three_way::merge_tables;
use rust_git::three_way::LineRange;
use rust_git::tree::TreeEntry;
use rust_git::tree::TreeEntryType;
use rust_git::bytes::decimal;
use rust_git::clock::get_time_string;

fn node(store: &mut ObjectStore, name: &str, parents: &[&Vec<u8>]) -> Vec<u8> {
    let data = CommitData {
        message: name.as_bytes().to_vec(),
        user: b"u".to_vec(),
        time: b"t".to_vec(),
        tree_hash: Vec::new(),
        parent_commits: if parents.is_empty() {
            vec![Vec::new()]
        } else {
            parents.iter().map(|p| (*p).clone()).collect()
        },
    };
    let mut commit = Commit { hash: None, data: Some(data) };
    commit.write_commit(store).unwrap();
    commit.hash.unwrap()
}

#[test]
fn distances_are_least_numbers_of_steps() {
    let mut store = ObjectStore::new();
    let root = node(&mut store, "root", &[]);
    let left = node(&mut store, "left", &[&root]);
    let far = node(&mut store, "far", &[&left]);
    let tip = node(&mut store, "tip", &[&far, &root]);
    let dis = get_parent_commit_dis(&store, &tip).unwrap();
    assert_eq!(dis.len(), 5);
    assert_eq!(dis.get(&tip), Some(&0));
    assert_eq!(dis.get(&far), Some(&1));
    assert_eq!(dis.get(&root), Some(&1));
    assert_eq!(dis.get(&left), Some(&2));
    assert_eq!(dis.get(b""), Some(&2));
    let (_, levels) = search_history(&store, &tip).unwrap();
    assert_eq!(levels.len(), 3);
    assert_eq!(levels[0], vec![tip.clone()]);
    assert_eq!(levels[1], vec![far.clone(), root.clone()]);
    let other = get_parent_commit_dis(&store, &left).unwrap();
    let sums = merge_parent_commit_dis(&dis, &other);
    assert_eq!(sums.len(), 3);
    assert_eq!(sums.get(&left), Some(&2));
    assert_eq!(sums.get(&root), Some(&2));
    assert_eq!(sums.get(b""), Some(&4));
    assert_eq!(sums.get(&tip), None);
}

#[test]
fn merge_base_is_the_nearest_common_ancestor() {
    let mut store = ObjectStore::new();
    let root = node(&mut store, "root", &[]);
    let base = node(&mut store, "base", &[&root]);
    let a = node(&mut store, "a", &[&base]);
    let a2 = node(&mut store, "a2", &[&a]);
    let b = node(&mut store, "b", &[&base]);
    assert_eq!(get_merge_base(&store, &a2, &b), Ok(base.clone()));
    assert_eq!(get_merge_base(&store, &b, &a2), Ok(base.clone()));
    assert_eq!(get_merge_base(&store, &a2, &a), Ok(a.clone()));
    assert_eq!(get_merge_base(&store, &a, &a), Ok(a.clone()));
    let lone = node(&mut store, "lone", &[]);
    assert_eq!(get_merge_base(&store, &lone, &a), Ok(Vec::new()));
}

#[test]
fn two_nearest_ancestors_are_ambiguous() {
    let mut store = ObjectStore::new();
    let root = node(&mut store, "root", &[]);
    let a = node(&mut store, "a", &[&root]);
    let b = node(&mut store, "b", &[&root]);
    let x = node(&mut store, "x", &[&a, &b]);
    let y = node(&mut store, "y", &[&b, &a]);
    assert_eq!(get_merge_base(&store, &x, &y), Err(GitError::AmbiguousMergeBase));
    assert_eq!(get_merge_base(&store, &y, &x), Err(GitError::AmbiguousMergeBase));
}

#[test]
fn a_broken_history_is_an_error() {
    let mut store = ObjectStore::new();
    let absent = sha1(b"absent");
    let tip = node(&mut store, "tip", &[&absent]);
    let root = node(&mut store, "root", &[]);
    assert_eq!(is_prev_commit(&store, &root, &tip), Err(GitError::BrokenObject));
    assert_eq!(is_prev_commit(&store, &absent, &tip), Ok(true));
    assert_eq!(is_prev_commit(&store, &tip, &tip), Ok(true));
    assert!(matches!(get_parent_commit_dis(&store, &tip), Err(GitError::BrokenObject)));
    assert_eq!(get_merge_base(&store, &tip, &root), Err(GitError::BrokenObject));
    assert_eq!(is_prev_commit(&store, &tip, &root), Ok(false));
}

#[test]
fn head_is_attached_or_detached() {
    let mut repo = init(None);
    let mut store = ObjectStore::new();
    let c = node(&mut store, "c", &[]);
    repo.objects = store;
    store_head(&mut repo, b"master", &c);
    assert_eq!(get_current_branch(&repo), Ok(Some(b"master".to_vec())));
    assert_eq!(get_current_commit(&repo), Ok(c.clone()));
    store_current_branch_commit(&mut repo, &c);
    assert_eq!(repo.head, c);
    assert_eq!(get_current_branch(&repo), Ok(None));
    assert_eq!(get_current_commit(&repo), Ok(c.clone()));
    store_current_branch_commit(&mut repo, b"garbage");
    assert_eq!(get_current_branch(&repo), Err(GitError::MalformedHead));
    assert_eq!(get_current_commit(&repo), Err(GitError::MalformedHead));
    store_current_branch_ref(&mut repo, b"gone");
    assert_eq!(repo.head, b"ref: refs/heads/gone".to_vec());
    assert_eq!(get_current_commit(&repo), Err(GitError::MalformedHead));
    assert_eq!(create_head(&mut repo, b"dev", &c), Ok(()));
    assert_eq!(create_head(&mut repo, b"dev", &c), Err(GitError::BranchExists));
    assert_eq!(try_get_head(&repo, b"dev"), Ok(c.clone()));
    assert_eq!(try_get_head(&repo, b"nope"), Err(GitError::UnknownBranch));
    assert_eq!(get_all_heads(&repo), vec![b"dev".to_vec(), b"master".to_vec()]);
    assert_eq!(is_prev_branch(&repo, b"dev", b"master"), Ok(true));
    assert_eq!(is_prev_branch(&repo, b"dev", b"nope"), Err(GitError::UnknownBranch));
    assert_eq!(delete_head(&mut repo, b"dev"), Ok(()));
    assert_eq!(delete_head(&mut repo, b"dev"), Err(GitError::UnknownBranch));
}

fn ranges(a: &[&str], b: &[&str]) -> Vec<(usize, usize)> {
    let a: Vec<Vec<u8>> = a.iter().map(|l| l.as_bytes().to_vec()).collect();
    let b: Vec<Vec<u8>> = b.iter().map(|l| l.as_bytes().to_vec()).collect();
    conflict_ranges(&a, &b).into_iter().map(|r: LineRange| (r.start, r.end)).collect()
}

#[test]
fn conflict_ranges_are_runs_of_differing_lines() {
    assert_eq!(ranges(&["1", "2", "3"], &["1", "2", "3"]), vec![]);
    assert_eq!(ranges(&["1", "A", "3"], &["1", "B", "3"]), vec![(2, 2)]);
    assert_eq!(ranges(&["1", "A", "A", "2", "A"], &["1", "B", "B", "2", "B"]), vec![(2, 3), (5, 5)]);
    assert_eq!(ranges(&["x"], &["x", "y", "z"]), vec![(2, 3)]);
    assert_eq!(ranges(&["x", ""], &["x"]), vec![]);
    assert_eq!(ranges(&[], &["a"]), vec![(1, 1)]);
}

#[test]
fn conflict_reports_name_the_lines() {
    assert_eq!(
        conflict_report(b"/r/a.txt", b"1\nA\nA\n2\nA", b"1\nB\nB\n2\nB"),
        vec![b"Merge conflict in /r/a.txt: [2, 3]".to_vec(), b"Merge conflict in /r/a.txt: 5".to_vec()]
    );
    assert_eq!(
        conflict_report(b"/r/bin", &[0xff, 0xfe], b"text"),
        vec![b"Merge conflict in /r/bin".to_vec()]
    );
    assert_eq!(conflict_report(b"p", b"same", b"same"), Vec::<Vec<u8>>::new());
    assert_eq!(decimal(0), b"0".to_vec());
    assert_eq!(decimal(9), b"9".to_vec());
    assert_eq!(decimal(10), b"10".to_vec());
    assert_eq!(decimal(1205), b"1205".to_vec());
}

fn blob(hash: &str) -> TreeEntry {
    TreeEntry { entry_type: TreeEntryType::Blob, name: b"f".to_vec(), hash: hash.as_bytes().to_vec() }
}

fn table(entries: &[(&str, &str)]) -> ByteMap<TreeEntry> {
    let mut t: ByteMap<TreeEntry> = ByteMap::new();
    for (path, hash) in entries {
        t.insert(path.as_bytes().to_vec(), blob(hash));
    }
    t
}

#[test]
fn changes_between_two_commits() {
    let base = table(&[("same", "1"), ("gone", "2"), ("edited", "3")]);
    let mut new = table(&[("same", "1"), ("edited", "4"), ("fresh", "5")]);
    let (added, removed, modified) = diff_commit_to_commit(&base, &new);
    assert_eq!(added.len(), 1);
    assert_eq!(added.get(b"fresh").unwrap().hash, b"5".to_vec());
    assert_eq!(removed.len(), 1);
    assert_eq!(removed.get(b"gone").unwrap().hash, b"2".to_vec());
    assert_eq!(modified.len(), 1);
    assert_eq!(modified.get(b"edited").unwrap().hash, b"4".to_vec());
    new.insert(
        b"same".to_vec(),
        TreeEntry { entry_type: TreeEntryType::Bexe, name: b"f".to_vec(), hash: b"1".to_vec() },
    );
    let (_, _, modified) = diff_commit_to_commit(&base, &new);
    assert_eq!(modified.len(), 2);
    assert_eq!(modified.get(b"same").unwrap().entry_type, TreeEntryType::Bexe);
}

#[test]
fn three_way_merge_of_tables() {
    let base = table(&[("keep", "1"), ("ours", "1"), ("theirs", "1"), ("both", "1"), ("rm", "1"), ("rm_mod", "1"), ("mod_rm", "1"), ("same_edit", "1")]);
    let cur = table(&[("keep", "1"), ("ours", "2"), ("theirs", "1"), ("both", "2"), ("mod_rm", "2"), ("same_edit", "9"), ("add_a", "a"), ("add_both", "x"), ("add_same", "s")]);
    let oth = table(&[("keep", "1"), ("ours", "1"), ("theirs", "3"), ("both", "3"), ("rm", "1"), ("rm_mod", "3"), ("same_edit", "9"), ("add_b", "b"), ("add_both", "y"), ("add_same", "s")]);
    let merged = merge_tables(&base, &cur, &oth);
    let hash = |p: &str| merged.table.get(p.as_bytes()).map(|e| e.hash.clone());
    assert_eq!(hash("keep"), Some(b"1".to_vec()));
    assert_eq!(hash("ours"), Some(b"2".to_vec()));
    assert_eq!(hash("theirs"), Some(b"3".to_vec()));
    assert_eq!(hash("both"), Some(b"3".to_vec()));
    assert_eq!(hash("rm"), None);
    assert_eq!(hash("rm_mod"), Some(b"1".to_vec()));
    assert_eq!(hash("mod_rm"), Some(b"1".to_vec()));
    assert_eq!(hash("same_edit"), Some(b"9".to_vec()));
    assert_eq!(hash("add_a"), Some(b"a".to_vec()));
    assert_eq!(hash("add_b"), Some(b"b".to_vec()));
    assert_eq!(hash("add_both"), Some(b"y".to_vec()));
    assert_eq!(hash("add_same"), Some(b"s".to_vec()));
    assert_eq!(merged.conflicts.len(), 2);
    assert_eq!(merged.conflicts.get(b"both").unwrap().0.hash, b"2".to_vec());
    assert_eq!(merged.conflicts.get(b"both").unwrap().1.hash, b"3".to_vec());
    assert!(merged.conflicts.get(b"add_both").is_some());
    assert_eq!(merged.operation_conflicts.len(), 2);
    assert_eq!(merged.operation_conflicts.get(b"rm_mod"), Some(&true));
    assert_eq!(merged.operation_conflicts.get(b"mod_rm"), Some(&false));
}

#[test]
fn time_string_is_made_of_digits() {
    let time = get_time_string();
    assert!(time.len() >= 17);
    assert!(time.iter().all(|b| b.is_ascii_digit()));
}
