use rust_git::bytemap::ByteMap;
use rust_git::bytemap::ByteSet;
use rust_git::commands::add::add;
use rust_git::commands::add::register_files;
use rust_git::commands::checkout::checkout;
use rust_git::commands::commit::commit;
use rust_git::commands::commit::commit_index;
use rust_git::commands::commit::commit_merge;
use rust_git::commands::init::init;
use rust_git::commit::read_commit_data;
use rust_git::error::GitError;
use rust_git::hash::sha1;
use rust_git::index::Index;
use rust_git::index::IndexEntry;
use rust_git::object::ObjectStore;
use rust_git::reference::Repository;
use rust_git::storage::clear_working_area;
use rust_git::storage::list_commit;
use rust_git::storage::restore_index_by_tree;
use rust_git::storage::restore_working_area;
use rust_git::three_way::register_blob_by_commit;
use rust_git::tree::read_tree_entries;
use rust_git::tree::Tree;
use rust_git::tree::TreeEntry;
use rust_git::tree::TreeEntryType;
use rust_git::tree::TreeTrait;
use rust_git::commit::Commit;
use rust_git::commit::CommitData;
use rust_git::commit::CommitTrait;
use rust_git::workspace::FileKind;
use rust_git::workspace::WorkFile;
use rust_git::workspace::Workspace;

fn file(kind: FileKind, mode: u32, data: &[u8]) -> WorkFile {
    WorkFile { kind, mode, data: data.to_vec() }
}

fn mixed() -> (Repository, Workspace, Vec<u8>) {
    let mut repo = init(Some(b"main".to_vec()));
    let mut ws = Workspace::new(b"/repo".to_vec());
    ws.files.insert(b"plain.txt".to_vec(), file(FileKind::Regular, 0o644, b"plain"));
    ws.files.insert(b"bin/run".to_vec(), file(FileKind::Regular, 0o755, b"#!/bin/sh\n"));
    ws.files.insert(b"bin/link".to_vec(), file(FileKind::Symlink, 0o777, b"run"));
    add(&mut repo, &ws, &vec![b"/repo".to_vec()]).unwrap();
    let id = commit_index(&mut repo, &ws, b"mixed".to_vec(), b"t".to_vec(), b"u".to_vec()).unwrap();
    (repo, ws, id)
}

#[test]
fn trees_are_sorted_by_name_and_keep_the_kinds() {
    let (repo, _, id) = mixed();
    let root = read_commit_data(&repo.objects, &id).unwrap().tree_hash;
    let top = read_tree_entries(&repo.objects, &root).unwrap();
    assert_eq!(top.len(), 2);
    assert_eq!((top[0].name.clone(), top[0].entry_type), (b"bin".to_vec(), TreeEntryType::Tree));
    assert_eq!((top[1].name.clone(), top[1].entry_type), (b"plain.txt".to_vec(), TreeEntryType::Blob));
    assert_eq!(top[1].hash, sha1(b"plain"));
    let bin = read_tree_entries(&repo.objects, &top[0].hash).unwrap();
    assert_eq!(bin.len(), 2);
    assert_eq!((bin[0].name.clone(), bin[0].entry_type), (b"link".to_vec(), TreeEntryType::Bsym));
    assert_eq!((bin[1].name.clone(), bin[1].entry_type), (b"run".to_vec(), TreeEntryType::Bexe));
    assert_eq!(bin[0].hash, sha1(b"run"));
    let leaves = list_commit(&repo.objects, &id).unwrap();
    let paths: Vec<Vec<u8>> = leaves.iter().map(|l| l.path.clone()).collect();
    assert_eq!(paths, vec![b"bin/link".to_vec(), b"bin/run".to_vec(), b"plain.txt".to_vec()]);
}

#[test]
fn a_file_and_a_directory_of_similar_names() {
    let mut repo = init(Some(b"main".to_vec()));
    let mut ws = Workspace::new(b"/repo".to_vec());
    ws.files.insert(b"a.txt".to_vec(), file(FileKind::Regular, 0o644, b"1"));
    ws.files.insert(b"a/b".to_vec(), file(FileKind::Regular, 0o644, b"2"));
    ws.files.insert(b"a0".to_vec(), file(FileKind::Regular, 0o644, b"3"));
    add(&mut repo, &ws, &vec![b"/repo".to_vec()]).unwrap();
    let id = commit_index(&mut repo, &ws, b"m".to_vec(), b"t".to_vec(), b"u".to_vec()).unwrap();
    let root = read_commit_data(&repo.objects, &id).unwrap().tree_hash;
    let names: Vec<Vec<u8>> =
        read_tree_entries(&repo.objects, &root).unwrap().into_iter().map(|e| e.name).collect();
    assert_eq!(names, vec![b"a".to_vec(), b"a.txt".to_vec(), b"a0".to_vec()]);
    let table = register_blob_by_commit(&repo.objects, b"", &id).unwrap();
    assert_eq!(table.len(), 3);
    assert_eq!(table.get(b"a/b").unwrap().hash, sha1(b"2"));
    assert_eq!(table.get(b"a/b").unwrap().name, b"b".to_vec());
    let table = register_blob_by_commit(&repo.objects, b"/repo", &id).unwrap();
    assert_eq!(table.len(), 3);
    assert_eq!(table.key_at(0), &b"/repo/a.txt".to_vec());
    assert_eq!(table.key_at(1), &b"/repo/a/b".to_vec());
    assert_eq!(table.key_at(2), &b"/repo/a0".to_vec());
    assert_eq!(table.get(b"/repo/a/b").unwrap().hash, sha1(b"2"));
    assert_eq!(table.get(b"/repo/a/b").unwrap().name, b"b".to_vec());
    assert!(table.get(b"a/b").is_none());
}

#[test]
fn symbolic_links_and_executables_are_restored_as_such() {
    let (repo, _, id) = mixed();
    let mut ws = Workspace::new(b"/repo".to_vec());
    assert_eq!(restore_working_area(&repo.objects, &mut ws, &id), Ok(()));
    assert_eq!(ws.files.len(), 3);
    let link = ws.files.get(b"bin/link").unwrap();
    assert_eq!(link.kind, FileKind::Symlink);
    assert_eq!(link.data, b"run".to_vec());
    let run = ws.files.get(b"bin/run").unwrap();
    assert_eq!(run.kind, FileKind::Regular);
    assert!(run.mode & 0o111 != 0);
    assert_eq!(run.mode, 0o755);
    let plain = ws.files.get(b"plain.txt").unwrap();
    assert_eq!((plain.kind, plain.mode, plain.data.clone()), (FileKind::Regular, 0o644, b"plain".to_vec()));
    assert_eq!(restore_working_area(&repo.objects, &mut ws, &id), Err(GitError::PathOccupied));
    assert_eq!(ws.files.len(), 3);
    assert_eq!(restore_working_area(&repo.objects, &mut ws, b""), Ok(()));
    let mut other = Workspace::new(b"/repo".to_vec());
    other.files.insert(b"plain.txt".to_vec(), file(FileKind::Regular, 0o600, b"old"));
    other.files.insert(b"untracked".to_vec(), file(FileKind::Regular, 0o644, b"mine"));
    assert_eq!(restore_working_area(&repo.objects, &mut other, &id), Ok(()));
    assert_eq!(other.files.get(b"plain.txt").unwrap().mode, 0o600);
    assert_eq!(other.files.get(b"plain.txt").unwrap().data, b"plain".to_vec());
    assert_eq!(other.files.get(b"untracked").unwrap().data, b"mine".to_vec());
    assert_eq!(
        restore_working_area(&repo.objects, &mut other, &sha1(b"no such commit")),
        Err(GitError::BrokenObject)
    );
}

#[test]
fn clearing_removes_tracked_files_only() {
    let (_, mut ws, _) = mixed();
    ws.files.insert(b"untracked".to_vec(), file(FileKind::Regular, 0o644, b"mine"));
    let mut index: Index = Index::new();
    for path in [&b"plain.txt"[..], &b"bin/run"[..]] {
        index.insert(path.to_vec(), IndexEntry { path: path.to_vec(), hash: Vec::new() });
    }
    assert_eq!(clear_working_area(&index, &mut ws), Ok(()));
    assert_eq!(ws.files.len(), 2);
    assert!(ws.files.get(b"untracked").is_some());
    assert!(ws.files.get(b"bin/link").is_some());
    assert_eq!(clear_working_area(&index, &mut ws), Err(GitError::MissingFile));
    assert_eq!(ws.files.len(), 2);
}

#[test]
fn index_is_derived_from_a_tree() {
    let (repo, _, id) = mixed();
    let root = read_commit_data(&repo.objects, &id).unwrap().tree_hash;
    let mut index: Index = Index::new();
    index.insert(b"old".to_vec(), IndexEntry { path: b"old".to_vec(), hash: b"0".to_vec() });
    assert_eq!(restore_index_by_tree(&repo.objects, b"", &root, b"", &mut index), Ok(()));
    assert_eq!(index.len(), 4);
    assert_eq!(index.get(b"bin/run").unwrap().hash, sha1(b"#!/bin/sh\n"));
    assert_eq!(index.get(b"bin/run").unwrap().path, b"bin/run".to_vec());
    let mut below: Index = Index::new();
    assert_eq!(
        restore_index_by_tree(&repo.objects, b"", &sha1(b"none"), b"", &mut below),
        Err(GitError::BrokenObject)
    );
    assert_eq!(below.len(), 0);
}

#[test]
fn an_index_from_a_tree_is_keyed_by_the_paths_of_the_files() {
    let (repo, _, id) = mixed();
    let root = read_commit_data(&repo.objects, &id).unwrap().tree_hash;
    let mut index: Index = Index::new();
    index.insert(b"/repo/old".to_vec(), IndexEntry { path: b"old".to_vec(), hash: b"0".to_vec() });
    assert_eq!(restore_index_by_tree(&repo.objects, b"/repo", &root, b"/repo", &mut index), Ok(()));
    assert_eq!(index.len(), 4);
    let keys: Vec<Vec<u8>> = (0..4).map(|i| index.key_at(i).clone()).collect();
    assert_eq!(
        keys,
        vec![
            b"/repo/bin/link".to_vec(),
            b"/repo/bin/run".to_vec(),
            b"/repo/old".to_vec(),
            b"/repo/plain.txt".to_vec(),
        ]
    );
    assert_eq!(index.get(b"/repo/bin/run").unwrap().path, b"bin/run".to_vec());
    assert_eq!(index.get(b"/repo/bin/run").unwrap().hash, sha1(b"#!/bin/sh\n"));
    assert_eq!(index.get(b"/repo/plain.txt").unwrap().path, b"plain.txt".to_vec());
    assert_eq!(index.get(b"/repo/old").unwrap().hash, b"0".to_vec());
    assert!(index.get(b"/repo/bin").is_none());
    let mut below: Index = Index::new();
    assert_eq!(restore_index_by_tree(&repo.objects, b"/repo", &root, b"/repo/sub", &mut below), Ok(()));
    assert_eq!(below.len(), 3);
    assert_eq!(below.get(b"/repo/sub/bin/link").unwrap().path, b"sub/bin/link".to_vec());
    let mut same: Index = Index::new();
    assert_eq!(restore_index_by_tree(&repo.objects, b"/repo", &root, b"/repo//sub/.", &mut same), Ok(()));
    assert_eq!(same.get(b"/repo/sub/bin/link").unwrap().path, b"sub/bin/link".to_vec());
    let mut none: Index = Index::new();
    assert_eq!(restore_index_by_tree(&repo.objects, b"/repo", b"", b"/repo", &mut none), Ok(()));
    assert_eq!(none.len(), 0);
    assert_eq!(
        restore_index_by_tree(&repo.objects, b"/repo", &root, b"/other", &mut none),
        Err(GitError::OutsideRepository)
    );
    assert_eq!(
        restore_index_by_tree(&repo.objects, b"/repo", &root, b"/repository", &mut none),
        Err(GitError::OutsideRepository)
    );
    assert_eq!(none.len(), 0);
}

#[test]
fn naming_paths_for_staging() {
    let (_, mut ws, _) = mixed();
    ws.files.insert(b"pipe".to_vec(), file(FileKind::Other, 0o644, b""));
    ws.files.insert(b".git/config".to_vec(), file(FileKind::Regular, 0o644, b""));
    let mut found = ByteSet::new();
    assert_eq!(register_files(&ws, b"bin", &mut found, false), Err(GitError::DirectoryWithoutRecursion));
    assert_eq!(found.len(), 0);
    assert_eq!(register_files(&ws, b"bin", &mut found, true), Ok(()));
    assert_eq!(found.len(), 2);
    assert!(found.contains(b"bin/run") && found.contains(b"bin/link"));
    assert_eq!(register_files(&ws, b"plain.txt", &mut found, false), Ok(()));
    assert_eq!(register_files(&ws, b"pipe", &mut found, false), Ok(()));
    assert_eq!(register_files(&ws, b".git", &mut found, true), Ok(()));
    assert_eq!(register_files(&ws, b"nowhere", &mut found, false), Ok(()));
    assert_eq!(found.len(), 3);
    let mut all = ByteSet::new();
    assert_eq!(register_files(&ws, b"", &mut all, true), Ok(()));
    assert_eq!(all.len(), 3);
    assert_eq!(register_files(&ws, b"bi", &mut all, false), Ok(()));
}

#[test]
fn commit_needs_working_files_of_a_known_kind() {
    let mut store = ObjectStore::new();
    let mut ws = Workspace::new(b"/repo".to_vec());
    ws.files.insert(b"pipe".to_vec(), file(FileKind::Other, 0o644, b""));
    let mut index: Index = Index::new();
    index.insert(b"gone".to_vec(), IndexEntry { path: b"gone".to_vec(), hash: b"1".to_vec() });
    let parents = vec![Vec::new()];
    assert_eq!(
        commit(&mut store, &ws, &index, b"m".to_vec(), b"t".to_vec(), b"u".to_vec(), parents.clone()),
        Err(GitError::MissingFile)
    );
    let mut index: Index = Index::new();
    index.insert(b"pipe".to_vec(), IndexEntry { path: b"pipe".to_vec(), hash: b"1".to_vec() });
    assert_eq!(
        commit(&mut store, &ws, &index, b"m".to_vec(), b"t".to_vec(), b"u".to_vec(), parents.clone()),
        Err(GitError::UnsupportedFileType)
    );
    assert_eq!(store.files.len(), 0);
    let mut kinds: ByteMap<TreeEntry> = ByteMap::new();
    kinds.insert(
        b"pipe".to_vec(),
        TreeEntry { entry_type: TreeEntryType::Bexe, name: b"pipe".to_vec(), hash: b"1".to_vec() },
    );
    let ws_free = commit_merge(
        &mut store,
        b"",
        &index,
        b"m".to_vec(),
        b"t".to_vec(),
        b"u".to_vec(),
        parents.clone(),
        &kinds,
    )
    .unwrap();
    let leaves = list_commit(&store, &ws_free).unwrap();
    assert_eq!(leaves.len(), 1);
    assert_eq!(leaves[0].entry.entry_type, TreeEntryType::Bexe);
    let mut placed: ByteMap<TreeEntry> = ByteMap::new();
    placed.insert(
        b"/repo/pipe".to_vec(),
        TreeEntry { entry_type: TreeEntryType::Bsym, name: b"pipe".to_vec(), hash: b"1".to_vec() },
    );
    placed.insert(
        b"pipe".to_vec(),
        TreeEntry { entry_type: TreeEntryType::Blob, name: b"pipe".to_vec(), hash: b"1".to_vec() },
    );
    let rooted = commit_merge(
        &mut store,
        b"/repo",
        &index,
        b"m".to_vec(),
        b"t".to_vec(),
        b"u".to_vec(),
        parents,
        &placed,
    )
    .unwrap();
    let leaves = list_commit(&store, &rooted).unwrap();
    assert_eq!(leaves.len(), 1);
    assert_eq!(leaves[0].path, b"pipe".to_vec());
    assert_eq!(leaves[0].entry.entry_type, TreeEntryType::Bsym);
    let empty: Index = Index::new();
    let nothing = commit(&mut store, &ws, &empty, b"e".to_vec(), b"t".to_vec(), b"u".to_vec(), vec![Vec::new()])
        .unwrap();
    assert_eq!(read_commit_data(&store, &nothing).unwrap().tree_hash, sha1(b""));
}

#[test]
fn a_path_listed_twice_is_an_internal_conflict() {
    let mut store = ObjectStore::new();
    let twice = vec![
        TreeEntry { entry_type: TreeEntryType::Blob, name: b"a".to_vec(), hash: sha1(b"1") },
        TreeEntry { entry_type: TreeEntryType::Blob, name: b"a".to_vec(), hash: sha1(b"2") },
    ];
    let mut tree = Tree { hash: None, data: Some(twice) };
    tree.write_tree(&mut store).unwrap();
    let data = CommitData {
        message: b"m".to_vec(),
        user: b"u".to_vec(),
        time: b"t".to_vec(),
        tree_hash: tree.hash.clone().unwrap(),
        parent_commits: vec![Vec::new()],
    };
    let mut commit = Commit { hash: None, data: Some(data) };
    commit.write_commit(&mut store).unwrap();
    let id = commit.hash.unwrap();
    assert!(matches!(register_blob_by_commit(&store, b"", &id), Err(GitError::InternalConflict)));
    assert!(matches!(register_blob_by_commit(&store, b"/repo", &id), Err(GitError::InternalConflict)));
    assert_eq!(list_commit(&store, &id).unwrap().len(), 2);
}

#[test]
fn checkout_creates_the_branch_only_if_it_succeeds() {
    let (mut repo, mut ws, id) = mixed();
    ws.files.insert(b"plain.txt".to_vec(), file(FileKind::Regular, 0o644, b"edited"));
    assert_eq!(checkout(&mut repo, &mut ws, b"topic", false, true), Err(GitError::DirtyWorkspace));
    assert_eq!(repo.heads.len(), 1);
    assert_eq!(checkout(&mut repo, &mut ws, b"topic", true, true), Ok(()));
    assert_eq!(repo.heads.get(b"topic"), Some(&id));
    assert_eq!(repo.head, b"ref: refs/heads/topic".to_vec());
    assert_eq!(ws.files.get(b"plain.txt").unwrap().data, b"plain".to_vec());
    assert_eq!(checkout(&mut repo, &mut ws, b"topic", true, true), Err(GitError::BranchExists));
}

#[test]
fn everything_that_a_commit_refers_to_is_in_the_store() {
    let (repo, _, id) = mixed();
    let data = read_commit_data(&repo.objects, &id).unwrap();
    assert!(read_tree_entries(&repo.objects, &data.tree_hash).is_ok());
    let leaves = list_commit(&repo.objects, &id).unwrap();
    assert_eq!(leaves.len(), 3);
    for leaf in leaves {
        assert!(rust_git::blob::read_blob_data(&repo.objects, &leaf.entry.hash).is_ok());
        assert_eq!(
            sha1(&rust_git::blob::read_blob_data(&repo.objects, &leaf.entry.hash).unwrap()),
            leaf.entry.hash
        );
    }
}
