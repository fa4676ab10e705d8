use rust_git::blob::get_blob_from_file;
use rust_git::blob::get_blob_type;
use rust_git::blob::Blob;
use rust_git::blob::BlobTrait;
use rust_git::commit::commit_bytes;
use rust_git::commit::parse_commit;
use rust_git::commit::Commit;
use rust_git::commit::CommitData;
use rust_git::commit::CommitTrait;
use rust_git::error::GitError;
use rust_git::hash::sha1;
use rust_git::index::read_index;
use rust_git::index::write_index;
use rust_git::index::Index;
use rust_git::index::IndexEntry;
use rust_git::object::get_object_path;
use rust_git::object::get_object_type;
use rust_git::object::object_exists;
use rust_git::object::read_object_file;
use rust_git::object::write_object_file;
use rust_git::object::ObjectStore;
use rust_git::object::ObjectType;
use rust_git::serialize::serialize;
use rust_git::tree::parse_tree;
use rust_git::tree::tree_bytes;
use rust_git::tree::Tree;
use rust_git::tree::TreeEntry;
use rust_git::tree::TreeEntryType;
use rust_git::tree::TreeTrait;
use rust_git::workspace::FileKind;
use rust_git::workspace::WorkFile;
use rust_git::workspace::Workspace;

const ID: &[u8] = b"55ca6286e3e4f4fba5d0448333fa99fc5a404a73";

fn entry(kind: TreeEntryType, name: &str, hash: &[u8]) -> TreeEntry {
    TreeEntry { entry_type: kind, name: name.as_bytes().to_vec(), hash: hash.to_vec() }
}

#[test]
fn object_path_is_sharded_by_two_bytes() {
    assert_eq!(
        get_object_path(b"/repo/.git", ID),
        Ok(b"/repo/.git/objects/55/ca6286e3e4f4fba5d0448333fa99fc5a404a73".to_vec())
    );
    assert_eq!(get_object_path(b"/repo/.git", b"55ca"), Err(GitError::BrokenObject));
}

#[test]
fn objects_are_written_once() {
    let mut store = ObjectStore::new();
    assert_eq!(read_object_file(&store, ID), Err(GitError::BrokenObject));
    assert!(!object_exists(&store, ID));
    assert_eq!(write_object_file(&mut store, ID, b"first".to_vec()), Ok(()));
    assert_eq!(write_object_file(&mut store, ID, b"second".to_vec()), Ok(()));
    assert_eq!(read_object_file(&store, ID), Ok(&b"first".to_vec()));
    assert!(object_exists(&store, ID));
    assert_eq!(write_object_file(&mut store, b"short", b"x".to_vec()), Err(GitError::BrokenObject));
    assert_eq!(store.files.len(), 1);
}

#[test]
fn object_type_goes_by_the_tag() {
    let mut store = ObjectStore::new();
    let ids: Vec<Vec<u8>> = (0..6).map(|i| sha1(&[i as u8])).collect();
    write_object_file(&mut store, &ids[0], serialize(b"BLOBdata")).unwrap();
    write_object_file(&mut store, &ids[1], serialize(b"TREE")).unwrap();
    write_object_file(&mut store, &ids[2], serialize(b"CMITm\0u\0t\0\0")).unwrap();
    write_object_file(&mut store, &ids[3], serialize(b"BLO")).unwrap();
    write_object_file(&mut store, &ids[4], serialize(b"WHAT is this")).unwrap();
    write_object_file(&mut store, &ids[5], b"not base64!".to_vec()).unwrap();
    assert_eq!(get_object_type(&store, &ids[0]), Ok(ObjectType::Blob));
    assert_eq!(get_object_type(&store, &ids[1]), Ok(ObjectType::Tree));
    assert_eq!(get_object_type(&store, &ids[2]), Ok(ObjectType::Commit));
    assert_eq!(get_object_type(&store, &ids[3]), Err(GitError::CorruptObject));
    assert_eq!(get_object_type(&store, &ids[4]), Err(GitError::CorruptObject));
    assert_eq!(get_object_type(&store, &ids[5]), Err(GitError::CorruptObject));
    assert_eq!(get_object_type(&store, &sha1(b"absent")), Err(GitError::BrokenObject));
}

#[test]
fn blob_is_kept_under_the_hash_of_its_content() {
    let mut store = ObjectStore::new();
    let mut blob = Blob { hash: None, data: Some(b"hi\n".to_vec()) };
    assert_eq!(blob.write_blob(&mut store), Ok(()));
    assert_eq!(blob.hash, Some(ID.to_vec()));
    assert_eq!(read_object_file(&store, ID), Ok(&b"QkxPQmhpCg==".to_vec()));
    let mut back = Blob { hash: Some(ID.to_vec()), data: None };
    assert_eq!(back.read_blob(&store), Ok(()));
    assert_eq!(back.data, Some(b"hi\n".to_vec()));
    let mut other = Blob { hash: None, data: Some(b"".to_vec()) };
    other.calculate_hash();
    assert_eq!(other.hash, Some(b"da39a3ee5e6b4b0d3255bfef95601890afd80709".to_vec()));
    let files_before = store.files.len();
    assert_eq!(blob.write_blob(&mut store), Ok(()));
    assert_eq!(store.files.len(), files_before);
    let mut absent = Blob { hash: Some(sha1(b"nothing")), data: None };
    assert_eq!(absent.read_blob(&store), Err(GitError::BrokenObject));
}

#[test]
fn tree_body_has_one_line_for_each_entry() {
    let entries = vec![
        entry(TreeEntryType::Blob, "a.txt", b"11"),
        entry(TreeEntryType::Bexe, "run", b"22"),
        entry(TreeEntryType::Bsym, "link", b"33"),
        entry(TreeEntryType::Tree, "dir", b"44"),
    ];
    let body = tree_bytes(&entries);
    assert_eq!(body, b"BLOB\0a.txt\x0011\nBEXE\0run\x0022\nBSYM\0link\x0033\nTREE\0dir\x0044\n".to_vec());
    let back = parse_tree(&body).unwrap();
    assert_eq!(back.len(), 4);
    for (a, b) in back.iter().zip(entries.iter()) {
        assert!(a.same_as(b));
    }
    assert_eq!(parse_tree(b"").unwrap().len(), 0);
    assert!(matches!(parse_tree(b"BLOB\0a.txt\n"), Err(GitError::CorruptObject)));
    assert!(matches!(parse_tree(b"BLOB\0a\0b\0c\n"), Err(GitError::CorruptObject)));
    assert!(matches!(parse_tree(b"FILE\0a\0b\n"), Err(GitError::CorruptObject)));
}

#[test]
fn tree_is_written_and_read_back() {
    let mut store = ObjectStore::new();
    let entries = vec![entry(TreeEntryType::Blob, "a.txt", ID)];
    let body = tree_bytes(&entries);
    let mut tree = Tree { hash: None, data: Some(entries) };
    assert_eq!(tree.write_tree(&mut store), Ok(()));
    assert_eq!(tree.hash, Some(sha1(&body)));
    let mut back = Tree { hash: tree.hash.clone(), data: None };
    assert_eq!(back.read_tree(&store), Ok(()));
    let read = back.data.unwrap();
    assert_eq!(read.len(), 1);
    assert_eq!(read[0].name, b"a.txt".to_vec());
    assert_eq!(read[0].hash, ID.to_vec());
    assert_eq!(read[0].entry_type, TreeEntryType::Blob);
    let mut empty = Tree { hash: Some(Vec::new()), data: None };
    assert_eq!(empty.read_tree(&store), Ok(()));
    assert_eq!(empty.data.unwrap().len(), 0);
    let mut blob = Blob { hash: None, data: Some(b"x".to_vec()) };
    blob.write_blob(&mut store).unwrap();
    let mut wrong = Tree { hash: blob.hash.clone(), data: None };
    assert_eq!(wrong.read_tree(&store), Err(GitError::CorruptObject));
}

fn data(message: &str, parents: &[&[u8]]) -> CommitData {
    CommitData {
        message: message.as_bytes().to_vec(),
        user: b"u".to_vec(),
        time: b"t".to_vec(),
        tree_hash: b"tree".to_vec(),
        parent_commits: parents.iter().map(|p| p.to_vec()).collect(),
    }
}

#[test]
fn commit_body_has_five_fields() {
    let body = commit_bytes(&data("m", &[b"pa", b"pb"]));
    assert_eq!(body, b"m\0u\0t\0tree\0pa&pb".to_vec());
    let back = parse_commit(&body).unwrap();
    assert_eq!(back.message, b"m".to_vec());
    assert_eq!(back.user, b"u".to_vec());
    assert_eq!(back.time, b"t".to_vec());
    assert_eq!(back.tree_hash, b"tree".to_vec());
    assert_eq!(back.parent_commits, vec![b"pa".to_vec(), b"pb".to_vec()]);
    let root = parse_commit(b"m\0u\0t\0tree\0").unwrap();
    assert_eq!(root.parent_commits, vec![Vec::<u8>::new()]);
    assert!(matches!(parse_commit(b"m\0u\0t\0tree"), Err(GitError::CorruptObject)));
    assert!(matches!(parse_commit(b"m\0u\0t\0tree\0p\0more"), Err(GitError::CorruptObject)));
}

#[test]
fn commit_id_leaves_the_parents_out() {
    let mut store = ObjectStore::new();
    let mut first = Commit { hash: None, data: Some(data("m", &[b""])) };
    let mut second = Commit { hash: None, data: Some(data("m", &[b"pa", b"pb"])) };
    first.calculate_hash();
    second.calculate_hash();
    assert_eq!(first.hash, Some(sha1(b"m\0u\0t\0tree")));
    assert_eq!(first.hash, second.hash);
    assert_eq!(first.write_commit(&mut store), Ok(()));
    assert_eq!(second.write_commit(&mut store), Ok(()));
    let mut back = Commit { hash: first.hash.clone(), data: None };
    assert_eq!(back.read_commit(&store), Ok(()));
    assert_eq!(back.data.unwrap().parent_commits, vec![Vec::<u8>::new()]);
    let mut sentinel = Commit { hash: Some(Vec::new()), data: None };
    assert_eq!(sentinel.read_commit(&store), Ok(()));
    let empty = sentinel.data.unwrap();
    assert_eq!(empty.tree_hash, Vec::<u8>::new());
    assert_eq!(empty.parent_commits.len(), 0);
}

#[test]
fn index_file_round_trip() {
    let mut index: Index = Index::new();
    index.insert(b"b.txt".to_vec(), IndexEntry { path: b"b.txt".to_vec(), hash: b"22".to_vec() });
    index.insert(b"a.txt".to_vec(), IndexEntry { path: b"a.txt".to_vec(), hash: b"11".to_vec() });
    let text = write_index(&index).unwrap();
    assert_eq!(text, serialize(b"DIRCa.txt\x0011\nb.txt\x0022\n"));
    let back = read_index(&text).unwrap();
    assert_eq!(back.len(), 2);
    assert_eq!(back.get(b"a.txt").unwrap().hash, b"11".to_vec());
    assert_eq!(back.get(b"b.txt").unwrap().path, b"b.txt".to_vec());
    assert_eq!(read_index(b"").unwrap().len(), 0);
    assert_eq!(read_index(&serialize(b"DIRC")).unwrap().len(), 0);
    assert!(matches!(read_index(b"***"), Err(GitError::MalformedIndex)));
    assert!(matches!(read_index(&serialize(b"DIR")), Err(GitError::MalformedIndex)));
    assert!(matches!(read_index(&serialize(b"ABCDa\0b\n")), Err(GitError::MalformedIndex)));
    assert!(matches!(read_index(&serialize(b"DIRCa\n")), Err(GitError::MalformedIndex)));
    assert!(matches!(read_index(&serialize(b"DIRCa\0b\0c\n")), Err(GitError::MalformedIndex)));
}

#[test]
fn working_files_are_classified_by_kind_and_mode() {
    let mut ws = Workspace::new(b"/repo".to_vec());
    let file = |kind, mode, data: &[u8]| WorkFile { kind, mode, data: data.to_vec() };
    ws.files.insert(b"plain".to_vec(), file(FileKind::Regular, 0o644, b"p"));
    ws.files.insert(b"owner".to_vec(), file(FileKind::Regular, 0o744, b"o"));
    ws.files.insert(b"other".to_vec(), file(FileKind::Regular, 0o601, b"o"));
    ws.files.insert(b"link".to_vec(), file(FileKind::Symlink, 0o777, b"plain"));
    ws.files.insert(b"pipe".to_vec(), file(FileKind::Other, 0o644, b""));
    assert_eq!(get_blob_type(&ws, b"plain"), Ok(TreeEntryType::Blob));
    assert_eq!(get_blob_type(&ws, b"owner"), Ok(TreeEntryType::Bexe));
    assert_eq!(get_blob_type(&ws, b"other"), Ok(TreeEntryType::Bexe));
    assert_eq!(get_blob_type(&ws, b"link"), Ok(TreeEntryType::Bsym));
    assert_eq!(get_blob_type(&ws, b"pipe"), Err(GitError::UnsupportedFileType));
    assert_eq!(get_blob_type(&ws, b"absent"), Err(GitError::MissingFile));
    let blob = get_blob_from_file(&ws, b"link").ok().unwrap();
    assert_eq!(blob.data, Some(b"plain".to_vec()));
    assert_eq!(blob.hash, Some(sha1(b"plain")));
    assert!(get_blob_from_file(&ws, b"absent").is_err());
}
