//! Staging: the files below the paths that the user names are hashed and
//! entered into the index, and what is gone from below them leaves it.

use crate::blob::Blob;
use crate::blob::BlobTrait;
use crate::blob::get_blob_from_file;
use crate::bytemap::ByteMap;
use crate::bytemap::ByteSet;
use crate::bytemap::sorted_keys;
use crate::bytemap::strictly_sorted;
use crate::bytes::bytes_eq;
use crate::bytes::seq_views;
use crate::error::GitError;
use crate::hash::object_id_of;
use crate::index::index_keyed;
use crate::index::index_of_text;
use crate::index::index_payload;
use crate::index::Index;
use crate::index::IndexEntry;
use crate::index::index_decodes;
use crate::laws::index_writable;
use crate::index::IndexEntryView;
use crate::index::read_index;
use crate::index::write_index;
use crate::object::encoded_object;
use crate::object::object_sound;
use crate::object::ObjectStore;
use crate::object::ObjectType;
use crate::object::store_extends;
use crate::object::store_put;
use crate::paths::is_subpath_spec;
use crate::paths::is_subpath;
use crate::paths::relative_path_spec;
use crate::paths::relative_path;
use crate::reference::Repository;
use crate::serialize::base64_text;
use crate::serialize::encodable_len;
use crate::workspace::FileKind;
use crate::workspace::git_dir_name;
use crate::workspace::git_dir;
use crate::workspace::WorkFileView;
use crate::workspace::Workspace;
use vstd::prelude::*;

verus! {

/// Whether a file of kind `kind` can be staged: a regular file or a
/// symbolic link.
pub open spec fn is_tracked_kind(kind: FileKind) -> bool {
    kind == FileKind::Regular || kind == FileKind::Symlink
}

/// Whether `p` is a working file at or below `dir`, outside the metadata
/// directory.
pub open spec fn is_below(files: Map<Seq<u8>, WorkFileView>, dir: Seq<u8>, p: Seq<u8>) -> bool {
    files.contains_key(p) && is_subpath_spec(dir, p) && !is_subpath_spec(git_dir_name(), p)
}

/// The working files that naming `rel_path` stands for. The metadata
/// directory stands for none. A file stands for itself, if it can be
/// staged. A directory (a path that is listed as one, or below which files
/// lie) stands for the files at any depth below it that can be staged,
/// where `recursive` holds, and is refused with `DirectoryWithoutRecursion`
/// where not. A path at and below which nothing lies stands for none.
pub open spec fn registered_files(
    files: Map<Seq<u8>, WorkFileView>,
    rel_path: Seq<u8>,
    recursive: bool,
) -> Result<Set<Seq<u8>>, GitError> {
    if rel_path == git_dir_name() {
        Ok(Set::empty())
    } else if files.contains_key(rel_path) && files[rel_path].kind != FileKind::Directory {
        if is_tracked_kind(files[rel_path].kind) {
            Ok(set![rel_path])
        } else {
            Ok(Set::empty())
        }
    } else if !(exists|p: Seq<u8>| is_below(files, rel_path, p)) {
        Ok(Set::empty())
    } else if !recursive {
        Err(GitError::DirectoryWithoutRecursion)
    } else {
        Ok(Set::new(|p: Seq<u8>| is_below(files, rel_path, p) && is_tracked_kind(files[p].kind)))
    }
}

/// Whether a file of kind `kind` can be staged.
fn tracked_kind(kind: FileKind) -> (r: bool)
    ensures
        r == is_tracked_kind(kind),
{
    match kind {
        FileKind::Regular => true,
        FileKind::Symlink => true,
        FileKind::Directory => false,
        FileKind::Other => false,
    }
}

/// Enters the working files that naming `rel_path` stands for into
/// `index`. Where the path is refused, nothing is entered.
#[verifier::rlimit(40)]
pub fn register_files(ws: &Workspace, rel_path: &[u8], index: &mut ByteSet, recursive: bool) -> (r:
    Result<(), GitError>)
    requires
        ws.wf(),
        old(index).wf(),
    ensures
        final(index).wf(),
        match registered_files(ws.files@, rel_path@, recursive) {
            Ok(found) => r is Ok && final(index)@ == old(index)@.union(found),
            Err(e) => r == Err::<(), GitError>(e) && final(index)@ == old(index)@,
        },
{
    let git = git_dir();
    if bytes_eq(rel_path, git.as_slice()) {
        assert(index@ =~= old(index)@.union(Set::empty()));
        return Ok(());
    }
    match ws.files.get(rel_path) {
        Some(file) => {
            match file.kind {
                FileKind::Directory => {},
                _ => {
                    if tracked_kind(file.kind) {
                        index.insert(vstd::slice::slice_to_vec(rel_path));
                        assert(index@ =~= old(index)@.union(set![rel_path@]));
                    } else {
                        assert(index@ =~= old(index)@.union(Set::empty()));
                    }
                    return Ok(());
                },
            }
        },
        None => {},
    }
    let ghost files = ws.files@;
    let ghost keys = ws.files.spec_keys();
    proof {
        ws.files.lemma_view();
    }
    let mut any: bool = false;
    let mut i: usize = 0;
    while i < ws.files.len()
        invariant
            ws.wf(),
            files == ws.files@,
            keys == ws.files.spec_keys(),
            i <= keys.len(),
            git@ == git_dir_name(),
            forall|j: int| 0 <= j < keys.len() ==> files.contains_key(#[trigger] keys[j]),
            any ==> exists|p: Seq<u8>| is_below(files, rel_path@, p),
            !any ==> forall|j: int| 0 <= j < i ==> !is_below(files, rel_path@, #[trigger] keys[j]),
        decreases keys.len() - i,
    {
        let key = ws.files.key_at(i);
        if is_subpath(rel_path, key.as_slice()) && !is_subpath(git.as_slice(), key.as_slice()) {
            proof {
                assert(is_below(files, rel_path@, keys[i as int]));
            }
            any = true;
        }
        i += 1;
    }
    if !any {
        proof {
            assert forall|p: Seq<u8>| !is_below(files, rel_path@, p) by {
                if is_below(files, rel_path@, p) {
                    assert(keys.contains(p));
                    let j = choose|j: int| 0 <= j < keys.len() && keys[j] == p;
                    assert(!is_below(files, rel_path@, keys[j]));
                }
            }
            assert(index@ =~= old(index)@.union(Set::empty()));
        }
        return Ok(());
    }
    if !recursive {
        return Err(GitError::DirectoryWithoutRecursion);
    }
    let ghost found = Set::new(
        |p: Seq<u8>| is_below(files, rel_path@, p) && is_tracked_kind(files[p].kind),
    );
    let mut i: usize = 0;
    while i < ws.files.len()
        invariant
            ws.wf(),
            index.wf(),
            files == ws.files@,
            keys == ws.files.spec_keys(),
            i <= keys.len(),
            git@ == git_dir_name(),
            found == Set::new(
                |p: Seq<u8>| is_below(files, rel_path@, p) && is_tracked_kind(files[p].kind),
            ),
            forall|j: int|
                0 <= j < keys.len() ==> files.contains_key(#[trigger] keys[j]) && files[keys[j]]
                    == ws.files.spec_vals()[j],
            old(index)@.subset_of(index@),
            forall|p: Seq<u8>| #[trigger]
                index@.contains(p) ==> old(index)@.contains(p) || found.contains(p),
            forall|j: int| 0 <= j < i && found.contains(#[trigger] keys[j]) ==> index@.contains(keys[j]),
        decreases keys.len() - i,
    {
        let key = ws.files.key_at(i);
        let file = ws.files.value_at(i);
        if is_subpath(rel_path, key.as_slice()) && !is_subpath(git.as_slice(), key.as_slice())
            && tracked_kind(file.kind) {
            index.insert(key.clone());
        }
        i += 1;
    }
    proof {
        assert forall|p: Seq<u8>| found.contains(p) implies index@.contains(p) by {
            assert(keys.contains(p));
            let j = choose|j: int| 0 <= j < keys.len() && keys[j] == p;
            assert(found.contains(keys[j]));
        }
        assert(index@ =~= old(index)@.union(found));
    }
    Ok(())
}

/// The working files that naming the absolute paths `paths` stands for,
/// and those paths relative to the repository root `root`. An error is
/// that of the first path that does not lie at or below the root
/// (`OutsideRepository`) or is a directory where `recursive` does not hold.
pub open spec fn registered_entries(
    root: Seq<u8>,
    files: Map<Seq<u8>, WorkFileView>,
    paths: Seq<Seq<u8>>,
    recursive: bool,
) -> Result<(Set<Seq<u8>>, Seq<Seq<u8>>), GitError>
    decreases paths.len(),
{
    if paths.len() == 0 {
        Ok((Set::empty(), Seq::empty()))
    } else {
        match registered_entries(root, files, paths.drop_last(), recursive) {
            Err(e) => Err(e),
            Ok(before) => {
                let path = paths.last();
                if !is_subpath_spec(root, path) {
                    Err(GitError::OutsideRepository)
                } else {
                    let rel = relative_path_spec(root, path);
                    match registered_files(files, rel, recursive) {
                        Err(e) => Err(e),
                        Ok(found) => Ok((before.0.union(found), before.1.push(rel))),
                    }
                }
            },
        }
    }
}

/// Where the first paths are refused, the whole is, with the same error.
pub proof fn lemma_registered_entries_error(
    root: Seq<u8>,
    files: Map<Seq<u8>, WorkFileView>,
    paths: Seq<Seq<u8>>,
    recursive: bool,
    k: int,
)
    requires
        0 <= k <= paths.len(),
        registered_entries(root, files, paths.take(k), recursive) is Err,
    ensures
        registered_entries(root, files, paths, recursive) == registered_entries(
            root,
            files,
            paths.take(k),
            recursive,
        ),
    decreases paths.len() - k,
{
    if k == paths.len() {
        assert(paths.take(k) =~= paths);
    } else {
        assert(paths.drop_last().take(k) =~= paths.take(k));
        lemma_registered_entries_error(root, files, paths.drop_last(), recursive, k);
    }
}

/// The working files that naming the absolute paths `files` stands for,
/// and those paths relative to the repository root.
pub fn register_entries(ws: &Workspace, files: &Vec<Vec<u8>>, recursive: bool) -> (r: Result<
    (ByteSet, Vec<Vec<u8>>),
    GitError,
>)
    requires
        ws.wf(),
    ensures
        match r {
            Ok(found) => found.0.wf() && registered_entries(
                ws.root@,
                ws.files@,
                seq_views(files@),
                recursive,
            ) == Ok::<(Set<Seq<u8>>, Seq<Seq<u8>>), GitError>((found.0@, seq_views(found.1@))),
            Err(e) => registered_entries(ws.root@, ws.files@, seq_views(files@), recursive)
                == Err::<(Set<Seq<u8>>, Seq<Seq<u8>>), GitError>(e),
        },
{
    let mut new_entries = ByteSet::new();
    let mut base_entries: Vec<Vec<u8>> = Vec::new();
    let ghost all = seq_views(files@);
    let mut i: usize = 0;
    proof {
        assert(all.take(0) =~= Seq::<Seq<u8>>::empty());
        assert(seq_views(base_entries@) =~= Seq::<Seq<u8>>::empty());
    }
    while i < files.len()
        invariant
            ws.wf(),
            new_entries.wf(),
            i <= files@.len(),
            all == seq_views(files@),
            registered_entries(ws.root@, ws.files@, all.take(i as int), recursive) == Ok::<
                (Set<Seq<u8>>, Seq<Seq<u8>>),
                GitError,
            >((new_entries@, seq_views(base_entries@))),
        decreases files@.len() - i,
    {
        let path = &files[i];
        proof {
            assert(all.take(i + 1).drop_last() =~= all.take(i as int));
            assert(all.take(i + 1).last() == path@);
        }
        if !is_subpath(ws.root.as_slice(), path.as_slice()) {
            proof {
                lemma_registered_entries_error(ws.root@, ws.files@, all, recursive, i + 1);
            }
            return Err(GitError::OutsideRepository);
        }
        let rel = relative_path(ws.root.as_slice(), path.as_slice());
        match register_files(ws, rel.as_slice(), &mut new_entries, recursive) {
            Ok(_) => {},
            Err(e) => {
                proof {
                    lemma_registered_entries_error(ws.root@, ws.files@, all, recursive, i + 1);
                }
                return Err(e);
            },
        }
        proof {
            crate::bytes::lemma_seq_views_push(base_entries@, rel);
        }
        base_entries.push(rel);
        i += 1;
    }
    proof {
        assert(all.take(files@.len() as int) =~= all);
    }
    Ok((new_entries, base_entries))
}

/// Whether `p` lies at or below one of `bases`.
pub open spec fn is_covered(bases: Seq<Seq<u8>>, p: Seq<u8>) -> bool {
    exists|i: int| 0 <= i < bases.len() && is_subpath_spec(#[trigger] bases[i], p)
}

/// The entry of the working file at `p` as it is now.
pub open spec fn fresh_entry(files: Map<Seq<u8>, WorkFileView>, p: Seq<u8>) -> IndexEntryView {
    IndexEntryView { path: p, hash: object_id_of(files[p].data) }
}

/// The index after staging: the files `found` as they are now, and the
/// entries of `old` that lie below none of `bases`.
pub open spec fn staged_index(
    old: Map<Seq<u8>, IndexEntryView>,
    files: Map<Seq<u8>, WorkFileView>,
    found: Set<Seq<u8>>,
    bases: Seq<Seq<u8>>,
) -> Map<Seq<u8>, IndexEntryView> {
    Map::new(
        |p: Seq<u8>| found.contains(p) || (old.contains_key(p) && !is_covered(bases, p)),
        |p: Seq<u8>|
            if found.contains(p) {
                fresh_entry(files, p)
            } else {
                old[p]
            },
    )
}

/// The files of `found` that `old` has not.
pub open spec fn newly_added(
    old: Map<Seq<u8>, IndexEntryView>,
    files: Map<Seq<u8>, WorkFileView>,
    found: Set<Seq<u8>>,
) -> Map<Seq<u8>, IndexEntryView> {
    Map::new(
        |p: Seq<u8>| found.contains(p) && !old.contains_key(p),
        |p: Seq<u8>| fresh_entry(files, p),
    )
}

/// The files of `found` that `old` has with another id.
pub open spec fn newly_modified(
    old: Map<Seq<u8>, IndexEntryView>,
    files: Map<Seq<u8>, WorkFileView>,
    found: Set<Seq<u8>>,
) -> Map<Seq<u8>, IndexEntryView> {
    Map::new(
        |p: Seq<u8>|
            found.contains(p) && old.contains_key(p) && old[p].hash != fresh_entry(files, p).hash,
        |p: Seq<u8>| fresh_entry(files, p),
    )
}

/// The entries of `old` that lie below one of `bases` and are not in
/// `found`.
pub open spec fn newly_removed(
    old: Map<Seq<u8>, IndexEntryView>,
    found: Set<Seq<u8>>,
    bases: Seq<Seq<u8>>,
) -> Map<Seq<u8>, IndexEntryView> {
    Map::new(
        |p: Seq<u8>| old.contains_key(p) && !found.contains(p) && is_covered(bases, p),
        |p: Seq<u8>| old[p],
    )
}

/// What staging comes to: the index after it, and the entries added,
/// removed and modified.
pub struct AddOutcome {
    pub index: Index,
    pub add_log: Index,
    pub remove_log: Index,
    pub modify_log: Index,
}

impl AddOutcome {
    /// The invariant of the four maps.
    pub open spec fn wf(&self) -> bool {
        self.index.wf() && self.add_log.wf() && self.remove_log.wf() && self.modify_log.wf()
    }
}

/// Whether `out` is what staging the files `found` below `bases` comes to,
/// against the index `old`.
pub open spec fn is_add_outcome(
    out: &AddOutcome,
    old: Map<Seq<u8>, IndexEntryView>,
    files: Map<Seq<u8>, WorkFileView>,
    found: Set<Seq<u8>>,
    bases: Seq<Seq<u8>>,
) -> bool {
    &&& out.wf()
    &&& out.index@ == staged_index(old, files, found, bases)
    &&& out.add_log@ == newly_added(old, files, found)
    &&& out.modify_log@ == newly_modified(old, files, found)
    &&& out.remove_log@ == newly_removed(old, found, bases)
}

/// What staging the absolute paths `paths` comes to, against the index
/// with text `text`: an error of `registered_entries` first, then
/// `MalformedIndex`.
pub open spec fn add_core_spec(
    text: Seq<u8>,
    root: Seq<u8>,
    files: Map<Seq<u8>, WorkFileView>,
    paths: Seq<Seq<u8>>,
) -> Result<(Map<Seq<u8>, IndexEntryView>, Set<Seq<u8>>, Seq<Seq<u8>>), GitError> {
    match registered_entries(root, files, paths, true) {
        Err(e) => Err(e),
        Ok(found) => match index_of_text(text) {
            Err(e) => Err(e),
            Ok(old) => Ok((old, found.0, found.1)),
        },
    }
}

/// Whether `p` lies at or below one of `bases`.
fn covered(bases: &Vec<Vec<u8>>, p: &[u8]) -> (r: bool)
    ensures
        r == is_covered(seq_views(bases@), p@),
{
    let ghost all = seq_views(bases@);
    let mut i: usize = 0;
    while i < bases.len()
        invariant
            i <= bases@.len(),
            all == seq_views(bases@),
            forall|j: int| 0 <= j < i ==> !is_subpath_spec(#[trigger] all[j], p@),
        decreases bases@.len() - i,
    {
        proof {
            assert(all[i as int] == bases@[i as int]@);
        }
        if is_subpath(bases[i].as_slice(), p) {
            return true;
        }
        i += 1;
    }
    false
}

/// Stages the files below the absolute paths `files`: each is hashed as it
/// is now, and the index gets its entry; an entry of the index that lies
/// below one of the paths and has no working file any more leaves it.
/// Nothing is written: the result holds the index after staging, and what
/// was added, removed and modified.
#[verifier::rlimit(40)]
pub fn add_core(repo: &Repository, ws: &Workspace, files: &Vec<Vec<u8>>) -> (r: Result<
    AddOutcome,
    GitError,
>)
    requires
        repo.wf(),
        ws.wf(),
    ensures
        match add_core_spec(repo.index@, ws.root@, ws.files@, seq_views(files@)) {
            Err(e) => r == Err::<AddOutcome, GitError>(e),
            Ok(s) => r is Ok && is_add_outcome(&r.unwrap(), s.0, ws.files@, s.1, s.2),
        },
        r matches Ok(out) ==> index_keyed(out.index@),
{
    let (new_entries, base_entries) = match register_entries(ws, files, true) {
        Ok(found) => found,
        Err(e) => {
            return Err(e);
        },
    };
    let mut index = match read_index(repo.index.as_slice()) {
        Ok(index) => index,
        Err(e) => {
            return Err(e);
        },
    };
    let ghost old = index@;
    let ghost wfiles = ws.files@;
    let ghost found = new_entries@;
    let ghost bases = seq_views(base_entries@);
    let ghost members = new_entries.spec_members();
    let mut add_log: Index = ByteMap::new();
    let mut remove_log: Index = ByteMap::new();
    let mut modify_log: Index = ByteMap::new();
    proof {
        new_entries.lemma_members();
        lemma_found_are_files(ws.root@, wfiles, seq_views(files@), true);
    }
    let mut i: usize = 0;
    while i < new_entries.len()
        invariant
            ws.wf(),
            new_entries.wf(),
            index.wf(),
            add_log.wf(),
            modify_log.wf(),
            wfiles == ws.files@,
            found == new_entries@,
            members == new_entries.spec_members(),
            i <= members.len(),
            index_keyed(old),
            forall|p: Seq<u8>| found.contains(p) ==> #[trigger] wfiles.contains_key(p),
            forall|j: int| 0 <= j < members.len() ==> found.contains(#[trigger] members[j]),
            strictly_sorted(members),
            forall|p: Seq<u8>| #[trigger]
                index@.contains_key(p) ==> old.contains_key(p) || found.contains(p),
            forall|p: Seq<u8>| old.contains_key(p) ==> #[trigger] index@.contains_key(p),
            forall|j: int|
                0 <= j < i ==> index@.contains_key(#[trigger] members[j]) && index@[members[j]]
                    == fresh_entry(wfiles, members[j]),
            forall|j: int|
                i <= j < members.len() && index@.contains_key(#[trigger] members[j])
                    ==> old.contains_key(members[j]) && index@[members[j]] == old[members[j]],
            forall|p: Seq<u8>| #[trigger]
                index@.contains_key(p) && !found.contains(p) ==> index@[p] == old[p],
            forall|p: Seq<u8>| #[trigger]
                add_log@.contains_key(p) ==> newly_added(old, wfiles, found).contains_key(p)
                    && add_log@[p] == fresh_entry(wfiles, p),
            forall|p: Seq<u8>| #[trigger]
                modify_log@.contains_key(p) ==> newly_modified(old, wfiles, found).contains_key(p)
                    && modify_log@[p] == fresh_entry(wfiles, p),
            forall|j: int|
                0 <= j < i && newly_added(old, wfiles, found).contains_key(#[trigger] members[j])
                    ==> add_log@.contains_key(members[j]),
            forall|j: int|
                0 <= j < i && newly_modified(old, wfiles, found).contains_key(
                    #[trigger] members[j],
                ) ==> modify_log@.contains_key(members[j]),
        decreases members.len() - i,
    {
        let path = new_entries.member_at(i);
        proof {
            assert(found.contains(members[i as int]));
            assert(wfiles.contains_key(path@));
        }
        let hash = match get_blob_from_file(ws, path.as_slice()) {
            Ok(blob) => match blob.hash {
                Some(hash) => hash,
                None => Vec::new(),
            },
            Err(_) => Vec::new(),
        };
        let known = match index.get(path.as_slice()) {
            None => None,
            Some(old_entry) => Some(bytes_eq(old_entry.hash.as_slice(), hash.as_slice())),
        };
        proof {
            assert(members[i as int] == path@);
            assert forall|j: int| i < j < members.len() implies members[j] != path@ by {
                crate::bytes::lemma_lex_asymmetric(members[i as int], members[j]);
            }
            assert forall|j: int| 0 <= j < i implies members[j] != path@ by {
                crate::bytes::lemma_lex_asymmetric(members[j], members[i as int]);
            }
        }
        match known {
            None => {
                add_log.insert(path.clone(), IndexEntry { path: path.clone(), hash: hash.clone() });
                index.insert(path.clone(), IndexEntry { path: path.clone(), hash });
            },
            Some(same) => {
                if !same {
                    modify_log.insert(
                        path.clone(),
                        IndexEntry { path: path.clone(), hash: hash.clone() },
                    );
                    index.insert(path.clone(), IndexEntry { path: path.clone(), hash });
                } else {
                    proof {
                        assert(old.contains_key(path@));
                        assert(index@[path@] == old[path@]);
                        assert(old[path@].path == path@);
                        assert(index@[path@] == fresh_entry(wfiles, path@));
                    }
                }
            },
        }
        i += 1;
    }
    proof {
        assert forall|p: Seq<u8>| found.contains(p) implies index@.contains_key(p) && index@[p]
            == fresh_entry(wfiles, p) by {
            assert(members.contains(p));
            let j = choose|j: int| 0 <= j < members.len() && members[j] == p;
            assert(index@.contains_key(members[j]));
        }
        assert forall|p: Seq<u8>| newly_added(old, wfiles, found).contains_key(
            p,
        ) implies add_log@.contains_key(p) by {
            assert(members.contains(p));
            let j = choose|j: int| 0 <= j < members.len() && members[j] == p;
            assert(newly_added(old, wfiles, found).contains_key(members[j]));
        }
        assert forall|p: Seq<u8>| newly_modified(old, wfiles, found).contains_key(
            p,
        ) implies modify_log@.contains_key(p) by {
            assert(members.contains(p));
            let j = choose|j: int| 0 <= j < members.len() && members[j] == p;
            assert(newly_modified(old, wfiles, found).contains_key(members[j]));
        }
        assert(add_log@ =~= newly_added(old, wfiles, found));
        assert(modify_log@ =~= newly_modified(old, wfiles, found));
    }
    let ghost mid = index@;
    let ghost mkeys = index.spec_keys();
    let mut kept: Index = ByteMap::new();
    proof {
        index.lemma_view();
    }
    let mut i: usize = 0;
    while i < index.len()
        invariant
            index.wf(),
            kept.wf(),
            remove_log.wf(),
            new_entries.wf(),
            found == new_entries@,
            bases == seq_views(base_entries@),
            mid == index@,
            mkeys == index.spec_keys(),
            i <= mkeys.len(),
            forall|p: Seq<u8>| found.contains(p) ==> #[trigger] mid.contains_key(p) && mid[p]
                == fresh_entry(wfiles, p),
            forall|p: Seq<u8>| #[trigger]
                mid.contains_key(p) && !found.contains(p) ==> old.contains_key(p) && mid[p]
                    == old[p],
            forall|p: Seq<u8>| old.contains_key(p) ==> #[trigger] mid.contains_key(p),
            forall|k: Seq<u8>| mid.contains_key(k) <==> #[trigger] mkeys.contains(k),
            forall|j: int|
                0 <= j < mkeys.len() ==> mid.contains_key(#[trigger] mkeys[j]) && mid[mkeys[j]]
                    == index.spec_vals()[j],
            forall|p: Seq<u8>| #[trigger]
                kept@.contains_key(p) ==> mid.contains_key(p) && kept@[p] == mid[p] && (
                found.contains(p) || !is_covered(bases, p)),
            forall|p: Seq<u8>| #[trigger]
                remove_log@.contains_key(p) ==> mid.contains_key(p) && remove_log@[p] == mid[p]
                    && !found.contains(p) && is_covered(bases, p),
            forall|j: int|
                0 <= j < i ==> (kept@.contains_key(#[trigger] mkeys[j]) || remove_log@.contains_key(
                    mkeys[j],
                )),
        decreases mkeys.len() - i,
    {
        let path = index.key_at(i);
        let entry = index.value_at(i);
        proof {
            assert(mid.contains_key(mkeys[i as int]));
        }
        if !new_entries.contains(path.as_slice()) && covered(&base_entries, path.as_slice()) {
            remove_log.insert(path.clone(), entry.duplicate());
        } else {
            kept.insert(path.clone(), entry.duplicate());
        }
        i += 1;
    }
    proof {
        assert forall|p: Seq<u8>| mid.contains_key(p) implies (kept@.contains_key(p)
            || remove_log@.contains_key(p)) by {
            assert(mkeys.contains(p));
            let j = choose|j: int| 0 <= j < mkeys.len() && mkeys[j] == p;
            assert(kept@.contains_key(mkeys[j]) || remove_log@.contains_key(mkeys[j]));
        }
        let target = staged_index(old, wfiles, found, bases);
        assert forall|p: Seq<u8>| target.contains_key(p) implies kept@.contains_key(p) by {
            if !found.contains(p) {
                assert(old.contains_key(p));
            }
            assert(mid.contains_key(p));
            assert(kept@.contains_key(p) || remove_log@.contains_key(p));
        }
        assert forall|p: Seq<u8>| kept@.contains_key(p) implies target.contains_key(p) && kept@[p]
            == target[p] by {
            assert(mid.contains_key(p));
        }
        assert(kept@ =~= target);
        let gone = newly_removed(old, found, bases);
        assert forall|p: Seq<u8>| gone.contains_key(p) implies remove_log@.contains_key(p) by {
            assert(old.contains_key(p));
            assert(mid.contains_key(p));
            assert(kept@.contains_key(p) || remove_log@.contains_key(p));
        }
        assert forall|p: Seq<u8>| remove_log@.contains_key(p) implies gone.contains_key(p)
            && remove_log@[p] == gone[p] by {
            assert(mid.contains_key(p));
        }
        assert(remove_log@ =~= gone);
        assert(index_keyed(target));
    }
    Ok(AddOutcome { index: kept, add_log, remove_log, modify_log })
}

/// Every file that naming paths stands for is a working file.
pub proof fn lemma_found_are_files(
    root: Seq<u8>,
    files: Map<Seq<u8>, WorkFileView>,
    paths: Seq<Seq<u8>>,
    recursive: bool,
)
    requires
        registered_entries(root, files, paths, recursive) is Ok,
    ensures
        forall|p: Seq<u8>|
            registered_entries(root, files, paths, recursive).unwrap().0.contains(p)
                ==> #[trigger] files.contains_key(p),
    decreases paths.len(),
{
    if paths.len() > 0 {
        lemma_found_are_files(root, files, paths.drop_last(), recursive);
    }
}

/// The store after the blobs of the working files at `paths` were written,
/// in order, and whether all of them could be encoded.
pub open spec fn blobs_written(
    store: Map<Seq<u8>, Seq<u8>>,
    files: Map<Seq<u8>, WorkFileView>,
    paths: Seq<Seq<u8>>,
) -> (Map<Seq<u8>, Seq<u8>>, bool)
    decreases paths.len(),
{
    if paths.len() == 0 {
        (store, true)
    } else {
        let before = blobs_written(store, files, paths.drop_last());
        let data = files[paths.last()].data;
        (
            store_put(before.0, object_id_of(data), encoded_object(ObjectType::Blob, data)),
            before.1 && encodable_len(data.len() + 4),
        )
    }
}

/// Whether the blob of each of the working files at `paths` comes back from
/// under its id once it is kept there.
pub open spec fn blobs_sound(files: Map<Seq<u8>, WorkFileView>, paths: Set<Seq<u8>>) -> bool {
    forall|p: Seq<u8>| #[trigger]
        paths.contains(p) ==> object_sound(
            object_id_of(files[p].data),
            ObjectType::Blob,
            files[p].data,
        )
}

/// Where the first blobs cannot all be encoded, the whole cannot.
pub proof fn lemma_blobs_written_prefix(
    store: Map<Seq<u8>, Seq<u8>>,
    files: Map<Seq<u8>, WorkFileView>,
    paths: Seq<Seq<u8>>,
    k: int,
)
    requires
        0 <= k <= paths.len(),
        !blobs_written(store, files, paths.take(k)).1,
    ensures
        !blobs_written(store, files, paths).1,
    decreases paths.len() - k,
{
    if k == paths.len() {
        assert(paths.take(k) =~= paths);
    } else {
        assert(paths.drop_last().take(k) =~= paths.take(k));
        lemma_blobs_written_prefix(store, files, paths.drop_last(), k);
    }
}

/// The store after the blobs of the working files at `paths` were written,
/// in order, up to the first that cannot be encoded.
pub open spec fn blobs_kept(
    store: Map<Seq<u8>, Seq<u8>>,
    files: Map<Seq<u8>, WorkFileView>,
    paths: Seq<Seq<u8>>,
) -> Map<Seq<u8>, Seq<u8>>
    decreases paths.len(),
{
    if paths.len() == 0 {
        store
    } else {
        let before = blobs_written(store, files, paths.drop_last());
        if !before.1 {
            blobs_kept(store, files, paths.drop_last())
        } else if encodable_len(files[paths.last()].data.len() + 4) {
            blobs_written(store, files, paths).0
        } else {
            before.0
        }
    }
}

/// Where the first `k` blobs can be encoded and the next cannot, the first
/// `k` are kept.
pub proof fn lemma_blobs_kept(
    store: Map<Seq<u8>, Seq<u8>>,
    files: Map<Seq<u8>, WorkFileView>,
    paths: Seq<Seq<u8>>,
    k: int,
)
    requires
        0 <= k < paths.len(),
        blobs_written(store, files, paths.take(k)).1,
        !encodable_len(files[paths[k]].data.len() + 4),
    ensures
        blobs_kept(store, files, paths) == blobs_written(store, files, paths.take(k)).0,
    decreases paths.len(),
{
    let init = paths.drop_last();
    if paths.len() == k + 1 {
        assert(init =~= paths.take(k));
    } else {
        assert(init.take(k) =~= paths.take(k));
        assert(init.take(k + 1) =~= paths.take(k + 1));
        assert(paths.take(k + 1).drop_last() =~= paths.take(k));
        assert(!blobs_written(store, files, init.take(k + 1)).1);
        lemma_blobs_written_prefix(store, files, init, k + 1);
        lemma_blobs_kept(store, files, init, k);
    }
}

/// Writes the blob of the working file of every entry of `log`, in the
/// order of the paths. `TooLarge` where one of them cannot be encoded; the
/// store then holds those written before it.
pub fn write_blobs(store: &mut ObjectStore, ws: &Workspace, log: &Index) -> (r: Result<(), GitError>)
    requires
        old(store).wf(),
        ws.wf(),
        log.wf(),
        forall|p: Seq<u8>| #[trigger] log@.contains_key(p) ==> ws.files@.contains_key(p),
    ensures
        final(store).wf(),
        store_extends(old(store)@, final(store)@),
        ({
            let written = blobs_written(old(store)@, ws.files@, sorted_keys(log@.dom()));
            if written.1 {
                r is Ok && final(store)@ == written.0 && blobs_sound(ws.files@, log@.dom())
            } else {
                r == Err::<(), GitError>(GitError::TooLarge) && final(store)@ == blobs_kept(
                    old(store)@,
                    ws.files@,
                    sorted_keys(log@.dom()),
                )
            }
        }),
{
    let ghost keys = log.spec_keys();
    let ghost start = store@;
    proof {
        log.lemma_view();
        log.lemma_canonical();
        assert(keys.take(0) =~= Seq::<Seq<u8>>::empty());
    }
    let mut i: usize = 0;
    while i < log.len()
        invariant
            store.wf(),
            ws.wf(),
            log.wf(),
            keys == log.spec_keys(),
            keys == sorted_keys(log@.dom()),
            start == old(store)@,
            i <= keys.len(),
            store_extends(start, store@),
            forall|j: int| 0 <= j < keys.len() ==> ws.files@.contains_key(#[trigger] keys[j]),
            blobs_written(start, ws.files@, keys.take(i as int)) == (store@, true),
            forall|j: int|
                0 <= j < i ==> object_sound(
                    object_id_of(ws.files@[#[trigger] keys[j]].data),
                    ObjectType::Blob,
                    ws.files@[keys[j]].data,
                ),
        decreases keys.len() - i,
    {
        let path = log.key_at(i);
        proof {
            assert(keys.take(i + 1).drop_last() =~= keys.take(i as int));
            assert(keys.take(i + 1).last() == path@);
            assert(ws.files@.contains_key(keys[i as int]));
        }
        let data = match ws.files.get(path.as_slice()) {
            Some(file) => file.data.clone(),
            None => Vec::new(),
        };
        let mut blob = Blob { hash: None, data: Some(data) };
        match blob.write_blob(store) {
            Ok(_) => {},
            Err(e) => {
                proof {
                    lemma_blobs_written_prefix(start, ws.files@, keys, i + 1);
                    lemma_blobs_kept(start, ws.files@, keys, i as int);
                }
                return Err(GitError::TooLarge);
            },
        }
        i += 1;
    }
    proof {
        assert(keys.take(keys.len() as int) =~= keys);
        assert forall|p: Seq<u8>| #[trigger] log@.dom().contains(p) implies object_sound(
            object_id_of(ws.files@[p].data),
            ObjectType::Blob,
            ws.files@[p].data,
        ) by {
            assert(keys.contains(p));
            let j = choose|j: int| 0 <= j < keys.len() && keys[j] == p;
            assert(keys[j] == p);
        }
    }
    Ok(())
}

/// The entries of `index` in the order of their paths.
pub open spec fn index_entries(index: Map<Seq<u8>, IndexEntryView>) -> Seq<IndexEntryView> {
    crate::bytemap::values_of(index, sorted_keys(index.dom()))
}

/// Whether `r`, `objects` and `text` are what `add` comes to for the
/// staging `s`: the blobs of the files added are written, then those of the
/// files modified, each of which comes back from under its id unless
/// something else was kept there; then the index, whose text is read as it
/// was written: as the staged index, where every entry of it can stand in
/// a line. `TooLarge` where a blob or the index cannot be encoded; the
/// index file is then as it was, and the store holds the blobs written
/// before the one that cannot be encoded.
pub open spec fn is_add_result(
    old_objects: Map<Seq<u8>, Seq<u8>>,
    old_text: Seq<u8>,
    files: Map<Seq<u8>, WorkFileView>,
    s: (Map<Seq<u8>, IndexEntryView>, Set<Seq<u8>>, Seq<Seq<u8>>),
    r: Result<AddOutcome, GitError>,
    objects: Map<Seq<u8>, Seq<u8>>,
    text: Seq<u8>,
) -> bool {
    let added = blobs_written(old_objects, files, sorted_keys(newly_added(s.0, files, s.1).dom()));
    let modified = blobs_written(
        added.0,
        files,
        sorted_keys(newly_modified(s.0, files, s.1).dom()),
    );
    let payload = index_payload(index_entries(staged_index(s.0, files, s.1, s.2)));
    if !added.1 {
        r == Err::<AddOutcome, GitError>(GitError::TooLarge) && text == old_text && objects
            == blobs_kept(old_objects, files, sorted_keys(newly_added(s.0, files, s.1).dom()))
    } else if !modified.1 {
        r == Err::<AddOutcome, GitError>(GitError::TooLarge) && text == old_text && objects
            == blobs_kept(added.0, files, sorted_keys(newly_modified(s.0, files, s.1).dom()))
    } else if !encodable_len(payload.len()) {
        r == Err::<AddOutcome, GitError>(GitError::TooLarge) && text == old_text && objects
            == modified.0
    } else {
        r is Ok && is_add_outcome(&r.unwrap(), s.0, files, s.1, s.2) && objects == modified.0
            && blobs_sound(files, newly_added(s.0, files, s.1).dom()) && blobs_sound(
            files,
            newly_modified(s.0, files, s.1).dom(),
        ) && text == base64_text(payload) && index_decodes(
            index_entries(staged_index(s.0, files, s.1, s.2)),
        ) && (index_writable(staged_index(s.0, files, s.1, s.2)) ==> index_of_text(text) == Ok::<
            Map<Seq<u8>, IndexEntryView>,
            GitError,
        >(staged_index(s.0, files, s.1, s.2)))
    }
}

/// Stages the files below the absolute paths `files`, as `add_core` does,
/// writes the blobs of the files added and modified, and then the index.
/// Where staging fails, nothing is changed.
pub fn add(repo: &mut Repository, ws: &Workspace, files: &Vec<Vec<u8>>) -> (r: Result<
    AddOutcome,
    GitError,
>)
    requires
        old(repo).wf(),
        ws.wf(),
    ensures
        final(repo).wf(),
        final(repo).heads == old(repo).heads,
        final(repo).head == old(repo).head,
        store_extends(old(repo).objects@, final(repo).objects@),
        match add_core_spec(old(repo).index@, ws.root@, ws.files@, seq_views(files@)) {
            Err(e) => r == Err::<AddOutcome, GitError>(e) && final(repo).objects@ == old(repo).objects@ && final(repo).index@ == old(repo).index@,
            Ok(s) => is_add_result(
                old(repo).objects@,
                old(repo).index@,
                ws.files@,
                s,
                r,
                final(repo).objects@,
                final(repo).index@,
            ),
        },
{
    let out = match add_core(repo, ws, files) {
        Ok(out) => out,
        Err(e) => {
            return Err(e);
        },
    };
    proof {
        lemma_found_are_files(ws.root@, ws.files@, seq_views(files@), true);
        out.index.lemma_canonical();
    }
    match write_blobs(&mut repo.objects, ws, &out.add_log) {
        Ok(_) => {},
        Err(e) => {
            return Err(e);
        },
    }
    match write_blobs(&mut repo.objects, ws, &out.modify_log) {
        Ok(_) => {},
        Err(e) => {
            return Err(e);
        },
    }
    let text = match write_index(&out.index) {
        Ok(text) => text,
        Err(e) => {
            return Err(e);
        },
    };
    repo.index = text;
    Ok(out)
}

} // verus!
