//! Unstaging: the files below the paths that the user names leave the
//! index, and the working directory too unless told otherwise.

use crate::bytemap::ByteMap;
use crate::bytes::bytes_eq;
use crate::bytes::seq_views;
use crate::commands::add::index_entries;
use crate::commands::add::register_entries;
use crate::commands::add::registered_entries;
use crate::error::GitError;
use crate::index::index_of_text;
use crate::index::index_payload;
use crate::index::Index;
use crate::index::index_decodes;
use crate::laws::index_writable;
use crate::index::IndexEntryView;
use crate::index::read_index;
use crate::index::write_index;
use crate::paths::is_subpath_spec;
use crate::paths::is_subpath;
use crate::reference::Repository;
use crate::serialize::base64_text;
use crate::serialize::encodable_len;
use crate::workspace::git_dir_name;
use crate::workspace::git_dir;
use crate::workspace::WorkFile;
use crate::workspace::WorkFileView;
use crate::workspace::Workspace;
use vstd::prelude::*;

verus! {

/// Whether the working file at `p` goes when the paths `bases` are removed:
/// it lies at or below one of them. The metadata directory is never
/// removed.
pub open spec fn is_unlinked(bases: Seq<Seq<u8>>, p: Seq<u8>) -> bool {
    exists|i: int|
        0 <= i < bases.len() && (#[trigger] bases[i]) != git_dir_name() && is_subpath_spec(
            bases[i],
            p,
        )
}

/// The working files after the paths `bases` were removed.
pub open spec fn files_after_remove(
    files: Map<Seq<u8>, WorkFileView>,
    bases: Seq<Seq<u8>>,
    cached: bool,
) -> Map<Seq<u8>, WorkFileView> {
    if cached {
        files
    } else {
        Map::new(|p: Seq<u8>| files.contains_key(p) && !is_unlinked(bases, p), |p: Seq<u8>| files[p])
    }
}

/// What removing comes to: the entries that left the index.
pub struct RemoveOutcome {
    pub remove_log: Index,
}

/// What `remove` comes to: an error of the index comes first, then one of
/// the paths; then `TooLarge` where the index cannot be encoded; else the
/// entries that leave the index, the working files after it, and the text
/// of the index file.
pub open spec fn remove_spec(
    text: Seq<u8>,
    root: Seq<u8>,
    files: Map<Seq<u8>, WorkFileView>,
    paths: Seq<Seq<u8>>,
    recursive: bool,
    cached: bool,
) -> Result<(Map<Seq<u8>, IndexEntryView>, Map<Seq<u8>, WorkFileView>, Seq<u8>), GitError> {
    match index_of_text(text) {
        Err(e) => Err(e),
        Ok(index) => match registered_entries(root, files, paths, recursive) {
            Err(e) => Err(e),
            Ok(found) => {
                let payload = index_payload(index_entries(index.remove_keys(found.0)));
                if !encodable_len(payload.len()) {
                    Err(GitError::TooLarge)
                } else {
                    Ok(
                        (
                            index.restrict(found.0),
                            files_after_remove(files, found.1, cached),
                            base64_text(payload),
                        ),
                    )
                }
            },
        },
    }
}

/// The index after `remove`, where it succeeds: what the index file held,
/// without the entries found below the paths.
pub open spec fn index_after_remove(
    text: Seq<u8>,
    root: Seq<u8>,
    files: Map<Seq<u8>, WorkFileView>,
    paths: Seq<Seq<u8>>,
    recursive: bool,
) -> Map<Seq<u8>, IndexEntryView> {
    index_of_text(text).unwrap().remove_keys(
        registered_entries(root, files, paths, recursive).unwrap().0,
    )
}

/// Whether the working file at `p` goes when the paths `bases` are removed.
fn unlinked(bases: &Vec<Vec<u8>>, p: &[u8]) -> (r: bool)
    ensures
        r == is_unlinked(seq_views(bases@), p@),
{
    let git = git_dir();
    let ghost all = seq_views(bases@);
    let mut i: usize = 0;
    while i < bases.len()
        invariant
            i <= bases@.len(),
            all == seq_views(bases@),
            git@ == git_dir_name(),
            forall|j: int|
                0 <= j < i ==> !((#[trigger] all[j]) != git_dir_name() && is_subpath_spec(
                    all[j],
                    p@,
                )),
        decreases bases@.len() - i,
    {
        proof {
            assert(all[i as int] == bases@[i as int]@);
        }
        if !bytes_eq(bases[i].as_slice(), git.as_slice()) && is_subpath(bases[i].as_slice(), p) {
            return true;
        }
        i += 1;
    }
    false
}

/// Takes the files below the absolute paths `files` out of the index, and
/// out of the working directory unless `cached` holds. A directory is
/// taken only where `recursive` holds. Where the command fails, nothing is
/// changed; where it succeeds, the text of the index file is read as it was
/// written.
#[verifier::rlimit(40)]
pub fn remove(
    repo: &mut Repository,
    ws: &mut Workspace,
    files: &Vec<Vec<u8>>,
    recursive: bool,
    cached: bool,
) -> (r: Result<RemoveOutcome, GitError>)
    requires
        old(repo).wf(),
        old(ws).wf(),
    ensures
        final(repo).wf(),
        final(ws).wf(),
        final(ws).root == old(ws).root,
        final(repo).objects == old(repo).objects,
        final(repo).heads == old(repo).heads,
        final(repo).head == old(repo).head,
        match remove_spec(
            old(repo).index@,
            old(ws).root@,
            old(ws).files@,
            seq_views(files@),
            recursive,
            cached,
        ) {
            Err(e) => r matches Err(x) && x == e && final(repo).index@ == old(repo).index@
                && final(ws).files@ == old(ws).files@,
            Ok(s) => r matches Ok(out) && out.remove_log.wf() && out.remove_log@ == s.0 && final(ws).files@ == s.1 && final(repo).index@ == s.2,
        },
        r is Ok ==> ({
            let index = index_after_remove(
                old(repo).index@,
                old(ws).root@,
                old(ws).files@,
                seq_views(files@),
                recursive,
            );
            &&& index_decodes(index_entries(index))
            &&& index_writable(index) ==> index_of_text(final(repo).index@) == Ok::<
                Map<Seq<u8>, IndexEntryView>,
                GitError,
            >(index)
        }),
{
    let mut index = match read_index(repo.index.as_slice()) {
        Ok(index) => index,
        Err(e) => {
            return Err(e);
        },
    };
    let ghost old_index = index@;
    let (rm_entries, bases) = match register_entries(ws, files, recursive) {
        Ok(found) => found,
        Err(e) => {
            return Err(e);
        },
    };
    let ghost found = rm_entries@;
    let ghost members = rm_entries.spec_members();
    let mut remove_log: Index = ByteMap::new();
    proof {
        rm_entries.lemma_members();
    }
    let mut i: usize = 0;
    while i < rm_entries.len()
        invariant
            rm_entries.wf(),
            index.wf(),
            remove_log.wf(),
            found == rm_entries@,
            members == rm_entries.spec_members(),
            i <= members.len(),
            forall|j: int| 0 <= j < members.len() ==> found.contains(#[trigger] members[j]),
            index@ == old_index.remove_keys(members.take(i as int).to_set()),
            remove_log@ == old_index.restrict(members.take(i as int).to_set()),
        decreases members.len() - i,
    {
        let path = rm_entries.member_at(i);
        proof {
            let done = members.take(i as int).to_set();
            let next = members.take(i + 1).to_set();
            assert(members.take(i + 1) =~= members.take(i as int).push(members[i as int]));
            members.take(i as int).lemma_push_to_set_commute(members[i as int]);
            assert(next =~= done.insert(members[i as int]));
        }
        let entry = match index.get(path.as_slice()) {
            Some(entry) => Some(entry.duplicate()),
            None => None,
        };
        match entry {
            Some(entry) => {
                proof {
                    assert(old_index.contains_key(path@));
                }
                remove_log.insert(path.clone(), entry);
            },
            None => {},
        }
        index.remove(path.as_slice());
        proof {
            let next = members.take(i + 1).to_set();
            assert(index@ =~= old_index.remove_keys(next));
            assert(remove_log@ =~= old_index.restrict(next));
        }
        i += 1;
    }
    proof {
        assert(members.take(members.len() as int) =~= members);
        assert(members.to_set() =~= found);
        index.lemma_canonical();
    }
    let text = match write_index(&index) {
        Ok(text) => text,
        Err(e) => {
            return Err(e);
        },
    };
    if !cached {
        let mut kept: ByteMap<WorkFile> = ByteMap::new();
        let ghost wfiles = ws.files@;
        let ghost keys = ws.files.spec_keys();
        proof {
            ws.files.lemma_view();
        }
        let mut i: usize = 0;
        while i < ws.files.len()
            invariant
                ws.wf(),
                kept.wf(),
                wfiles == ws.files@,
                keys == ws.files.spec_keys(),
                i <= keys.len(),
                forall|j: int|
                    0 <= j < keys.len() ==> wfiles.contains_key(#[trigger] keys[j])
                        && wfiles[keys[j]] == ws.files.spec_vals()[j],
                forall|k: Seq<u8>| wfiles.contains_key(k) <==> #[trigger] keys.contains(k),
                forall|p: Seq<u8>| #[trigger]
                    kept@.contains_key(p) ==> wfiles.contains_key(p) && kept@[p] == wfiles[p]
                        && !is_unlinked(seq_views(bases@), p),
                forall|j: int|
                    0 <= j < i && !is_unlinked(seq_views(bases@), #[trigger] keys[j])
                        ==> kept@.contains_key(keys[j]),
            decreases keys.len() - i,
        {
            let key = ws.files.key_at(i);
            if !unlinked(&bases, key.as_slice()) {
                kept.insert(key.clone(), ws.files.value_at(i).duplicate());
            }
            i += 1;
        }
        proof {
            let target = files_after_remove(wfiles, seq_views(bases@), cached);
            assert forall|p: Seq<u8>| target.contains_key(p) implies kept@.contains_key(p) by {
                assert(keys.contains(p));
                let j = choose|j: int| 0 <= j < keys.len() && keys[j] == p;
                assert(kept@.contains_key(keys[j]));
            }
            assert(kept@ =~= target);
        }
        ws.files = kept;
    }
    repo.index = text;
    Ok(RemoveOutcome { remove_log })
}

} // verus!
