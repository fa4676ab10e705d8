//! Blobs: the content of one file, or the target of one symbolic link.

use crate::error::GitError;
use crate::hash::object_id_of;
use crate::hash::sha1;
use crate::object::encoded_object;
use crate::object::ObjectStore;
use crate::object::ObjectType;
use crate::object::read_object;
use crate::object::store_put;
use crate::object::stored_body;
use crate::object::write_object_result;
use crate::object::write_object;
use crate::tree::TreeEntryType;
use crate::workspace::EXECUTE_BITS;
use crate::workspace::FileKind;
use crate::workspace::WorkFileView;
use crate::workspace::Workspace;
use vstd::prelude::*;

verus! {

/// A blob object: its id, its content, or both.
pub struct Blob {
    pub hash: Option<Vec<u8>>,
    pub data: Option<Vec<u8>>,
}

/// Reading, writing and hashing a blob.
pub trait BlobTrait: Sized {
    /// The id, where it is known.
    spec fn spec_hash(&self) -> Option<Seq<u8>>;

    /// The content, where it is known.
    spec fn spec_data(&self) -> Option<Seq<u8>>;

    /// Fills in the content of the blob kept under the id.
    fn read_blob(&mut self, store: &ObjectStore) -> (r: Result<(), GitError>)
        requires
            store.wf(),
            old(self).spec_hash() is Some,
            old(self).spec_data() is None,
        ensures
            final(self).spec_hash() == old(self).spec_hash(),
            match stored_body(store@, old(self).spec_hash().unwrap(), ObjectType::Blob) {
                Ok(body) => r is Ok && final(self).spec_data() == Some(body),
                Err(e) => r == Err::<(), GitError>(e) && final(self).spec_data() is None,
            },
    ;

    /// Writes the blob to the store under its id, which is computed first
    /// where it is not known.
    fn write_blob(&mut self, store: &mut ObjectStore) -> (r: Result<(), GitError>)
        requires
            old(store).wf(),
            old(self).spec_data() is Some,
        ensures
            final(store).wf(),
            final(self).spec_data() == old(self).spec_data(),
            final(self).spec_hash() == Some(
                match old(self).spec_hash() {
                    Some(id) => id,
                    None => object_id_of(old(self).spec_data().unwrap()),
                },
            ),
            r == write_object_result(
                final(self).spec_hash().unwrap(),
                old(self).spec_data().unwrap().len(),
            ),
            r is Ok ==> final(store)@ == store_put(
                old(store)@,
                final(self).spec_hash().unwrap(),
                encoded_object(ObjectType::Blob, old(self).spec_data().unwrap()),
            ),
            r is Err ==> final(store)@ == old(store)@,
            old(self).spec_hash() is None ==> crate::hash::is_object_id(
                final(self).spec_hash().unwrap(),
            ),
            r is Ok ==> crate::serialize::base64_data(
                encoded_object(ObjectType::Blob, old(self).spec_data().unwrap()),
            ) == Some(crate::object::tag_of(ObjectType::Blob) + old(self).spec_data().unwrap()),
            r is Ok && (old(store)@.contains_key(final(self).spec_hash().unwrap()) ==> old(store)@[final(self).spec_hash().unwrap()] == encoded_object(ObjectType::Blob, old(self).spec_data().unwrap()))
                ==> crate::object::stored_body(
                final(store)@,
                final(self).spec_hash().unwrap(),
                ObjectType::Blob,
            ) == Ok::<Seq<u8>, GitError>(old(self).spec_data().unwrap()),
    ;

    /// Computes the id from the content.
    fn calculate_hash(&mut self)
        requires
            old(self).spec_data() is Some,
        ensures
            final(self).spec_data() == old(self).spec_data(),
            final(self).spec_hash() == Some(object_id_of(old(self).spec_data().unwrap())),
            crate::hash::is_object_id(final(self).spec_hash().unwrap()),
    ;
}

impl BlobTrait for Blob {
    open spec fn spec_hash(&self) -> Option<Seq<u8>> {
        match self.hash {
            Some(h) => Some(h@),
            None => None,
        }
    }

    open spec fn spec_data(&self) -> Option<Seq<u8>> {
        match self.data {
            Some(d) => Some(d@),
            None => None,
        }
    }

    fn read_blob(&mut self, store: &ObjectStore) -> (r: Result<(), GitError>) {
        let r = match &self.hash {
            Some(h) => read_object(store, h.as_slice(), ObjectType::Blob),
            None => Err(GitError::BrokenObject),
        };
        match r {
            Ok(body) => {
                self.data = Some(body);
                Ok(())
            },
            Err(e) => Err(e),
        }
    }

    fn write_blob(&mut self, store: &mut ObjectStore) -> (r: Result<(), GitError>) {
        if self.hash.is_none() {
            self.calculate_hash();
        }
        match (&self.hash, &self.data) {
            (Some(h), Some(d)) => write_object(
                store,
                h.as_slice(),
                ObjectType::Blob,
                d.as_slice(),
            ),
            _ => Err(GitError::BrokenObject),
        }
    }

    fn calculate_hash(&mut self) {
        let id = match &self.data {
            Some(d) => sha1(d.as_slice()),
            None => Vec::new(),
        };
        self.hash = Some(id);
    }
}

/// The content of the blob kept under `id`.
pub fn read_blob_data(store: &ObjectStore, id: &[u8]) -> (r: Result<Vec<u8>, GitError>)
    requires
        store.wf(),
    ensures
        match r {
            Ok(body) => stored_body(store@, id@, ObjectType::Blob) == Ok::<Seq<u8>, GitError>(
                body@,
            ),
            Err(e) => stored_body(store@, id@, ObjectType::Blob) == Err::<Seq<u8>, GitError>(e),
        },
{
    read_object(store, id, ObjectType::Blob)
}

/// The kind of tree entry that stands for a working file: a symbolic link,
/// an executable file (one of the three execute bits is set), or a regular
/// file. `UnsupportedFileType` for anything else.
pub open spec fn blob_type_of(file: WorkFileView) -> Result<TreeEntryType, GitError> {
    match file.kind {
        FileKind::Symlink => Ok(TreeEntryType::Bsym),
        FileKind::Regular => if file.mode & EXECUTE_BITS != 0 {
            Ok(TreeEntryType::Bexe)
        } else {
            Ok(TreeEntryType::Blob)
        },
        FileKind::Directory => Err(GitError::UnsupportedFileType),
        FileKind::Other => Err(GitError::UnsupportedFileType),
    }
}

/// The blob of the working file at `file_path`: its content, or its target
/// if it is a symbolic link, with the id of that. `MissingFile` where no
/// file stands there.
pub fn get_blob_from_file(ws: &Workspace, file_path: &[u8]) -> (r: Result<Blob, GitError>)
    requires
        ws.wf(),
    ensures
        match r {
            Ok(blob) => ws.files@.contains_key(file_path@) && blob.spec_data() == Some(
                ws.files@[file_path@].data,
            ) && blob.spec_hash() == Some(object_id_of(ws.files@[file_path@].data)),
            Err(e) => e == GitError::MissingFile && !ws.files@.contains_key(file_path@),
        },
{
    match ws.files.get(file_path) {
        None => Err(GitError::MissingFile),
        Some(file) => {
            let data = file.data.clone();
            let hash = sha1(data.as_slice());
            Ok(Blob { hash: Some(hash), data: Some(data) })
        },
    }
}

/// The kind of tree entry that stands for the working file at `blob_path`.
/// `MissingFile` where no file stands there.
pub fn get_blob_type(ws: &Workspace, blob_path: &[u8]) -> (r: Result<TreeEntryType, GitError>)
    requires
        ws.wf(),
    ensures
        r == (if ws.files@.contains_key(blob_path@) {
            blob_type_of(ws.files@[blob_path@])
        } else {
            Err(GitError::MissingFile)
        }),
{
    match ws.files.get(blob_path) {
        None => Err(GitError::MissingFile),
        Some(file) => match file.kind {
            FileKind::Symlink => Ok(TreeEntryType::Bsym),
            FileKind::Regular => if file.mode & EXECUTE_BITS != 0 {
                Ok(TreeEntryType::Bexe)
            } else {
                Ok(TreeEntryType::Blob)
            },
            FileKind::Directory => Err(GitError::UnsupportedFileType),
            FileKind::Other => Err(GitError::UnsupportedFileType),
        },
    }
}

} // verus!
