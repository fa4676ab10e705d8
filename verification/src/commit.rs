//! Commits: a message, its author and time, the id of a root tree, and the
//! ids of the parent commits.
//!
//! The body of a commit object holds the five fields with a zero byte
//! between them; the last field holds the parents with `&` between them.
//! The first commit of a history has one parent, the empty id. The id of a
//! commit is the hash of its first four fields: the parents take no part.

use crate::bytes::append;
use crate::bytes::has_byte;
use crate::bytes::seq_views;
use crate::bytes::split_spec;
use crate::bytes::split;
use crate::error::GitError;
use crate::hash::object_id_of;
use crate::hash::sha1;
use crate::object::encoded_object;
use crate::object::ObjectStore;
use crate::object::ObjectType;
use crate::object::read_object;
use crate::object::store_put;
use crate::object::stored_body;
use crate::object::write_object_result;
use crate::object::write_object;
use crate::paths::join_spec;
use crate::paths::join;
use vstd::prelude::*;

verus! {

/// The byte between the ids of two parents: `&`.
pub const PARENT_SEPARATOR: u8 = 38;

/// What a commit records.
#[derive(Debug)]
pub struct CommitData {
    pub message: Vec<u8>,
    pub user: Vec<u8>,
    pub time: Vec<u8>,
    pub tree_hash: Vec<u8>,
    pub parent_commits: Vec<Vec<u8>>,
}

/// The mathematical value of a `CommitData`.
pub struct CommitDataView {
    pub message: Seq<u8>,
    pub user: Seq<u8>,
    pub time: Seq<u8>,
    pub tree_hash: Seq<u8>,
    pub parent_commits: Seq<Seq<u8>>,
}

impl View for CommitData {
    type V = CommitDataView;

    open spec fn view(&self) -> CommitDataView {
        CommitDataView {
            message: self.message@,
            user: self.user@,
            time: self.time@,
            tree_hash: self.tree_hash@,
            parent_commits: seq_views(self.parent_commits@),
        }
    }
}

/// What the empty id stands for: a commit with empty fields, an empty tree
/// and no parents.
pub open spec fn empty_commit() -> CommitDataView {
    CommitDataView {
        message: Seq::empty(),
        user: Seq::empty(),
        time: Seq::empty(),
        tree_hash: Seq::empty(),
        parent_commits: Seq::empty(),
    }
}

impl Default for CommitData {
    fn default() -> (d: Self)
        ensures
            d@ == empty_commit(),
    {
        let d = CommitData {
            message: Vec::new(),
            user: Vec::new(),
            time: Vec::new(),
            tree_hash: Vec::new(),
            parent_commits: Vec::new(),
        };
        assert(d@.parent_commits =~= Seq::<Seq<u8>>::empty());
        d
    }
}

/// The bytes that the id of a commit is the hash of.
pub open spec fn commit_hash_input(d: CommitDataView) -> Seq<u8> {
    d.message + seq![0u8] + d.user + seq![0u8] + d.time + seq![0u8] + d.tree_hash
}

/// The id of a commit.
pub open spec fn commit_id(d: CommitDataView) -> Seq<u8> {
    object_id_of(commit_hash_input(d))
}

/// The body of a commit object.
pub open spec fn commit_body(d: CommitDataView) -> Seq<u8> {
    commit_hash_input(d) + seq![0u8] + join_spec(d.parent_commits, PARENT_SEPARATOR)
}

/// The commit with body `body`: `CorruptObject` where the body has not
/// exactly five fields.
pub open spec fn commit_of_body(body: Seq<u8>) -> Result<CommitDataView, GitError> {
    let parts = split_spec(body, 0u8);
    if parts.len() == 5 {
        Ok(
            CommitDataView {
                message: parts[0],
                user: parts[1],
                time: parts[2],
                tree_hash: parts[3],
                parent_commits: split_spec(parts[4], PARENT_SEPARATOR),
            },
        )
    } else {
        Err(GitError::CorruptObject)
    }
}

/// The commit kept under `id`. The empty id stands for `empty_commit`.
pub open spec fn stored_commit(store: Map<Seq<u8>, Seq<u8>>, id: Seq<u8>) -> Result<
    CommitDataView,
    GitError,
> {
    if id.len() == 0 {
        Ok(empty_commit())
    } else {
        match stored_body(store, id, ObjectType::Commit) {
            Err(e) => Err(e),
            Ok(body) => commit_of_body(body),
        }
    }
}

/// Whether a commit can be written and read back: no field holds a zero
/// byte, no parent holds `&`, and there is at least one parent.
pub open spec fn commit_writable(d: CommitDataView) -> bool {
    &&& !has_byte(d.message, 0u8)
    &&& !has_byte(d.user, 0u8)
    &&& !has_byte(d.time, 0u8)
    &&& !has_byte(d.tree_hash, 0u8)
    &&& d.parent_commits.len() > 0
    &&& forall|i: int|
        0 <= i < d.parent_commits.len() ==> !has_byte(#[trigger] d.parent_commits[i], 0u8)
            && !has_byte(d.parent_commits[i], PARENT_SEPARATOR)
}

/// Reading the body of a writable commit gives the commit back.
pub proof fn lemma_commit_round_trip(d: CommitDataView)
    requires
        commit_writable(d),
    ensures
        commit_of_body(commit_body(d)) == Ok::<CommitDataView, GitError>(d),
{
    let joined = join_spec(d.parent_commits, PARENT_SEPARATOR);
    crate::paths::lemma_join_has_byte(d.parent_commits, PARENT_SEPARATOR, 0u8);
    crate::paths::lemma_split_join(d.parent_commits, PARENT_SEPARATOR);
    let a = d.message;
    let b = d.user;
    let c = d.time;
    let t = d.tree_hash;
    crate::bytes::lemma_split_concat(a + seq![0u8] + b + seq![0u8] + c + seq![0u8] + t, joined, 0u8);
    crate::bytes::lemma_split_concat(a + seq![0u8] + b + seq![0u8] + c, t, 0u8);
    crate::bytes::lemma_split_concat(a + seq![0u8] + b, c, 0u8);
    crate::bytes::lemma_split_concat(a, b, 0u8);
    crate::bytes::lemma_split_none(a, 0u8);
    crate::bytes::lemma_split_none(b, 0u8);
    crate::bytes::lemma_split_none(c, 0u8);
    crate::bytes::lemma_split_none(t, 0u8);
    crate::bytes::lemma_split_none(joined, 0u8);
    let parts = split_spec(commit_body(d), 0u8);
    assert(parts =~= seq![a, b, c, t, joined]);
}

/// The bytes that the id of a commit is the hash of.
pub fn commit_hash_bytes(data: &CommitData) -> (r: Vec<u8>)
    ensures
        r@ == commit_hash_input(data@),
{
    let mut r = data.message.clone();
    r.push(0u8);
    append(&mut r, data.user.as_slice());
    r.push(0u8);
    append(&mut r, data.time.as_slice());
    r.push(0u8);
    append(&mut r, data.tree_hash.as_slice());
    assert(r@ =~= commit_hash_input(data@));
    r
}

/// The body of a commit object.
pub fn commit_bytes(data: &CommitData) -> (r: Vec<u8>)
    ensures
        r@ == commit_body(data@),
{
    let mut r = commit_hash_bytes(data);
    r.push(0u8);
    let parents = join(&data.parent_commits, PARENT_SEPARATOR);
    append(&mut r, parents.as_slice());
    assert(r@ =~= commit_body(data@));
    r
}

/// The commit with body `body`.
pub fn parse_commit(body: &[u8]) -> (r: Result<CommitData, GitError>)
    ensures
        match r {
            Ok(data) => commit_of_body(body@) == Ok::<CommitDataView, GitError>(data@),
            Err(e) => commit_of_body(body@) == Err::<CommitDataView, GitError>(e),
        },
{
    let parts = split(body, 0u8);
    proof {
        assert(seq_views(parts@).len() == parts@.len());
    }
    if parts.len() != 5 {
        return Err(GitError::CorruptObject);
    }
    proof {
        assert(seq_views(parts@)[0] == parts@[0]@);
        assert(seq_views(parts@)[1] == parts@[1]@);
        assert(seq_views(parts@)[2] == parts@[2]@);
        assert(seq_views(parts@)[3] == parts@[3]@);
        assert(seq_views(parts@)[4] == parts@[4]@);
    }
    Ok(
        CommitData {
            message: parts[0].clone(),
            user: parts[1].clone(),
            time: parts[2].clone(),
            tree_hash: parts[3].clone(),
            parent_commits: split(parts[4].as_slice(), PARENT_SEPARATOR),
        },
    )
}

/// The commit kept under `id`.
pub fn read_commit_data(store: &ObjectStore, id: &[u8]) -> (r: Result<CommitData, GitError>)
    requires
        store.wf(),
    ensures
        match r {
            Ok(data) => stored_commit(store@, id@) == Ok::<CommitDataView, GitError>(data@),
            Err(e) => stored_commit(store@, id@) == Err::<CommitDataView, GitError>(e),
        },
{
    if id.len() == 0 {
        return Ok(CommitData::default());
    }
    match read_object(store, id, ObjectType::Commit) {
        Err(e) => Err(e),
        Ok(body) => parse_commit(body.as_slice()),
    }
}

/// A commit object: its id, what it records, or both.
pub struct Commit {
    pub hash: Option<Vec<u8>>,
    pub data: Option<CommitData>,
}

/// Reading, writing and hashing a commit.
pub trait CommitTrait: Sized {
    /// The id, where it is known.
    spec fn spec_hash(&self) -> Option<Seq<u8>>;

    /// What the commit records, where it is known.
    spec fn spec_data(&self) -> Option<CommitDataView>;

    /// Fills in what the commit kept under the id records.
    fn read_commit(&mut self, store: &ObjectStore) -> (r: Result<(), GitError>)
        requires
            store.wf(),
            old(self).spec_hash() is Some,
            old(self).spec_data() is None,
        ensures
            final(self).spec_hash() == old(self).spec_hash(),
            match stored_commit(store@, old(self).spec_hash().unwrap()) {
                Ok(data) => r is Ok && final(self).spec_data() == Some(data),
                Err(e) => r == Err::<(), GitError>(e) && final(self).spec_data() is None,
            },
    ;

    /// Writes the commit to the store under its id, which is computed first
    /// where it is not known.
    fn write_commit(&mut self, store: &mut ObjectStore) -> (r: Result<(), GitError>)
        requires
            old(store).wf(),
            old(self).spec_data() is Some,
        ensures
            final(store).wf(),
            final(self).spec_data() == old(self).spec_data(),
            final(self).spec_hash() == Some(
                match old(self).spec_hash() {
                    Some(id) => id,
                    None => commit_id(old(self).spec_data().unwrap()),
                },
            ),
            r == write_object_result(
                final(self).spec_hash().unwrap(),
                commit_body(old(self).spec_data().unwrap()).len(),
            ),
            r is Ok ==> final(store)@ == store_put(
                old(store)@,
                final(self).spec_hash().unwrap(),
                encoded_object(ObjectType::Commit, commit_body(old(self).spec_data().unwrap())),
            ),
            r is Err ==> final(store)@ == old(store)@,
            old(self).spec_hash() is None ==> crate::hash::is_object_id(
                final(self).spec_hash().unwrap(),
            ),
            r is Ok ==> crate::serialize::base64_data(
                encoded_object(ObjectType::Commit, commit_body(old(self).spec_data().unwrap())),
            ) == Some(crate::object::tag_of(ObjectType::Commit) + commit_body(old(self).spec_data().unwrap())),
            r is Ok && (old(store)@.contains_key(final(self).spec_hash().unwrap()) ==> old(store)@[final(self).spec_hash().unwrap()] == encoded_object(ObjectType::Commit, commit_body(old(self).spec_data().unwrap())))
                ==> crate::object::stored_body(
                final(store)@,
                final(self).spec_hash().unwrap(),
                ObjectType::Commit,
            ) == Ok::<Seq<u8>, GitError>(commit_body(old(self).spec_data().unwrap())),
    ;

    /// Computes the id from what the commit records.
    fn calculate_hash(&mut self)
        requires
            old(self).spec_data() is Some,
        ensures
            final(self).spec_data() == old(self).spec_data(),
            final(self).spec_hash() == Some(commit_id(old(self).spec_data().unwrap())),
            crate::hash::is_object_id(final(self).spec_hash().unwrap()),
    ;
}

impl CommitTrait for Commit {
    open spec fn spec_hash(&self) -> Option<Seq<u8>> {
        match self.hash {
            Some(h) => Some(h@),
            None => None,
        }
    }

    open spec fn spec_data(&self) -> Option<CommitDataView> {
        match self.data {
            Some(d) => Some(d@),
            None => None,
        }
    }

    fn read_commit(&mut self, store: &ObjectStore) -> (r: Result<(), GitError>) {
        let r = match &self.hash {
            Some(h) => read_commit_data(store, h.as_slice()),
            None => Err(GitError::BrokenObject),
        };
        match r {
            Ok(data) => {
                self.data = Some(data);
                Ok(())
            },
            Err(e) => Err(e),
        }
    }

    fn write_commit(&mut self, store: &mut ObjectStore) -> (r: Result<(), GitError>) {
        if self.hash.is_none() {
            self.calculate_hash();
        }
        let body = match &self.data {
            Some(d) => commit_bytes(d),
            None => Vec::new(),
        };
        match &self.hash {
            Some(h) => write_object(store, h.as_slice(), ObjectType::Commit, body.as_slice()),
            None => Err(GitError::BrokenObject),
        }
    }

    fn calculate_hash(&mut self) {
        let id = match &self.data {
            Some(d) => sha1(commit_hash_bytes(d).as_slice()),
            None => Vec::new(),
        };
        self.hash = Some(id);
    }
}

} // verus!
