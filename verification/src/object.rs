//! The object store: a map from object ids to the text kept under them.
//!
//! The text kept under an id is the base64 envelope of a payload, and a
//! payload is a four-byte tag followed by a body. An object, once written,
//! is never written again: writing under an id that is present changes
//! nothing.

use crate::bytemap::ByteMap;
use crate::bytes::append;
use crate::bytes::copy_range;
use crate::error::GitError;
use crate::hash::FOLDER_LENGTH;
use crate::hash::HASH_LENGTH;
use crate::hash::is_object_id;
use crate::serialize::base64_data;
use crate::serialize::base64_text;
use crate::serialize::can_serialize;
use crate::serialize::deserialize;
use crate::serialize::encodable_len;
use crate::serialize::serialize;
use vstd::prelude::*;
use vstd::slice::slice_to_vec;

verus! {

/// The three kinds of object.
#[derive(Clone, Copy, Debug, PartialEq, Eq, Structural)]
pub enum ObjectType {
    Blob,
    Tree,
    Commit,
}

/// The objects of a repository, each under its id.
pub struct ObjectStore {
    pub files: ByteMap<Vec<u8>>,
}

impl View for ObjectStore {
    type V = Map<Seq<u8>, Seq<u8>>;

    open spec fn view(&self) -> Map<Seq<u8>, Seq<u8>> {
        self.files@
    }
}

impl ObjectStore {
    /// The invariant of the store.
    pub open spec fn wf(&self) -> bool {
        self.files.wf()
    }

    /// A store without objects.
    pub fn new() -> (store: Self)
        ensures
            store.wf(),
            store@ == Map::<Seq<u8>, Seq<u8>>::empty(),
    {
        ObjectStore { files: ByteMap::new() }
    }
}

/// The tag that a payload of kind `kind` starts with: `BLOB`, `TREE` or
/// `CMIT`.
pub open spec fn tag_of(kind: ObjectType) -> Seq<u8> {
    match kind {
        ObjectType::Blob => seq![66u8, 76u8, 79u8, 66u8],
        ObjectType::Tree => seq![84u8, 82u8, 69u8, 69u8],
        ObjectType::Commit => seq![67u8, 77u8, 73u8, 84u8],
    }
}

/// The kind that the tag of `payload` names, if it names one.
pub open spec fn type_of_payload(payload: Seq<u8>) -> Option<ObjectType> {
    if payload.len() < 4 {
        None
    } else if payload.subrange(0, 4) == tag_of(ObjectType::Blob) {
        Some(ObjectType::Blob)
    } else if payload.subrange(0, 4) == tag_of(ObjectType::Tree) {
        Some(ObjectType::Tree)
    } else if payload.subrange(0, 4) == tag_of(ObjectType::Commit) {
        Some(ObjectType::Commit)
    } else {
        None
    }
}

/// The payload kept under `id`: `BrokenObject` where `id` has not the
/// length of an id or nothing is kept under it, `CorruptObject` where the
/// text kept under it is no base64.
pub open spec fn stored_payload(store: Map<Seq<u8>, Seq<u8>>, id: Seq<u8>) -> Result<
    Seq<u8>,
    GitError,
> {
    if id.len() != HASH_LENGTH || !store.contains_key(id) {
        Err(GitError::BrokenObject)
    } else {
        match base64_data(store[id]) {
            Some(payload) => Ok(payload),
            None => Err(GitError::CorruptObject),
        }
    }
}

/// The kind of the object kept under `id`: `CorruptObject` where its tag is
/// missing or unknown.
pub open spec fn stored_type(store: Map<Seq<u8>, Seq<u8>>, id: Seq<u8>) -> Result<
    ObjectType,
    GitError,
> {
    match stored_payload(store, id) {
        Err(e) => Err(e),
        Ok(payload) => match type_of_payload(payload) {
            Some(kind) => Ok(kind),
            None => Err(GitError::CorruptObject),
        },
    }
}

/// The body of the object of kind `kind` kept under `id`: `CorruptObject`
/// where the object kept there is of another kind.
pub open spec fn stored_body(
    store: Map<Seq<u8>, Seq<u8>>,
    id: Seq<u8>,
    kind: ObjectType,
) -> Result<Seq<u8>, GitError> {
    match stored_payload(store, id) {
        Err(e) => Err(e),
        Ok(payload) => if type_of_payload(payload) == Some(kind) {
            Ok(payload.skip(4))
        } else {
            Err(GitError::CorruptObject)
        },
    }
}

/// The text under which an object of kind `kind` with body `body` is kept.
pub open spec fn encoded_object(kind: ObjectType, body: Seq<u8>) -> Seq<u8> {
    base64_text(tag_of(kind) + body)
}

/// Whether the object of kind `kind` with body `body` comes back from
/// under `id`, once it is kept there: `id` has the form of an object id, and
/// decoding the text of the object gives its payload. Every call of the
/// encoder shows the second of the text that it returns.
pub open spec fn object_sound(id: Seq<u8>, kind: ObjectType, body: Seq<u8>) -> bool {
    &&& is_object_id(id)
    &&& base64_data(encoded_object(kind, body)) == Some(tag_of(kind) + body)
}

/// The store after `text` was written under `id`: unchanged where `id` was
/// present.
pub open spec fn store_put(store: Map<Seq<u8>, Seq<u8>>, id: Seq<u8>, text: Seq<u8>) -> Map<
    Seq<u8>,
    Seq<u8>,
> {
    if store.contains_key(id) {
        store
    } else {
        store.insert(id, text)
    }
}

/// The path of the file of object `id` below the repository's metadata
/// directory `git_directory`: `objects`, then a directory named by the first
/// two bytes of the id, then a file named by the rest.
pub open spec fn object_path_spec(git_directory: Seq<u8>, id: Seq<u8>) -> Seq<u8> {
    git_directory + seq![47u8, 111u8, 98u8, 106u8, 101u8, 99u8, 116u8, 115u8, 47u8] + id.subrange(
        0,
        FOLDER_LENGTH as int,
    ) + seq![47u8] + id.subrange(FOLDER_LENGTH as int, id.len() as int)
}

/// The path of the file of an object. `BrokenObject` where `object_name` has
/// not the length of an id.
pub fn get_object_path(git_directory: &[u8], object_name: &[u8]) -> (r: Result<Vec<u8>, GitError>)
    ensures
        match r {
            Ok(path) => object_name@.len() == HASH_LENGTH && path@ == object_path_spec(
                git_directory@,
                object_name@,
            ),
            Err(e) => object_name@.len() != HASH_LENGTH && e == GitError::BrokenObject,
        },
{
    if object_name.len() != HASH_LENGTH {
        return Err(GitError::BrokenObject);
    }
    let mut path = slice_to_vec(git_directory);
    let objects: [u8; 9] = [47u8, 111u8, 98u8, 106u8, 101u8, 99u8, 116u8, 115u8, 47u8];
    append(&mut path, objects.as_slice());
    let folder = copy_range(object_name, 0, FOLDER_LENGTH);
    append(&mut path, folder.as_slice());
    path.push(47u8);
    let file = copy_range(object_name, FOLDER_LENGTH, object_name.len());
    append(&mut path, file.as_slice());
    proof {
        assert(objects@ =~= seq![47u8, 111u8, 98u8, 106u8, 101u8, 99u8, 116u8, 115u8, 47u8]);
        assert(path@ =~= object_path_spec(git_directory@, object_name@));
    }
    Ok(path)
}

/// The text kept under `object_name`. `BrokenObject` where the name has not
/// the length of an id or nothing is kept under it.
pub fn read_object_file<'a>(store: &'a ObjectStore, object_name: &[u8]) -> (r: Result<
    &'a Vec<u8>,
    GitError,
>)
    requires
        store.wf(),
    ensures
        match r {
            Ok(text) => object_name@.len() == HASH_LENGTH && store@.contains_key(object_name@)
                && text@ == store@[object_name@],
            Err(e) => e == GitError::BrokenObject && (object_name@.len() != HASH_LENGTH
                || !store@.contains_key(object_name@)),
        },
{
    if object_name.len() != HASH_LENGTH {
        return Err(GitError::BrokenObject);
    }
    match store.files.get(object_name) {
        Some(text) => Ok(text),
        None => Err(GitError::BrokenObject),
    }
}

/// Keeps `content` under `object_name`, unless something is kept there
/// already. `BrokenObject` where the name has not the length of an id.
pub fn write_object_file(store: &mut ObjectStore, object_name: &[u8], content: Vec<u8>) -> (r:
    Result<(), GitError>)
    requires
        old(store).wf(),
    ensures
        final(store).wf(),
        match r {
            Ok(_) => object_name@.len() == HASH_LENGTH && final(store)@ == store_put(
                old(store)@,
                object_name@,
                content@,
            ),
            Err(e) => e == GitError::BrokenObject && object_name@.len() != HASH_LENGTH && final(store)@ == old(store)@,
        },
{
    if object_name.len() != HASH_LENGTH {
        return Err(GitError::BrokenObject);
    }
    if !store.files.contains_key(object_name) {
        store.files.insert(slice_to_vec(object_name), content);
    }
    Ok(())
}

/// Whether the object store holds something under `object_name`.
pub fn object_exists(store: &ObjectStore, object_name: &[u8]) -> (r: bool)
    requires
        store.wf(),
    ensures
        r == store@.contains_key(object_name@),
{
    store.files.contains_key(object_name)
}

/// The four bytes of the tag of `kind`.
fn tag_bytes(kind: ObjectType) -> (tag: [u8; 4])
    ensures
        tag@ == tag_of(kind),
{
    let tag: [u8; 4] = match kind {
        ObjectType::Blob => [66u8, 76u8, 79u8, 66u8],
        ObjectType::Tree => [84u8, 82u8, 69u8, 69u8],
        ObjectType::Commit => [67u8, 77u8, 73u8, 84u8],
    };
    assert(tag@ =~= tag_of(kind));
    tag
}

/// The kind that the tag of `payload` names.
fn payload_type(payload: &[u8]) -> (r: Option<ObjectType>)
    ensures
        r == type_of_payload(payload@),
{
    if payload.len() < 4 {
        return None;
    }
    let head = copy_range(payload, 0, 4);
    if crate::bytes::bytes_eq(head.as_slice(), tag_bytes(ObjectType::Blob).as_slice()) {
        Some(ObjectType::Blob)
    } else if crate::bytes::bytes_eq(head.as_slice(), tag_bytes(ObjectType::Tree).as_slice()) {
        Some(ObjectType::Tree)
    } else if crate::bytes::bytes_eq(head.as_slice(), tag_bytes(ObjectType::Commit).as_slice()) {
        Some(ObjectType::Commit)
    } else {
        None
    }
}

/// The payload kept under `object_name`.
pub fn read_payload(store: &ObjectStore, object_name: &[u8]) -> (r: Result<Vec<u8>, GitError>)
    requires
        store.wf(),
    ensures
        match r {
            Ok(payload) => stored_payload(store@, object_name@) == Ok::<Seq<u8>, GitError>(
                payload@,
            ),
            Err(e) => stored_payload(store@, object_name@) == Err::<Seq<u8>, GitError>(e),
        },
{
    match read_object_file(store, object_name) {
        Err(e) => Err(e),
        Ok(text) => match deserialize(text.as_slice()) {
            Some(payload) => Ok(payload),
            None => Err(GitError::CorruptObject),
        },
    }
}

/// The kind of the object kept under `object_name`.
pub fn get_object_type(store: &ObjectStore, object_name: &[u8]) -> (r: Result<
    ObjectType,
    GitError,
>)
    requires
        store.wf(),
    ensures
        r == stored_type(store@, object_name@),
{
    match read_payload(store, object_name) {
        Err(e) => Err(e),
        Ok(payload) => match payload_type(payload.as_slice()) {
            Some(kind) => Ok(kind),
            None => Err(GitError::CorruptObject),
        },
    }
}

/// The body of the object of kind `kind` kept under `object_name`.
pub fn read_object(store: &ObjectStore, object_name: &[u8], kind: ObjectType) -> (r: Result<
    Vec<u8>,
    GitError,
>)
    requires
        store.wf(),
    ensures
        match r {
            Ok(body) => stored_body(store@, object_name@, kind) == Ok::<Seq<u8>, GitError>(
                body@,
            ),
            Err(e) => stored_body(store@, object_name@, kind) == Err::<Seq<u8>, GitError>(e),
        },
{
    match read_payload(store, object_name) {
        Err(e) => Err(e),
        Ok(payload) => {
            if payload_type(payload.as_slice()) == Some(kind) {
                let body = copy_range(payload.as_slice(), 4, payload.len());
                assert(body@ =~= payload@.skip(4));
                Ok(body)
            } else {
                Err(GitError::CorruptObject)
            }
        },
    }
}

/// When writing an object of body length `n` under `id` succeeds, and which
/// error it gives otherwise: the size is looked at first.
pub open spec fn write_object_result(id: Seq<u8>, n: nat) -> Result<(), GitError> {
    if !encodable_len(n + 4) {
        Err(GitError::TooLarge)
    } else if id.len() != HASH_LENGTH {
        Err(GitError::BrokenObject)
    } else {
        Ok(())
    }
}

/// Writes the object of kind `kind` and body `body` under `object_name`,
/// unless something is kept there already. The object can then be read
/// back, unless another text was kept under the name before.
pub fn write_object(store: &mut ObjectStore, object_name: &[u8], kind: ObjectType, body: &[u8]) -> (r:
    Result<(), GitError>)
    requires
        old(store).wf(),
    ensures
        final(store).wf(),
        r == write_object_result(object_name@, body@.len()),
        r is Ok ==> final(store)@ == store_put(
            old(store)@,
            object_name@,
            encoded_object(kind, body@),
        ),
        r is Err ==> final(store)@ == old(store)@,
        r is Ok ==> base64_data(encoded_object(kind, body@)) == Some(tag_of(kind) + body@),
        r is Ok && (old(store)@.contains_key(object_name@) ==> old(store)@[object_name@]
            == encoded_object(kind, body@)) ==> stored_body(final(store)@, object_name@, kind)
            == Ok::<Seq<u8>, GitError>(body@) && stored_type(final(store)@, object_name@) == Ok::<
            ObjectType,
            GitError,
        >(kind),
{
    let tag = tag_bytes(kind);
    let mut payload = slice_to_vec(tag.as_slice());
    append(&mut payload, body);
    assert(tag_of(kind).len() == 4);
    assert(payload@.len() == body@.len() + 4);
    if !can_serialize(payload.as_slice()) {
        return Err(GitError::TooLarge);
    }
    let text = serialize(payload.as_slice());
    let r = write_object_file(store, object_name, text);
    proof {
        assert(payload@ == tag_of(kind) + body@);
        if r is Ok && (old(store)@.contains_key(object_name@) ==> old(store)@[object_name@]
            == encoded_object(kind, body@)) {
            lemma_read_after_write(old(store)@, object_name@, kind, body@);
        }
    }
    assert(r == write_object_result(object_name@, body@.len())) by {
        match r {
            Ok(u) => {
                assert(u == ());
            },
            Err(e) => {},
        }
    }
    r
}

/// An object that was written can be read back, unless another text was
/// kept under its id before.
pub proof fn lemma_read_after_write(
    store: Map<Seq<u8>, Seq<u8>>,
    id: Seq<u8>,
    kind: ObjectType,
    body: Seq<u8>,
)
    requires
        id.len() == HASH_LENGTH,
        base64_data(encoded_object(kind, body)) == Some(tag_of(kind) + body),
        store.contains_key(id) ==> store[id] == encoded_object(kind, body),
    ensures
        stored_body(store_put(store, id, encoded_object(kind, body)), id, kind) == Ok::<
            Seq<u8>,
            GitError,
        >(body),
        stored_type(store_put(store, id, encoded_object(kind, body)), id) == Ok::<
            ObjectType,
            GitError,
        >(kind),
{
    let payload = tag_of(kind) + body;
    assert(payload.subrange(0, 4) =~= tag_of(kind));
    assert(payload.skip(4) =~= body);
    assert(tag_of(ObjectType::Blob)[0] != tag_of(ObjectType::Tree)[0]);
    assert(tag_of(ObjectType::Blob)[0] != tag_of(ObjectType::Commit)[0]);
    assert(tag_of(ObjectType::Tree)[0] != tag_of(ObjectType::Commit)[0]);
}

/// Whether `new` holds all that `old` holds, unchanged.
pub open spec fn store_extends(old: Map<Seq<u8>, Seq<u8>>, new: Map<Seq<u8>, Seq<u8>>) -> bool {
    forall|k: Seq<u8>| #[trigger] old.contains_key(k) ==> new.contains_key(k) && new[k] == old[k]
}

} // verus!
