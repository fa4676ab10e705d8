//! Trees: the listing of one directory.
//!
//! The body of a tree object holds one line for each entry: the kind of the
//! entry, its name, and the id of the blob or tree it names, with a zero
//! byte between them and a line feed at the end.

use crate::bytes::append;
use crate::bytes::bytes_eq;
use crate::bytes::has_byte;
use crate::bytes::lines_spec;
use crate::bytes::lines;
use crate::bytes::seq_views;
use crate::bytes::split_spec;
use crate::bytes::split;
use crate::bytes::strip_cr;
use crate::bytes::views;
use crate::error::GitError;
use crate::hash::object_id_of;
use crate::hash::sha1;
use crate::object::encoded_object;
use crate::object::ObjectStore;
use crate::object::ObjectType;
use crate::object::read_object;
use crate::object::store_put;
use crate::object::stored_body;
use crate::object::write_object_result;
use crate::object::write_object;
use vstd::prelude::*;

verus! {

/// What an entry of a tree names: a regular file, a subtree, a symbolic
/// link, or an executable file.
#[derive(Clone, Copy, Debug, PartialEq, Eq, Structural)]
pub enum TreeEntryType {
    Blob,
    Tree,
    Bsym,
    Bexe,
}

/// One entry of a tree.
#[derive(Debug)]
pub struct TreeEntry {
    pub entry_type: TreeEntryType,
    pub name: Vec<u8>,
    pub hash: Vec<u8>,
}

/// The mathematical value of a `TreeEntry`.
pub struct TreeEntryView {
    pub entry_type: TreeEntryType,
    pub name: Seq<u8>,
    pub hash: Seq<u8>,
}

impl View for TreeEntry {
    type V = TreeEntryView;

    open spec fn view(&self) -> TreeEntryView {
        TreeEntryView { entry_type: self.entry_type, name: self.name@, hash: self.hash@ }
    }
}

impl TreeEntry {
    /// A copy of this entry.
    pub fn duplicate(&self) -> (r: TreeEntry)
        ensures
            r@ == self@,
    {
        TreeEntry { entry_type: self.entry_type, name: self.name.clone(), hash: self.hash.clone() }
    }

    /// Whether two entries are the same.
    pub fn same_as(&self, other: &TreeEntry) -> (r: bool)
        ensures
            r == (self@ == other@),
    {
        self.entry_type == other.entry_type && bytes_eq(
            self.name.as_slice(),
            other.name.as_slice(),
        ) && bytes_eq(self.hash.as_slice(), other.hash.as_slice())
    }
}

/// The four bytes that stand for a kind of entry: `BLOB`, `TREE`, `BSYM`
/// or `BEXE`.
pub open spec fn kind_tag(kind: TreeEntryType) -> Seq<u8> {
    match kind {
        TreeEntryType::Blob => seq![66u8, 76u8, 79u8, 66u8],
        TreeEntryType::Tree => seq![84u8, 82u8, 69u8, 69u8],
        TreeEntryType::Bsym => seq![66u8, 83u8, 89u8, 77u8],
        TreeEntryType::Bexe => seq![66u8, 69u8, 88u8, 69u8],
    }
}

/// The kind that `tag` stands for, if it stands for one.
pub open spec fn kind_of_tag(tag: Seq<u8>) -> Option<TreeEntryType> {
    if tag == kind_tag(TreeEntryType::Blob) {
        Some(TreeEntryType::Blob)
    } else if tag == kind_tag(TreeEntryType::Bsym) {
        Some(TreeEntryType::Bsym)
    } else if tag == kind_tag(TreeEntryType::Bexe) {
        Some(TreeEntryType::Bexe)
    } else if tag == kind_tag(TreeEntryType::Tree) {
        Some(TreeEntryType::Tree)
    } else {
        None
    }
}

/// The line of an entry, without its line feed.
pub open spec fn entry_line(e: TreeEntryView) -> Seq<u8> {
    kind_tag(e.entry_type) + seq![0u8] + e.name + seq![0u8] + e.hash
}

/// The body of the tree with entries `entries`.
pub open spec fn tree_body(entries: Seq<TreeEntryView>) -> Seq<u8>
    decreases entries.len(),
{
    if entries.len() == 0 {
        Seq::empty()
    } else {
        tree_body(entries.drop_last()) + entry_line(entries.last()) + seq![10u8]
    }
}

/// The id of the tree with entries `entries`: the hash of its body.
pub open spec fn tree_id(entries: Seq<TreeEntryView>) -> Seq<u8> {
    object_id_of(tree_body(entries))
}

/// The entry that `line` stands for: three fields, of which the first is
/// the tag of a kind.
pub open spec fn parse_entry(line: Seq<u8>) -> Option<TreeEntryView> {
    let parts = split_spec(line, 0u8);
    if parts.len() == 3 {
        match kind_of_tag(parts[0]) {
            Some(kind) => Some(TreeEntryView { entry_type: kind, name: parts[1], hash: parts[2] }),
            None => None,
        }
    } else {
        None
    }
}

/// The entries that `lines` stand for, if every line stands for one.
pub open spec fn parse_entries(lines: Seq<Seq<u8>>) -> Option<Seq<TreeEntryView>> {
    if forall|i: int| 0 <= i < lines.len() ==> (#[trigger] parse_entry(lines[i])) is Some {
        Some(Seq::new(lines.len(), |i: int| parse_entry(lines[i]).unwrap()))
    } else {
        None
    }
}

/// The entries of the tree with body `body`: `CorruptObject` where a line
/// has not three fields or names no kind.
pub open spec fn tree_of_body(body: Seq<u8>) -> Result<Seq<TreeEntryView>, GitError> {
    match parse_entries(lines_spec(body)) {
        Some(entries) => Ok(entries),
        None => Err(GitError::CorruptObject),
    }
}

/// The entries of the tree kept under `id`. The empty id stands for the
/// tree without entries.
pub open spec fn stored_tree(store: Map<Seq<u8>, Seq<u8>>, id: Seq<u8>) -> Result<
    Seq<TreeEntryView>,
    GitError,
> {
    if id.len() == 0 {
        Ok(Seq::empty())
    } else {
        match stored_body(store, id, ObjectType::Tree) {
            Err(e) => Err(e),
            Ok(body) => tree_of_body(body),
        }
    }
}

/// Whether `s` can stand in a line as a field: it holds neither a zero
/// byte nor a line feed.
pub open spec fn line_safe(s: Seq<u8>) -> bool {
    !has_byte(s, 0u8) && !has_byte(s, 10u8)
}

/// Whether an entry can be written to a tree and read back: its name and
/// id can stand in a line, and the id does not end in a carriage return.
pub open spec fn entry_writable(e: TreeEntryView) -> bool {
    &&& line_safe(e.name)
    &&& line_safe(e.hash)
    &&& e.hash.len() > 0 ==> e.hash.last() != 13u8
}

/// The tag of a kind holds neither zero byte, line feed nor carriage
/// return, and distinct kinds have distinct tags.
pub proof fn lemma_kind_tag(kind: TreeEntryType)
    ensures
        kind_tag(kind).len() == 4,
        line_safe(kind_tag(kind)),
        kind_of_tag(kind_tag(kind)) == Some(kind),
{
    let t = kind_tag(kind);
    crate::bytes::lemma_has_byte(t, 0u8);
    crate::bytes::lemma_has_byte(t, 10u8);
    assert(kind_tag(TreeEntryType::Blob)[1] != kind_tag(TreeEntryType::Bsym)[1]);
    assert(kind_tag(TreeEntryType::Blob)[1] != kind_tag(TreeEntryType::Bexe)[1]);
    assert(kind_tag(TreeEntryType::Blob)[0] != kind_tag(TreeEntryType::Tree)[0]);
    assert(kind_tag(TreeEntryType::Bsym)[1] != kind_tag(TreeEntryType::Bexe)[1]);
    assert(kind_tag(TreeEntryType::Bsym)[0] != kind_tag(TreeEntryType::Tree)[0]);
    assert(kind_tag(TreeEntryType::Bexe)[0] != kind_tag(TreeEntryType::Tree)[0]);
}

/// The line of a writable entry stands for that entry, holds no line feed
/// and does not end in a carriage return.
pub proof fn lemma_entry_line(e: TreeEntryView)
    requires
        entry_writable(e),
    ensures
        parse_entry(entry_line(e)) == Some(e),
        !has_byte(entry_line(e), 10u8),
        strip_cr(entry_line(e)) == entry_line(e),
{
    let tag = kind_tag(e.entry_type);
    lemma_kind_tag(e.entry_type);
    let tail = e.name + seq![0u8] + e.hash;
    assert(entry_line(e) =~= tag + seq![0u8] + tail);
    crate::bytes::lemma_split_concat(tag, tail, 0u8);
    crate::bytes::lemma_split_concat(e.name, e.hash, 0u8);
    crate::bytes::lemma_split_none(tag, 0u8);
    crate::bytes::lemma_split_none(e.name, 0u8);
    crate::bytes::lemma_split_none(e.hash, 0u8);
    let parts = split_spec(entry_line(e), 0u8);
    assert(parts =~= seq![tag, e.name, e.hash]);
    crate::bytes::lemma_has_byte_concat(tag + seq![0u8] + e.name + seq![0u8], e.hash, 10u8);
    crate::bytes::lemma_has_byte_concat(tag + seq![0u8] + e.name, seq![0u8], 10u8);
    crate::bytes::lemma_has_byte_concat(tag + seq![0u8], e.name, 10u8);
    crate::bytes::lemma_has_byte_concat(tag, seq![0u8], 10u8);
    crate::bytes::lemma_has_byte(seq![0u8], 10u8);
    if e.hash.len() > 0 {
        assert(entry_line(e).last() == e.hash.last());
    } else {
        assert(entry_line(e).last() == 0u8);
    }
}

/// The body of a tree, taken from its first entry on.
pub proof fn lemma_tree_body_first(entries: Seq<TreeEntryView>)
    requires
        entries.len() > 0,
    ensures
        tree_body(entries) == entry_line(entries[0]) + seq![10u8] + tree_body(
            entries.drop_first(),
        ),
    decreases entries.len(),
{
    if entries.len() == 1 {
        assert(entries.drop_last() =~= Seq::<TreeEntryView>::empty());
        assert(entries.drop_first() =~= Seq::<TreeEntryView>::empty());
        assert(tree_body(entries) =~= entry_line(entries[0]) + seq![10u8] + tree_body(
            entries.drop_first(),
        ));
    } else {
        lemma_tree_body_first(entries.drop_last());
        assert(entries.drop_last().drop_first() =~= entries.drop_first().drop_last());
        assert(entries.drop_first().last() == entries.last());
        assert(tree_body(entries) =~= entry_line(entries[0]) + seq![10u8] + tree_body(
            entries.drop_first(),
        ));
    }
}

/// Reading the body of a tree of writable entries gives the entries back.
pub proof fn lemma_tree_round_trip(entries: Seq<TreeEntryView>)
    requires
        forall|i: int| 0 <= i < entries.len() ==> entry_writable(#[trigger] entries[i]),
    ensures
        lines_spec(tree_body(entries)) == Seq::new(entries.len(), |i: int| entry_line(entries[i])),
        tree_of_body(tree_body(entries)) == Ok::<Seq<TreeEntryView>, GitError>(entries),
    decreases entries.len(),
{
    let lines = Seq::new(entries.len(), |i: int| entry_line(entries[i]));
    if entries.len() == 0 {
        assert(lines_spec(tree_body(entries)) =~= lines);
    } else {
        let rest = entries.drop_first();
        lemma_tree_body_first(entries);
        lemma_tree_round_trip(rest);
        lemma_entry_line(entries[0]);
        crate::bytes::lemma_lines_first(entry_line(entries[0]), tree_body(rest));
        assert(lines_spec(tree_body(entries)) =~= lines);
    }
    assert forall|i: int| 0 <= i < lines.len() implies (#[trigger] parse_entry(lines[i])) == Some(
        entries[i],
    ) by {
        lemma_entry_line(entries[i]);
    }
    assert(parse_entries(lines).unwrap() =~= entries);
}

/// The four bytes that stand for a kind of entry.
fn kind_bytes(kind: TreeEntryType) -> (tag: [u8; 4])
    ensures
        tag@ == kind_tag(kind),
{
    let tag: [u8; 4] = match kind {
        TreeEntryType::Blob => [66u8, 76u8, 79u8, 66u8],
        TreeEntryType::Tree => [84u8, 82u8, 69u8, 69u8],
        TreeEntryType::Bsym => [66u8, 83u8, 89u8, 77u8],
        TreeEntryType::Bexe => [66u8, 69u8, 88u8, 69u8],
    };
    assert(tag@ =~= kind_tag(kind));
    tag
}

/// The kind that `tag` stands for.
fn kind_from_tag(tag: &[u8]) -> (r: Option<TreeEntryType>)
    ensures
        r == kind_of_tag(tag@),
{
    if bytes_eq(tag, kind_bytes(TreeEntryType::Blob).as_slice()) {
        Some(TreeEntryType::Blob)
    } else if bytes_eq(tag, kind_bytes(TreeEntryType::Bsym).as_slice()) {
        Some(TreeEntryType::Bsym)
    } else if bytes_eq(tag, kind_bytes(TreeEntryType::Bexe).as_slice()) {
        Some(TreeEntryType::Bexe)
    } else if bytes_eq(tag, kind_bytes(TreeEntryType::Tree).as_slice()) {
        Some(TreeEntryType::Tree)
    } else {
        None
    }
}

/// The body of the tree with entries `entries`.
pub fn tree_bytes(entries: &Vec<TreeEntry>) -> (body: Vec<u8>)
    ensures
        body@ == tree_body(views(entries@)),
{
    let mut body: Vec<u8> = Vec::new();
    let mut i: usize = 0;
    let ghost all = views(entries@);
    proof {
        assert(all.take(0) =~= Seq::<TreeEntryView>::empty());
    }
    while i < entries.len()
        invariant
            i <= entries@.len(),
            all == views(entries@),
            body@ == tree_body(all.take(i as int)),
        decreases entries@.len() - i,
    {
        let entry = &entries[i];
        let ghost before = body@;
        append(&mut body, kind_bytes(entry.entry_type).as_slice());
        body.push(0u8);
        append(&mut body, entry.name.as_slice());
        body.push(0u8);
        append(&mut body, entry.hash.as_slice());
        body.push(10u8);
        proof {
            assert(all.take(i + 1).drop_last() =~= all.take(i as int));
            assert(all.take(i + 1).last() == entries@[i as int]@);
            assert(body@ =~= before + entry_line(entries@[i as int]@) + seq![10u8]);
        }
        i += 1;
    }
    proof {
        assert(all.take(entries@.len() as int) =~= all);
    }
    body
}

/// The entries of the tree with body `body`.
pub fn parse_tree(body: &[u8]) -> (r: Result<Vec<TreeEntry>, GitError>)
    ensures
        match r {
            Ok(entries) => tree_of_body(body@) == Ok::<Seq<TreeEntryView>, GitError>(
                views(entries@),
            ),
            Err(e) => tree_of_body(body@) == Err::<Seq<TreeEntryView>, GitError>(e),
        },
{
    let all = lines(body);
    let ghost ls = lines_spec(body@);
    let mut entries: Vec<TreeEntry> = Vec::new();
    let mut i: usize = 0;
    while i < all.len()
        invariant
            i <= all@.len(),
            ls == seq_views(all@),
            ls == lines_spec(body@),
            entries@.len() == i,
            forall|j: int| 0 <= j < i ==> (#[trigger] parse_entry(ls[j])) == Some(entries@[j]@),
        decreases all@.len() - i,
    {
        let parts = split(all[i].as_slice(), 0u8);
        proof {
            assert(ls[i as int] == all@[i as int]@);
            assert(seq_views(parts@).len() == parts@.len());
        }
        if parts.len() != 3 {
            proof {
                assert(parse_entry(ls[i as int]) is None);
            }
            return Err(GitError::CorruptObject);
        }
        proof {
            assert(seq_views(parts@)[0] == parts@[0]@);
            assert(seq_views(parts@)[1] == parts@[1]@);
            assert(seq_views(parts@)[2] == parts@[2]@);
        }
        match kind_from_tag(parts[0].as_slice()) {
            None => {
                proof {
                    assert(parse_entry(ls[i as int]) is None);
                }
                return Err(GitError::CorruptObject);
            },
            Some(kind) => {
                entries.push(
                    TreeEntry { entry_type: kind, name: parts[1].clone(), hash: parts[2].clone() },
                );
            },
        }
        i += 1;
    }
    proof {
        assert(ls.len() == all@.len());
        assert(parse_entries(ls).unwrap() =~= views(entries@));
    }
    Ok(entries)
}

/// The entries of the tree kept under `id`.
pub fn read_tree_entries(store: &ObjectStore, id: &[u8]) -> (r: Result<Vec<TreeEntry>, GitError>)
    requires
        store.wf(),
    ensures
        match r {
            Ok(entries) => stored_tree(store@, id@) == Ok::<Seq<TreeEntryView>, GitError>(
                views(entries@),
            ),
            Err(e) => stored_tree(store@, id@) == Err::<Seq<TreeEntryView>, GitError>(e),
        },
{
    if id.len() == 0 {
        let entries: Vec<TreeEntry> = Vec::new();
        assert(views(entries@) =~= Seq::<TreeEntryView>::empty());
        return Ok(entries);
    }
    match read_object(store, id, ObjectType::Tree) {
        Err(e) => Err(e),
        Ok(body) => parse_tree(body.as_slice()),
    }
}

/// A tree object: its id, its entries, or both.
pub struct Tree {
    pub hash: Option<Vec<u8>>,
    pub data: Option<Vec<TreeEntry>>,
}

/// Reading, writing and hashing a tree.
pub trait TreeTrait: Sized {
    /// The id, where it is known.
    spec fn spec_hash(&self) -> Option<Seq<u8>>;

    /// The entries, where they are known.
    spec fn spec_data(&self) -> Option<Seq<TreeEntryView>>;

    /// Fills in the entries of the tree kept under the id.
    fn read_tree(&mut self, store: &ObjectStore) -> (r: Result<(), GitError>)
        requires
            store.wf(),
            old(self).spec_hash() is Some,
            old(self).spec_data() is None,
        ensures
            final(self).spec_hash() == old(self).spec_hash(),
            match stored_tree(store@, old(self).spec_hash().unwrap()) {
                Ok(entries) => r is Ok && final(self).spec_data() == Some(entries),
                Err(e) => r == Err::<(), GitError>(e) && final(self).spec_data() is None,
            },
    ;

    /// Writes the tree to the store under its id, which is computed first
    /// where it is not known.
    fn write_tree(&mut self, store: &mut ObjectStore) -> (r: Result<(), GitError>)
        requires
            old(store).wf(),
            old(self).spec_data() is Some,
        ensures
            final(store).wf(),
            final(self).spec_data() == old(self).spec_data(),
            final(self).spec_hash() == Some(
                match old(self).spec_hash() {
                    Some(id) => id,
                    None => tree_id(old(self).spec_data().unwrap()),
                },
            ),
            r == write_object_result(
                final(self).spec_hash().unwrap(),
                tree_body(old(self).spec_data().unwrap()).len(),
            ),
            r is Ok ==> final(store)@ == store_put(
                old(store)@,
                final(self).spec_hash().unwrap(),
                encoded_object(ObjectType::Tree, tree_body(old(self).spec_data().unwrap())),
            ),
            r is Err ==> final(store)@ == old(store)@,
            old(self).spec_hash() is None ==> crate::hash::is_object_id(
                final(self).spec_hash().unwrap(),
            ),
            r is Ok ==> crate::serialize::base64_data(
                encoded_object(ObjectType::Tree, tree_body(old(self).spec_data().unwrap())),
            ) == Some(crate::object::tag_of(ObjectType::Tree) + tree_body(old(self).spec_data().unwrap())),
            r is Ok && (old(store)@.contains_key(final(self).spec_hash().unwrap()) ==> old(store)@[final(self).spec_hash().unwrap()] == encoded_object(ObjectType::Tree, tree_body(old(self).spec_data().unwrap())))
                ==> crate::object::stored_body(
                final(store)@,
                final(self).spec_hash().unwrap(),
                ObjectType::Tree,
            ) == Ok::<Seq<u8>, GitError>(tree_body(old(self).spec_data().unwrap())),
    ;

    /// Computes the id from the entries.
    fn calculate_hash(&mut self)
        requires
            old(self).spec_data() is Some,
        ensures
            final(self).spec_data() == old(self).spec_data(),
            final(self).spec_hash() == Some(tree_id(old(self).spec_data().unwrap())),
            crate::hash::is_object_id(final(self).spec_hash().unwrap()),
    ;
}

impl TreeTrait for Tree {
    open spec fn spec_hash(&self) -> Option<Seq<u8>> {
        match self.hash {
            Some(h) => Some(h@),
            None => None,
        }
    }

    open spec fn spec_data(&self) -> Option<Seq<TreeEntryView>> {
        match self.data {
            Some(d) => Some(views(d@)),
            None => None,
        }
    }

    fn read_tree(&mut self, store: &ObjectStore) -> (r: Result<(), GitError>) {
        let r = match &self.hash {
            Some(h) => read_tree_entries(store, h.as_slice()),
            None => Err(GitError::BrokenObject),
        };
        match r {
            Ok(entries) => {
                self.data = Some(entries);
                Ok(())
            },
            Err(e) => Err(e),
        }
    }

    fn write_tree(&mut self, store: &mut ObjectStore) -> (r: Result<(), GitError>) {
        if self.hash.is_none() {
            self.calculate_hash();
        }
        let body = match &self.data {
            Some(d) => tree_bytes(d),
            None => Vec::new(),
        };
        match &self.hash {
            Some(h) => write_object(store, h.as_slice(), ObjectType::Tree, body.as_slice()),
            None => Err(GitError::BrokenObject),
        }
    }

    fn calculate_hash(&mut self) {
        let id = match &self.data {
            Some(d) => sha1(tree_bytes(d).as_slice()),
            None => Vec::new(),
        };
        self.hash = Some(id);
    }
}

} // verus!
