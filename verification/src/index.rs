//! The index: the staged files, each path with the id of its blob.
//!
//! The index file holds the base64 envelope of a payload: the four bytes
//! `DIRC`, then one line for each entry, the path and the id with a zero
//! byte between them. An empty payload stands for the empty index.

use crate::bytemap::ByteMap;
use crate::bytes::append;
use crate::bytes::bytes_eq;
use crate::bytes::copy_range;
use crate::bytes::lines_spec;
use crate::bytes::lines;
use crate::bytes::seq_views;
use crate::bytes::split_spec;
use crate::bytes::split;
use crate::bytes::views;
use crate::error::GitError;
use crate::laws::index_writable;
use crate::serialize::base64_data;
use crate::serialize::base64_text;
use crate::serialize::can_serialize;
use crate::serialize::deserialize;
use crate::serialize::encodable_len;
use crate::serialize::serialize;
use vstd::prelude::*;

verus! {

/// One staged file.
#[derive(Debug)]
pub struct IndexEntry {
    /// The path, relative to the repository root.
    pub path: Vec<u8>,
    /// The id of the blob of its content.
    pub hash: Vec<u8>,
}

/// The mathematical value of an `IndexEntry`.
pub struct IndexEntryView {
    pub path: Seq<u8>,
    pub hash: Seq<u8>,
}

impl View for IndexEntry {
    type V = IndexEntryView;

    open spec fn view(&self) -> IndexEntryView {
        IndexEntryView { path: self.path@, hash: self.hash@ }
    }
}

impl IndexEntry {
    /// A copy of this entry.
    pub fn duplicate(&self) -> (r: IndexEntry)
        ensures
            r@ == self@,
    {
        IndexEntry { path: self.path.clone(), hash: self.hash.clone() }
    }
}

/// The staged files, each under its path.
pub type Index = ByteMap<IndexEntry>;

/// The four bytes that the payload of an index starts with: `DIRC`.
pub open spec fn index_magic() -> Seq<u8> {
    seq![68u8, 73u8, 82u8, 67u8]
}

/// The line of an entry, without its line feed.
pub open spec fn index_line(e: IndexEntryView) -> Seq<u8> {
    e.path + seq![0u8] + e.hash
}

/// The lines of `entries`, each with its line feed.
pub open spec fn index_body(entries: Seq<IndexEntryView>) -> Seq<u8>
    decreases entries.len(),
{
    if entries.len() == 0 {
        Seq::empty()
    } else {
        index_body(entries.drop_last()) + index_line(entries.last()) + seq![10u8]
    }
}

/// The payload of the index with entries `entries`.
pub open spec fn index_payload(entries: Seq<IndexEntryView>) -> Seq<u8> {
    index_magic() + index_body(entries)
}

/// The entry that `line` stands for: exactly two fields.
pub open spec fn parse_index_line(line: Seq<u8>) -> Option<IndexEntryView> {
    let parts = split_spec(line, 0u8);
    if parts.len() == 2 {
        Some(IndexEntryView { path: parts[0], hash: parts[1] })
    } else {
        None
    }
}

/// The entries that `lines` stand for, if every line stands for one.
pub open spec fn parse_index_lines(lines: Seq<Seq<u8>>) -> Option<Seq<IndexEntryView>> {
    if forall|i: int| 0 <= i < lines.len() ==> (#[trigger] parse_index_line(lines[i])) is Some {
        Some(Seq::new(lines.len(), |i: int| parse_index_line(lines[i]).unwrap()))
    } else {
        None
    }
}

/// The entries of the index with payload `payload`, in the order of their
/// lines. `MalformedIndex` where the payload is not empty and does not
/// start with `DIRC`, or a line has not two fields.
pub open spec fn index_entries_of(payload: Seq<u8>) -> Result<Seq<IndexEntryView>, GitError> {
    if payload.len() == 0 {
        Ok(Seq::empty())
    } else if payload.len() < 4 || payload.subrange(0, 4) != index_magic() {
        Err(GitError::MalformedIndex)
    } else {
        match parse_index_lines(lines_spec(payload.skip(4))) {
            Some(entries) => Ok(entries),
            None => Err(GitError::MalformedIndex),
        }
    }
}

/// The map that holds each of `entries` under its path; of two entries
/// with one path, the later.
pub open spec fn entries_map(entries: Seq<IndexEntryView>) -> Map<Seq<u8>, IndexEntryView>
    decreases entries.len(),
{
    if entries.len() == 0 {
        Map::empty()
    } else {
        entries_map(entries.drop_last()).insert(entries.last().path, entries.last())
    }
}

/// Whether every entry of `index` stands under its own path.
pub open spec fn index_keyed(index: Map<Seq<u8>, IndexEntryView>) -> bool {
    forall|k: Seq<u8>| #[trigger] index.contains_key(k) ==> index[k].path == k
}

/// In the map of a sequence of entries each entry stands under its own
/// path.
pub proof fn lemma_entries_map_keyed(entries: Seq<IndexEntryView>)
    ensures
        index_keyed(entries_map(entries)),
    decreases entries.len(),
{
    if entries.len() > 0 {
        lemma_entries_map_keyed(entries.drop_last());
    }
}

/// The index kept in the index file with text `text`: the empty index
/// where the file is empty. `MalformedIndex` where the text is no base64
/// or its payload is no index.
pub open spec fn index_of_text(text: Seq<u8>) -> Result<Map<Seq<u8>, IndexEntryView>, GitError> {
    if text.len() == 0 {
        Ok(Map::empty())
    } else {
        match base64_data(text) {
            None => Err(GitError::MalformedIndex),
            Some(payload) => match index_entries_of(payload) {
                Err(e) => Err(e),
                Ok(entries) => Ok(entries_map(entries)),
            },
        }
    }
}

/// In the index of an index file every entry stands under its own path.
pub proof fn lemma_index_of_text_keyed(text: Seq<u8>)
    ensures
        index_of_text(text) matches Ok(index) ==> index_keyed(index),
{
    if text.len() > 0 {
        match base64_data(text) {
            Some(payload) => match index_entries_of(payload) {
                Ok(entries) => {
                    lemma_entries_map_keyed(entries);
                },
                Err(_) => {},
            },
            None => {},
        }
    }
}

/// Whether the text of the index file for `entries` is read as their
/// payload: it is not empty, and decoding it gives the payload back. Every
/// call of the encoder shows this of the text that it returns.
pub open spec fn index_decodes(entries: Seq<IndexEntryView>) -> bool {
    &&& base64_text(index_payload(entries)).len() > 0
    &&& base64_data(base64_text(index_payload(entries))) == Some(index_payload(entries))
}

/// The four bytes `DIRC`.
fn magic_bytes() -> (magic: [u8; 4])
    ensures
        magic@ == index_magic(),
{
    let magic: [u8; 4] = [68u8, 73u8, 82u8, 67u8];
    assert(magic@ =~= index_magic());
    magic
}

/// The entries of the index with payload `payload`, in the order of their
/// lines.
pub fn parse_index(payload: &[u8]) -> (r: Result<Vec<IndexEntry>, GitError>)
    ensures
        match r {
            Ok(entries) => index_entries_of(payload@) == Ok::<Seq<IndexEntryView>, GitError>(
                views(entries@),
            ),
            Err(e) => index_entries_of(payload@) == Err::<Seq<IndexEntryView>, GitError>(e),
        },
{
    let mut entries: Vec<IndexEntry> = Vec::new();
    if payload.len() == 0 {
        assert(views(entries@) =~= Seq::<IndexEntryView>::empty());
        return Ok(entries);
    }
    if payload.len() < 4 {
        return Err(GitError::MalformedIndex);
    }
    let head = copy_range(payload, 0, 4);
    if !bytes_eq(head.as_slice(), magic_bytes().as_slice()) {
        return Err(GitError::MalformedIndex);
    }
    let body = copy_range(payload, 4, payload.len());
    assert(body@ =~= payload@.skip(4));
    let all = lines(body.as_slice());
    let ghost ls = lines_spec(payload@.skip(4));
    let mut i: usize = 0;
    while i < all.len()
        invariant
            i <= all@.len(),
            ls == seq_views(all@),
            ls == lines_spec(payload@.skip(4)),
            payload@.len() >= 4,
            payload@.subrange(0, 4) == index_magic(),
            entries@.len() == i,
            forall|j: int| 0 <= j < i ==> (#[trigger] parse_index_line(ls[j])) == Some(entries@[j]@),
        decreases all@.len() - i,
    {
        let parts = split(all[i].as_slice(), 0u8);
        proof {
            assert(ls[i as int] == all@[i as int]@);
            assert(seq_views(parts@).len() == parts@.len());
        }
        if parts.len() != 2 {
            proof {
                assert(parse_index_line(ls[i as int]) is None);
            }
            return Err(GitError::MalformedIndex);
        }
        proof {
            assert(seq_views(parts@)[0] == parts@[0]@);
            assert(seq_views(parts@)[1] == parts@[1]@);
        }
        entries.push(IndexEntry { path: parts[0].clone(), hash: parts[1].clone() });
        i += 1;
    }
    proof {
        assert(ls.len() == all@.len());
        assert(parse_index_lines(ls).unwrap() =~= views(entries@));
    }
    Ok(entries)
}

/// The index kept in the index file with text `text`.
pub fn read_index(text: &[u8]) -> (r: Result<Index, GitError>)
    ensures
        match r {
            Ok(index) => index.wf() && index_keyed(index@) && index_of_text(text@) == Ok::<
                Map<Seq<u8>, IndexEntryView>,
                GitError,
            >(index@),
            Err(e) => index_of_text(text@) == Err::<Map<Seq<u8>, IndexEntryView>, GitError>(e),
        },
{
    if text.len() == 0 {
        return Ok(ByteMap::new());
    }
    let payload = match deserialize(text) {
        Some(payload) => payload,
        None => {
            return Err(GitError::MalformedIndex);
        },
    };
    let entries = match parse_index(payload.as_slice()) {
        Ok(entries) => entries,
        Err(e) => {
            return Err(e);
        },
    };
    let mut index: Index = ByteMap::new();
    let ghost all = views(entries@);
    let mut i: usize = 0;
    proof {
        assert(all.take(0) =~= Seq::<IndexEntryView>::empty());
    }
    while i < entries.len()
        invariant
            index.wf(),
            i <= entries@.len(),
            all == views(entries@),
            index@ == entries_map(all.take(i as int)),
        decreases entries@.len() - i,
    {
        proof {
            assert(all.take(i + 1).drop_last() =~= all.take(i as int));
            assert(all.take(i + 1).last() == entries@[i as int]@);
        }
        index.insert(entries[i].path.clone(), entries[i].duplicate());
        i += 1;
    }
    proof {
        assert(all.take(entries@.len() as int) =~= all);
        lemma_entries_map_keyed(all);
    }
    Ok(index)
}

/// The text of the index file for `index`: its entries in the order of
/// their paths. Reading that text gives `index` back, where every entry
/// stands under its own path and can stand in a line. `TooLarge` where the
/// payload cannot be encoded on this machine.
pub fn write_index(index: &Index) -> (r: Result<Vec<u8>, GitError>)
    requires
        index.wf(),
    ensures
        match r {
            Ok(text) => encodable_len(index_payload(index.spec_vals()).len()) && text@
                == base64_text(index_payload(index.spec_vals())) && index_decodes(
                index.spec_vals(),
            ) && (index_keyed(index@) && index_writable(index@) ==> index_of_text(text@) == Ok::<
                Map<Seq<u8>, IndexEntryView>,
                GitError,
            >(index@)),
            Err(e) => e == GitError::TooLarge && !encodable_len(
                index_payload(index.spec_vals()).len(),
            ),
        },
{
    let mut data = vstd::slice::slice_to_vec(magic_bytes().as_slice());
    let ghost all = index.spec_vals();
    let mut i: usize = 0;
    proof {
        assert(all.take(0) =~= Seq::<IndexEntryView>::empty());
        assert(data@ =~= index_magic() + index_body(all.take(0)));
    }
    while i < index.len()
        invariant
            index.wf(),
            i <= index.spec_keys().len(),
            all == index.spec_vals(),
            data@ == index_magic() + index_body(all.take(i as int)),
        decreases index.spec_keys().len() - i,
    {
        let entry = index.value_at(i);
        append(&mut data, entry.path.as_slice());
        data.push(0u8);
        append(&mut data, entry.hash.as_slice());
        data.push(10u8);
        proof {
            assert(all.take(i + 1).drop_last() =~= all.take(i as int));
            assert(all.take(i + 1).last() == entry@);
            assert(data@ =~= index_magic() + (index_body(all.take(i as int)) + index_line(entry@)
                + seq![10u8]));
        }
        i += 1;
    }
    proof {
        assert(all.take(all.len() as int) =~= all);
    }
    if !can_serialize(data.as_slice()) {
        return Err(GitError::TooLarge);
    }
    let text = serialize(data.as_slice());
    proof {
        assert(data@.len() >= 4);
        if index_keyed(index@) && index_writable(index@) {
            index.lemma_canonical();
            index.lemma_view();
            crate::laws::lemma_index_round_trip(index@);
        }
    }
    Ok(text)
}

} // verus!
