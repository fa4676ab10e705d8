//! What holds of the store and of the working directory, whatever the
//! commands do.

use crate::blob::blob_type_of;
use crate::bytemap::sorted_keys;
use crate::bytes::has_byte;
use crate::bytes::lines_spec;
use crate::bytes::split_spec;
use crate::bytes::strip_cr;
use crate::commands::add::index_entries;
use crate::commands::branch::is_delete_result;
use crate::commands::checkout::checkout_spec;
use crate::commands::init::initial_branch_name;
use crate::commit::commit_body;
use crate::commit::commit_hash_input;
use crate::commit::commit_id;
use crate::commit::commit_of_body;
use crate::commit::commit_writable;
use crate::commit::CommitDataView;
use crate::commit::stored_commit;
use crate::error::GitError;
use crate::hash::object_id_of;
use crate::index::entries_map;
use crate::index::index_body;
use crate::index::index_entries_of;
use crate::index::index_keyed;
use crate::index::index_line;
use crate::index::index_magic;
use crate::index::index_decodes;
use crate::index::index_of_text;
use crate::index::index_payload;
use crate::index::IndexEntryView;
use crate::index::parse_index_line;
use crate::index::parse_index_lines;
use crate::object::encoded_object;
use crate::object::ObjectType;
use crate::object::store_extends;
use crate::object::store_put;
use crate::object::stored_body;
use crate::object::stored_payload;
use crate::reference::attached_head;
use crate::reference::current_branch_of;
use crate::reference::head_prefix;
use crate::reference::Repository;
use crate::serialize::base64_text;
use crate::storage::commit_listing;
use crate::storage::entries_listing;
use crate::storage::tree_listing;
use crate::storage::written_file;
use crate::tree::line_safe;
use crate::tree::stored_tree;
use crate::tree::TreeEntryType;
use crate::tree::TreeEntryView;
use crate::workspace::EXECUTE_BITS;
use crate::workspace::FileKind;
use crate::workspace::WorkFileView;
use crate::storage::LeafView;
use crate::storage::materialize;
use crate::workspace::EXECUTABLE_MODE;
use vstd::prelude::*;

verus! {

/// The bytes whose hash is the id of an object of kind `kind` with body
/// `body`: the body of a blob or a tree, and the first four fields of a
/// commit.
pub open spec fn hash_input_of(kind: ObjectType, body: Seq<u8>) -> Seq<u8> {
    match kind {
        ObjectType::Commit => match commit_of_body(body) {
            Ok(data) => commit_hash_input(data),
            Err(_) => body,
        },
        _ => body,
    }
}

/// Whether `text` is the text of an object whose id is `id`.
pub open spec fn is_addressed(id: Seq<u8>, text: Seq<u8>) -> bool {
    exists|kind: ObjectType, body: Seq<u8>|
        text == #[trigger] encoded_object(kind, body) && id == object_id_of(
            hash_input_of(kind, body),
        )
}

/// Whether every object of the store is kept under the hash of its
/// content.
pub open spec fn content_addressed(store: Map<Seq<u8>, Seq<u8>>) -> bool {
    forall|id: Seq<u8>| #[trigger] store.contains_key(id) ==> is_addressed(id, store[id])
}

/// Content addressing is kept: a store in which every object is kept under
/// the hash of its content is such a store after an object was written
/// under the hash of its content.
pub proof fn lemma_content_addressing(
    store: Map<Seq<u8>, Seq<u8>>,
    kind: ObjectType,
    body: Seq<u8>,
)
    requires
        content_addressed(store),
    ensures
        content_addressed(
            store_put(
                store,
                object_id_of(hash_input_of(kind, body)),
                encoded_object(kind, body),
            ),
        ),
{
    let id = object_id_of(hash_input_of(kind, body));
    let after = store_put(store, id, encoded_object(kind, body));
    assert forall|k: Seq<u8>| #[trigger] after.contains_key(k) implies is_addressed(k, after[k]) by {
        if !store.contains_key(k) {
            assert(after[k] == encoded_object(kind, body));
        } else {
            assert(is_addressed(k, store[k]));
        }
    }
}

/// The id of a commit that can be written is the hash of the content that
/// is written for it.
pub proof fn lemma_commit_addressed(data: CommitDataView)
    requires
        commit_writable(data),
    ensures
        commit_id(data) == object_id_of(hash_input_of(ObjectType::Commit, commit_body(data))),
{
    crate::commit::lemma_commit_round_trip(data);
}

/// An object is written once: writing under an id a second time, the same
/// text or another, changes nothing.
pub proof fn lemma_written_once(
    store: Map<Seq<u8>, Seq<u8>>,
    id: Seq<u8>,
    first: Seq<u8>,
    second: Seq<u8>,
)
    ensures
        store_put(store_put(store, id, first), id, second) == store_put(store, id, first),
        store_extends(store, store_put(store, id, first)),
{
}

/// A store that holds all that another holds gives the same listing of
/// every tree that the other can list.
pub proof fn lemma_listing_kept(
    old: Map<Seq<u8>, Seq<u8>>,
    new: Map<Seq<u8>, Seq<u8>>,
    id: Seq<u8>,
    prefix: Seq<u8>,
    depth: nat,
)
    requires
        store_extends(old, new),
        tree_listing(old, id, prefix, depth) is Ok,
    ensures
        tree_listing(new, id, prefix, depth) == tree_listing(old, id, prefix, depth),
    decreases depth, 1nat, 0nat,
{
    if id.len() > 0 {
        assert(old.contains_key(id));
    }
    assert(stored_tree(new, id) == stored_tree(old, id));
    lemma_entries_listing_kept(old, new, stored_tree(old, id).unwrap(), prefix, depth);
}

/// A store that holds all that another holds gives the same listing of
/// entries that the other can list.
pub proof fn lemma_entries_listing_kept(
    old: Map<Seq<u8>, Seq<u8>>,
    new: Map<Seq<u8>, Seq<u8>>,
    entries: Seq<TreeEntryView>,
    prefix: Seq<u8>,
    depth: nat,
)
    requires
        store_extends(old, new),
        entries_listing(old, entries, prefix, depth) is Ok,
    ensures
        entries_listing(new, entries, prefix, depth) == entries_listing(old, entries, prefix, depth),
    decreases depth, 0nat, entries.len(),
{
    if entries.len() > 0 {
        lemma_entries_listing_kept(old, new, entries.drop_last(), prefix, depth);
        let entry = entries.last();
        if entry.entry_type == TreeEntryType::Tree {
            lemma_listing_kept(
                old,
                new,
                entry.hash,
                crate::paths::join_path_spec(prefix, entry.name),
                (depth - 1) as nat,
            );
        }
    }
}

/// Whether everything that the commit kept under `id` refers to is there:
/// its root tree and the trees below it can be listed, and the blob of
/// every file can be read.
pub open spec fn commit_complete(store: Map<Seq<u8>, Seq<u8>>, id: Seq<u8>) -> bool {
    &&& commit_listing(store, id) is Ok
    &&& forall|j: int|
        0 <= j < commit_listing(store, id).unwrap().len() ==> stored_body(
            store,
            (#[trigger] commit_listing(store, id).unwrap()[j]).entry.hash,
            ObjectType::Blob,
        ) is Ok
}

/// Reachability is kept: a commit that is complete stays complete in every
/// store that holds all that the store holds. Every command leaves such a
/// store.
pub proof fn lemma_closure_kept(
    old: Map<Seq<u8>, Seq<u8>>,
    new: Map<Seq<u8>, Seq<u8>>,
    id: Seq<u8>,
)
    requires
        store_extends(old, new),
        commit_complete(old, id),
    ensures
        commit_complete(new, id),
        commit_listing(new, id) == commit_listing(old, id),
{
    if id.len() > 0 {
        assert(old.contains_key(id));
    }
    assert(stored_commit(new, id) == stored_commit(old, id));
    let data = stored_commit(old, id).unwrap();
    lemma_listing_kept(
        old,
        new,
        data.tree_hash,
        Seq::empty(),
        crate::storage::MAX_TREE_DEPTH as nat,
    );
    let listing = commit_listing(old, id).unwrap();
    assert forall|j: int| 0 <= j < listing.len() implies stored_body(
        new,
        (#[trigger] listing[j]).entry.hash,
        ObjectType::Blob,
    ) is Ok by {
        let h = listing[j].entry.hash;
        assert(stored_body(old, h, ObjectType::Blob) is Ok);
        assert(old.contains_key(h));
        assert(stored_payload(new, h) == stored_payload(old, h));
    }
}

/// A symbolic link that is written out is a symbolic link whose target is
/// the content of its blob, and staging it gives a symbolic link again.
/// It is written out wherever its path is free.
pub proof fn lemma_symlink_fidelity(existing: Option<WorkFileView>, data: Seq<u8>)
    ensures
        match written_file(existing, TreeEntryType::Bsym, data) {
            Ok(file) => file.kind == FileKind::Symlink && file.data == data && blob_type_of(file)
                == Ok::<TreeEntryType, GitError>(TreeEntryType::Bsym),
            Err(_) => existing is Some,
        },
{
}

/// An executable file that is written out has an execute bit set, and
/// staging it gives an executable file again. It is written out wherever
/// no file of another kind stands at its path.
pub proof fn lemma_executable_fidelity(existing: Option<WorkFileView>, data: Seq<u8>)
    ensures
        match written_file(existing, TreeEntryType::Bexe, data) {
            Ok(file) => file.mode & EXECUTE_BITS != 0 && file.data == data && blob_type_of(file)
                == Ok::<TreeEntryType, GitError>(TreeEntryType::Bexe),
            Err(_) => existing is Some && existing.unwrap().kind != FileKind::Regular,
        },
{
    assert(0o755u32 & 0o111u32 != 0) by (bit_vector);
}

/// A file that is written out where no file stands is staged as what it
/// was written from: its kind is the kind of its entry, and its content is
/// the content of its blob.
pub proof fn lemma_written_file_kind(kind: TreeEntryType, data: Seq<u8>)
    requires
        kind != TreeEntryType::Tree,
    ensures
        written_file(None, kind, data) is Ok,
        written_file(None, kind, data).unwrap().data == data,
        blob_type_of(written_file(None, kind, data).unwrap()) == Ok::<TreeEntryType, GitError>(
            kind,
        ),
{
    assert(0o755u32 & 0o111u32 != 0) by (bit_vector);
    assert(0o644u32 & 0o111u32 == 0) by (bit_vector);
}

/// Kinds are kept when files are written out: where the leaves `leaves`
/// can be written out, the file at the path of a leaf after which no leaf
/// has the same path holds the content of the blob of that leaf; it is a
/// symbolic link where the leaf is one, and an executable file where the
/// leaf is one, and staging it gives the kind of the leaf again.
pub proof fn lemma_restore_fidelity(
    store: Map<Seq<u8>, Seq<u8>>,
    files: Map<Seq<u8>, WorkFileView>,
    leaves: Seq<LeafView>,
    j: int,
)
    requires
        0 <= j < leaves.len(),
        materialize(store, files, leaves) is Ok,
        forall|k: int| j < k < leaves.len() ==> (#[trigger] leaves[k]).path != leaves[j].path,
    ensures
        stored_body(store, leaves[j].entry.hash, ObjectType::Blob) is Ok,
        materialize(store, files, leaves).unwrap().contains_key(leaves[j].path),
        ({
            let file = materialize(store, files, leaves).unwrap()[leaves[j].path];
            let kind = leaves[j].entry.entry_type;
            &&& file.data == stored_body(store, leaves[j].entry.hash, ObjectType::Blob).unwrap()
            &&& kind == TreeEntryType::Bsym ==> file.kind == FileKind::Symlink && blob_type_of(file)
                == Ok::<TreeEntryType, GitError>(TreeEntryType::Bsym)
            &&& kind == TreeEntryType::Bexe ==> file.kind == FileKind::Regular && file.mode
                == EXECUTABLE_MODE && file.mode & EXECUTE_BITS != 0 && blob_type_of(file) == Ok::<
                TreeEntryType,
                GitError,
            >(TreeEntryType::Bexe)
        }),
    decreases leaves.len(),
{
    let init = leaves.drop_last();
    let last = leaves.last();
    let before = materialize(store, files, init).unwrap();
    let data = stored_body(store, last.entry.hash, ObjectType::Blob).unwrap();
    let existing = if before.contains_key(last.path) {
        Some(before[last.path])
    } else {
        None
    };
    assert(materialize(store, files, init) is Ok);
    if j == leaves.len() - 1 {
        lemma_symlink_fidelity(existing, data);
        lemma_executable_fidelity(existing, data);
    } else {
        assert(init[j] == leaves[j]);
        assert(leaves[leaves.len() - 1].path != leaves[j].path);
        assert forall|k: int| j < k < init.len() implies (#[trigger] init[k]).path != init[j].path by {
            assert(init[k] == leaves[k]);
        }
        lemma_restore_fidelity(store, files, init, j);
    }
}

/// Whether an entry of the index can be written to the index file and read
/// back: its path and id can stand in a line, and the id does not end in a
/// carriage return.
pub open spec fn index_entry_writable(e: IndexEntryView) -> bool {
    &&& line_safe(e.path)
    &&& line_safe(e.hash)
    &&& e.hash.len() > 0 ==> e.hash.last() != 13u8
}

/// Whether every entry of `index` can be written to the index file and
/// read back.
pub open spec fn index_writable(index: Map<Seq<u8>, IndexEntryView>) -> bool {
    forall|p: Seq<u8>| #[trigger] index.contains_key(p) ==> index_entry_writable(index[p])
}

/// The line of a writable entry stands for that entry, holds no line feed
/// and does not end in a carriage return.
pub proof fn lemma_index_line(e: IndexEntryView)
    requires
        index_entry_writable(e),
    ensures
        parse_index_line(index_line(e)) == Some(e),
        !has_byte(index_line(e), 10u8),
        strip_cr(index_line(e)) == index_line(e),
{
    crate::bytes::lemma_split_concat(e.path, e.hash, 0u8);
    crate::bytes::lemma_split_none(e.path, 0u8);
    crate::bytes::lemma_split_none(e.hash, 0u8);
    assert(split_spec(index_line(e), 0u8) =~= seq![e.path, e.hash]);
    crate::bytes::lemma_has_byte_concat(e.path + seq![0u8], e.hash, 10u8);
    crate::bytes::lemma_has_byte_concat(e.path, seq![0u8], 10u8);
    crate::bytes::lemma_has_byte(seq![0u8], 10u8);
    if e.hash.len() > 0 {
        assert(index_line(e).last() == e.hash.last());
    } else {
        assert(index_line(e).last() == 0u8);
    }
}

/// The lines of an index, taken from its first entry on.
pub proof fn lemma_index_body_first(entries: Seq<IndexEntryView>)
    requires
        entries.len() > 0,
    ensures
        index_body(entries) == index_line(entries[0]) + seq![10u8] + index_body(
            entries.drop_first(),
        ),
    decreases entries.len(),
{
    if entries.len() == 1 {
        assert(entries.drop_last() =~= Seq::<IndexEntryView>::empty());
        assert(entries.drop_first() =~= Seq::<IndexEntryView>::empty());
        assert(index_body(entries) =~= index_line(entries[0]) + seq![10u8] + index_body(
            entries.drop_first(),
        ));
    } else {
        lemma_index_body_first(entries.drop_last());
        assert(entries.drop_last().drop_first() =~= entries.drop_first().drop_last());
        assert(entries.drop_first().last() == entries.last());
        assert(index_body(entries) =~= index_line(entries[0]) + seq![10u8] + index_body(
            entries.drop_first(),
        ));
    }
}

/// Reading the lines of writable entries gives the entries back.
pub proof fn lemma_index_lines(entries: Seq<IndexEntryView>)
    requires
        forall|i: int| 0 <= i < entries.len() ==> index_entry_writable(#[trigger] entries[i]),
    ensures
        lines_spec(index_body(entries)) == Seq::new(
            entries.len(),
            |i: int| index_line(entries[i]),
        ),
        parse_index_lines(lines_spec(index_body(entries))) == Some(entries),
    decreases entries.len(),
{
    let lines = Seq::new(entries.len(), |i: int| index_line(entries[i]));
    if entries.len() == 0 {
        assert(lines_spec(index_body(entries)) =~= lines);
    } else {
        let rest = entries.drop_first();
        lemma_index_body_first(entries);
        lemma_index_lines(rest);
        lemma_index_line(entries[0]);
        crate::bytes::lemma_lines_first(index_line(entries[0]), index_body(rest));
        assert(lines_spec(index_body(entries)) =~= lines);
    }
    assert forall|i: int| 0 <= i < lines.len() implies (#[trigger] parse_index_line(lines[i]))
        == Some(entries[i]) by {
        lemma_index_line(entries[i]);
    }
    assert(parse_index_lines(lines).unwrap() =~= entries);
}

/// The map of the entries of an index in the order of their paths is the
/// index, where every entry stands under its own path.
pub proof fn lemma_entries_map_of_index(index: Map<Seq<u8>, IndexEntryView>, i: int)
    requires
        index_keyed(index),
        index.dom().finite(),
        0 <= i <= sorted_keys(index.dom()).len(),
    ensures
        entries_map(index_entries(index).take(i)) == index.restrict(
            sorted_keys(index.dom()).take(i).to_set(),
        ),
    decreases i,
{
    crate::bytemap::lemma_sorted_keys(index.dom());
    let keys = sorted_keys(index.dom());
    let entries = index_entries(index);
    if i == 0 {
        assert(entries.take(0) =~= Seq::<IndexEntryView>::empty());
        assert(keys.take(0).to_set() =~= Set::<Seq<u8>>::empty());
        assert(index.restrict(Set::<Seq<u8>>::empty()) =~= Map::<
            Seq<u8>,
            IndexEntryView,
        >::empty());
    } else {
        lemma_entries_map_of_index(index, i - 1);
        assert(entries.take(i).drop_last() =~= entries.take(i - 1));
        assert(entries.take(i).last() == entries[i - 1]);
        assert(keys.to_set().contains(keys[i - 1]));
        assert(index.contains_key(keys[i - 1]));
        assert(entries[i - 1] == index[keys[i - 1]]);
        assert(keys.take(i) =~= keys.take(i - 1).push(keys[i - 1]));
        keys.take(i - 1).lemma_push_to_set_commute(keys[i - 1]);
        assert(entries_map(entries.take(i)) =~= index.restrict(keys.take(i).to_set()));
    }
}

/// The index file round trip: reading the text that is written for an index
/// gives the index back. Every entry stands under its own path and can be
/// written, and decoding the text gives the payload back, as every command
/// that writes the index says of the text that it wrote.
pub proof fn lemma_index_round_trip(index: Map<Seq<u8>, IndexEntryView>)
    requires
        index_keyed(index),
        index.dom().finite(),
        index_writable(index),
        index_decodes(index_entries(index)),
    ensures
        index_of_text(base64_text(index_payload(index_entries(index)))) == Ok::<
            Map<Seq<u8>, IndexEntryView>,
            GitError,
        >(index),
{
    crate::bytemap::lemma_sorted_keys(index.dom());
    let keys = sorted_keys(index.dom());
    let entries = index_entries(index);
    let payload = index_payload(entries);
    assert forall|i: int| 0 <= i < entries.len() implies index_entry_writable(
        #[trigger] entries[i],
    ) by {
        assert(keys.to_set().contains(keys[i]));
        assert(index.contains_key(keys[i]));
    }
    lemma_index_lines(entries);
    assert(payload.subrange(0, 4) =~= index_magic());
    assert(payload.skip(4) =~= index_body(entries));
    assert(index_entries_of(payload) == Ok::<Seq<IndexEntryView>, GitError>(entries));
    lemma_entries_map_of_index(index, keys.len() as int);
    assert(entries.take(keys.len() as int) =~= entries);
    assert(keys.take(keys.len() as int) =~= keys);
    assert(index.restrict(index.dom()) =~= index);
}

/// Whether `HEAD` is well formed: it is attached to a branch that exists,
/// or detached on a commit.
pub open spec fn head_well_formed(
    objects: Map<Seq<u8>, Seq<u8>>,
    heads: Map<Seq<u8>, Seq<u8>>,
    head: Seq<u8>,
) -> bool {
    match current_branch_of(objects, head) {
        Ok(Some(branch)) => heads.contains_key(branch),
        Ok(None) => true,
        Err(_) => false,
    }
}

/// `HEAD` stays well formed where the store keeps what it holds and the
/// branch that `HEAD` is attached to stays. The commands that write
/// objects or move a branch head leave `HEAD` as it is, and are such.
pub proof fn lemma_head_kept(
    objects: Map<Seq<u8>, Seq<u8>>,
    heads: Map<Seq<u8>, Seq<u8>>,
    head: Seq<u8>,
    new_objects: Map<Seq<u8>, Seq<u8>>,
    new_heads: Map<Seq<u8>, Seq<u8>>,
)
    requires
        head_well_formed(objects, heads, head),
        store_extends(objects, new_objects),
        forall|b: Seq<u8>|
            current_branch_of(objects, head) == Ok::<Option<Seq<u8>>, GitError>(Some(b))
                ==> new_heads.contains_key(b),
    ensures
        head_well_formed(new_objects, new_heads, head),
        current_branch_of(new_objects, head) == current_branch_of(objects, head),
{
    if !head_prefix().is_prefix_of(head) {
        assert(crate::object::stored_type(objects, head) is Ok);
        assert(objects.contains_key(head));
        assert(stored_payload(new_objects, head) == stored_payload(objects, head));
    }
}

/// `HEAD` is well formed in a new repository.
pub proof fn lemma_head_after_init(initial_branch: Option<Vec<u8>>, repo: Repository)
    requires
        repo.head@ == attached_head(initial_branch_name(initial_branch)),
        repo.heads@.contains_key(initial_branch_name(initial_branch)),
    ensures
        head_well_formed(repo.objects@, repo.heads@, repo.head@),
{
    let name = initial_branch_name(initial_branch);
    let head = attached_head(name);
    assert(head.subrange(0, head_prefix().len() as int) =~= head_prefix());
    assert(head.skip(head_prefix().len() as int) =~= name);
}

/// `HEAD` is well formed after a checkout, where the target is a branch
/// or has the form of an object id. (An object that is kept under forty
/// bytes of another form may start like a branch reference.)
pub proof fn lemma_head_after_checkout(
    objects: Map<Seq<u8>, Seq<u8>>,
    heads: Map<Seq<u8>, Seq<u8>>,
    head: Seq<u8>,
    text: Seq<u8>,
    root: Seq<u8>,
    files: Map<Seq<u8>, WorkFileView>,
    target: Seq<u8>,
    force: bool,
    branch: bool,
)
    requires
        checkout_spec(objects, heads, head, text, root, files, target, force, branch) is Ok,
        checkout_spec(objects, heads, head, text, root, files, target, force, branch).unwrap().0.contains_key(
            target,
        ) || crate::hash::is_object_id(target),
    ensures
        ({
            let s = checkout_spec(
                objects,
                heads,
                head,
                text,
                root,
                files,
                target,
                force,
                branch,
            ).unwrap();
            head_well_formed(objects, s.0, s.1)
        }),
{
    let s = checkout_spec(objects, heads, head, text, root, files, target, force, branch).unwrap();
    if s.0.contains_key(target) {
        let attached = attached_head(target);
        assert(attached.subrange(0, head_prefix().len() as int) =~= head_prefix());
        assert(attached.skip(head_prefix().len() as int) =~= target);
    } else {
        assert(crate::hash::is_hex_digit(target[0]));
        if head_prefix().is_prefix_of(target) {
            assert(target.subrange(0, head_prefix().len() as int)[0] == head_prefix()[0]);
        }
    }
}

/// `HEAD` is well formed after branches were deleted: the current branch
/// is never among them.
pub proof fn lemma_head_after_delete(
    objects: Map<Seq<u8>, Seq<u8>>,
    heads: Map<Seq<u8>, Seq<u8>>,
    head: Seq<u8>,
    names: Seq<Seq<u8>>,
    after: Map<Seq<u8>, Seq<u8>>,
)
    requires
        head_well_formed(objects, heads, head),
        is_delete_result(objects, heads, head, names, Ok(()), after),
    ensures
        head_well_formed(objects, after, head),
{
    match current_branch_of(objects, head) {
        Ok(Some(current)) => {
            if names.to_set().contains(current) {
                let i = choose|i: int| 0 <= i < names.len() && names[i] == current;
                crate::commands::branch::lemma_delete_check_each(objects, heads, current, names, i);
            }
        },
        _ => {},
    }
}

} // verus!
