//! Objects of the store and the operations on them.
//!
//! Nothing here touches the file system. An operation that stores an object
//! returns the [`Blob`] to be written, and [`Blob::write_blob`] says where and
//! with which bytes; an operation that reads one takes what was found at the
//! object's path as an [`ObjectFile`].

use crate::bytes::{copy_range, find_byte};
use crate::commit::{
    commit_payload, commit_writable, decode_commit, encode_commit, fixed_signature,
    lemma_commit_round_trip, lemma_fixed_signature_writable, parse_commit, Commit, CommitView,
    Signature,
};
use crate::compress::{compress, decompress, decompressed};
use crate::digest::{
    digest, hex_bytes, hex_string, hex_to_id, id_to_hex, is_hex_id, lemma_hex_round_trip,
    object_path, path_of_id, sha1_digest,
};
use crate::dir::{
    children_writes, collected, entry_for, is_hidden, tree_writes, writes_for, DirEntry,
};
use crate::error::StoreError;
use crate::frame::{decode_frame, encode_frame, frame, lemma_frame_round_trip, parse_frame};
use crate::tree::{
    decode_tree, entry_views, parse_tree, tree_frame, tree_id, tree_object, views, TreeEntry,
    TreeEntryView, TreeObject,
};
use vstd::prelude::*;
use vstd::slice::slice_to_vec;
use vstd::utf8::encode_utf8;

verus! {

/// The three kinds of object.
#[derive(Clone, Copy, Debug, PartialEq, Eq, Structural)]
#[allow(clippy::upper_case_acronyms)]
pub enum BlobType {
    /// The contents of a file.
    BLOB,
    /// A directory: a sorted list of named children.
    TREE,
    /// A snapshot: a tree, an optional parent and who made it when.
    COMMIT,
}

/// An object: its kind, its id and its frame.
///
/// The id is never supplied from outside. The constructors compute it from
/// the frame, and the fields cannot be set, so in every `Blob` the id is the
/// digest of the frame and the kind is the one that the frame names.
#[derive(Debug)]
pub struct Blob {
    /// The kind that the frame's header names.
    blob_type: BlobType,
    /// The SHA-1 digest of `content`.
    sha_val: [u8; 20],
    /// The frame: header, NUL and payload, before compression.
    content: Vec<u8>,
}

/// What was found at the path of an object.
#[derive(Debug)]
pub enum ObjectFile {
    /// No file exists at the path.
    Absent,
    /// The file exists and could not be read.
    Unreadable,
    /// The bytes of the file.
    Present(Vec<u8>),
}

/// A file to be written so that an object is stored.
#[derive(Debug)]
pub struct ObjectWrite {
    /// The path below the root of the store, with `/` between its parts.
    pub path: String,
    /// The compressed frame.
    pub bytes: Vec<u8>,
}

/// The frame that the bytes of an object file hold: what they inflate to,
/// if that is a well-formed frame.
pub open spec fn inflated_frame(bytes: Seq<u8>) -> Result<Seq<u8>, StoreError> {
    match decompressed(bytes) {
        Err(e) => Err(e),
        Ok(framed) => if parse_frame(framed) is Some {
            Ok(framed)
        } else {
            Err(StoreError::CorruptObject)
        },
    }
}

/// The frame that an object file holds, or the error that reading it gives.
pub open spec fn stored_frame(file: ObjectFile) -> Result<Seq<u8>, StoreError> {
    match file {
        ObjectFile::Absent => Err(StoreError::ObjectNotFound),
        ObjectFile::Unreadable => Err(StoreError::IoFailure),
        ObjectFile::Present(bytes) => inflated_frame(bytes@),
    }
}

impl Blob {
    /// The kind of the object.
    pub closed spec fn kind(&self) -> BlobType {
        self.blob_type
    }

    /// The id of the object.
    pub closed spec fn id(&self) -> [u8; 20] {
        self.sha_val
    }

    /// The frame of the object: header, NUL and payload.
    pub closed spec fn frame(&self) -> Seq<u8> {
        self.content@
    }

    /// The id is the digest of the frame, and the frame is well formed and of
    /// the recorded kind.
    pub open spec fn wf(&self) -> bool {
        &&& self.id() == sha1_digest(self.frame())
        &&& parse_frame(self.frame()) is Some
        &&& parse_frame(self.frame()).unwrap().0 == self.kind()
    }

    #[verifier::type_invariant]
    spec fn well_formed(&self) -> bool {
        self.wf()
    }

    /// The payload that the frame carries.
    pub open spec fn payload(&self) -> Seq<u8> {
        parse_frame(self.frame()).unwrap().1
    }

    /// The kind of the object.
    pub fn blob_type(&self) -> (kind: BlobType)
        ensures
            kind == self.kind(),
            self.wf(),
    {
        proof {
            use_type_invariant(self);
        }
        self.blob_type
    }

    /// The id of the object: the SHA-1 digest of its frame.
    pub fn sha_val(&self) -> (id: [u8; 20])
        ensures
            id == self.id(),
            id == sha1_digest(self.frame()),
    {
        proof {
            use_type_invariant(self);
        }
        self.sha_val
    }

    /// The frame of the object, before compression.
    pub fn content(&self) -> (framed: &[u8])
        ensures
            framed@ == self.frame(),
            parse_frame(framed@) == Some((self.kind(), self.payload())),
    {
        proof {
            use_type_invariant(self);
        }
        self.content.as_slice()
    }

    /// Makes the object of kind `blob_type` with payload `data`: frames the
    /// payload and hashes the frame.
    pub fn new_blob_from_data(data: Vec<u8>, blob_type: BlobType) -> (blob: Blob)
        ensures
            blob.kind() == blob_type,
            blob.frame() == frame(blob_type, data@),
            blob.id() == sha1_digest(frame(blob_type, data@)),
            blob.wf(),
            blob.payload() == data@,
    {
        Blob::of_payload(data.as_slice(), blob_type)
    }

    /// As [`Blob::new_blob_from_data`], for a payload that is borrowed.
    pub fn of_payload(data: &[u8], blob_type: BlobType) -> (blob: Blob)
        ensures
            blob.kind() == blob_type,
            blob.frame() == frame(blob_type, data@),
            blob.id() == sha1_digest(frame(blob_type, data@)),
            blob.wf(),
            blob.payload() == data@,
    {
        let content: Vec<u8> = encode_frame(blob_type, data);
        let sha_val: [u8; 20] = digest(content.as_slice());
        proof {
            lemma_frame_round_trip(blob_type, data@);
        }
        Blob { blob_type, sha_val, content }
    }

    /// Makes the object that an object file holds: inflates the bytes, checks
    /// that they are a frame, and hashes the frame.
    ///
    /// Fails with [`StoreError::ObjectNotFound`] where the file is absent,
    /// with [`StoreError::IoFailure`] where it could not be read, and with
    /// [`StoreError::CorruptObject`] where the bytes do not inflate or do not
    /// inflate to a frame.
    pub fn new_blob_from_blob_file(file: ObjectFile) -> (r: Result<Blob, StoreError>)
        ensures
            match stored_frame(file) {
                Ok(framed) => r matches Ok(blob) && blob.frame() == framed && blob.wf(),
                Err(e) => r matches Err(f) && f == e,
            },
    {
        match file {
            ObjectFile::Absent => Err(StoreError::ObjectNotFound),
            ObjectFile::Unreadable => Err(StoreError::IoFailure),
            ObjectFile::Present(bytes) => {
                let content: Vec<u8> = match decompress(bytes.as_slice()) {
                    Ok(content) => content,
                    Err(e) => {
                        return Err(e);
                    },
                };
                let blob_type: BlobType = match decode_frame(content.as_slice()) {
                    Ok((kind, _)) => kind,
                    Err(e) => {
                        return Err(e);
                    },
                };
                let sha_val: [u8; 20] = digest(content.as_slice());
                Ok(Blob { blob_type, sha_val, content })
            },
        }
    }

    /// The id in forty lowercase hexadecimal characters.
    pub fn get_sha_string(&self) -> (sha: String)
        ensures
            sha@ == hex_string(self.id()@),
    {
        id_to_hex(&self.sha_val)
    }

    /// The file that stores this object: its path, derived from the id, and
    /// the compressed frame. Two objects with the same id go to the same
    /// path.
    ///
    /// Read back, the file gives the frame of this object. Should the file
    /// lose its last byte, reading it reports a corrupt object.
    pub fn write_blob(&self) -> (file: ObjectWrite)
        ensures
            file.path@ == object_path(self.id()@),
            inflated_frame(file.bytes@) == Ok::<Seq<u8>, StoreError>(self.frame()),
            file.bytes@.len() > 0,
            inflated_frame(file.bytes@.drop_last()) == Err::<Seq<u8>, StoreError>(
                StoreError::CorruptObject,
            ),
    {
        proof {
            use_type_invariant(self);
        }
        ObjectWrite { path: path_of_id(&self.sha_val), bytes: compress(self.content.as_slice()) }
    }
}

/// The frames of a sequence of objects, in the same order.
pub open spec fn frames(objects: Seq<Blob>) -> Seq<Seq<u8>> {
    Seq::new(objects.len(), |i: int| objects[i].frame())
}

/// Where the object with the given id lies below the root of the store:
/// `objects/`, the first two characters of the id, `/`, and the other
/// thirty-eight, all in lowercase.
///
/// Fails with [`StoreError::InvalidIdFormat`] unless `sha` is exactly forty
/// hexadecimal characters.
pub fn get_path(sha: &str) -> (r: Result<String, StoreError>)
    ensures
        match r {
            Ok(path) => is_hex_id(sha@) && path@ == object_path(hex_bytes(sha@)),
            Err(e) => !is_hex_id(sha@) && e == StoreError::InvalidIdFormat,
        },
{
    match hex_to_id(sha) {
        Ok(id) => Ok(path_of_id(&id)),
        Err(e) => Err(e),
    }
}

/// The payload of the object that an object file holds, whatever its kind.
///
/// Fails as [`Blob::new_blob_from_blob_file`] does.
pub fn read_blob(file: ObjectFile) -> (r: Result<Vec<u8>, StoreError>)
    ensures
        match stored_frame(file) {
            Ok(framed) => r matches Ok(payload) && payload@ == parse_frame(framed).unwrap().1,
            Err(e) => r matches Err(f) && f == e,
        },
{
    let blob: Blob = match Blob::new_blob_from_blob_file(file) {
        Ok(blob) => blob,
        Err(e) => {
            return Err(e);
        },
    };
    let content: &[u8] = blob.content();
    assert(content@.subrange(0, content@.len() as int) =~= content@);
    // the header ends at the first NUL; the payload is what follows
    match find_byte(content, 0, content.len(), 0) {
        Some(nul) => {
            let payload: Vec<u8> = copy_range(content, nul + 1, content.len());
            assert(payload@ =~= content@.skip(nul + 1));
            Ok(payload)
        },
        None => Err(StoreError::CorruptObject),
    }
}

/// The blob for the contents of a file. Equal contents give equal ids.
pub fn hash_object(data: Vec<u8>) -> (blob: Blob)
    ensures
        blob.kind() == BlobType::BLOB,
        blob.frame() == frame(BlobType::BLOB, data@),
        blob.id() == sha1_digest(frame(BlobType::BLOB, data@)),
        blob.wf(),
        blob.payload() == data@,
{
    Blob::new_blob_from_data(data, BlobType::BLOB)
}

/// What [`read_tree_object`] returns for an object file.
pub open spec fn stored_tree(file: ObjectFile) -> Result<Seq<TreeEntryView>, StoreError> {
    match stored_frame(file) {
        Err(e) => Err(e),
        Ok(framed) => match parse_tree(parse_frame(framed).unwrap().1) {
            Some(listed) => Ok(listed),
            None => Err(StoreError::CorruptObject),
        },
    }
}

/// The entries of the tree that an object file holds, in the order of the
/// payload.
///
/// Fails as [`Blob::new_blob_from_blob_file`] does, and with
/// [`StoreError::CorruptObject`] where the payload is no list of entries.
pub fn read_tree_object(file: ObjectFile) -> (r: Result<Vec<TreeEntry>, StoreError>)
    ensures
        match stored_tree(file) {
            Ok(listed) => r matches Ok(entries) && entry_views(entries@) == listed,
            Err(e) => r matches Err(f) && f == e,
        },
{
    match read_blob(file) {
        Ok(payload) => decode_tree(payload.as_slice()),
        Err(e) => Err(e),
    }
}

/// Whether a name marks a hidden entry, which the tree builder passes over:
/// it begins with a dot.
pub fn is_hidden_name(name: &[u8]) -> (hidden: bool)
    ensures
        hidden == is_hidden(name@),
{
    name.len() > 0 && name[0] == 0x2e
}

/// Builds the tree of a directory and of every directory below it.
///
/// Hidden entries are passed over. Each file gives a blob, each directory
/// its own tree; a directory whose tree would be empty gives nothing, and
/// neither does this one: the result is `None` where no entry is left. The
/// objects to be stored are appended to `objects`, each directory's tree
/// after the objects of its entries.
pub fn write_tree_object(entries: &Vec<DirEntry>, objects: &mut Vec<Blob>) -> (id: Option<[u8; 20]>)
    ensures
        match tree_id(collected(entries@)) {
            Some(tree) => id matches Some(sha) && sha@ == tree,
            None => id is None,
        },
        final(objects)@.len() >= old(objects)@.len(),
        final(objects)@.subrange(0, old(objects)@.len() as int) == old(objects)@,
        frames(final(objects)@) == frames(old(objects)@) + tree_writes(entries@),
        forall|k: int| old(objects)@.len() <= k < final(objects)@.len() ==> (#[trigger] final(objects)@[k]).wf(),
    decreases entries,
{
    let mut contents: Vec<TreeObject> = Vec::new();
    let mut i: usize = 0;
    assert(views(contents@) =~= collected(entries@.subrange(0, 0)));
    assert(frames(objects@) =~= frames(old(objects)@) + children_writes(entries@.subrange(0, 0)));
    while i < entries.len()
        invariant
            i <= entries@.len(),
            views(contents@) == collected(entries@.subrange(0, i as int)),
            objects@.len() >= old(objects)@.len(),
            objects@.subrange(0, old(objects)@.len() as int) == old(objects)@,
            frames(objects@) == frames(old(objects)@) + children_writes(entries@.subrange(0, i as int)),
            forall|k: int| old(objects)@.len() <= k < objects@.len() ==> (#[trigger] objects@[k]).wf(),
        decreases entries@.len() - i,
    {
        let ghost seen = entries@.subrange(0, i as int);
        let ghost next = entries@.subrange(0, i + 1);
        let ghost stored = objects@;
        let ghost listed = views(contents@);
        proof {
            assert(next.drop_last() =~= seen);
            assert(next.last() == entries@[i as int]);
        }
        match &entries[i] {
            DirEntry::File { name, data } => {
                if !is_hidden_name(name.as_slice()) {
                    let blob: Blob = Blob::of_payload(data.as_slice(), BlobType::BLOB);
                    let entry = TreeObject {
                        is_file: true,
                        name: slice_to_vec(name.as_slice()),
                        sha_val: blob.sha_val(),
                    };
                    let ghost e = entry@;
                    objects.push(blob);
                    contents.push(entry);
                    proof {
                        assert(entry_for(entries@[i as int]) == Some(e));
                        assert(views(contents@) =~= listed.push(e));
                        assert(frames(objects@) =~= frames(stored) + seq![frame(BlobType::BLOB, data@)]);
                        assert(writes_for(entries@[i as int]) == seq![frame(BlobType::BLOB, data@)]);
                    }
                } else {
                    assert(entry_for(entries@[i as int]) is None);
                    assert(writes_for(entries@[i as int]) == Seq::<Seq<u8>>::empty());
                }
            },
            DirEntry::Dir { name, entries: inner } => {
                if !is_hidden_name(name.as_slice()) {
                    match write_tree_object(inner, objects) {
                        Some(sha_val) => {
                            let entry = TreeObject {
                                is_file: false,
                                name: slice_to_vec(name.as_slice()),
                                sha_val,
                            };
                            let ghost e = entry@;
                            contents.push(entry);
                            proof {
                                assert(entry_for(entries@[i as int]) == Some(e));
                                assert(views(contents@) =~= listed.push(e));
                            }
                        },
                        None => {
                            assert(entry_for(entries@[i as int]) is None);
                        },
                    }
                    proof {
                        assert(writes_for(entries@[i as int]) == tree_writes(inner@));
                        assert(frames(objects@) =~= frames(stored) + tree_writes(inner@));
                        assert forall|k: int| 0 <= k < stored.len() implies objects@[k] == stored[k] by {
                            assert(objects@.subrange(0, stored.len() as int)[k] == stored[k]);
                        }
                        assert(objects@.subrange(0, old(objects)@.len() as int) =~= old(objects)@) by {
                            assert forall|k: int| 0 <= k < old(objects)@.len() implies objects@[k] == old(
                                objects,
                            )@[k] by {
                                assert(stored.subrange(0, old(objects)@.len() as int)[k] == stored[k]);
                            }
                        }
                    }
                } else {
                    assert(entry_for(entries@[i as int]) is None);
                    assert(writes_for(entries@[i as int]) == Seq::<Seq<u8>>::empty());
                }
            },
            DirEntry::Other { .. } => {
                assert(entry_for(entries@[i as int]) is None);
                assert(writes_for(entries@[i as int]) == Seq::<Seq<u8>>::empty());
            },
        }
        proof {
            assert(children_writes(next) == children_writes(seen) + writes_for(entries@[i as int]));
            assert(frames(objects@) =~= frames(old(objects)@) + children_writes(next));
            assert(objects@.subrange(0, old(objects)@.len() as int) =~= old(objects)@);
            assert(objects@.len() >= stored.len());
            assert(objects@.subrange(0, stored.len() as int) =~= stored);
            assert forall|k: int| old(objects)@.len() <= k < objects@.len() implies (
            #[trigger] objects@[k]).wf() by {
                if k < stored.len() {
                    assert(objects@.subrange(0, stored.len() as int)[k] == objects@[k]);
                    assert(stored[k].wf());
                }
            }
        }
        i = i + 1;
    }
    assert(entries@.subrange(0, i as int) =~= entries@);
    let ghost stored = objects@;
    match tree_object(contents) {
        Some(tree) => {
            let sha_val: [u8; 20] = tree.sha_val();
            objects.push(tree);
            proof {
                assert(frames(objects@) =~= frames(stored) + seq![
                    tree_frame(collected(entries@)).unwrap(),
                ]);
                assert(objects@.subrange(0, old(objects)@.len() as int) =~= old(objects)@);
            }
            Some(sha_val)
        },
        None => {
            assert(frames(objects@) =~= frames(old(objects)@) + tree_writes(entries@));
            None
        },
    }
}

/// Builds the tree of a directory as [`write_tree_object`] does and gives
/// its id in hexadecimal, or `None` where the directory has no tree.
pub fn create_tree_object(entries: &Vec<DirEntry>, objects: &mut Vec<Blob>) -> (sha: Option<String>)
    ensures
        match tree_id(collected(entries@)) {
            Some(tree) => sha matches Some(s) && s@ == hex_string(tree),
            None => sha is None,
        },
        final(objects)@.len() >= old(objects)@.len(),
        final(objects)@.subrange(0, old(objects)@.len() as int) == old(objects)@,
        frames(final(objects)@) == frames(old(objects)@) + tree_writes(entries@),
        forall|k: int| old(objects)@.len() <= k < final(objects)@.len() ==> (#[trigger] final(objects)@[k]).wf(),
{
    match write_tree_object(entries, objects) {
        Some(id) => Some(id_to_hex(&id)),
        None => None,
    }
}

/// The commit object for what `commit` holds.
pub fn commit_object(commit: &Commit) -> (blob: Blob)
    ensures
        blob.kind() == BlobType::COMMIT,
        blob.frame() == frame(BlobType::COMMIT, commit_payload(commit@)),
        blob.id() == sha1_digest(frame(BlobType::COMMIT, commit_payload(commit@))),
        blob.wf(),
        blob.payload() == commit_payload(commit@),
{
    let payload: Vec<u8> = encode_commit(commit);
    Blob::new_blob_from_data(payload, BlobType::COMMIT)
}

/// The commit that [`create_commit`] makes of its arguments: the ids that
/// the two strings write, no parent where the parent's string is empty, the
/// fixed identity as author and committer at the given time, and the
/// message in UTF-8.
pub open spec fn new_commit(
    tree_sha: Seq<char>,
    parent_sha: Seq<char>,
    message: Seq<char>,
    time: u64,
) -> CommitView {
    CommitView {
        tree: hex_bytes(tree_sha),
        parent: if parent_sha.len() == 0 {
            None
        } else {
            Some(hex_bytes(parent_sha))
        },
        author: fixed_signature(time),
        committer: fixed_signature(time),
        message: encode_utf8(message),
    }
}

/// Makes the commit of the tree `tree_sha` on top of `parent_sha`, or
/// without a parent where `parent_sha` is empty, at `time` seconds since the
/// Unix epoch, with the fixed identity as author and committer.
///
/// Fails with [`StoreError::InvalidIdFormat`] unless `tree_sha` is forty
/// hexadecimal characters and `parent_sha` is empty or forty hexadecimal
/// characters.
pub fn create_commit(tree_sha: &String, parent_sha: &String, message: &String, time: u64) -> (r:
    Result<Blob, StoreError>)
    ensures
        match r {
            Ok(blob) => {
                &&& is_hex_id(tree_sha@)
                &&& parent_sha@.len() == 0 || is_hex_id(parent_sha@)
                &&& blob.kind() == BlobType::COMMIT
                &&& blob.frame() == frame(
                    BlobType::COMMIT,
                    commit_payload(new_commit(tree_sha@, parent_sha@, message@, time)),
                )
                &&& blob.id() == sha1_digest(blob.frame())
                &&& blob.wf()
            },
            Err(e) => {
                &&& e == StoreError::InvalidIdFormat
                &&& !is_hex_id(tree_sha@) || (parent_sha@.len() != 0 && !is_hex_id(parent_sha@))
            },
        },
{
    let tree_id: [u8; 20] = match hex_to_id(tree_sha.as_str()) {
        Ok(id) => id,
        Err(e) => {
            return Err(e);
        },
    };
    let parent_id: Option<[u8; 20]> = if parent_sha.as_str().is_empty() {
        None
    } else {
        match hex_to_id(parent_sha.as_str()) {
            Ok(id) => Some(id),
            Err(e) => {
                return Err(e);
            },
        }
    };
    let commit = Commit {
        tree_id,
        parent_id,
        author: Signature::fixed(time),
        committer: Signature::fixed(time),
        message: slice_to_vec(message.as_str().as_bytes()),
    };
    assert(commit@ == new_commit(tree_sha@, parent_sha@, message@, time));
    Ok(commit_object(&commit))
}

/// What [`read_commit_object`] returns for an object file.
pub open spec fn stored_commit(file: ObjectFile) -> Result<CommitView, StoreError> {
    match stored_frame(file) {
        Err(e) => Err(e),
        Ok(framed) => match parse_commit(parse_frame(framed).unwrap().1) {
            Some(commit) => Ok(commit),
            None => Err(StoreError::CorruptObject),
        },
    }
}

/// The commit that an object file holds.
///
/// Fails as [`Blob::new_blob_from_blob_file`] does, and with
/// [`StoreError::CorruptObject`] where the payload is no commit.
pub fn read_commit_object(file: ObjectFile) -> (r: Result<Commit, StoreError>)
    ensures
        match stored_commit(file) {
            Ok(c) => r matches Ok(commit) && commit@ == c,
            Err(e) => r matches Err(f) && f == e,
        },
{
    match read_blob(file) {
        Ok(payload) => decode_commit(payload.as_slice()),
        Err(e) => Err(e),
    }
}

/// A commit made on top of another names that other as its parent: reading
/// the payload of the second commit gives the id of the first, and reading
/// the payload of a commit made with an empty parent gives none.
pub proof fn lemma_commit_chain(tree_sha: Seq<char>, first: Seq<u8>, message: Seq<char>, time: u64)
    requires
        is_hex_id(tree_sha),
        first.len() == 20,
    ensures
        parse_commit(commit_payload(new_commit(tree_sha, hex_string(first), message, time)))
            == Some(new_commit(tree_sha, hex_string(first), message, time)),
        new_commit(tree_sha, hex_string(first), message, time).parent == Some(first),
        parse_commit(commit_payload(new_commit(tree_sha, Seq::empty(), message, time))) == Some(
            new_commit(tree_sha, Seq::empty(), message, time),
        ),
        new_commit(tree_sha, Seq::empty(), message, time).parent is None,
{
    lemma_hex_round_trip(first);
    lemma_fixed_signature_writable(time);
    let second = new_commit(tree_sha, hex_string(first), message, time);
    assert(commit_writable(second));
    lemma_commit_round_trip(second);
    let root = new_commit(tree_sha, Seq::empty(), message, time);
    assert(commit_writable(root));
    lemma_commit_round_trip(root);
}

/// Two ids name the same place in the store only if they are the same id.
pub proof fn lemma_path_names_one_id(a: Seq<u8>, b: Seq<u8>)
    requires
        a.len() == 20,
        b.len() == 20,
        object_path(a) == object_path(b),
    ensures
        a == b,
{
    reveal_strlit("objects/");
    reveal_strlit("/");
    let p = object_path(a);
    let q = object_path(b);
    let ha = hex_string(a);
    let hb = hex_string(b);
    assert forall|i: int| 0 <= i < 40 implies ha[i] == hb[i] by {
        if i < 2 {
            assert(p[8 + i] == ha[i]);
            assert(q[8 + i] == hb[i]);
        } else {
            assert(p[9 + i] == ha[i]);
            assert(q[9 + i] == hb[i]);
        }
    }
    assert(ha =~= hb);
    crate::digest::lemma_hex_injective(a, b);
}

/// Objects are addressed by content. Two objects made of the same kind and
/// of equal payloads, the empty one among them, have the same id and are
/// stored in one file, not two; two objects with different ids are stored in
/// different files, and were made of different payloads.
pub proof fn lemma_content_addressing(
    kind: BlobType,
    first: Seq<u8>,
    second: Seq<u8>,
    a: Blob,
    b: Blob,
)
    requires
        a.wf(),
        b.wf(),
        a.frame() == frame(kind, first),
        b.frame() == frame(kind, second),
    ensures
        first == second ==> a.id() == b.id() && object_path(a.id()@) == object_path(b.id()@),
        a.id() != b.id() ==> first != second && object_path(a.id()@) != object_path(b.id()@),
{
    if object_path(a.id()@) == object_path(b.id()@) {
        lemma_path_names_one_id(a.id()@, b.id()@);
        assert(a.id() =~= b.id());
    }
}

} // verus!
