//! A directory as the tree builder sees it, and what the builder makes of
//! one: the entries of its tree and the objects to be stored.

use crate::blob::BlobType;
use crate::digest::sha1_digest;
use crate::frame::frame;
use crate::tree::{
    lemma_tree_order_independent, names_distinct, tree_frame, tree_id, writable, TreeObjectView,
};
use vstd::prelude::*;

verus! {

/// One entry of a directory on disk.
#[derive(Debug)]
pub enum DirEntry {
    /// A regular file with its contents.
    File { name: Vec<u8>, data: Vec<u8> },
    /// A directory with its own entries.
    Dir { name: Vec<u8>, entries: Vec<DirEntry> },
    /// Anything else; the builder passes over it.
    Other { name: Vec<u8> },
}

/// Whether a name marks a hidden entry: it begins with a dot.
pub open spec fn is_hidden(name: Seq<u8>) -> bool {
    name.len() > 0 && name[0] == 0x2e
}

/// The entry that `e` gives to the tree of its directory, if any.
///
/// A hidden entry gives none, and neither does a directory whose own tree
/// would have no entries.
pub open spec fn entry_for(e: DirEntry) -> Option<TreeObjectView>
    decreases e, 0int,
{
    match e {
        DirEntry::File { name, data } => if is_hidden(name@) {
            None
        } else {
            Some(
                TreeObjectView {
                    is_file: true,
                    name: name@,
                    id: sha1_digest(frame(BlobType::BLOB, data@))@,
                },
            )
        },
        DirEntry::Dir { name, entries } => if is_hidden(name@) {
            None
        } else {
            match tree_id(collected(entries@)) {
                Some(id) => Some(TreeObjectView { is_file: false, name: name@, id }),
                None => None,
            }
        },
        DirEntry::Other { .. } => None,
    }
}

/// The entries that a directory's tree holds, in the order in which the
/// directory lists them.
pub open spec fn collected(entries: Seq<DirEntry>) -> Seq<TreeObjectView>
    decreases entries, 0int,
{
    if entries.len() == 0 {
        Seq::empty()
    } else {
        let front = collected(entries.drop_last());
        match entry_for(entries.last()) {
            Some(entry) => front.push(entry),
            None => front,
        }
    }
}

/// The frames of the objects stored for one entry: a file's blob, or all
/// that a directory stores.
pub open spec fn writes_for(e: DirEntry) -> Seq<Seq<u8>>
    decreases e, 0int,
{
    match e {
        DirEntry::File { name, data } => if is_hidden(name@) {
            Seq::empty()
        } else {
            seq![frame(BlobType::BLOB, data@)]
        },
        DirEntry::Dir { name, entries } => if is_hidden(name@) {
            Seq::empty()
        } else {
            tree_writes(entries@)
        },
        DirEntry::Other { .. } => Seq::empty(),
    }
}

/// The frames of the objects stored for the entries of a directory, entry
/// after entry.
pub open spec fn children_writes(entries: Seq<DirEntry>) -> Seq<Seq<u8>>
    decreases entries, 0int,
{
    if entries.len() == 0 {
        Seq::empty()
    } else {
        children_writes(entries.drop_last()) + writes_for(entries.last())
    }
}

/// The frames of the objects stored for a directory: those of its entries,
/// and last its own tree, if it has one.
pub open spec fn tree_writes(entries: Seq<DirEntry>) -> Seq<Seq<u8>>
    decreases entries, 1int,
{
    children_writes(entries) + match tree_frame(collected(entries)) {
        Some(framed) => seq![framed],
        None => Seq::empty(),
    }
}

/// Whether an entry leaves nothing in its directory's tree: it is hidden, it
/// is neither file nor directory, or it is a directory of such entries alone.
pub open spec fn leaves_nothing(e: DirEntry) -> bool
    decreases e, 0int,
{
    match e {
        DirEntry::File { name, .. } => is_hidden(name@),
        DirEntry::Dir { name, entries } => is_hidden(name@) || all_leave_nothing(entries@),
        DirEntry::Other { .. } => true,
    }
}

/// Whether every entry of a directory leaves nothing in its tree.
pub open spec fn all_leave_nothing(entries: Seq<DirEntry>) -> bool
    decreases entries, 0int,
{
    entries.len() == 0 || (all_leave_nothing(entries.drop_last()) && leaves_nothing(
        entries.last(),
    ))
}

/// An entry gives its directory's tree no entry exactly if it leaves nothing.
pub proof fn lemma_entry_for_none(e: DirEntry)
    ensures
        entry_for(e) is None <==> leaves_nothing(e),
    decreases e, 0int,
{
    match e {
        DirEntry::Dir { name, entries } => {
            lemma_collected_empty(entries@);
        },
        _ => {},
    }
}

/// A directory's tree has no entries exactly if all its entries leave
/// nothing.
pub proof fn lemma_collected_empty(entries: Seq<DirEntry>)
    ensures
        collected(entries).len() == 0 <==> all_leave_nothing(entries),
    decreases entries, 0int,
{
    if entries.len() > 0 {
        lemma_collected_empty(entries.drop_last());
        lemma_entry_for_none(entries.last());
    }
}

/// A directory that holds only hidden entries and directories that are
/// empty in turn has no tree, and nothing is stored for it.
pub proof fn lemma_empty_directory_has_no_tree(entries: Seq<DirEntry>)
    ensures
        all_leave_nothing(entries) <==> tree_id(collected(entries)) is None,
        all_leave_nothing(entries) ==> tree_writes(entries).len() == 0,
    decreases entries, 1int,
{
    lemma_collected_empty(entries);
    if all_leave_nothing(entries) {
        lemma_nothing_stored(entries);
    }
}

/// For entries that leave nothing, nothing is stored.
pub proof fn lemma_nothing_stored(entries: Seq<DirEntry>)
    requires
        all_leave_nothing(entries),
    ensures
        children_writes(entries).len() == 0,
    decreases entries, 0int,
{
    if entries.len() > 0 {
        lemma_nothing_stored(entries.drop_last());
        let last = entries.last();
        assert(leaves_nothing(last));
        match last {
            DirEntry::Dir { name, entries: inner } => {
                if !is_hidden(name@) {
                    lemma_empty_directory_has_no_tree(inner@);
                    assert(writes_for(last) == tree_writes(inner@));
                }
            },
            _ => {},
        }
        assert(writes_for(last).len() == 0);
    }
}

/// A directory without a tree does not appear in the tree of the directory
/// that holds it: the outer tree is as if the inner directory were not there.
pub proof fn lemma_empty_directory_omitted(outer: Seq<DirEntry>, inner: DirEntry)
    requires
        inner is Dir,
        all_leave_nothing(inner->Dir_entries@),
    ensures
        entry_for(inner) is None,
        collected(outer.push(inner)) == collected(outer),
        tree_id(collected(outer.push(inner))) == tree_id(collected(outer)),
{
    lemma_entry_for_none(inner);
    assert(outer.push(inner).drop_last() =~= outer);
}

/// What the entries of two listings give, one listing after the other, is
/// what the joined listing gives.
pub proof fn lemma_collected_joined(x: Seq<DirEntry>, y: Seq<DirEntry>)
    ensures
        collected(x + y) == collected(x) + collected(y),
    decreases y.len(),
{
    if y.len() == 0 {
        assert(x + y =~= x);
        assert(collected(x) + collected(y) =~= collected(x));
    } else {
        lemma_collected_joined(x, y.drop_last());
        assert((x + y).drop_last() =~= x + y.drop_last());
        assert((x + y).last() == y.last());
        match entry_for(y.last()) {
            Some(entry) => {
                assert(collected(x + y) =~= collected(x) + collected(y.drop_last()).push(entry));
            },
            None => {},
        }
    }
}

/// A listing in another order gives the same entries, each as often.
pub proof fn lemma_collected_permuted(a: Seq<DirEntry>, b: Seq<DirEntry>)
    requires
        a.to_multiset() == b.to_multiset(),
    ensures
        collected(a).to_multiset() == collected(b).to_multiset(),
    decreases a.len(),
{
    vstd::seq_lib::to_multiset_len(a);
    vstd::seq_lib::to_multiset_len(b);
    if a.len() == 0 {
        assert(a =~= b);
    } else {
        let e = a.last();
        let front = a.drop_last();
        assert(a.contains(e));
        vstd::seq_lib::to_multiset_contains(a, e);
        vstd::seq_lib::to_multiset_contains(b, e);
        let j = choose|j: int| 0 <= j < b.len() && b[j] == e;
        let others = b.remove(j);
        assert(front =~= a.remove(a.len() - 1));
        vstd::seq_lib::to_multiset_remove(a, a.len() - 1);
        vstd::seq_lib::to_multiset_remove(b, j);
        lemma_collected_permuted(front, others);
        let left = b.subrange(0, j);
        let right = b.subrange(j + 1, b.len() as int);
        let one = seq![e];
        assert(b =~= left + one + right);
        assert(others =~= left + right);
        assert(a =~= front + one);
        lemma_collected_joined(left, one);
        lemma_collected_joined(left + one, right);
        lemma_collected_joined(left, right);
        lemma_collected_joined(front, one);
        vstd::seq_lib::lemma_multiset_commutative(collected(left), collected(one));
        vstd::seq_lib::lemma_multiset_commutative(collected(left) + collected(one), collected(right));
        vstd::seq_lib::lemma_multiset_commutative(collected(left), collected(right));
        vstd::seq_lib::lemma_multiset_commutative(collected(front), collected(one));
        assert(collected(b).to_multiset() =~= collected(others).to_multiset().add(
            collected(one).to_multiset(),
        ));
    }
}

/// The order in which a directory lists its entries does not change its
/// tree, as long as no two entries that reach the tree share a name.
pub proof fn lemma_listing_order_irrelevant(a: Seq<DirEntry>, b: Seq<DirEntry>)
    requires
        a.to_multiset() == b.to_multiset(),
        names_distinct(collected(a)),
    ensures
        tree_frame(collected(a)) == tree_frame(collected(b)),
        tree_id(collected(a)) == tree_id(collected(b)),
{
    lemma_collected_permuted(a, b);
    lemma_tree_order_independent(collected(a), collected(b));
}

/// The name of an entry.
pub open spec fn name_of(e: DirEntry) -> Seq<u8> {
    match e {
        DirEntry::File { name, .. } => name@,
        DirEntry::Dir { name, .. } => name@,
        DirEntry::Other { name } => name@,
    }
}

/// Every entry of a tree comes from an entry of the directory that is not
/// hidden, bears that entry's name, and has an id of twenty bytes.
pub proof fn lemma_collected_from_visible(entries: Seq<DirEntry>)
    ensures
        forall|i: int|
            0 <= i < collected(entries).len() ==> {
                let e = #[trigger] collected(entries)[i];
                &&& !is_hidden(e.name)
                &&& e.id.len() == 20
                &&& exists|k: int| 0 <= k < entries.len() && entry_for(entries[k]) == Some(e)
                    && name_of(entries[k]) == e.name
            },
    decreases entries.len(),
{
    if entries.len() > 0 {
        let front = entries.drop_last();
        let last = entries.last();
        lemma_collected_from_visible(front);
        assert forall|i: int| 0 <= i < collected(entries).len() implies {
            let e = #[trigger] collected(entries)[i];
            &&& !is_hidden(e.name)
            &&& e.id.len() == 20
            &&& exists|k: int| 0 <= k < entries.len() && entry_for(entries[k]) == Some(e)
                && name_of(entries[k]) == e.name
        } by {
            let e = collected(entries)[i];
            if i < collected(front).len() {
                assert(e == collected(front)[i]);
                let k = choose|k: int| 0 <= k < front.len() && entry_for(front[k]) == Some(e)
                    && name_of(front[k]) == e.name;
                assert(entries[k] == front[k]);
            } else {
                assert(entry_for(last) == Some(e));
                assert(entries[entries.len() - 1] == last);
            }
        }
    }
}

/// A tree whose directory holds no NUL in a name can be written and read
/// back.
pub proof fn lemma_collected_writable(entries: Seq<DirEntry>)
    requires
        forall|k: int| 0 <= k < entries.len() ==> !name_of(#[trigger] entries[k]).contains(0u8),
    ensures
        writable(collected(entries)),
{
    lemma_collected_from_visible(entries);
    let es = collected(entries);
    assert forall|i: int| 0 <= i < es.len() implies !(#[trigger] es[i]).name.contains(0u8)
        && es[i].id.len() == 20 by {
        let e = es[i];
        let k = choose|k: int| 0 <= k < entries.len() && entry_for(entries[k]) == Some(e)
            && name_of(entries[k]) == e.name;
        assert(!name_of(entries[k]).contains(0u8));
    }
}

/// Whether the object with the given id is among those whose frames are
/// given.
pub open spec fn stored_among(frames: Seq<Seq<u8>>, id: Seq<u8>) -> bool {
    exists|j: int| 0 <= j < frames.len() && sha1_digest(#[trigger] frames[j])@ == id
}

/// No entry of a tree points at nothing: for each, the object with its id
/// is among those stored for the directory.
pub proof fn lemma_every_child_is_stored(entries: Seq<DirEntry>)
    ensures
        forall|i: int|
            0 <= i < collected(entries).len() ==> stored_among(
                children_writes(entries),
                (#[trigger] collected(entries)[i]).id,
            ),
    decreases entries.len(),
{
    if entries.len() > 0 {
        let front = entries.drop_last();
        let last = entries.last();
        lemma_every_child_is_stored(front);
        let before = children_writes(front);
        let all = children_writes(entries);
        assert(all == before + writes_for(last));
        assert forall|i: int| 0 <= i < collected(entries).len() implies stored_among(
            all,
            (#[trigger] collected(entries)[i]).id,
        ) by {
            let e = collected(entries)[i];
            if i < collected(front).len() {
                assert(e == collected(front)[i]);
                assert(stored_among(before, e.id));
                let j = choose|j: int|
                    0 <= j < before.len() && sha1_digest(#[trigger] before[j])@ == e.id;
                assert(all[j] == before[j]);
            } else {
                assert(entry_for(last) == Some(e));
                let own = writes_for(last);
                match last {
                    DirEntry::File { name, data } => {
                        assert(own.len() == 1);
                    },
                    DirEntry::Dir { name, entries: inner } => {
                        assert(own == tree_writes(inner@));
                        assert(tree_frame(collected(inner@)) is Some);
                    },
                    DirEntry::Other { .. } => {},
                }
                let j = before.len() + own.len() - 1;
                assert(all[j] == own[own.len() - 1]);
                assert(sha1_digest(all[j])@ == e.id);
            }
        }
    }
}

} // verus!
