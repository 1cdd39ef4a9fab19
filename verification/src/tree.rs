//! Trees: the entries of a directory, their order, and the payload of a tree
//! object in both directions.

use crate::blob::{Blob, BlobType};
use crate::bytes::{
    append_bytes, bytes_lt, copy_range, find_byte, is_before, lemma_first_at, lemma_lt_asymmetric,
    lemma_lt_connected, lemma_lt_transitive,
};
use crate::digest::sha1_digest;
use crate::error::StoreError;
use crate::frame::frame;
use vstd::prelude::*;

verus! {

/// One child of a directory, as the tree builder collects it.
#[derive(Debug)]
pub struct TreeObject {
    /// Whether the child is a file; otherwise it is a directory.
    pub is_file: bool,
    /// The child's name, one path segment.
    pub name: Vec<u8>,
    /// The id of the child's blob or tree.
    pub sha_val: [u8; 20],
}

/// A [`TreeObject`] as plain values.
pub struct TreeObjectView {
    pub is_file: bool,
    pub name: Seq<u8>,
    pub id: Seq<u8>,
}

impl View for TreeObject {
    type V = TreeObjectView;

    open spec fn view(&self) -> TreeObjectView {
        TreeObjectView { is_file: self.is_file, name: self.name@, id: self.sha_val@ }
    }
}

/// The views of a sequence of entries, in the same order.
pub open spec fn views(entries: Seq<TreeObject>) -> Seq<TreeObjectView> {
    Seq::new(entries.len(), |i: int| entries[i]@)
}

/// The access mode written for a child: `100644` for a file, `40000` for a
/// directory.
pub open spec fn mode_token(is_file: bool) -> Seq<u8> {
    if is_file {
        seq![0x31u8, 0x30, 0x30, 0x36, 0x34, 0x34]
    } else {
        seq![0x34u8, 0x30, 0x30, 0x30, 0x30]
    }
}

/// One entry in a tree's payload: mode, space, name, NUL, and the id as
/// twenty raw bytes.
pub open spec fn entry_bytes(e: TreeObjectView) -> Seq<u8> {
    mode_token(e.is_file) + seq![0x20u8] + e.name + seq![0u8] + e.id
}

/// The payload of a tree with the given entries, in the given order.
pub open spec fn tree_payload(entries: Seq<TreeObjectView>) -> Seq<u8>
    decreases entries.len(),
{
    if entries.len() == 0 {
        Seq::empty()
    } else {
        entry_bytes(entries[0]) + tree_payload(entries.drop_first())
    }
}

/// Whether the names never go down from one entry to the next.
pub open spec fn sorted_by_name(s: Seq<TreeObjectView>) -> bool {
    forall|i: int, j: int| 0 <= i < j < s.len() ==> !bytes_lt(#[trigger] s[j].name, #[trigger] s[i].name)
}

/// Whether no two entries have the same name.
pub open spec fn names_distinct(s: Seq<TreeObjectView>) -> bool {
    forall|i: int, j: int| 0 <= i < j < s.len() ==> #[trigger] s[i].name != #[trigger] s[j].name
}

/// How many entries at the front of `s` have a name before `name`. Where `s`
/// is sorted this is the place at which an entry of that name goes in front
/// of its equals.
pub open spec fn slot_for(s: Seq<TreeObjectView>, name: Seq<u8>) -> int
    decreases s.len(),
{
    if s.len() == 0 || !bytes_lt(s[0].name, name) {
        0
    } else {
        1 + slot_for(s.drop_first(), name)
    }
}

/// The entries of `s` sorted by name, byte by byte. Entries of one name keep
/// the order in which they stand in `s`.
pub open spec fn sort_by_name(s: Seq<TreeObjectView>) -> Seq<TreeObjectView>
    decreases s.len(),
{
    if s.len() == 0 {
        Seq::empty()
    } else {
        let rest = sort_by_name(s.drop_first());
        rest.insert(slot_for(rest, s[0].name), s[0])
    }
}

/// The slot lies within the sequence, all names before it come before
/// `name`, and the name at it does not.
pub proof fn lemma_slot_for(s: Seq<TreeObjectView>, name: Seq<u8>)
    ensures
        0 <= slot_for(s, name) <= s.len(),
        forall|i: int| 0 <= i < slot_for(s, name) ==> bytes_lt(#[trigger] s[i].name, name),
        slot_for(s, name) < s.len() ==> !bytes_lt(s[slot_for(s, name)].name, name),
    decreases s.len(),
{
    if s.len() == 0 || !bytes_lt(s[0].name, name) {
    } else {
        let t = s.drop_first();
        lemma_slot_for(t, name);
        assert forall|i: int| 0 <= i < slot_for(s, name) implies bytes_lt(
            #[trigger] s[i].name,
            name,
        ) by {
            if i > 0 {
                assert(s[i] == t[i - 1]);
            }
        }
    }
}

/// Putting an entry at its slot keeps a sorted sequence sorted.
pub proof fn lemma_insert_keeps_sorted(s: Seq<TreeObjectView>, e: TreeObjectView)
    requires
        sorted_by_name(s),
    ensures
        sorted_by_name(s.insert(slot_for(s, e.name), e)),
{
    let k = slot_for(s, e.name);
    let r = s.insert(k, e);
    lemma_slot_for(s, e.name);
    assert forall|i: int, j: int| 0 <= i < j < r.len() implies !bytes_lt(
        #[trigger] r[j].name,
        #[trigger] r[i].name,
    ) by {
        if j == k {
            // r[i] is an entry in front of the slot
            assert(r[i] == s[i]);
            lemma_lt_asymmetric(s[i].name, e.name);
        } else if i == k {
            // r[j] is an entry from the slot on; names from the slot on do not
            // come before the name at the slot
            assert(r[j] == s[j - 1]);
            if bytes_lt(s[j - 1].name, e.name) {
                if bytes_lt(e.name, s[k].name) {
                    lemma_lt_transitive(s[j - 1].name, e.name, s[k].name);
                } else {
                    lemma_lt_connected(e.name, s[k].name);
                }
                assert(j - 1 > k ==> !bytes_lt(s[j - 1].name, s[k].name));
            }
        } else {
            let si = if i < k { i } else { i - 1 };
            let sj = if j < k { j } else { j - 1 };
            assert(r[i] == s[si]);
            assert(r[j] == s[sj]);
        }
    }
}

/// What [`sort_by_name`] gives is sorted.
pub proof fn lemma_sort_sorted(s: Seq<TreeObjectView>)
    ensures
        sorted_by_name(sort_by_name(s)),
    decreases s.len(),
{
    if s.len() > 0 {
        lemma_sort_sorted(s.drop_first());
        lemma_insert_keeps_sorted(sort_by_name(s.drop_first()), s[0]);
    }
}

/// What [`sort_by_name`] gives holds the same entries, each as often.
pub proof fn lemma_sort_permutes(s: Seq<TreeObjectView>)
    ensures
        sort_by_name(s).to_multiset() == s.to_multiset(),
        sort_by_name(s).len() == s.len(),
    decreases s.len(),
{
    if s.len() > 0 {
        let t = s.drop_first();
        lemma_sort_permutes(t);
        let rest = sort_by_name(t);
        lemma_slot_for(rest, s[0].name);
        vstd::seq_lib::to_multiset_insert(rest, slot_for(rest, s[0].name), s[0]);
        assert(s =~= t.insert(0, s[0]));
        vstd::seq_lib::to_multiset_insert(t, 0, s[0]);
    } else {
        assert(sort_by_name(s) =~= s);
    }
}

/// The entries of `s` that bear the given name, in their order.
pub open spec fn with_name(s: Seq<TreeObjectView>, name: Seq<u8>) -> Seq<TreeObjectView> {
    s.filter(|e: TreeObjectView| e.name == name)
}

/// Sorting moves no entry past another of the same name: the entries of
/// any one name stand in the sorted sequence as they stood before.
pub proof fn lemma_sort_is_stable(s: Seq<TreeObjectView>, name: Seq<u8>)
    ensures
        with_name(sort_by_name(s), name) == with_name(s, name),
    decreases s.len(),
{
    if s.len() > 0 {
        let named = |e: TreeObjectView| e.name == name;
        let first = s[0];
        let others = s.drop_first();
        let rest = sort_by_name(others);
        let slot = slot_for(rest, first.name);
        lemma_sort_is_stable(others, name);
        lemma_slot_for(rest, first.name);
        let before = rest.subrange(0, slot);
        let after = rest.subrange(slot, rest.len() as int);
        let one = seq![first];
        assert(rest.insert(slot, first) =~= before + one + after);
        assert(rest =~= before + after);
        assert(s =~= one + others);
        Seq::filter_distributes_over_add(before, one, named);
        Seq::filter_distributes_over_add(before + one, after, named);
        Seq::filter_distributes_over_add(before, after, named);
        Seq::filter_distributes_over_add(one, others, named);
        if first.name == name {
            let kept = before.filter(named);
            if kept.len() > 0 {
                before.lemma_filter_pred(named, 0);
                assert(kept.contains(kept[0]));
                before.lemma_filter_contains_rev(named, kept[0]);
                let j = choose|j: int| 0 <= j < before.len() && before[j] == kept[0];
                assert(before[j] == rest[j]);
                assert(bytes_lt(rest[j].name, name));
                crate::bytes::lemma_lt_irreflexive(name);
            }
            assert(kept =~= Seq::<TreeObjectView>::empty());
            assert(before.filter(named) + one.filter(named) =~= one.filter(named));
            assert(before.filter(named) + after.filter(named) =~= after.filter(named));
        } else {
            let kept = one.filter(named);
            if kept.len() > 0 {
                one.lemma_filter_pred(named, 0);
                assert(kept.contains(kept[0]));
                one.lemma_filter_contains_rev(named, kept[0]);
                let j = choose|j: int| 0 <= j < one.len() && one[j] == kept[0];
                assert(one[j] == first);
            }
            assert(kept =~= Seq::<TreeObjectView>::empty());
            assert(before.filter(named) + one.filter(named) =~= before.filter(named));
            assert(one.filter(named) + others.filter(named) =~= others.filter(named));
        }
    }
}

/// A rearrangement of entries with distinct names has distinct names.
pub proof fn lemma_names_distinct_permuted(a: Seq<TreeObjectView>, b: Seq<TreeObjectView>)
    requires
        names_distinct(a),
        a.to_multiset() == b.to_multiset(),
    ensures
        names_distinct(b),
{
    assert(a.no_duplicates()) by {
        assert forall|i: int, j: int| 0 <= i < a.len() && 0 <= j < a.len() && i != j implies a[i]
            != a[j] by {
            if i < j {
                assert(a[i].name != a[j].name);
            } else {
                assert(a[j].name != a[i].name);
            }
        }
    }
    a.lemma_multiset_has_no_duplicates();
    b.lemma_multiset_has_no_duplicates_conv();
    assert forall|i: int, j: int| 0 <= i < j < b.len() implies #[trigger] b[i].name
        != #[trigger] b[j].name by {
        assert(b[i] != b[j]);
        assert(b.contains(b[i]));
        assert(b.contains(b[j]));
        vstd::seq_lib::to_multiset_contains(b, b[i]);
        vstd::seq_lib::to_multiset_contains(b, b[j]);
        vstd::seq_lib::to_multiset_contains(a, b[i]);
        vstd::seq_lib::to_multiset_contains(a, b[j]);
        let p = choose|p: int| 0 <= p < a.len() && a[p] == b[i];
        let q = choose|q: int| 0 <= q < a.len() && a[q] == b[j];
        if p < q {
            assert(a[p].name != a[q].name);
        } else {
            assert(a[q].name != a[p].name);
        }
    }
}

/// Entries with distinct names have one sorted order: two sorted sequences
/// that hold the same entries are equal.
pub proof fn lemma_sorted_order_unique(x: Seq<TreeObjectView>, y: Seq<TreeObjectView>)
    requires
        sorted_by_name(x),
        sorted_by_name(y),
        names_distinct(x),
        x.to_multiset() == y.to_multiset(),
    ensures
        x == y,
    decreases x.len(),
{
    vstd::seq_lib::to_multiset_len(x);
    vstd::seq_lib::to_multiset_len(y);
    if x.len() == 0 {
        assert(x =~= y);
    } else {
        assert(x.contains(x[0]));
        assert(y.contains(y[0]));
        vstd::seq_lib::to_multiset_contains(x, x[0]);
        vstd::seq_lib::to_multiset_contains(y, x[0]);
        vstd::seq_lib::to_multiset_contains(x, y[0]);
        vstd::seq_lib::to_multiset_contains(y, y[0]);
        let i = choose|i: int| 0 <= i < x.len() && x[i] == y[0];
        let j = choose|j: int| 0 <= j < y.len() && y[j] == x[0];
        if i > 0 {
            if j > 0 {
                assert(!bytes_lt(x[i].name, x[0].name));
                assert(!bytes_lt(y[j].name, y[0].name));
                lemma_lt_connected(x[i].name, x[0].name);
            }
            assert(x[0].name != x[i].name);
        }
        assert(x[0] == y[0]);
        let xs = x.drop_first();
        let ys = y.drop_first();
        assert(xs =~= x.remove(0));
        assert(ys =~= y.remove(0));
        vstd::seq_lib::to_multiset_remove(x, 0);
        vstd::seq_lib::to_multiset_remove(y, 0);
        assert forall|a: int, b: int| 0 <= a < b < xs.len() implies !bytes_lt(
            #[trigger] xs[b].name,
            #[trigger] xs[a].name,
        ) by {
            assert(xs[a] == x[a + 1] && xs[b] == x[b + 1]);
        }
        assert forall|a: int, b: int| 0 <= a < b < ys.len() implies !bytes_lt(
            #[trigger] ys[b].name,
            #[trigger] ys[a].name,
        ) by {
            assert(ys[a] == y[a + 1] && ys[b] == y[b + 1]);
        }
        assert forall|a: int, b: int| 0 <= a < b < xs.len() implies #[trigger] xs[a].name
            != #[trigger] xs[b].name by {
            assert(xs[a] == x[a + 1] && xs[b] == x[b + 1]);
        }
        lemma_sorted_order_unique(xs, ys);
        assert(x =~= seq![x[0]] + xs);
        assert(y =~= seq![y[0]] + ys);
    }
}

/// The frame of the tree with the given children: none where there are no
/// children, else the frame of the payload of the children sorted by name.
pub open spec fn tree_frame(entries: Seq<TreeObjectView>) -> Option<Seq<u8>> {
    if entries.len() == 0 {
        None
    } else {
        Some(frame(BlobType::TREE, tree_payload(sort_by_name(entries))))
    }
}

/// The id of the tree with the given children, if there are any.
pub open spec fn tree_id(entries: Seq<TreeObjectView>) -> Option<Seq<u8>> {
    match tree_frame(entries) {
        Some(framed) => Some(sha1_digest(framed)@),
        None => None,
    }
}

/// The order in which the children of a directory are listed does not change
/// its tree, as long as no two children share a name.
pub proof fn lemma_tree_order_independent(a: Seq<TreeObjectView>, b: Seq<TreeObjectView>)
    requires
        names_distinct(a),
        a.to_multiset() == b.to_multiset(),
    ensures
        sort_by_name(a) == sort_by_name(b),
        tree_frame(a) == tree_frame(b),
        tree_id(a) == tree_id(b),
{
    lemma_sort_permutes(a);
    lemma_sort_permutes(b);
    lemma_sort_sorted(a);
    lemma_sort_sorted(b);
    lemma_names_distinct_permuted(a, sort_by_name(a));
    lemma_sorted_order_unique(sort_by_name(a), sort_by_name(b));
    vstd::seq_lib::to_multiset_len(a);
    vstd::seq_lib::to_multiset_len(b);
}

/// The slot at which an entry named `name` goes into `sorted`.
fn find_slot(sorted: &Vec<TreeObject>, name: &[u8]) -> (slot: usize)
    ensures
        slot == slot_for(views(sorted@), name@),
        slot <= sorted@.len(),
{
    let ghost v = views(sorted@);
    let mut i: usize = 0;
    assert(v.skip(0) =~= v);
    while i < sorted.len()
        invariant
            i <= sorted@.len(),
            v == views(sorted@),
            slot_for(v, name@) == i + slot_for(v.skip(i as int), name@),
        decreases sorted@.len() - i,
    {
        assert(v.skip(i as int)[0] == sorted@[i as int]@);
        if !is_before(sorted[i].name.as_slice(), name) {
            return i;
        }
        assert(v.skip(i as int).drop_first() =~= v.skip(i + 1));
        i = i + 1;
    }
    i
}

/// Sorts the entries by name, byte by byte. Entries of one name keep their
/// order.
pub fn sort_entries(entries: Vec<TreeObject>) -> (sorted: Vec<TreeObject>)
    ensures
        views(sorted@) == sort_by_name(views(entries@)),
{
    let ghost all = views(entries@);
    let mut rest: Vec<TreeObject> = entries;
    let mut sorted: Vec<TreeObject> = Vec::new();
    assert(all.skip(all.len() as int) =~= Seq::<TreeObjectView>::empty());
    assert(views(sorted@) =~= Seq::<TreeObjectView>::empty());
    while rest.len() > 0
        invariant
            rest@.len() <= all.len(),
            views(rest@) == all.subrange(0, rest@.len() as int),
            views(sorted@) == sort_by_name(all.skip(rest@.len() as int)),
        decreases rest@.len(),
    {
        let ghost before = rest@;
        let ghost done = views(sorted@);
        let n: usize = rest.len();
        let entry: TreeObject = match rest.pop() {
            Some(entry) => entry,
            None => {
                return sorted;
            },
        };
        let slot: usize = find_slot(&sorted, entry.name.as_slice());
        let ghost e = entry@;
        sorted.insert(slot, entry);
        proof {
            assert(e == views(before)[n - 1]);
            assert(e == all[n - 1]);
            assert(all.skip(n - 1)[0] == e);
            assert(all.skip(n - 1).drop_first() =~= all.skip(n as int));
            assert(views(sorted@) =~= done.insert(slot as int, e));
            assert(views(rest@) =~= all.subrange(0, rest@.len() as int));
        }
    }
    assert(all.skip(0) =~= all);
    sorted
}

/// Appends the mode token of a file or of a directory.
fn push_mode(out: &mut Vec<u8>, is_file: bool)
    ensures
        final(out)@ == old(out)@ + mode_token(is_file),
{
    if is_file {
        out.push(0x31);
        out.push(0x30);
        out.push(0x30);
        out.push(0x36);
        out.push(0x34);
        out.push(0x34);
    } else {
        out.push(0x34);
        out.push(0x30);
        out.push(0x30);
        out.push(0x30);
        out.push(0x30);
    }
    assert(out@ =~= old(out)@ + mode_token(is_file));
}

/// Appends one entry of a tree's payload.
fn push_entry(out: &mut Vec<u8>, entry: &TreeObject)
    ensures
        final(out)@ == old(out)@ + entry_bytes(entry@),
{
    push_mode(out, entry.is_file);
    out.push(0x20);
    append_bytes(out, entry.name.as_slice());
    out.push(0);
    append_bytes(out, entry.sha_val.as_slice());
    assert(out@ =~= old(out)@ + entry_bytes(entry@));
}

/// The payload of a tree with the given entries, in the given order.
pub fn encode_tree(entries: &Vec<TreeObject>) -> (payload: Vec<u8>)
    ensures
        payload@ == tree_payload(views(entries@)),
{
    let ghost all = views(entries@);
    let mut payload: Vec<u8> = Vec::new();
    let mut i: usize = 0;
    assert(all.skip(0) =~= all);
    while i < entries.len()
        invariant
            i <= entries@.len(),
            all == views(entries@),
            payload@ + tree_payload(all.skip(i as int)) == tree_payload(all),
        decreases entries@.len() - i,
    {
        let ghost before = payload@;
        push_entry(&mut payload, &entries[i]);
        proof {
            let tail = all.skip(i as int);
            assert(tail[0] == entries@[i as int]@);
            assert(tail.drop_first() =~= all.skip(i + 1));
            assert(payload@ + tree_payload(all.skip(i + 1)) =~= before + tree_payload(tail));
        }
        i = i + 1;
    }
    assert(payload@ + Seq::<u8>::empty() =~= payload@);
    payload
}

/// The tree object for the given children: they are sorted by name and
/// written one after the other. A directory without children has no tree.
pub fn tree_object(entries: Vec<TreeObject>) -> (tree: Option<Blob>)
    ensures
        match tree_frame(views(entries@)) {
            Some(framed) => tree matches Some(blob) && blob.frame() == framed && blob.kind()
                == BlobType::TREE && blob.wf() && blob.id()@ == tree_id(views(entries@)).unwrap(),
            None => tree is None,
        },
{
    if entries.len() == 0 {
        return None;
    }
    let sorted: Vec<TreeObject> = sort_entries(entries);
    let payload: Vec<u8> = encode_tree(&sorted);
    Some(Blob::new_blob_from_data(payload, BlobType::TREE))
}

/// One entry read out of a tree's payload.
#[derive(Debug)]
pub struct TreeEntry {
    /// The access mode as it is written, such as `100644` or `40000`.
    pub mode: Vec<u8>,
    /// The child's name.
    pub name: Vec<u8>,
    /// The id of the child's object.
    pub child_id: [u8; 20],
}

/// A [`TreeEntry`] as plain values.
pub struct TreeEntryView {
    pub mode: Seq<u8>,
    pub name: Seq<u8>,
    pub id: Seq<u8>,
}

impl View for TreeEntry {
    type V = TreeEntryView;

    open spec fn view(&self) -> TreeEntryView {
        TreeEntryView { mode: self.mode@, name: self.name@, id: self.child_id@ }
    }
}

/// The views of a sequence of entries read, in the same order.
pub open spec fn entry_views(entries: Seq<TreeEntry>) -> Seq<TreeEntryView> {
    Seq::new(entries.len(), |i: int| entries[i]@)
}

/// The entries that a tree's payload lists, in its order.
///
/// Each entry runs to the first NUL and twenty bytes beyond. The part before
/// the NUL is the mode, which ends at the first space, and the name. The
/// payload is malformed where bytes are left without a NUL among them, where
/// no space stands before the NUL, or where fewer than twenty bytes follow
/// it.
pub open spec fn parse_tree(payload: Seq<u8>) -> Option<Seq<TreeEntryView>>
    decreases payload.len(),
{
    if payload.len() == 0 {
        Some(Seq::empty())
    } else {
        match payload.index_of_first(0u8) {
            None => None,
            Some(nul) => {
                let head = payload.subrange(0, nul);
                match head.index_of_first(0x20u8) {
                    None => None,
                    Some(space) => if payload.len() < nul + 21 {
                        None
                    } else {
                        let entry = TreeEntryView {
                            mode: head.subrange(0, space),
                            name: head.skip(space + 1),
                            id: payload.subrange(nul + 1, nul + 21),
                        };
                        proof {
                            payload.index_of_first_ensures(0u8);
                        }
                        match parse_tree(payload.skip(nul + 21)) {
                            Some(rest) => Some(seq![entry] + rest),
                            None => None,
                        }
                    },
                }
            },
        }
    }
}

/// An entry as it reads once written: the mode as its token.
pub open spec fn as_listed(e: TreeObjectView) -> TreeEntryView {
    TreeEntryView { mode: mode_token(e.is_file), name: e.name, id: e.id }
}

/// Whether every entry can be written and read back: no name holds a NUL,
/// and every id has twenty bytes.
pub open spec fn writable(entries: Seq<TreeObjectView>) -> bool {
    forall|i: int|
        0 <= i < entries.len() ==> !(#[trigger] entries[i]).name.contains(0u8) && entries[i].id.len()
            == 20
}

/// The entries as they read once written, in the same order.
pub open spec fn listed(entries: Seq<TreeObjectView>) -> Seq<TreeEntryView> {
    Seq::new(entries.len(), |i: int| as_listed(entries[i]))
}

/// Reading the payload of a tree gives its entries back, in order.
pub proof fn lemma_tree_round_trip(entries: Seq<TreeObjectView>)
    requires
        writable(entries),
    ensures
        parse_tree(tree_payload(entries)) == Some(listed(entries)),
    decreases entries.len(),
{
    let listed = listed(entries);
    if entries.len() == 0 {
        assert(listed =~= Seq::<TreeEntryView>::empty());
    } else {
        let e = entries[0];
        let rest = entries.drop_first();
        let mode = mode_token(e.is_file);
        let payload = tree_payload(entries);
        let head = mode + seq![0x20u8] + e.name;
        let nul = head.len() as int;
        assert(payload =~= head + seq![0u8] + e.id + tree_payload(rest));
        assert forall|j: int| 0 <= j < nul implies payload[j] != 0 by {
            if j > mode.len() {
                assert(e.name.contains(e.name[j - mode.len() - 1]));
            }
        }
        lemma_first_at(payload, 0u8, nul);
        assert(payload.subrange(0, nul) =~= head);
        lemma_first_at(head, 0x20u8, mode.len() as int);
        assert(head.subrange(0, mode.len() as int) =~= mode);
        assert(head.skip(mode.len() as int + 1) =~= e.name);
        assert(payload.subrange(nul + 1, nul + 21) =~= e.id);
        assert(payload.skip(nul + 21) =~= tree_payload(rest));
        assert forall|i: int| 0 <= i < rest.len() implies !(#[trigger] rest[i]).name.contains(0u8)
            && rest[i].id.len() == 20 by {
            assert(rest[i] == entries[i + 1]);
        }
        lemma_tree_round_trip(rest);
        assert(listed =~= seq![as_listed(e)] + self::listed(rest));
    }
}

/// The payload of a tree that was built reads back as the entries sorted by
/// name.
pub proof fn lemma_built_tree_reads_back(entries: Seq<TreeObjectView>)
    requires
        writable(entries),
    ensures
        parse_tree(tree_payload(sort_by_name(entries))) == Some(listed(sort_by_name(entries))),
        sorted_by_name(sort_by_name(entries)),
{
    let sorted = sort_by_name(entries);
    lemma_sort_sorted(entries);
    lemma_sort_permutes(entries);
    assert forall|i: int| 0 <= i < sorted.len() implies !(#[trigger] sorted[i]).name.contains(0u8)
        && sorted[i].id.len() == 20 by {
        assert(sorted.contains(sorted[i]));
        vstd::seq_lib::to_multiset_contains(sorted, sorted[i]);
        vstd::seq_lib::to_multiset_contains(entries, sorted[i]);
        let k = choose|k: int| 0 <= k < entries.len() && entries[k] == sorted[i];
        assert(!entries[k].name.contains(0u8));
    }
    lemma_tree_round_trip(sorted);
}

/// Reads the entries that a tree's payload lists.
///
/// Fails with [`StoreError::CorruptObject`] where an entry is cut short:
/// bytes are left without a NUL among them, or fewer than twenty bytes follow
/// the NUL; and where no space parts a mode from a name.
pub fn decode_tree(payload: &[u8]) -> (r: Result<Vec<TreeEntry>, StoreError>)
    ensures
        match parse_tree(payload@) {
            Some(listed) => r matches Ok(entries) && entry_views(entries@) == listed,
            None => r matches Err(e) && e == StoreError::CorruptObject,
        },
{
    let n: usize = payload.len();
    let mut entries: Vec<TreeEntry> = Vec::new();
    let mut pos: usize = 0;
    assert(payload@.skip(0) =~= payload@);
    assert(entry_views(entries@) + Seq::<TreeEntryView>::empty() =~= Seq::<TreeEntryView>::empty());
    while pos < n
        invariant
            pos <= n,
            n == payload@.len(),
            parse_tree(payload@) == match parse_tree(payload@.skip(pos as int)) {
                Some(rest) => Some(entry_views(entries@) + rest),
                None => None,
            },
        decreases n - pos,
    {
        let ghost tail = payload@.skip(pos as int);
        let ghost done = entry_views(entries@);
        assert(payload@.subrange(pos as int, n as int) =~= tail);
        let nul: usize = match find_byte(payload, pos, n, 0) {
            Some(i) => i,
            None => {
                return Err(StoreError::CorruptObject);
            },
        };
        let ghost head = tail.subrange(0, nul - pos);
        assert(payload@.subrange(pos as int, nul as int) =~= head);
        let space: usize = match find_byte(payload, pos, nul, 0x20) {
            Some(i) => i,
            None => {
                return Err(StoreError::CorruptObject);
            },
        };
        if n - nul < 21 {
            return Err(StoreError::CorruptObject);
        }
        let mode: Vec<u8> = copy_range(payload, pos, space);
        let name: Vec<u8> = copy_range(payload, space + 1, nul);
        let mut child_id: [u8; 20] = [0u8; 20];
        let mut k: usize = 0;
        while k < 20
            invariant
                k <= 20,
                nul + 21 <= n,
                n == payload@.len(),
                forall|j: int| 0 <= j < k ==> child_id@[j] == payload@[nul + 1 + j],
            decreases 20 - k,
        {
            child_id[k] = payload[nul + 1 + k];
            k = k + 1;
        }
        let entry = TreeEntry { mode, name, child_id };
        proof {
            assert(entry@.mode =~= head.subrange(0, space - pos));
            assert(entry@.name =~= head.skip(space - pos + 1));
            assert(entry@.id =~= tail.subrange(nul - pos + 1, nul - pos + 21));
            assert(tail.skip(nul - pos + 21) =~= payload@.skip(nul + 21));
        }
        entries.push(entry);
        proof {
            assert(entry_views(entries@) =~= done.push(entry@));
            match parse_tree(payload@.skip(nul + 21)) {
                Some(rest) => {
                    assert(done + (seq![entry@] + rest) =~= done.push(entry@) + rest);
                },
                None => {},
            }
        }
        pos = nul + 21;
    }
    assert(entry_views(entries@) + Seq::<TreeEntryView>::empty() =~= entry_views(entries@));
    Ok(entries)
}

} // verus!
