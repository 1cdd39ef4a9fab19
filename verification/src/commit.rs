//! Commits: a tree, an optional parent, who made the commit and when, and a
//! message, written as lines of text.

use crate::bytes::{
    all_digits, append_bytes, copy_range, decimal, decimal_value, find_byte, find_last_byte,
    lemma_decimal_reads_back, lemma_first_at, lemma_last_at, push_decimal, read_decimal,
};
use crate::digest::{
    hex_ascii, is_hex_ascii, lemma_hex_ascii_round_trip, push_hex_ascii, read_hex_ascii, unhex,
};
use crate::error::StoreError;
use vstd::prelude::*;

verus! {

/// Who made a commit, and when.
#[derive(Debug)]
pub struct Signature {
    /// Name and address, such as `Alias Anon <a@a.com>`.
    pub identity: Vec<u8>,
    /// Seconds since the Unix epoch.
    pub seconds: u64,
    /// The offset from UTC as it is written, such as `+0530`.
    pub offset: Vec<u8>,
}

/// A [`Signature`] as plain values.
pub struct SignatureView {
    pub identity: Seq<u8>,
    pub seconds: u64,
    pub offset: Seq<u8>,
}

impl View for Signature {
    type V = SignatureView;

    open spec fn view(&self) -> SignatureView {
        SignatureView { identity: self.identity@, seconds: self.seconds, offset: self.offset@ }
    }
}

/// What a commit object holds.
#[derive(Debug)]
pub struct Commit {
    /// The tree that the commit records.
    pub tree_id: [u8; 20],
    /// The commit before this one; none for the first.
    pub parent_id: Option<[u8; 20]>,
    /// Who wrote the change.
    pub author: Signature,
    /// Who made the commit.
    pub committer: Signature,
    /// The message, without the newline that ends it in the payload.
    pub message: Vec<u8>,
}

/// A [`Commit`] as plain values.
pub struct CommitView {
    pub tree: Seq<u8>,
    pub parent: Option<Seq<u8>>,
    pub author: SignatureView,
    pub committer: SignatureView,
    pub message: Seq<u8>,
}

impl View for Commit {
    type V = CommitView;

    open spec fn view(&self) -> CommitView {
        CommitView {
            tree: self.tree_id@,
            parent: match self.parent_id {
                Some(id) => Some(id@),
                None => None,
            },
            author: self.author@,
            committer: self.committer@,
            message: self.message@,
        }
    }
}

/// `tree ` in ASCII.
pub open spec fn word_tree() -> Seq<u8> {
    seq![0x74u8, 0x72, 0x65, 0x65, 0x20]
}

/// `parent ` in ASCII.
pub open spec fn word_parent() -> Seq<u8> {
    seq![0x70u8, 0x61, 0x72, 0x65, 0x6e, 0x74, 0x20]
}

/// `author ` in ASCII.
pub open spec fn word_author() -> Seq<u8> {
    seq![0x61u8, 0x75, 0x74, 0x68, 0x6f, 0x72, 0x20]
}

/// `committer ` in ASCII.
pub open spec fn word_committer() -> Seq<u8> {
    seq![0x63u8, 0x6f, 0x6d, 0x6d, 0x69, 0x74, 0x74, 0x65, 0x72, 0x20]
}

/// The identity that commits carry unless another is given:
/// `Alias Anon <a@a.com>`.
pub open spec fn fixed_identity() -> Seq<u8> {
    seq![
        0x41u8, 0x6c, 0x69, 0x61, 0x73, 0x20, 0x41, 0x6e, 0x6f, 0x6e, 0x20, 0x3c, 0x61, 0x40, 0x61,
        0x2e, 0x63, 0x6f, 0x6d, 0x3e,
    ]
}

/// The offset from UTC that commits carry unless another is given: `+0530`.
pub open spec fn fixed_offset() -> Seq<u8> {
    seq![0x2bu8, 0x30, 0x35, 0x33, 0x30]
}

/// The fixed identity and offset at the given time.
pub open spec fn fixed_signature(seconds: u64) -> SignatureView {
    SignatureView { identity: fixed_identity(), seconds, offset: fixed_offset() }
}

/// A signature as it is written: identity, seconds and offset with one
/// space between them.
pub open spec fn signature_bytes(s: SignatureView) -> Seq<u8> {
    s.identity + seq![0x20u8] + decimal(s.seconds as nat) + seq![0x20u8] + s.offset
}

/// One line of a commit: a word, what follows it, and a newline.
pub open spec fn line(word: Seq<u8>, rest: Seq<u8>) -> Seq<u8> {
    word + rest + seq![0x0au8]
}

/// The lines of a commit before its message.
pub open spec fn commit_head(c: CommitView) -> Seq<u8> {
    line(word_tree(), hex_ascii(c.tree)) + (match c.parent {
        Some(parent) => line(word_parent(), hex_ascii(parent)),
        None => Seq::empty(),
    }) + line(word_author(), signature_bytes(c.author)) + line(
        word_committer(),
        signature_bytes(c.committer),
    )
}

/// The payload of a commit: the tree line, the parent line if there is a
/// parent, the author and committer lines, an empty line, and the message
/// with a newline after it.
pub open spec fn commit_payload(c: CommitView) -> Seq<u8> {
    commit_head(c) + seq![0x0au8] + c.message + seq![0x0au8]
}

/// Whether `word` stands in `s` at position `at`.
pub open spec fn word_at(s: Seq<u8>, at: int, word: Seq<u8>) -> bool {
    &&& 0 <= at
    &&& at + word.len() <= s.len()
    &&& s.subrange(at, at + word.len()) == word
}

/// The id on the line at `at`: the word, forty hexadecimal digits and a
/// newline; `None` where the line is not of that form.
pub open spec fn id_line_at(s: Seq<u8>, at: int, word: Seq<u8>) -> Option<Seq<u8>> {
    let from = at + word.len();
    if word_at(s, at, word) && from + 41 <= s.len() && is_hex_ascii(s.subrange(from, from + 40))
        && s[from + 40] == 0x0a {
        Some(unhex(s.subrange(from, from + 40)))
    } else {
        None
    }
}

/// What a signature reads as. The offset is what follows the last space, the
/// seconds stand between the last two spaces, and the identity is all before
/// them. `None` without two spaces, or where the seconds are not decimal
/// digits that fit in 64 bits.
pub open spec fn parse_signature(text: Seq<u8>) -> Option<SignatureView> {
    match text.index_of_last(0x20u8) {
        None => None,
        Some(second) => {
            let front = text.subrange(0, second);
            match front.index_of_last(0x20u8) {
                None => None,
                Some(first) => {
                    let digits = front.skip(first + 1);
                    if digits.len() >= 1 && all_digits(digits) && decimal_value(digits) <= u64::MAX {
                        Some(
                            SignatureView {
                                identity: front.subrange(0, first),
                                seconds: decimal_value(digits) as u64,
                                offset: text.skip(second + 1),
                            },
                        )
                    } else {
                        None
                    }
                },
            }
        },
    }
}

/// The signature on the line at `at`, and the position after the line's
/// newline; `None` where the word does not stand at `at`, the line does not
/// end, or what follows the word is no signature.
pub open spec fn signature_line_at(s: Seq<u8>, at: int, word: Seq<u8>) -> Option<
    (SignatureView, int),
> {
    let from = at + word.len();
    if !word_at(s, at, word) {
        None
    } else {
        match s.subrange(from, s.len() as int).index_of_first(0x0au8) {
            None => None,
            Some(k) => match parse_signature(s.subrange(from, from + k)) {
                Some(sig) => Some((sig, from + k + 1)),
                None => None,
            },
        }
    }
}

/// What a commit's payload holds.
///
/// The payload must begin with a well-formed tree line. A parent line may
/// follow; where a line begins with `parent ` it must be well formed. The
/// author line, the committer line and an empty line come next. What is left
/// must end in a newline, and is the message without that newline.
pub open spec fn parse_commit(payload: Seq<u8>) -> Option<CommitView> {
    match id_line_at(payload, 0, word_tree()) {
        None => None,
        Some(tree) => {
            let at_parent: int = word_tree().len() as int + 41;
            let has_parent = word_at(payload, at_parent, word_parent());
            let parent = id_line_at(payload, at_parent, word_parent());
            let at_author: int = if has_parent {
                at_parent + word_parent().len() + 41
            } else {
                at_parent
            };
            if has_parent && parent is None {
                None
            } else {
                match signature_line_at(payload, at_author, word_author()) {
                    None => None,
                    Some((author, at_committer)) => match signature_line_at(
                        payload,
                        at_committer,
                        word_committer(),
                    ) {
                        None => None,
                        Some((committer, at_blank)) => if at_blank + 2 <= payload.len()
                            && payload[at_blank] == 0x0a && payload.last() == 0x0a {
                            Some(
                                CommitView {
                                    tree,
                                    parent,
                                    author,
                                    committer,
                                    message: payload.subrange(at_blank + 1, payload.len() - 1),
                                },
                            )
                        } else {
                            None
                        },
                    },
                }
            }
        },
    }
}

/// Whether a signature can be written and read back: neither identity nor
/// offset holds a newline, and the offset holds no space.
pub open spec fn signature_writable(s: SignatureView) -> bool {
    &&& !s.identity.contains(0x0au8)
    &&& !s.offset.contains(0x0au8)
    &&& !s.offset.contains(0x20u8)
}

/// Whether a commit can be written and read back: its ids have twenty bytes
/// and its signatures can be written.
pub open spec fn commit_writable(c: CommitView) -> bool {
    &&& c.tree.len() == 20
    &&& c.parent is Some ==> c.parent.unwrap().len() == 20
    &&& signature_writable(c.author)
    &&& signature_writable(c.committer)
}

/// The fixed signature can be written and read back.
pub proof fn lemma_fixed_signature_writable(time: u64)
    ensures
        signature_writable(fixed_signature(time)),
{
    let identity = fixed_identity();
    let offset = fixed_offset();
    assert forall|j: int| 0 <= j < identity.len() implies identity[j] != 0x0a by {}
    assert forall|j: int| 0 <= j < offset.len() implies offset[j] != 0x0a && offset[j] != 0x20 by {}
}

/// A written signature reads back as it was.
pub proof fn lemma_signature_round_trip(s: SignatureView)
    requires
        !s.offset.contains(0x20u8),
    ensures
        parse_signature(signature_bytes(s)) == Some(s),
{
    let digits = decimal(s.seconds as nat);
    let text = signature_bytes(s);
    let first = s.identity.len() as int;
    let second = first + 1 + digits.len();
    lemma_decimal_reads_back(s.seconds as nat);
    assert forall|j: int| second < j < text.len() implies text[j] != 0x20 by {
        assert(s.offset.contains(s.offset[j - second - 1]));
    }
    lemma_last_at(text, 0x20u8, second);
    let front = text.subrange(0, second);
    assert(front =~= s.identity + seq![0x20u8] + digits);
    assert forall|j: int| first < j < front.len() implies front[j] != 0x20 by {
        assert(front[j] == digits[j - first - 1]);
    }
    lemma_last_at(front, 0x20u8, first);
    assert(front.skip(first + 1) =~= digits);
    assert(front.subrange(0, first) =~= s.identity);
    assert(text.skip(second + 1) =~= s.offset);
}

/// A written signature holds no newline if identity and offset hold none.
proof fn lemma_signature_one_line(s: SignatureView)
    requires
        signature_writable(s),
    ensures
        !signature_bytes(s).contains(0x0au8),
{
    let digits = decimal(s.seconds as nat);
    let text = signature_bytes(s);
    let first = s.identity.len() as int;
    let second = first + 1 + digits.len();
    lemma_decimal_reads_back(s.seconds as nat);
    assert forall|j: int| 0 <= j < text.len() implies text[j] != 0x0a by {
        if j < first {
            assert(s.identity.contains(s.identity[j]));
        } else if first < j < second {
            assert(text[j] == digits[j - first - 1]);
        } else if j > second {
            assert(s.offset.contains(s.offset[j - second - 1]));
        }
    }
}

/// Where a written signature line stands in a payload, it reads back.
proof fn lemma_signature_line_reads(payload: Seq<u8>, at: int, word: Seq<u8>, s: SignatureView)
    requires
        signature_writable(s),
        0 <= at,
        at + line(word, signature_bytes(s)).len() <= payload.len(),
        payload.subrange(at, at + line(word, signature_bytes(s)).len()) == line(
            word,
            signature_bytes(s),
        ),
    ensures
        signature_line_at(payload, at, word) == Some(
            (s, at + line(word, signature_bytes(s)).len()),
        ),
{
    let text = signature_bytes(s);
    let whole = line(word, text);
    let from = at + word.len();
    let k = text.len() as int;
    assert(payload.subrange(at, at + word.len()) =~= word) by {
        assert forall|j: int| 0 <= j < word.len() implies payload[at + j] == word[j] by {
            assert(payload.subrange(at, at + whole.len())[j] == whole[j]);
        }
    }
    let tail = payload.subrange(from, payload.len() as int);
    lemma_signature_one_line(s);
    assert forall|j: int| 0 <= j < k implies tail[j] != 0x0a by {
        assert(payload.subrange(at, at + whole.len())[word.len() + j] == whole[word.len() + j]);
        assert(tail[j] == text[j]);
        assert(text.contains(text[j]));
    }
    assert(tail[k] == 0x0a) by {
        assert(payload.subrange(at, at + whole.len())[word.len() + k] == whole[word.len() + k]);
    }
    lemma_first_at(tail, 0x0au8, k);
    assert(payload.subrange(from, from + k) =~= text) by {
        assert forall|j: int| 0 <= j < k implies payload[from + j] == text[j] by {
            assert(payload.subrange(at, at + whole.len())[word.len() + j] == whole[word.len() + j]);
        }
    }
    lemma_signature_round_trip(s);
}

/// Where a written id line stands in a payload, it reads back.
proof fn lemma_id_line_reads(payload: Seq<u8>, at: int, word: Seq<u8>, id: Seq<u8>)
    requires
        id.len() == 20,
        0 <= at,
        at + word.len() + 41 <= payload.len(),
        payload.subrange(at, at + word.len() + 41) == line(word, hex_ascii(id)),
    ensures
        id_line_at(payload, at, word) == Some(id),
{
    let whole = line(word, hex_ascii(id));
    let from = at + word.len();
    assert(payload.subrange(at, at + word.len()) =~= word) by {
        assert forall|j: int| 0 <= j < word.len() implies payload[at + j] == word[j] by {
            assert(payload.subrange(at, at + word.len() + 41)[j] == whole[j]);
        }
    }
    assert(payload.subrange(from, from + 40) =~= hex_ascii(id)) by {
        assert forall|j: int| 0 <= j < 40 implies payload[from + j] == hex_ascii(id)[j] by {
            assert(payload.subrange(at, at + word.len() + 41)[word.len() + j] == whole[word.len()
                + j]);
        }
    }
    assert(payload[from + 40] == 0x0a) by {
        let last = word.len() as int + 40;
        assert(payload.subrange(at, at + word.len() + 41)[last] == whole[last]);
    }
    lemma_hex_ascii_round_trip(id);
}

/// Reading the payload of a commit gives the commit back: its tree, its
/// parent or the lack of one, both signatures and the message.
pub proof fn lemma_commit_round_trip(c: CommitView)
    requires
        commit_writable(c),
    ensures
        parse_commit(commit_payload(c)) == Some(c),
{
    let payload = commit_payload(c);
    let tree_line = line(word_tree(), hex_ascii(c.tree));
    let parent_line = match c.parent {
        Some(parent) => line(word_parent(), hex_ascii(parent)),
        None => Seq::empty(),
    };
    let author_line = line(word_author(), signature_bytes(c.author));
    let committer_line = line(word_committer(), signature_bytes(c.committer));
    let at_parent: int = word_tree().len() as int + 41;
    let at_author: int = at_parent + parent_line.len() as int;
    let at_committer: int = at_author + author_line.len();
    let at_blank: int = at_committer + committer_line.len();
    assert(at_parent == 46);
    assert(word_parent().len() == 7);
    assert(payload =~= tree_line + parent_line + author_line + committer_line + seq![0x0au8]
        + c.message + seq![0x0au8]);
    assert(payload.subrange(0, 46) =~= tree_line);
    lemma_id_line_reads(payload, 0, word_tree(), c.tree);
    assert(payload.subrange(at_author, at_author + author_line.len()) =~= author_line);
    assert(payload.subrange(at_committer, at_committer + committer_line.len())
        =~= committer_line);
    match c.parent {
        Some(parent) => {
            assert(payload.subrange(46, 94) =~= parent_line);
            lemma_id_line_reads(payload, 46, word_parent(), parent);
            assert(word_at(payload, 46, word_parent()));
        },
        None => {
            assert(payload[46] == author_line[0]);
            if word_at(payload, 46, word_parent()) {
                assert(payload.subrange(46, 53)[0] == word_parent()[0]);
            }
            assert(!word_at(payload, 46, word_parent()));
        },
    }
    lemma_signature_line_reads(payload, at_author, word_author(), c.author);
    lemma_signature_line_reads(payload, at_committer, word_committer(), c.committer);
    assert(payload[at_blank] == 0x0a);
    assert(payload.last() == 0x0a);
    assert(payload.subrange(at_blank + 1, payload.len() - 1) =~= c.message);
}

impl Signature {
    /// The fixed identity and offset at the given time.
    pub fn fixed(seconds: u64) -> (s: Signature)
        ensures
            s@ == fixed_signature(seconds),
    {
        let identity: [u8; 20] = [
            0x41, 0x6c, 0x69, 0x61, 0x73, 0x20, 0x41, 0x6e, 0x6f, 0x6e, 0x20, 0x3c, 0x61, 0x40, 0x61,
            0x2e, 0x63, 0x6f, 0x6d, 0x3e,
        ];
        let offset: [u8; 5] = [0x2b, 0x30, 0x35, 0x33, 0x30];
        let s = Signature {
            identity: copy_range(identity.as_slice(), 0, 20),
            seconds,
            offset: copy_range(offset.as_slice(), 0, 5),
        };
        assert(s@.identity =~= fixed_identity());
        assert(s@.offset =~= fixed_offset());
        s
    }
}

/// Appends a signature as it is written.
fn push_signature(out: &mut Vec<u8>, s: &Signature)
    ensures
        final(out)@ == old(out)@ + signature_bytes(s@),
{
    append_bytes(out, s.identity.as_slice());
    out.push(0x20);
    push_decimal(out, s.seconds);
    out.push(0x20);
    append_bytes(out, s.offset.as_slice());
    assert(out@ =~= old(out)@ + signature_bytes(s@));
}

/// The payload of a commit.
pub fn encode_commit(commit: &Commit) -> (payload: Vec<u8>)
    ensures
        payload@ == commit_payload(commit@),
{
    let tree: [u8; 5] = [0x74, 0x72, 0x65, 0x65, 0x20];
    let parent: [u8; 7] = [0x70, 0x61, 0x72, 0x65, 0x6e, 0x74, 0x20];
    let author: [u8; 7] = [0x61, 0x75, 0x74, 0x68, 0x6f, 0x72, 0x20];
    let committer: [u8; 10] = [0x63, 0x6f, 0x6d, 0x6d, 0x69, 0x74, 0x74, 0x65, 0x72, 0x20];
    assert(tree@ =~= word_tree());
    assert(parent@ =~= word_parent());
    assert(author@ =~= word_author());
    assert(committer@ =~= word_committer());
    let mut payload: Vec<u8> = Vec::new();
    append_bytes(&mut payload, tree.as_slice());
    push_hex_ascii(&mut payload, &commit.tree_id);
    payload.push(0x0a);
    assert(payload@ =~= line(word_tree(), hex_ascii(commit@.tree)));
    let ghost first = payload@;
    match &commit.parent_id {
        Some(id) => {
            append_bytes(&mut payload, parent.as_slice());
            push_hex_ascii(&mut payload, id);
            payload.push(0x0a);
            assert(payload@ =~= first + line(word_parent(), hex_ascii(id@)));
        },
        None => {
            assert(payload@ =~= first + Seq::<u8>::empty());
        },
    }
    let ghost second = payload@;
    append_bytes(&mut payload, author.as_slice());
    push_signature(&mut payload, &commit.author);
    payload.push(0x0a);
    assert(payload@ =~= second + line(word_author(), signature_bytes(commit@.author)));
    let ghost third = payload@;
    append_bytes(&mut payload, committer.as_slice());
    push_signature(&mut payload, &commit.committer);
    payload.push(0x0a);
    assert(payload@ =~= third + line(word_committer(), signature_bytes(commit@.committer)));
    assert(payload@ == commit_head(commit@));
    payload.push(0x0a);
    append_bytes(&mut payload, commit.message.as_slice());
    payload.push(0x0a);
    assert(payload@ =~= commit_payload(commit@));
    payload
}

/// Whether `word` stands in `s` at position `at`.
fn word_matches(s: &[u8], at: usize, word: &[u8]) -> (ok: bool)
    requires
        at <= s@.len(),
    ensures
        ok == word_at(s@, at as int, word@),
{
    let n: usize = word.len();
    let len: usize = s.len();
    if len - at < n {
        return false;
    }
    let mut i: usize = 0;
    while i < n
        invariant
            i <= n,
            n == word@.len(),
            len == s@.len(),
            at + n <= s@.len(),
            forall|j: int| 0 <= j < i ==> s@[at + j] == word@[j],
        decreases n - i,
    {
        if s[at + i] != word[i] {
            assert(s@.subrange(at as int, at + n)[i as int] != word@[i as int]);
            return false;
        }
        i = i + 1;
    }
    assert(s@.subrange(at as int, at + n) =~= word@);
    true
}

/// Reads the id on the line at `at`.
fn read_id_line(s: &[u8], at: usize, word: &[u8]) -> (r: Option<[u8; 20]>)
    requires
        at <= s@.len(),
    ensures
        match id_line_at(s@, at as int, word@) {
            Some(id) => r matches Some(x) && x@ == id,
            None => r is None,
        },
{
    let len: usize = s.len();
    if !word_matches(s, at, word) {
        return None;
    }
    let from: usize = at + word.len();
    if len - from < 41 {
        return None;
    }
    match read_hex_ascii(s, from) {
        Some(id) => if s[from + 40] == 0x0a {
            Some(id)
        } else {
            None
        },
        None => None,
    }
}

/// Reads the signature on the line at `at`, and where the next line begins.
fn read_signature_line(s: &[u8], at: usize, word: &[u8]) -> (r: Option<(Signature, usize)>)
    requires
        at <= s@.len(),
    ensures
        match signature_line_at(s@, at as int, word@) {
            Some((sig, next)) => r matches Some((x, n)) && x@ == sig && n == next,
            None => r is None,
        },
        r matches Some((_, n)) ==> n <= s@.len(),
{
    let len: usize = s.len();
    if !word_matches(s, at, word) {
        return None;
    }
    let from: usize = at + word.len();
    let end: usize = match find_byte(s, from, len, 0x0a) {
        Some(end) => end,
        None => {
            return None;
        },
    };
    let ghost text = s@.subrange(from as int, end as int);
    assert(text =~= s@.subrange(from as int, from + (end - from)));
    let second: usize = match find_last_byte(s, from, end, 0x20) {
        Some(i) => i,
        None => {
            return None;
        },
    };
    let ghost front = text.subrange(0, second - from);
    assert(s@.subrange(from as int, second as int) =~= front);
    let first: usize = match find_last_byte(s, from, second, 0x20) {
        Some(i) => i,
        None => {
            return None;
        },
    };
    assert(s@.subrange(first + 1, second as int) =~= front.skip(first - from + 1));
    let seconds: u64 = match read_decimal(s, first + 1, second, u64::MAX) {
        Some(v) => v,
        None => {
            return None;
        },
    };
    let sig = Signature {
        identity: copy_range(s, from, first),
        seconds,
        offset: copy_range(s, second + 1, end),
    };
    assert(sig@.identity =~= front.subrange(0, first - from));
    assert(sig@.offset =~= text.skip(second - from + 1));
    Some((sig, end + 1))
}

/// Reads what a commit's payload holds.
///
/// Fails with [`StoreError::CorruptObject`] where the tree line is missing
/// or malformed, where a parent line is malformed, where the author line,
/// the committer line or the empty line after them is missing or malformed,
/// or where the message does not end in a newline.
pub fn decode_commit(payload: &[u8]) -> (r: Result<Commit, StoreError>)
    ensures
        match parse_commit(payload@) {
            Some(c) => r matches Ok(commit) && commit@ == c,
            None => r matches Err(e) && e == StoreError::CorruptObject,
        },
{
    let tree: [u8; 5] = [0x74, 0x72, 0x65, 0x65, 0x20];
    let parent: [u8; 7] = [0x70, 0x61, 0x72, 0x65, 0x6e, 0x74, 0x20];
    let author: [u8; 7] = [0x61, 0x75, 0x74, 0x68, 0x6f, 0x72, 0x20];
    let committer: [u8; 10] = [0x63, 0x6f, 0x6d, 0x6d, 0x69, 0x74, 0x74, 0x65, 0x72, 0x20];
    assert(tree@ =~= word_tree());
    assert(parent@ =~= word_parent());
    assert(author@ =~= word_author());
    assert(committer@ =~= word_committer());
    let n: usize = payload.len();
    let tree_id: [u8; 20] = match read_id_line(payload, 0, tree.as_slice()) {
        Some(id) => id,
        None => {
            return Err(StoreError::CorruptObject);
        },
    };
    let at_parent: usize = tree.len() + 41;
    let mut parent_id: Option<[u8; 20]> = None;
    let mut at_author: usize = at_parent;
    if word_matches(payload, at_parent, parent.as_slice()) {
        match read_id_line(payload, at_parent, parent.as_slice()) {
            Some(id) => {
                parent_id = Some(id);
                at_author = at_parent + parent.len() + 41;
            },
            None => {
                return Err(StoreError::CorruptObject);
            },
        }
    }
    let (author_sig, at_committer) = match read_signature_line(payload, at_author, author.as_slice()) {
        Some(found) => found,
        None => {
            return Err(StoreError::CorruptObject);
        },
    };
    let (committer_sig, at_blank) = match read_signature_line(
        payload,
        at_committer,
        committer.as_slice(),
    ) {
        Some(found) => found,
        None => {
            return Err(StoreError::CorruptObject);
        },
    };
    if n - at_blank < 2 || payload[at_blank] != 0x0a || payload[n - 1] != 0x0a {
        return Err(StoreError::CorruptObject);
    }
    let commit = Commit {
        tree_id,
        parent_id,
        author: author_sig,
        committer: committer_sig,
        message: copy_range(payload, at_blank + 1, n - 1),
    };
    assert(commit@.parent == id_line_at(payload@, at_parent as int, word_parent()));
    Ok(commit)
}

} // verus!
