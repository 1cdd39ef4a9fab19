//! The frame `"<kind> <length>\0<payload>"` in which every object is hashed
//! and stored.

use crate::blob::BlobType;
use crate::bytes::{
    all_digits, append_bytes, copy_range, decimal, decimal_value, find_byte, lemma_decimal_reads_back,
    lemma_first_absent, lemma_first_at, push_decimal, read_decimal,
};
use crate::error::StoreError;
use vstd::prelude::*;

verus! {

/// The name of a kind in a frame header: `blob`, `tree` or `commit`.
pub open spec fn kind_name(kind: BlobType) -> Seq<u8> {
    match kind {
        BlobType::BLOB => seq![0x62u8, 0x6c, 0x6f, 0x62],
        BlobType::TREE => seq![0x74u8, 0x72, 0x65, 0x65],
        BlobType::COMMIT => seq![0x63u8, 0x6f, 0x6d, 0x6d, 0x69, 0x74],
    }
}

/// The header of a frame: the kind's name, a space, and the payload's length
/// in decimal.
pub open spec fn frame_header(kind: BlobType, len: nat) -> Seq<u8> {
    kind_name(kind) + seq![0x20u8] + decimal(len)
}

/// The frame of an object: its header, a NUL byte and the payload.
pub open spec fn frame(kind: BlobType, payload: Seq<u8>) -> Seq<u8> {
    frame_header(kind, payload.len()) + seq![0u8] + payload
}

/// Whether `header` names `kind`, followed by one space and a non-empty run
/// of decimal digits that writes `len`.
pub open spec fn header_of(header: Seq<u8>, kind: BlobType, len: nat) -> bool {
    let name = kind_name(kind);
    let digits = header.skip(name.len() as int + 1);
    &&& header.len() > name.len() + 1
    &&& header.subrange(0, name.len() as int) == name
    &&& header[name.len() as int] == 0x20
    &&& all_digits(digits)
    &&& decimal_value(digits) == len
}

/// What a frame holds: the bytes up to the first NUL must be a header whose
/// declared length is the number of bytes that follow the NUL.
pub open spec fn parse_frame(bytes: Seq<u8>) -> Option<(BlobType, Seq<u8>)> {
    match bytes.index_of_first(0u8) {
        None => None,
        Some(nul) => {
            let header = bytes.subrange(0, nul);
            let payload = bytes.skip(nul + 1);
            if header_of(header, BlobType::BLOB, payload.len()) {
                Some((BlobType::BLOB, payload))
            } else if header_of(header, BlobType::TREE, payload.len()) {
                Some((BlobType::TREE, payload))
            } else if header_of(header, BlobType::COMMIT, payload.len()) {
                Some((BlobType::COMMIT, payload))
            } else {
                None
            }
        },
    }
}

/// Parsing a frame gives back the kind and the payload it was made from.
pub proof fn lemma_frame_round_trip(kind: BlobType, payload: Seq<u8>)
    ensures
        parse_frame(frame(kind, payload)) == Some((kind, payload)),
{
    let header = frame_header(kind, payload.len());
    let bytes = frame(kind, payload);
    let name = kind_name(kind);
    let nul = header.len() as int;
    lemma_decimal_reads_back(payload.len());
    assert forall|j: int| 0 <= j < nul implies bytes[j] != 0 by {
        if j > name.len() {
            assert(bytes[j] == decimal(payload.len())[j - name.len() - 1]);
        }
    }
    lemma_first_at(bytes, 0u8, nul);
    assert(bytes.subrange(0, nul) =~= header);
    assert(bytes.skip(nul + 1) =~= payload);
    assert(header.subrange(0, name.len() as int) =~= name);
    assert(header.skip(name.len() as int + 1) =~= decimal(payload.len()));
    assert(header_of(header, kind, payload.len()));
    assert forall|other: BlobType| other != kind implies !header_of(
        header,
        other,
        payload.len(),
    ) by {
        let other_name = kind_name(other);
        if header.len() > other_name.len() + 1 {
            assert(header.subrange(0, other_name.len() as int)[0] == name[0]);
            assert(other_name[0] != name[0]);
        }
    }
}

/// A header fits at most one kind.
pub proof fn lemma_header_kind_unique(header: Seq<u8>, a: BlobType, b: BlobType, m: nat, n: nat)
    requires
        header_of(header, a, m),
        header_of(header, b, n),
    ensures
        a == b,
        m == n,
{
    let an = kind_name(a);
    let bn = kind_name(b);
    assert(header.subrange(0, an.len() as int)[0] == header[0]);
    assert(header.subrange(0, bn.len() as int)[0] == header[0]);
}

/// Two objects have the same frame only if they are of the same kind and
/// have the same payload.
pub proof fn lemma_frame_injective(a: BlobType, p: Seq<u8>, b: BlobType, q: Seq<u8>)
    requires
        frame(a, p) == frame(b, q),
    ensures
        a == b,
        p == q,
{
    lemma_frame_round_trip(a, p);
    lemma_frame_round_trip(b, q);
}

/// A frame that has lost its last byte is no frame: either the NUL is gone,
/// or the payload is shorter than the header declares.
pub proof fn lemma_cut_frame_rejected(kind: BlobType, payload: Seq<u8>)
    ensures
        parse_frame(frame(kind, payload).drop_last()) is None,
{
    let header = frame_header(kind, payload.len());
    let bytes = frame(kind, payload);
    let cut = bytes.drop_last();
    let name = kind_name(kind);
    let nul = header.len() as int;
    lemma_decimal_reads_back(payload.len());
    assert forall|j: int| 0 <= j < nul implies bytes[j] != 0 by {
        if j > name.len() {
            assert(bytes[j] == decimal(payload.len())[j - name.len() - 1]);
        }
    }
    if payload.len() == 0 {
        assert forall|j: int| 0 <= j < cut.len() implies cut[j] != 0 by {
            assert(cut[j] == bytes[j]);
        }
        lemma_first_absent(cut, 0u8);
    } else {
        assert forall|j: int| 0 <= j < nul implies cut[j] != 0 by {
            assert(cut[j] == bytes[j]);
        }
        lemma_first_at(cut, 0u8, nul);
        let head = cut.subrange(0, nul);
        let rest = cut.skip(nul + 1);
        assert(head =~= header);
        assert(rest.len() == payload.len() - 1);
        assert(header.subrange(0, name.len() as int) =~= name);
        assert(header.skip(name.len() as int + 1) =~= decimal(payload.len()));
        assert(header_of(header, kind, payload.len()));
        assert forall|other: BlobType| !header_of(header, other, rest.len()) by {
            if header_of(header, other, rest.len()) {
                lemma_header_kind_unique(header, kind, other, payload.len(), rest.len());
            }
        }
    }
}

/// Appends the name of `kind`.
fn push_kind_name(out: &mut Vec<u8>, kind: BlobType)
    ensures
        final(out)@ == old(out)@ + kind_name(kind),
{
    match kind {
        BlobType::BLOB => {
            out.push(0x62);
            out.push(0x6c);
            out.push(0x6f);
            out.push(0x62);
        },
        BlobType::TREE => {
            out.push(0x74);
            out.push(0x72);
            out.push(0x65);
            out.push(0x65);
        },
        BlobType::COMMIT => {
            out.push(0x63);
            out.push(0x6f);
            out.push(0x6d);
            out.push(0x6d);
            out.push(0x69);
            out.push(0x74);
        },
    }
    assert(out@ =~= old(out)@ + kind_name(kind));
}

/// Frames `payload` as an object of kind `kind`.
pub fn encode_frame(kind: BlobType, payload: &[u8]) -> (framed: Vec<u8>)
    ensures
        framed@ == frame(kind, payload@),
{
    let mut framed: Vec<u8> = Vec::new();
    push_kind_name(&mut framed, kind);
    framed.push(0x20);
    push_decimal(&mut framed, payload.len() as u64);
    framed.push(0);
    append_bytes(&mut framed, payload);
    assert(framed@ =~= frame(kind, payload@));
    framed
}

/// Whether the first `nul` bytes of `bytes` are a header of `kind` that
/// declares `len` bytes of payload.
fn header_matches(bytes: &[u8], nul: usize, kind: BlobType, len: usize) -> (ok: bool)
    requires
        nul <= bytes@.len(),
    ensures
        ok == header_of(bytes@.subrange(0, nul as int), kind, len as nat),
{
    let ghost header = bytes@.subrange(0, nul as int);
    let mut name: Vec<u8> = Vec::new();
    push_kind_name(&mut name, kind);
    assert(name@ =~= kind_name(kind));
    let n: usize = name.len();
    if nul <= n + 1 {
        return false;
    }
    let mut i: usize = 0;
    while i < n
        invariant
            i <= n < nul <= bytes@.len(),
            n == name@.len(),
            name@ == kind_name(kind),
            header == bytes@.subrange(0, nul as int),
            forall|j: int| 0 <= j < i ==> header[j] == name@[j],
        decreases n - i,
    {
        if bytes[i] != name[i] {
            assert(header.subrange(0, n as int)[i as int] != name@[i as int]);
            return false;
        }
        i = i + 1;
    }
    assert(header.subrange(0, n as int) =~= name@);
    if bytes[n] != 0x20 {
        return false;
    }
    assert(header.skip(n + 1) =~= bytes@.subrange(n + 1, nul as int));
    match read_decimal(bytes, n + 1, nul, len as u64) {
        Some(declared) => declared == len as u64,
        None => false,
    }
}

/// Takes a frame apart into its kind and payload.
///
/// Fails with [`StoreError::CorruptObject`] where the bytes hold no NUL, the
/// part before the first NUL is not `blob`, `tree` or `commit` followed by a
/// space and decimal digits, or the digits do not write the number of bytes
/// after the NUL.
pub fn decode_frame(bytes: &[u8]) -> (r: Result<(BlobType, Vec<u8>), StoreError>)
    ensures
        match parse_frame(bytes@) {
            Some((kind, payload)) => r matches Ok((k, p)) && k == kind && p@ == payload,
            None => r == Err::<(BlobType, Vec<u8>), StoreError>(StoreError::CorruptObject),
        },
{
    assert(bytes@.subrange(0, bytes@.len() as int) =~= bytes@);
    let nul: usize = match find_byte(bytes, 0, bytes.len(), 0) {
        Some(i) => i,
        None => {
            return Err(StoreError::CorruptObject);
        },
    };
    assert(bytes@.index_of_first(0u8) == Some(nul as int));
    let len: usize = bytes.len() - nul - 1;
    assert(bytes@.skip(nul + 1).len() == len);
    let kind: BlobType = if header_matches(bytes, nul, BlobType::BLOB, len) {
        BlobType::BLOB
    } else if header_matches(bytes, nul, BlobType::TREE, len) {
        BlobType::TREE
    } else if header_matches(bytes, nul, BlobType::COMMIT, len) {
        BlobType::COMMIT
    } else {
        return Err(StoreError::CorruptObject);
    };
    let payload: Vec<u8> = copy_range(bytes, nul + 1, bytes.len());
    assert(payload@ =~= bytes@.skip(nul + 1));
    Ok((kind, payload))
}

} // verus!
