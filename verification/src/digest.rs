//! Object ids: the SHA-1 digest of a frame, its hexadecimal form, and the
//! place in the store that the id names.

use crate::error::StoreError;
use sha1::{Digest, Sha1};
use vstd::prelude::*;
use vstd::string::StringExecFns;

verus! {

broadcast use vstd::string::is_ascii_spec_bytes;

/// The SHA-1 digest of `data`, as the `sha1` crate computes it.
pub uninterp spec fn sha1_digest(data: Seq<u8>) -> [u8; 20];

/// Calls `Sha1::digest` of the `sha1` crate.
///
/// Trusted: the digest depends on the bytes alone, so the result is named by
/// [`sha1_digest`]; nothing else is claimed of it.
#[verifier::external_body]
fn sha1_of(data: &[u8]) -> (id: [u8; 20])
    ensures
        id == sha1_digest(data@),
{
    Sha1::digest(data).into()
}

/// The id of the object whose frame is `bytes`.
pub fn digest(bytes: &[u8]) -> (id: [u8; 20])
    ensures
        id == sha1_digest(bytes@),
{
    sha1_of(bytes)
}

/// The lowercase hexadecimal digit for `n`, which is below sixteen, in ASCII.
pub open spec fn hex_digit_byte(n: int) -> u8 {
    if n < 10 {
        (0x30 + n) as u8
    } else {
        (0x61 + n - 10) as u8
    }
}

/// The lowercase hexadecimal digit for `n`, which is below sixteen.
pub open spec fn hex_digit(n: int) -> char {
    hex_digit_byte(n) as char
}

/// `bytes` in lowercase hexadecimal in ASCII, two digits for each byte, the
/// high half first.
pub open spec fn hex_ascii(bytes: Seq<u8>) -> Seq<u8> {
    Seq::new(
        2 * bytes.len(),
        |i: int|
            if i % 2 == 0 {
                hex_digit_byte(bytes[i / 2] as int / 16)
            } else {
                hex_digit_byte(bytes[i / 2] as int % 16)
            },
    )
}

/// `bytes` in lowercase hexadecimal, as characters.
pub open spec fn hex_string(bytes: Seq<u8>) -> Seq<char> {
    Seq::new(2 * bytes.len(), |i: int| hex_ascii(bytes)[i] as char)
}

/// The value of the hexadecimal digit that the byte `b` writes in ASCII, in
/// either case.
pub open spec fn nibble_value(b: u8) -> Option<int> {
    if 0x30 <= b <= 0x39 {
        Some(b - 0x30)
    } else if 0x61 <= b <= 0x66 {
        Some(b - 0x61 + 10)
    } else if 0x41 <= b <= 0x46 {
        Some(b - 0x41 + 10)
    } else {
        None
    }
}

/// Whether `s` writes an id in ASCII: exactly forty hexadecimal digits.
pub open spec fn is_hex_ascii(s: Seq<u8>) -> bool {
    &&& s.len() == 40
    &&& forall|i: int| 0 <= i < 40 ==> nibble_value(#[trigger] s[i]) is Some
}

/// The twenty bytes that the forty ASCII digits of `s` write.
pub open spec fn unhex(s: Seq<u8>) -> Seq<u8> {
    Seq::new(
        20,
        |i: int| (16 * nibble_value(s[2 * i]).unwrap() + nibble_value(s[2 * i + 1]).unwrap()) as u8,
    )
}

/// The value of a hexadecimal digit, in either case.
pub open spec fn hex_value(c: char) -> Option<int> {
    if '\0' <= c <= '\u{7f}' {
        nibble_value(c as u8)
    } else {
        None
    }
}

/// Whether `s` writes an id: exactly forty hexadecimal digits.
pub open spec fn is_hex_id(s: Seq<char>) -> bool {
    &&& s.len() == 40
    &&& forall|i: int| 0 <= i < 40 ==> hex_value(#[trigger] s[i]) is Some
}

/// The twenty bytes that the forty digits of `s` write.
pub open spec fn hex_bytes(s: Seq<char>) -> Seq<u8> {
    Seq::new(20, |i: int| (16 * hex_value(s[2 * i]).unwrap() + hex_value(s[2 * i + 1]).unwrap()) as u8)
}

/// The path of an object below the root of the store: the directory
/// `objects`, a directory named by the first two digits of the id, and a
/// file named by the other thirty-eight.
pub open spec fn object_path(id: Seq<u8>) -> Seq<char> {
    "objects/"@ + hex_string(id).subrange(0, 2) + "/"@ + hex_string(id).subrange(2, 40)
}

/// Each digit that is written has the value it was written for.
pub proof fn lemma_hex_digit_value(n: int)
    requires
        0 <= n < 16,
    ensures
        nibble_value(hex_digit_byte(n)) == Some(n),
        hex_value(hex_digit(n)) == Some(n),
        hex_digit(n) as u8 == hex_digit_byte(n),
{
}

/// Reading the ASCII hexadecimal form of an id gives the id back.
pub proof fn lemma_hex_ascii_round_trip(id: Seq<u8>)
    requires
        id.len() == 20,
    ensures
        is_hex_ascii(hex_ascii(id)),
        unhex(hex_ascii(id)) == id,
{
    let s = hex_ascii(id);
    assert forall|i: int| 0 <= i < 40 implies nibble_value(#[trigger] s[i]) is Some by {
        lemma_hex_digit_value(id[i / 2] as int / 16);
        lemma_hex_digit_value(id[i / 2] as int % 16);
    }
    assert forall|i: int| 0 <= i < 20 implies unhex(s)[i] == id[i] by {
        assert(s[2 * i] == hex_digit_byte(id[i] as int / 16));
        assert(s[2 * i + 1] == hex_digit_byte(id[i] as int % 16));
        lemma_hex_digit_value(id[i] as int / 16);
        lemma_hex_digit_value(id[i] as int % 16);
    }
    assert(unhex(s) =~= id);
}

/// Reading the hexadecimal form of an id gives the id back.
pub proof fn lemma_hex_round_trip(id: Seq<u8>)
    requires
        id.len() == 20,
    ensures
        is_hex_id(hex_string(id)),
        hex_bytes(hex_string(id)) == id,
{
    let s = hex_string(id);
    let a = hex_ascii(id);
    lemma_hex_ascii_round_trip(id);
    assert forall|i: int| 0 <= i < 40 implies hex_value(#[trigger] s[i]) == nibble_value(a[i]) by {
        lemma_hex_digit_value(id[i / 2] as int / 16);
        lemma_hex_digit_value(id[i / 2] as int % 16);
    }
    assert forall|i: int| 0 <= i < 40 implies hex_value(#[trigger] s[i]) is Some by {
        assert(nibble_value(a[i]) is Some);
    }
    assert forall|i: int| 0 <= i < 20 implies hex_bytes(s)[i] == id[i] by {
        assert(hex_value(s[2 * i]) == nibble_value(a[2 * i]));
        assert(hex_value(s[2 * i + 1]) == nibble_value(a[2 * i + 1]));
        assert(unhex(a)[i] == id[i]);
    }
    assert(hex_bytes(s) =~= id);
}

/// Two ids with the same hexadecimal form are the same id.
pub proof fn lemma_hex_injective(a: Seq<u8>, b: Seq<u8>)
    requires
        a.len() == 20,
        b.len() == 20,
        hex_string(a) == hex_string(b),
    ensures
        a == b,
{
    lemma_hex_round_trip(a);
    lemma_hex_round_trip(b);
}

/// The one-character string for the digit `n`.
fn hex_digit_str(n: u8) -> (s: &'static str)
    requires
        n < 16,
    ensures
        s@ == seq![hex_digit(n as int)],
{
    proof {
        reveal_strlit("0");
        reveal_strlit("1");
        reveal_strlit("2");
        reveal_strlit("3");
        reveal_strlit("4");
        reveal_strlit("5");
        reveal_strlit("6");
        reveal_strlit("7");
        reveal_strlit("8");
        reveal_strlit("9");
        reveal_strlit("a");
        reveal_strlit("b");
        reveal_strlit("c");
        reveal_strlit("d");
        reveal_strlit("e");
        reveal_strlit("f");
    }
    let s: &'static str = match n {
        0 => "0",
        1 => "1",
        2 => "2",
        3 => "3",
        4 => "4",
        5 => "5",
        6 => "6",
        7 => "7",
        8 => "8",
        9 => "9",
        10 => "a",
        11 => "b",
        12 => "c",
        13 => "d",
        14 => "e",
        _ => "f",
    };
    assert(s@ =~= seq![hex_digit(n as int)]);
    s
}

/// Appends the two digits of each byte of `id` from `from` up to `to`.
fn push_hex(out: &mut String, id: &[u8; 20], from: usize, to: usize)
    requires
        from <= to <= 20,
    ensures
        final(out)@ == old(out)@ + hex_string(id@).subrange(2 * from, 2 * to),
{
    let mut i: usize = from;
    while i < to
        invariant
            from <= i <= to <= 20,
            out@ == old(out)@ + hex_string(id@).subrange(2 * from, 2 * i),
        decreases to - i,
    {
        let b: u8 = id[i];
        let ghost before = out@;
        out.append(hex_digit_str(b / 16));
        out.append(hex_digit_str(b % 16));
        assert(out@ =~= old(out)@ + hex_string(id@).subrange(2 * from, 2 * (i + 1))) by {
            let h = hex_string(id@);
            assert(hex_ascii(id@)[2 * i] == hex_digit_byte(b as int / 16));
            assert(hex_ascii(id@)[2 * i + 1] == hex_digit_byte(b as int % 16));
            assert(h[2 * i] == hex_digit(b as int / 16));
            assert(h[2 * i + 1] == hex_digit(b as int % 16));
            assert(out@ =~= before + seq![h[2 * i], h[2 * i + 1]]);
        }
        i = i + 1;
    }
}

/// The id in forty lowercase hexadecimal characters.
pub fn id_to_hex(id: &[u8; 20]) -> (s: String)
    ensures
        s@ == hex_string(id@),
{
    let mut s: String = String::new();
    push_hex(&mut s, id, 0, 20);
    assert(hex_string(id@).subrange(0, 40) =~= hex_string(id@));
    assert(s@ =~= hex_string(id@));
    s
}

/// The value of the hexadecimal digit that the byte `b` writes in ASCII.
fn nibble(b: u8) -> (v: Option<u8>)
    ensures
        match v {
            Some(n) => nibble_value(b) == Some(n as int) && n < 16,
            None => nibble_value(b) is None,
        },
{
    if 0x30 <= b && b <= 0x39 {
        Some(b - 0x30)
    } else if 0x61 <= b && b <= 0x66 {
        Some(b - 0x61 + 10)
    } else if 0x41 <= b && b <= 0x46 {
        Some(b - 0x41 + 10)
    } else {
        None
    }
}

/// The ASCII hexadecimal digit for `n`.
fn digit_byte(n: u8) -> (b: u8)
    requires
        n < 16,
    ensures
        b == hex_digit_byte(n as int),
{
    if n < 10 {
        0x30 + n
    } else {
        0x61 + (n - 10)
    }
}

/// Appends the id in forty lowercase hexadecimal digits in ASCII.
pub(crate) fn push_hex_ascii(out: &mut Vec<u8>, id: &[u8; 20])
    ensures
        final(out)@ == old(out)@ + hex_ascii(id@),
{
    let mut i: usize = 0;
    while i < 20
        invariant
            i <= 20,
            out@ == old(out)@ + hex_ascii(id@).subrange(0, 2 * i),
        decreases 20 - i,
    {
        let b: u8 = id[i];
        let ghost before = out@;
        out.push(digit_byte(b / 16));
        out.push(digit_byte(b % 16));
        assert(out@ =~= old(out)@ + hex_ascii(id@).subrange(0, 2 * (i + 1))) by {
            let h = hex_ascii(id@);
            assert(h[2 * i] == hex_digit_byte(b as int / 16));
            assert(h[2 * i + 1] == hex_digit_byte(b as int % 16));
            assert(out@ =~= before + seq![h[2 * i], h[2 * i + 1]]);
        }
        i = i + 1;
    }
    assert(hex_ascii(id@).subrange(0, 40) =~= hex_ascii(id@));
}

/// Reads the id that the forty bytes from `from` on write in hexadecimal,
/// in either case; `None` where they are not forty hexadecimal digits.
pub(crate) fn read_hex_ascii(bytes: &[u8], from: usize) -> (r: Option<[u8; 20]>)
    requires
        from + 40 <= bytes@.len(),
    ensures
        match r {
            Some(id) => is_hex_ascii(bytes@.subrange(from as int, from + 40)) && id@ == unhex(
                bytes@.subrange(from as int, from + 40),
            ),
            None => !is_hex_ascii(bytes@.subrange(from as int, from + 40)),
        },
{
    let ghost digits = bytes@.subrange(from as int, from + 40);
    let n: usize = bytes.len();
    let mut id: [u8; 20] = [0u8; 20];
    let mut i: usize = 0;
    while i < 20
        invariant
            i <= 20,
            n == bytes@.len(),
            from + 40 <= bytes@.len(),
            digits == bytes@.subrange(from as int, from + 40),
            forall|j: int| 0 <= j < 2 * i ==> nibble_value(#[trigger] digits[j]) is Some,
            forall|j: int| 0 <= j < i ==> id@[j] == unhex(digits)[j],
        decreases 20 - i,
    {
        let hi: u8 = bytes[from + 2 * i];
        let lo: u8 = bytes[from + 2 * i + 1];
        assert(hi == digits[2 * i]);
        assert(lo == digits[2 * i + 1]);
        match (nibble(hi), nibble(lo)) {
            (Some(h), Some(l)) => {
                id[i] = h * 16 + l;
            },
            _ => {
                return None;
            },
        }
        i = i + 1;
    }
    assert(id@ =~= unhex(digits));
    Some(id)
}

/// Reads an id from its hexadecimal form; digits of either case are taken.
///
/// Fails with [`StoreError::InvalidIdFormat`] unless `s` is exactly forty
/// hexadecimal characters.
pub fn hex_to_id(s: &str) -> (r: Result<[u8; 20], StoreError>)
    ensures
        match r {
            Ok(id) => is_hex_id(s@) && id@ == hex_bytes(s@),
            Err(e) => !is_hex_id(s@) && e == StoreError::InvalidIdFormat,
        },
{
    if !s.is_ascii() {
        proof {
            let i = choose|i: int| 0 <= i < s@.len() && !('\0' <= #[trigger] s@[i] <= '\u{7f}');
            assert(hex_value(s@[i]) is None);
        }
        return Err(StoreError::InvalidIdFormat);
    }
    let bytes: &[u8] = s.as_bytes();
    assert(bytes@.len() == s@.len());
    if bytes.len() != 40 {
        return Err(StoreError::InvalidIdFormat);
    }
    proof {
        assert(bytes@.subrange(0, 40) =~= bytes@);
        assert forall|j: int| 0 <= j < 40 implies hex_value(#[trigger] s@[j]) == nibble_value(
            bytes@[j],
        ) by {
            assert('\0' <= s@[j] <= '\u{7f}');
            assert(bytes@[j] == s@[j] as u8);
        }
    }
    match read_hex_ascii(bytes, 0) {
        Some(id) => {
            proof {
                assert forall|j: int| 0 <= j < 40 implies hex_value(#[trigger] s@[j]) is Some by {
                    assert(nibble_value(bytes@[j]) is Some);
                }
                assert(hex_bytes(s@) =~= unhex(bytes@));
            }
            Ok(id)
        },
        None => {
            proof {
                if is_hex_id(s@) {
                    assert forall|j: int| 0 <= j < 40 implies nibble_value(#[trigger] bytes@[j]) is Some by {
                        assert(hex_value(s@[j]) is Some);
                    }
                }
            }
            Err(StoreError::InvalidIdFormat)
        },
    }
}

/// Where the object with the given id lies below the root of the store.
pub fn path_of_id(id: &[u8; 20]) -> (path: String)
    ensures
        path@ == object_path(id@),
{
    let mut path: String = String::new();
    path.append("objects/");
    push_hex(&mut path, id, 0, 1);
    path.append("/");
    push_hex(&mut path, id, 1, 20);
    assert(path@ =~= object_path(id@));
    path
}

} // verus!
