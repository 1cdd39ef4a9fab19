//! Byte-level helpers shared by the encoders and parsers: appending,
//! searching, and decimal numbers in ASCII.

use vstd::prelude::*;

verus! {

/// `i` is the position of the first `b` in `s`.
pub open spec fn first_at(s: Seq<u8>, b: u8, i: int) -> bool {
    &&& 0 <= i < s.len()
    &&& s[i] == b
    &&& forall|j: int| 0 <= j < i ==> s[j] != b
}

/// A position that satisfies [`first_at`] is the one `index_of_first` names.
pub proof fn lemma_first_at(s: Seq<u8>, b: u8, i: int)
    requires
        first_at(s, b, i),
    ensures
        s.index_of_first(b) == Some(i),
{
    s.index_of_first_ensures(b);
    assert(s.contains(b));
    let k = s.index_of_first(b).unwrap();
    if k < i {
        assert(s[k] != b);
    } else if i < k {
        assert(s[i] != b);
    }
}

/// Without an occurrence of `b`, `index_of_first` names no position.
pub proof fn lemma_first_absent(s: Seq<u8>, b: u8)
    requires
        forall|j: int| 0 <= j < s.len() ==> s[j] != b,
    ensures
        s.index_of_first(b) is None,
{
    s.index_of_first_ensures(b);
    if s.index_of_first(b) is Some {
        let k = s.index_of_first(b).unwrap();
        assert(s[k] != b);
    }
}

/// `i` is the position of the last `b` in `s`.
pub open spec fn last_at(s: Seq<u8>, b: u8, i: int) -> bool {
    &&& 0 <= i < s.len()
    &&& s[i] == b
    &&& forall|j: int| i < j < s.len() ==> s[j] != b
}

/// A position that satisfies [`last_at`] is the one `index_of_last` names.
pub proof fn lemma_last_at(s: Seq<u8>, b: u8, i: int)
    requires
        last_at(s, b, i),
    ensures
        s.index_of_last(b) == Some(i),
{
    s.index_of_last_ensures(b);
    assert(s.contains(b));
    let k = s.index_of_last(b).unwrap();
    if k < i {
        assert(s[i] != b);
    } else if i < k {
        assert(s[k] != b);
    }
}

/// Without an occurrence of `b`, `index_of_last` names no position.
pub proof fn lemma_last_absent(s: Seq<u8>, b: u8)
    requires
        forall|j: int| 0 <= j < s.len() ==> s[j] != b,
    ensures
        s.index_of_last(b) is None,
{
    s.index_of_last_ensures(b);
    if s.index_of_last(b) is Some {
        let k = s.index_of_last(b).unwrap();
        assert(s[k] != b);
    }
}

/// Appends `src` to `out`.
pub(crate) fn append_bytes(out: &mut Vec<u8>, src: &[u8])
    ensures
        final(out)@ == old(out)@ + src@,
{
    let n: usize = src.len();
    let mut i: usize = 0;
    while i < n
        invariant
            n == src@.len(),
            i <= n,
            out@ == old(out)@ + src@.subrange(0, i as int),
        decreases n - i,
    {
        out.push(src[i]);
        i = i + 1;
    }
    assert(src@.subrange(0, n as int) == src@);
}

/// The bytes of `s` from `from` up to `to`, as a vector of their own.
pub(crate) fn copy_range(s: &[u8], from: usize, to: usize) -> (out: Vec<u8>)
    requires
        from <= to <= s@.len(),
    ensures
        out@ == s@.subrange(from as int, to as int),
{
    let mut out: Vec<u8> = Vec::new();
    let mut i: usize = from;
    while i < to
        invariant
            from <= i <= to <= s@.len(),
            out@ == s@.subrange(from as int, i as int),
        decreases to - i,
    {
        out.push(s[i]);
        i = i + 1;
    }
    out
}

/// Searches `s[from..to]` for the first `b`. The result is a position in
/// `s`, not in the part searched.
pub(crate) fn find_byte(s: &[u8], from: usize, to: usize, b: u8) -> (found: Option<usize>)
    requires
        from <= to <= s@.len(),
    ensures
        match found {
            Some(i) => {
                &&& from <= i < to
                &&& s@[i as int] == b
                &&& s@.subrange(from as int, to as int).index_of_first(b) == Some(i - from)
            },
            None => s@.subrange(from as int, to as int).index_of_first(b) is None,
        },
{
    let ghost part = s@.subrange(from as int, to as int);
    let mut i: usize = from;
    while i < to
        invariant
            from <= i <= to <= s@.len(),
            part == s@.subrange(from as int, to as int),
            forall|j: int| 0 <= j < i - from ==> part[j] != b,
        decreases to - i,
    {
        if s[i] == b {
            proof {
                lemma_first_at(part, b, i - from);
            }
            return Some(i);
        }
        i = i + 1;
    }
    proof {
        lemma_first_absent(part, b);
    }
    None
}

/// Searches `s[from..to]` for the last `b`. The result is a position in
/// `s`, not in the part searched.
pub(crate) fn find_last_byte(s: &[u8], from: usize, to: usize, b: u8) -> (found: Option<usize>)
    requires
        from <= to <= s@.len(),
    ensures
        match found {
            Some(i) => {
                &&& from <= i < to
                &&& s@[i as int] == b
                &&& s@.subrange(from as int, to as int).index_of_last(b) == Some(i - from)
            },
            None => s@.subrange(from as int, to as int).index_of_last(b) is None,
        },
{
    let ghost part = s@.subrange(from as int, to as int);
    let mut i: usize = to;
    while i > from
        invariant
            from <= i <= to <= s@.len(),
            part == s@.subrange(from as int, to as int),
            forall|j: int| i - from <= j < to - from ==> part[j] != b,
        decreases i - from,
    {
        i = i - 1;
        if s[i] == b {
            proof {
                lemma_last_at(part, b, i - from);
            }
            return Some(i);
        }
    }
    proof {
        lemma_last_absent(part, b);
    }
    None
}

/// Whether `b` is an ASCII decimal digit.
pub open spec fn is_digit(b: u8) -> bool {
    0x30 <= b <= 0x39
}

/// Whether `s` is made of ASCII decimal digits alone.
pub open spec fn all_digits(s: Seq<u8>) -> bool {
    forall|i: int| 0 <= i < s.len() ==> is_digit(#[trigger] s[i])
}

/// `n` written in decimal, in ASCII, without leading zeros.
pub open spec fn decimal(n: nat) -> Seq<u8>
    decreases n,
{
    if n < 10 {
        seq![(0x30 + n) as u8]
    } else {
        decimal(n / 10).push((0x30 + n % 10) as u8)
    }
}

/// The number that the digits `s` write in decimal. Leading zeros count for
/// nothing, and the empty sequence stands for zero.
pub open spec fn decimal_value(s: Seq<u8>) -> nat
    decreases s.len(),
{
    if s.len() == 0 {
        0
    } else {
        10 * decimal_value(s.drop_last()) + (s.last() - 0x30) as nat
    }
}

/// The decimal form of a number is a non-empty run of digits that reads back
/// as that number.
pub proof fn lemma_decimal_reads_back(n: nat)
    ensures
        decimal(n).len() >= 1,
        all_digits(decimal(n)),
        decimal_value(decimal(n)) == n,
    decreases n,
{
    if n < 10 {
        let s = decimal(n);
        assert(s.drop_last() =~= Seq::<u8>::empty());
        assert(decimal_value(s.drop_last()) == 0);
    } else {
        lemma_decimal_reads_back(n / 10);
        let s = decimal(n);
        assert(s.drop_last() =~= decimal(n / 10));
    }
}

/// Reading more digits never makes the number smaller.
pub proof fn lemma_decimal_value_grows(s: Seq<u8>, k: int)
    requires
        all_digits(s),
        0 <= k <= s.len(),
    ensures
        decimal_value(s.subrange(0, k)) <= decimal_value(s),
    decreases s.len() - k,
{
    if k < s.len() {
        lemma_decimal_value_grows(s, k + 1);
        let t = s.subrange(0, k + 1);
        assert(t.drop_last() =~= s.subrange(0, k));
        assert(is_digit(s[k]));
    } else {
        assert(s.subrange(0, k) =~= s);
    }
}

/// Appends `n` in decimal to `out`.
pub(crate) fn push_decimal(out: &mut Vec<u8>, n: u64)
    ensures
        final(out)@ == old(out)@ + decimal(n as nat),
    decreases n,
{
    if n >= 10 {
        push_decimal(out, n / 10);
    }
    let digit: u8 = (n % 10) as u8;
    out.push(0x30 + digit);
    assert(out@ =~= old(out)@ + decimal(n as nat));
}

/// Reads `s[from..to]` as a decimal number of at most `max`: `None` unless
/// it is a non-empty run of digits whose number is no more than `max`. The
/// run may be longer than a machine word could hold.
pub(crate) fn read_decimal(s: &[u8], from: usize, to: usize, max: u64) -> (r: Option<u64>)
    requires
        from <= to <= s@.len(),
    ensures
        ({
            let digits = s@.subrange(from as int, to as int);
            match r {
                Some(v) => digits.len() >= 1 && all_digits(digits) && decimal_value(digits) == v
                    && v <= max,
                None => !(digits.len() >= 1 && all_digits(digits) && decimal_value(digits) <= max),
            }
        }),
{
    let ghost digits = s@.subrange(from as int, to as int);
    if from == to {
        return None;
    }
    let mut value: u64 = 0;
    let mut i: usize = from;
    while i < to
        invariant
            from <= i <= to <= s@.len(),
            digits == s@.subrange(from as int, to as int),
            all_digits(digits.subrange(0, i - from)),
            value == decimal_value(digits.subrange(0, i - from)),
            value <= max,
        decreases to - i,
    {
        let b: u8 = s[i];
        let ghost seen = digits.subrange(0, i - from + 1);
        proof {
            assert(seen.drop_last() =~= digits.subrange(0, i - from));
            assert(seen.last() == b);
        }
        if b < 0x30 || b > 0x39 {
            assert(!is_digit(digits[i - from]));
            return None;
        }
        let d: u64 = (b - 0x30) as u64;
        if d > max || value > (max - d) / 10 {
            proof {
                assert(decimal_value(seen) > max);
                if all_digits(digits) {
                    lemma_decimal_value_grows(digits, i - from + 1);
                }
            }
            return None;
        }
        value = value * 10 + d;
        i = i + 1;
        proof {
            assert forall|j: int| 0 <= j < seen.len() implies is_digit(#[trigger] seen[j]) by {
                if j < seen.len() - 1 {
                    assert(seen[j] == digits.subrange(0, i - 1 - from)[j]);
                }
            }
        }
    }
    assert(digits.subrange(0, to - from) =~= digits);
    Some(value)
}

/// Whether `a` comes before `b` byte by byte: at the first place where they
/// differ `a` has the smaller byte, or `a` is a proper prefix of `b`.
pub open spec fn bytes_lt(a: Seq<u8>, b: Seq<u8>) -> bool
    decreases a.len(),
{
    if b.len() == 0 {
        false
    } else if a.len() == 0 {
        true
    } else if a[0] != b[0] {
        a[0] < b[0]
    } else {
        bytes_lt(a.drop_first(), b.drop_first())
    }
}

/// Nothing comes before itself.
pub proof fn lemma_lt_irreflexive(a: Seq<u8>)
    ensures
        !bytes_lt(a, a),
    decreases a.len(),
{
    if a.len() > 0 {
        lemma_lt_irreflexive(a.drop_first());
    }
}

/// The order is transitive.
pub proof fn lemma_lt_transitive(a: Seq<u8>, b: Seq<u8>, c: Seq<u8>)
    requires
        bytes_lt(a, b),
        bytes_lt(b, c),
    ensures
        bytes_lt(a, c),
    decreases a.len(),
{
    if a.len() > 0 && a[0] == b[0] && b[0] == c[0] {
        lemma_lt_transitive(a.drop_first(), b.drop_first(), c.drop_first());
    }
}

/// Of two different sequences one comes before the other.
pub proof fn lemma_lt_connected(a: Seq<u8>, b: Seq<u8>)
    requires
        !bytes_lt(a, b),
        !bytes_lt(b, a),
    ensures
        a == b,
    decreases a.len(),
{
    if a.len() > 0 && b.len() > 0 {
        lemma_lt_connected(a.drop_first(), b.drop_first());
        assert(a =~= seq![a[0]] + a.drop_first());
        assert(b =~= seq![b[0]] + b.drop_first());
    } else {
        assert(a =~= b);
    }
}

/// No two sequences come before each other.
pub proof fn lemma_lt_asymmetric(a: Seq<u8>, b: Seq<u8>)
    requires
        bytes_lt(a, b),
    ensures
        !bytes_lt(b, a),
{
    if bytes_lt(b, a) {
        lemma_lt_transitive(a, b, a);
        lemma_lt_irreflexive(a);
    }
}

/// Whether `a` comes before `b` byte by byte.
pub fn is_before(a: &[u8], b: &[u8]) -> (before: bool)
    ensures
        before == bytes_lt(a@, b@),
{
    let mut i: usize = 0;
    assert(a@.skip(0) =~= a@);
    assert(b@.skip(0) =~= b@);
    loop
        invariant
            i <= a@.len(),
            i <= b@.len(),
            bytes_lt(a@, b@) == bytes_lt(a@.skip(i as int), b@.skip(i as int)),
        decreases a@.len() - i,
    {
        if i == b.len() {
            return false;
        }
        if i == a.len() {
            return true;
        }
        if a[i] != b[i] {
            return a[i] < b[i];
        }
        assert(a@.skip(i as int).drop_first() =~= a@.skip(i + 1));
        assert(b@.skip(i as int).drop_first() =~= b@.skip(i + 1));
        i = i + 1;
    }
}

} // verus!
