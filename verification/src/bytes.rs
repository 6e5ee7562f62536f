//! Byte strings: equality, the bytewise order and copying.

use vstd::prelude::*;

verus! {

/// `a` and `b` agree on their first `k` bytes.
pub open spec fn agree_upto(a: Seq<u8>, b: Seq<u8>, k: int) -> bool {
    &&& 0 <= k <= a.len()
    &&& k <= b.len()
    &&& forall|j: int| 0 <= j < k ==> a[j] == b[j]
}

/// The bytewise (lexicographic) order: `a` comes before `b` when, after a
/// common prefix, `a` ends first or holds the smaller byte.
pub open spec fn lex_lt(a: Seq<u8>, b: Seq<u8>) -> bool {
    exists|k: int|
        #[trigger] agree_upto(a, b, k) && k < b.len() && (k == a.len() || a[k] < b[k])
}

/// The bytewise order is irreflexive and asymmetric.
pub proof fn lemma_lex_asymmetric(a: Seq<u8>, b: Seq<u8>)
    ensures
        !lex_lt(a, a),
        lex_lt(a, b) ==> !lex_lt(b, a) && a != b,
{
    if lex_lt(a, b) && lex_lt(b, a) {
        let k = choose|k: int|
            #[trigger] agree_upto(a, b, k) && k < b.len() && (k == a.len() || a[k] < b[k]);
        let m = choose|m: int|
            #[trigger] agree_upto(b, a, m) && m < a.len() && (m == b.len() || b[m] < a[m]);
        if k < m {
            assert(b[k] == a[k]);
        } else if m < k {
            assert(a[m] == b[m]);
        }
    }
    if lex_lt(a, a) {
        let k = choose|k: int|
            #[trigger] agree_upto(a, a, k) && k < a.len() && (k == a.len() || a[k] < a[k]);
        assert(false);
    }
}

/// Any two byte strings are equal or ordered one way or the other.
pub proof fn lemma_lex_total(a: Seq<u8>, b: Seq<u8>)
    ensures
        a == b || lex_lt(a, b) || lex_lt(b, a),
{
    lemma_lex_total_from(a, b, 0);
}

proof fn lemma_lex_total_from(a: Seq<u8>, b: Seq<u8>, k: int)
    requires
        agree_upto(a, b, k),
    ensures
        a == b || lex_lt(a, b) || lex_lt(b, a),
    decreases a.len() - k,
{
    assert(agree_upto(b, a, k));
    if k == a.len() {
        if k == b.len() {
            assert(a =~= b);
        }
    } else if k < b.len() && a[k] == b[k] {
        assert(agree_upto(a, b, k + 1));
        lemma_lex_total_from(a, b, k + 1);
    }
}

/// The bytewise order is transitive.
pub proof fn lemma_lex_transitive(a: Seq<u8>, b: Seq<u8>, c: Seq<u8>)
    requires
        lex_lt(a, b),
        lex_lt(b, c),
    ensures
        lex_lt(a, c),
{
    let k = choose|k: int|
        #[trigger] agree_upto(a, b, k) && k < b.len() && (k == a.len() || a[k] < b[k]);
    let m = choose|m: int|
        #[trigger] agree_upto(b, c, m) && m < c.len() && (m == b.len() || b[m] < c[m]);
    let n = if k <= m { k } else { m };
    assert(agree_upto(a, c, n));
}

/// Whether two byte vectors hold the same bytes.
pub fn bytes_eq(a: &Vec<u8>, b: &Vec<u8>) -> (same: bool)
    ensures
        same == (a@ == b@),
{
    if a.len() != b.len() {
        return false;
    }
    let mut i: usize = 0;
    while i < a.len()
        invariant
            a.len() == b.len(),
            agree_upto(a@, b@, i as int),
        decreases a.len() - i,
    {
        if a[i] != b[i] {
            return false;
        }
        i += 1;
    }
    assert(a@ =~= b@);
    true
}

/// Whether `a` comes before `b` in the bytewise order.
pub fn bytes_lt(a: &Vec<u8>, b: &Vec<u8>) -> (before: bool)
    ensures
        before == lex_lt(a@, b@),
{
    let mut i: usize = 0;
    while i < a.len() && i < b.len()
        invariant
            agree_upto(a@, b@, i as int),
        decreases a.len() - i,
    {
        if a[i] != b[i] {
            proof {
                if a[i as int] > b[i as int] {
                    assert(agree_upto(b@, a@, i as int));
                    lemma_lex_asymmetric(b@, a@);
                }
            }
            return a[i] < b[i];
        }
        i += 1;
    }
    proof {
        if i >= b.len() {
            if i == a.len() {
                assert(a@ =~= b@);
                lemma_lex_asymmetric(a@, b@);
            } else {
                assert(agree_upto(b@, a@, i as int));
                lemma_lex_asymmetric(b@, a@);
            }
        }
    }
    i < b.len()
}

/// A copy of a byte vector.
pub fn bytes_copy(a: &Vec<u8>) -> (copy: Vec<u8>)
    ensures
        copy@ == a@,
{
    let mut out: Vec<u8> = Vec::with_capacity(a.len());
    let mut i: usize = 0;
    while i < a.len()
        invariant
            i <= a.len(),
            out@ == a@.subrange(0, i as int),
        decreases a.len() - i,
    {
        out.push(a[i]);
        assert(out@ =~= a@.subrange(0, i + 1));
        i += 1;
    }
    assert(out@ =~= a@);
    out
}

/// Appends the bytes of `tail` to `out`.
pub fn bytes_append(out: &mut Vec<u8>, tail: &Vec<u8>)
    ensures
        final(out)@ == old(out)@ + tail@,
{
    let mut i: usize = 0;
    while i < tail.len()
        invariant
            i <= tail.len(),
            out@ == old(out)@ + tail@.subrange(0, i as int),
        decreases tail.len() - i,
    {
        out.push(tail[i]);
        assert(out@ =~= old(out)@ + tail@.subrange(0, i + 1));
        i += 1;
    }
    assert(out@ =~= old(out)@ + tail@);
}

/// The eight bytes of `value`, least significant first.
pub open spec fn le_bytes(value: u64) -> Seq<u8> {
    Seq::new(8, |i: int| ((value >> ((8 * i) as u64)) & 0xff) as u8)
}

/// The number that eight bytes spell, least significant first.
pub open spec fn le_value(bytes: Seq<u8>) -> u64
    recommends
        bytes.len() == 8,
{
    (bytes[0] as u64) | ((bytes[1] as u64) << 8) | ((bytes[2] as u64) << 16) | ((bytes[3] as u64)
        << 24) | ((bytes[4] as u64) << 32) | ((bytes[5] as u64) << 40) | ((bytes[6] as u64) << 48)
        | ((bytes[7] as u64) << 56)
}

/// Reading back the bytes of a number gives the number.
pub proof fn lemma_le_round_trip(value: u64)
    ensures
        le_bytes(value).len() == 8,
        le_value(le_bytes(value)) == value,
{
    let b = le_bytes(value);
    assert(b[0] == (((value >> 0u64) & 0xff) as u8));
    assert(b[1] == (((value >> 8u64) & 0xff) as u8));
    assert(b[2] == (((value >> 16u64) & 0xff) as u8));
    assert(b[3] == (((value >> 24u64) & 0xff) as u8));
    assert(b[4] == (((value >> 32u64) & 0xff) as u8));
    assert(b[5] == (((value >> 40u64) & 0xff) as u8));
    assert(b[6] == (((value >> 48u64) & 0xff) as u8));
    assert(b[7] == (((value >> 56u64) & 0xff) as u8));
    assert(((((value >> 0u64) & 0xff) as u8) as u64) | (((((value >> 8u64) & 0xff) as u8) as u64)
        << 8) | (((((value >> 16u64) & 0xff) as u8) as u64) << 16) | (((((value >> 24u64) & 0xff) as u8)
        as u64) << 24) | (((((value >> 32u64) & 0xff) as u8) as u64) << 32) | (((((value >> 40u64)
        & 0xff) as u8) as u64) << 40) | (((((value >> 48u64) & 0xff) as u8) as u64) << 48) | (((((
    value >> 56u64) & 0xff) as u8) as u64) << 56) == value) by (bit_vector);
}

/// Appends the eight bytes of `value`, least significant first.
pub fn push_le_bytes(out: &mut Vec<u8>, value: u64)
    ensures
        final(out)@ == old(out)@ + le_bytes(value),
{
    let mut i: u64 = 0;
    while i < 8
        invariant
            i <= 8,
            out@ == old(out)@ + le_bytes(value).subrange(0, i as int),
        decreases 8 - i,
    {
        let byte: u8 = ((value >> (8 * i)) & 0xff) as u8;
        out.push(byte);
        assert(out@ =~= old(out)@ + le_bytes(value).subrange(0, i + 1));
        i += 1;
    }
    assert(out@ =~= old(out)@ + le_bytes(value));
}

/// Reads eight bytes at `at` as a number, least significant byte first.
pub fn read_le_bytes(bytes: &Vec<u8>, at: usize) -> (value: u64)
    requires
        at + 8 <= bytes.len(),
    ensures
        value == le_value(bytes@.subrange(at as int, at + 8)),
{
    let b0: u64 = bytes[at] as u64;
    let b1: u64 = bytes[at + 1] as u64;
    let b2: u64 = bytes[at + 2] as u64;
    let b3: u64 = bytes[at + 3] as u64;
    let b4: u64 = bytes[at + 4] as u64;
    let b5: u64 = bytes[at + 5] as u64;
    let b6: u64 = bytes[at + 6] as u64;
    let b7: u64 = bytes[at + 7] as u64;
    b0 | (b1 << 8) | (b2 << 16) | (b3 << 24) | (b4 << 32) | (b5 << 40) | (b6 << 48) | (b7 << 56)
}

/// The bytes of `bytes` from `from` up to `to`, as a vector of their own.
pub fn bytes_slice(bytes: &Vec<u8>, from: usize, to: usize) -> (part: Vec<u8>)
    requires
        from <= to <= bytes.len(),
    ensures
        part@ == bytes@.subrange(from as int, to as int),
{
    let mut out: Vec<u8> = Vec::with_capacity(to - from);
    let mut i: usize = from;
    while i < to
        invariant
            from <= i <= to <= bytes.len(),
            out@ == bytes@.subrange(from as int, i as int),
        decreases to - i,
    {
        out.push(bytes[i]);
        assert(out@ =~= bytes@.subrange(from as int, i + 1));
        i += 1;
    }
    out
}

} // verus!
