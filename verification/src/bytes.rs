//! Byte strings: order, little-endian numbers.

use vstd::prelude::*;
use crate::keyed::Key;

verus! {

/// The bytes of `s` read as one number, first byte first.
pub open spec fn bytes_rank(s: Seq<u8>) -> int
    decreases s.len(),
{
    if s.len() == 0 {
        0
    } else {
        bytes_rank(s.drop_last()) * 256 + s.last()
    }
}

/// A number that bytes give is not negative.
pub proof fn lemma_bytes_rank_positive(s: Seq<u8>)
    ensures
        bytes_rank(s) >= 0,
    decreases s.len(),
{
    if s.len() > 0 {
        lemma_bytes_rank_positive(s.drop_last());
    }
}

/// Byte strings of one length that read as one number are equal.
pub proof fn lemma_bytes_rank_injective(a: Seq<u8>, b: Seq<u8>)
    requires
        a.len() == b.len(),
        bytes_rank(a) == bytes_rank(b),
    ensures
        a == b,
    decreases a.len(),
{
    if a.len() > 0 {
        assert(bytes_rank(a.drop_last()) == bytes_rank(b.drop_last()) && a.last() == b.last());
        lemma_bytes_rank_injective(a.drop_last(), b.drop_last());
        assert(a =~= a.drop_last().push(a.last()));
        assert(b =~= b.drop_last().push(b.last()));
    } else {
        assert(a =~= b);
    }
}

proof fn lemma_prefix_decides(a: Seq<u8>, b: Seq<u8>, i: int)
    requires
        a.len() == b.len(),
        0 <= i <= a.len(),
        bytes_rank(a.take(i)) < bytes_rank(b.take(i)),
    ensures
        bytes_rank(a) < bytes_rank(b),
    decreases a.len() - i,
{
    if i < a.len() {
        assert(a.take(i + 1).drop_last() =~= a.take(i));
        assert(b.take(i + 1).drop_last() =~= b.take(i));
        lemma_prefix_decides(a, b, i + 1);
    } else {
        assert(a.take(i) =~= a);
        assert(b.take(i) =~= b);
    }
}

/// Whether `a` reads as a lower number than `b`.
pub fn bytes_precede(a: &[u8], b: &[u8]) -> (r: bool)
    requires
        a@.len() == b@.len(),
    ensures
        r == (bytes_rank(a@) < bytes_rank(b@)),
{
    let n: usize = a.len();
    let mut i: usize = 0;
    while i < n
        invariant
            i <= n,
            n == a@.len(),
            n == b@.len(),
            a@.take(i as int) == b@.take(i as int),
        decreases n - i,
    {
        proof {
            assert(a@.take(i + 1).drop_last() =~= a@.take(i as int));
            assert(b@.take(i + 1).drop_last() =~= b@.take(i as int));
        }
        if a[i] < b[i] {
            proof {
                lemma_prefix_decides(a@, b@, i + 1);
            }
            return true;
        }
        if a[i] > b[i] {
            proof {
                lemma_prefix_decides(b@, a@, i + 1);
            }
            return false;
        }
        proof {
            assert(a@.take(i + 1) =~= a@.take(i as int).push(a@[i as int]));
            assert(b@.take(i + 1) =~= b@.take(i as int).push(b@[i as int]));
        }
        i = i + 1;
    }
    proof {
        assert(a@.take(n as int) =~= a@);
        assert(b@.take(n as int) =~= b@);
    }
    false
}

/// The bits of `i` read without a sign.
pub open spec fn unsigned32(i: i32) -> u32 {
    if i < 0 {
        (i + 0x1_0000_0000) as u32
    } else {
        i as u32
    }
}

pub fn bits32(i: i32) -> (u: u32)
    ensures
        u == unsigned32(i),
{
    if i < 0 {
        (i as i64 + 0x1_0000_0000i64) as u32
    } else {
        i as u32
    }
}

/// The four bytes of `x`, low byte first.
pub open spec fn le32(x: u32) -> Seq<u8> {
    seq![
        (x % 256) as u8,
        (x / 256 % 256) as u8,
        (x / 0x1_0000 % 256) as u8,
        (x / 0x100_0000) as u8,
    ]
}

/// The four bytes of `x`, low byte first.
pub fn split32(x: u32) -> (b: (u8, u8, u8, u8))
    ensures
        seq![b.0, b.1, b.2, b.3] == le32(x),
{
    let b: (u8, u8, u8, u8) = (
        (x % 256) as u8,
        (x / 256 % 256) as u8,
        (x / 0x1_0000 % 256) as u8,
        (x / 0x100_0000) as u8,
    );
    assert(seq![b.0, b.1, b.2, b.3] =~= le32(x));
    b
}

/// Four bytes give the number back.
pub proof fn lemma_le32_injective(x: u32, y: u32)
    requires
        le32(x) == le32(y),
    ensures
        x == y,
{
    let a = le32(x);
    let b = le32(y);
    assert(a[0] == b[0] && a[1] == b[1] && a[2] == b[2] && a[3] == b[3]);
    assert(x == a[0] + 256 * a[1] + 0x1_0000 * a[2] + 0x100_0000 * a[3]);
    assert(y == b[0] + 256 * b[1] + 0x1_0000 * b[2] + 0x100_0000 * b[3]);
}

/// Sixteen bytes, such as a player's unique id, are ordered as one number.
impl Key for [u8; 16] {
    open spec fn rank(self) -> int {
        bytes_rank(self@)
    }

    proof fn rank_injective(a: Self, b: Self) {
        lemma_bytes_rank_injective(a@, b@);
        assert(a =~= b);
    }

    fn precedes(&self, other: &Self) -> (r: bool) {
        bytes_precede(self.as_slice(), other.as_slice())
    }
}

/// A copy of some bytes.
pub(crate) fn copy_of(bytes: &[u8]) -> (r: Vec<u8>)
    ensures
        r@ == bytes@,
{
    let mut r: Vec<u8> = Vec::with_capacity(bytes.len());
    let mut i: usize = 0;
    while i < bytes.len()
        invariant
            i <= bytes@.len(),
            r@ == bytes@.take(i as int),
        decreases bytes@.len() - i,
    {
        r.push(bytes[i]);
        assert(r@ =~= bytes@.take(i + 1));
        i = i + 1;
    }
    assert(r@ =~= bytes@);
    r
}

/// Whether two unique ids are the same.
pub(crate) fn same_id(a: &[u8; 16], b: &[u8; 16]) -> (r: bool)
    ensures
        r == (*a == *b),
{
    proof {
        if bytes_rank(a@) == bytes_rank(b@) {
            <[u8; 16]>::rank_injective(*a, *b);
        }
    }
    !a.precedes(b) && !b.precedes(a)
}

/// Whether two byte strings are the same.
pub(crate) fn same_bytes(a: &[u8], b: &[u8]) -> (r: bool)
    ensures
        r == (a@ == b@),
{
    if a.len() != b.len() {
        return false;
    }
    let mut i: usize = 0;
    while i < a.len()
        invariant
            i <= a@.len(),
            a@.len() == b@.len(),
            forall|j: int| 0 <= j < i ==> a@[j] == b@[j],
        decreases a@.len() - i,
    {
        if a[i] != b[i] {
            return false;
        }
        i = i + 1;
    }
    assert(a@ =~= b@);
    true
}

/// The number that four bytes give, first byte highest.
pub open spec fn be32(s: Seq<u8>) -> int {
    ((s[0] as int * 256 + s[1] as int) * 256 + s[2] as int) * 256 + s[3] as int
}

/// Reads four bytes as a number, first byte highest.
pub(crate) fn join_be32(a: u8, b: u8, c: u8, d: u8) -> (x: u32)
    ensures
        x == be32(seq![a, b, c, d]),
{
    ((a as u32 * 256 + b as u32) * 256 + c as u32) * 256 + d as u32
}

/// The four bytes of a number, highest first.
pub(crate) fn split_be32(x: u32) -> (r: [u8; 4])
    ensures
        be32(r@) == x,
{
    let a: u8 = (x / 0x100_0000) as u8;
    let b: u8 = (x / 0x1_0000 % 256) as u8;
    let c: u8 = (x / 0x100 % 256) as u8;
    let d: u8 = (x % 256) as u8;
    [a, b, c, d]
}

/// Four bytes with the first one highest read as the number that their order
/// gives.
pub proof fn lemma_be32_reads_the_bytes(s: Seq<u8>)
    requires
        s.len() == 4,
    ensures
        be32(s) == 0x100_0000 * s[0] + 0x1_0000 * s[1] + 0x100 * s[2] + s[3],
        be32(s) == bytes_rank(s),
{
    reveal_with_fuel(bytes_rank, 5);
}

/// The bits of a number are the number itself, or wrapped round where it is
/// negative.
pub proof fn lemma_bits_wrap_round(i: i32)
    ensures
        i >= 0 ==> unsigned32(i) == i,
        i < 0 ==> unsigned32(i) == i + 4_294_967_296,
{
}

/// Byte strings are read with the first byte highest.
pub proof fn lemma_bytes_read_in_order(s: Seq<u8>, last: u8)
    ensures
        bytes_rank(Seq::<u8>::empty()) == 0,
        bytes_rank(s.push(last)) == 256 * bytes_rank(s) + last,
{
    assert(s.push(last).drop_last() =~= s);
}

} // verus!
