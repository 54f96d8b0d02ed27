//! Byte encodings of integers, and the growable byte buffer of the `bytes`
//! crate that messages are assembled in.
use vstd::prelude::*;

verus! {

// ---------------------------------------------------------------------------
// Integer encodings
// ---------------------------------------------------------------------------

/// The `width` low bytes of `n`, most significant first.
pub open spec fn be_bytes(n: nat, width: nat) -> Seq<u8>
    decreases width,
{
    if width == 0 {
        seq![]
    } else {
        be_bytes(n / 256, (width - 1) as nat).push((n % 256) as u8)
    }
}

/// The `width` low bytes of `n`, least significant first.
pub open spec fn le_bytes(n: nat, width: nat) -> Seq<u8>
    decreases width,
{
    if width == 0 {
        seq![]
    } else {
        seq![(n % 256) as u8] + le_bytes(n / 256, (width - 1) as nat)
    }
}

/// The number that `b` encodes, least significant byte first.
pub open spec fn le_value(b: Seq<u8>) -> nat
    decreases b.len(),
{
    if b.len() == 0 {
        0
    } else {
        b[0] as nat + 256 * le_value(b.drop_first())
    }
}

/// `256` to the power `k`: the number of values that `k` bytes can hold.
pub open spec fn pow256(k: nat) -> nat
    decreases k,
{
    if k == 0 {
        1
    } else {
        256 * pow256((k - 1) as nat)
    }
}

/// `count` zero bytes.
pub open spec fn zeros(count: nat) -> Seq<u8> {
    Seq::new(count, |i: int| 0u8)
}

/// Reading back the little-endian bytes of a number gives the number, when
/// it fits in the width.
pub proof fn lemma_le_roundtrip(n: nat, width: nat)
    requires
        n < pow256(width),
    ensures
        le_bytes(n, width).len() == width,
        le_value(le_bytes(n, width)) == n,
    decreases width,
{
    if width > 0 {
        lemma_le_roundtrip(n / 256, (width - 1) as nat);
        let b = le_bytes(n, width);
        assert(b.drop_first() == le_bytes(n / 256, (width - 1) as nat));
    }
}

/// The little-endian value of the four bytes at `b[at..at + 4]`.
pub fn read_u32_le(b: &[u8], at: usize) -> (r: u32)
    requires
        at + 4 <= b.len(),
    ensures
        r == le_value(b@.subrange(at as int, at + 4)),
{
    let ghost s = b@.subrange(at as int, at + 4);
    proof {
        reveal_with_fuel(le_value, 5);
    }
    assert(s.drop_first().drop_first().drop_first().drop_first().len() == 0);
    let v: u64 = b[at] as u64 + 256 * (b[at + 1] as u64 + 256 * (b[at + 2] as u64 + 256 * (
    b[at + 3] as u64)));
    v as u32
}

/// The little-endian value of the two bytes at `b[at..at + 2]`.
pub fn read_u16_le(b: &[u8], at: usize) -> (r: u16)
    requires
        at + 2 <= b.len(),
    ensures
        r == le_value(b@.subrange(at as int, at + 2)),
{
    let ghost s = b@.subrange(at as int, at + 2);
    proof {
        reveal_with_fuel(le_value, 3);
    }
    assert(s.drop_first().drop_first().len() == 0);
    let v: u32 = b[at] as u32 + 256 * (b[at + 1] as u32);
    v as u16
}

/// The little-endian value of the eight bytes at `b[at..at + 8]`.
pub fn read_u64_le(b: &[u8], at: usize) -> (r: u64)
    requires
        at + 8 <= b.len(),
    ensures
        r == le_value(b@.subrange(at as int, at + 8)),
{
    let low = read_u32_le(b, at) as u64;
    let high = read_u32_le(b, at + 4) as u64;
    proof {
        lemma_le_value_split(b@.subrange(at as int, at + 8), 4);
        reveal_with_fuel(pow256, 5);
        assert(b@.subrange(at as int, at + 8).subrange(0, 4) == b@.subrange(at as int, at + 4));
        assert(b@.subrange(at as int, at + 8).subrange(4, 8) == b@.subrange(at + 4, at + 8));
    }
    low + 4294967296 * high
}

/// The value of a byte string is the value of its first `k` bytes plus
/// `256^k` times the value of the rest.
pub proof fn lemma_le_value_split(b: Seq<u8>, k: nat)
    requires
        k <= b.len(),
    ensures
        le_value(b) == le_value(b.subrange(0, k as int)) + pow256(k) * le_value(
            b.subrange(k as int, b.len() as int),
        ),
    decreases k,
{
    if k == 0 {
        assert(b.subrange(0, b.len() as int) == b);
        assert(le_value(b.subrange(0, 0)) == 0);
        assert(pow256(0) == 1);
        assert(1 * le_value(b) == le_value(b));
    } else {
        let t = b.drop_first();
        lemma_le_value_split(t, (k - 1) as nat);
        let p = pow256((k - 1) as nat);
        assert(t.subrange(0, k - 1) == b.subrange(0, k as int).drop_first());
        assert(t.subrange(k - 1, t.len() as int) == b.subrange(k as int, b.len() as int));
        let rest = le_value(b.subrange(k as int, b.len() as int));
        let head = le_value(t.subrange(0, k - 1));
        assert(256 * (head + p * rest) == 256 * head + (256 * p) * rest) by (nonlinear_arith);
        assert(le_value(b.subrange(0, k as int)) == b[0] + 256 * head);
        assert(le_value(b) == b[0] + 256 * le_value(t));
        assert(pow256(k) == 256 * p);
        assert(pow256(k) * rest == (256 * p) * rest);
    }
}

/// The eight little-endian bytes of `n`, as `u64::to_le_bytes` gives them.
pub fn u64_le_bytes(n: u64) -> (v: Vec<u8>)
    ensures
        v@ == le_bytes(n as nat, 8),
{
    let mut v: Vec<u8> = Vec::new();
    let mut rest = n;
    let mut i: usize = 0;
    while i < 8
        invariant
            i <= 8,
            v@ + le_bytes(rest as nat, (8 - i) as nat) == le_bytes(n as nat, 8),
        decreases 8 - i,
    {
        let ghost before = le_bytes(rest as nat, (8 - i) as nat);
        assert(before == seq![(rest % 256) as u8] + le_bytes((rest / 256) as nat, (8 - i - 1) as nat));
        v.push((rest % 256) as u8);
        rest = rest / 256;
        i = i + 1;
    }
    assert(le_bytes(rest as nat, 0) == Seq::<u8>::empty());
    v
}

// ---------------------------------------------------------------------------
// The `bytes::BytesMut` buffer
// ---------------------------------------------------------------------------

/// `bytes::BytesMut`, carried opaquely; its bytes are `buffer_contents`.
#[verifier::external_type_specification]
#[verifier::external_body]
pub struct ExBytesMut(bytes::BytesMut);

/// The bytes that a `bytes::BytesMut` holds.
pub uninterp spec fn buffer_contents(buf: bytes::BytesMut) -> Seq<u8>;

/// Calls `BytesMut::with_capacity`: an empty buffer. The capacity becomes a
/// `Vec` capacity, which panics above `isize::MAX`, hence the bound.
#[verifier::external_body]
pub(crate) fn buffer_with_capacity(capacity: usize) -> (buf: bytes::BytesMut)
    requires
        capacity <= isize::MAX,
    ensures
        buffer_contents(buf) == Seq::<u8>::empty(),
{
    bytes::BytesMut::with_capacity(capacity)
}

/// Calls `BufMut::put_slice` on a `BytesMut`: appends `src`. The buffer
/// panics when its length would pass `isize::MAX`, hence the bound.
#[verifier::external_body]
pub(crate) fn buffer_put_slice(buf: &mut bytes::BytesMut, src: &[u8])
    requires
        buffer_contents(*old(buf)).len() + src@.len() <= isize::MAX,
    ensures
        buffer_contents(*final(buf)) == buffer_contents(*old(buf)) + src@,
{
    bytes::BufMut::put_slice(buf, src)
}

/// Calls `BufMut::put_u8` on a `BytesMut`: appends the byte `n`.
#[verifier::external_body]
pub(crate) fn buffer_put_u8(buf: &mut bytes::BytesMut, n: u8)
    requires
        buffer_contents(*old(buf)).len() + 1 <= isize::MAX,
    ensures
        buffer_contents(*final(buf)) == buffer_contents(*old(buf)).push(n),
{
    bytes::BufMut::put_u8(buf, n)
}

/// Calls `BufMut::put_u16` on a `BytesMut`: appends `n` in big-endian order.
#[verifier::external_body]
pub(crate) fn buffer_put_u16(buf: &mut bytes::BytesMut, n: u16)
    requires
        buffer_contents(*old(buf)).len() + 2 <= isize::MAX,
    ensures
        buffer_contents(*final(buf)) == buffer_contents(*old(buf)) + be_bytes(n as nat, 2),
{
    bytes::BufMut::put_u16(buf, n)
}

/// Calls `BufMut::put_u32` on a `BytesMut`: appends `n` in big-endian order.
#[verifier::external_body]
pub(crate) fn buffer_put_u32(buf: &mut bytes::BytesMut, n: u32)
    requires
        buffer_contents(*old(buf)).len() + 4 <= isize::MAX,
    ensures
        buffer_contents(*final(buf)) == buffer_contents(*old(buf)) + be_bytes(n as nat, 4),
{
    bytes::BufMut::put_u32(buf, n)
}

/// Calls `BufMut::put_u32_le` on a `BytesMut`: appends `n` in little-endian
/// order.
#[verifier::external_body]
pub(crate) fn buffer_put_u32_le(buf: &mut bytes::BytesMut, n: u32)
    requires
        buffer_contents(*old(buf)).len() + 4 <= isize::MAX,
    ensures
        buffer_contents(*final(buf)) == buffer_contents(*old(buf)) + le_bytes(n as nat, 4),
{
    bytes::BufMut::put_u32_le(buf, n)
}

/// Calls `BufMut::put_u64` on a `BytesMut`: appends `n` in big-endian order.
#[verifier::external_body]
pub(crate) fn buffer_put_u64(buf: &mut bytes::BytesMut, n: u64)
    requires
        buffer_contents(*old(buf)).len() + 8 <= isize::MAX,
    ensures
        buffer_contents(*final(buf)) == buffer_contents(*old(buf)) + be_bytes(n as nat, 8),
{
    bytes::BufMut::put_u64(buf, n)
}

/// Copies the bytes of a `BytesMut` out into a `Vec` (`<[u8]>::to_vec` on
/// the buffer's slice).
#[verifier::external_body]
pub(crate) fn buffer_to_vec(buf: &bytes::BytesMut) -> (v: Vec<u8>)
    ensures
        v@ == buffer_contents(*buf),
{
    buf.to_vec()
}

} // verus!
