//! Byte sequences: little-endian integers, comparison, and writing into buffers.
use vstd::prelude::*;

verus! {

/// `s` with the bytes from `at` on overwritten by `b`.
#[verifier::opaque]
pub open spec fn splice(s: Seq<u8>, at: int, b: Seq<u8>) -> Seq<u8> {
    s.take(at) + b + s.skip(at + b.len())
}

/// `s` with its first bytes overwritten by `frame`.
#[verifier::opaque]
pub open spec fn written(s: Seq<u8>, frame: Seq<u8>) -> Seq<u8> {
    frame + s.skip(frame.len() as int)
}

/// What an encoder does to its buffer: where it refuses, nothing; where it does
/// not, it writes the frame to the start and returns the frame's length.
pub open spec fn encodes<E>(
    r: Result<usize, E>,
    before: Seq<u8>,
    after: Seq<u8>,
    refusal: Option<E>,
    frame: Seq<u8>,
) -> bool {
    match refusal {
        Some(e) => r == Err::<usize, E>(e) && after == before,
        None => r == Ok::<usize, E>(frame.len() as usize) && after == written(before, frame),
    }
}

/// The two bytes of `v`, least significant first.
pub open spec fn le16(v: u16) -> Seq<u8> {
    seq![(v % 256) as u8, (v / 256) as u8]
}

/// The four bytes of `v`, least significant first.
pub open spec fn le32(v: u32) -> Seq<u8> {
    seq![(v % 256) as u8, (v / 256 % 256) as u8, (v / 0x1_0000 % 256) as u8, (v / 0x100_0000) as u8]
}

/// The eight bytes of `v`, least significant first.
pub open spec fn le64(v: u64) -> Seq<u8> {
    le32((v % 0x1_0000_0000) as u32) + le32((v / 0x1_0000_0000) as u32)
}

/// The 16-bit integer whose bytes stand at `i`.
pub open spec fn u16_at(s: Seq<u8>, i: int) -> u16 {
    (s[i] + 256 * s[i + 1]) as u16
}

/// The 32-bit integer whose bytes stand at `i`.
pub open spec fn u32_at(s: Seq<u8>, i: int) -> u32 {
    (s[i] + 256 * s[i + 1] + 0x1_0000 * s[i + 2] + 0x100_0000 * s[i + 3]) as u32
}

/// The 64-bit integer whose bytes stand at `i`.
pub open spec fn u64_at(s: Seq<u8>, i: int) -> u64 {
    (u32_at(s, i) + 0x1_0000_0000 * u32_at(s, i + 4)) as u64
}

/// A write at the start.
pub broadcast proof fn lemma_write_first(s: Seq<u8>, b: Seq<u8>)
    requires
        b.len() <= s.len(),
    ensures
        #[trigger] splice(s, 0, b) == written(s, b),
{
    reveal(splice);
    reveal(written);
    assert(splice(s, 0, b) =~= written(s, b));
}

/// A write right behind what was written so far.
pub broadcast proof fn lemma_write_next(s: Seq<u8>, a: Seq<u8>, n: int, b: Seq<u8>)
    requires
        n == a.len(),
        n + b.len() <= s.len(),
    ensures
        #[trigger] splice(written(s, a), n, b) == written(s, a + b),
{
    reveal(splice);
    reveal(written);
    assert(splice(written(s, a), n, b) =~= written(s, a + b));
}

/// Two writes, the second right behind the first, are one write.
pub proof fn lemma_splice_chain(s: Seq<u8>, at: int, a: Seq<u8>, n: int, b: Seq<u8>)
    requires
        0 <= at,
        n == at + a.len(),
        n + b.len() <= s.len(),
    ensures
        splice(splice(s, at, a), n, b) == splice(s, at, a + b),
{
    reveal(splice);
    assert(splice(splice(s, at, a), n, b) =~= splice(s, at, a + b));
}

/// A part of the left half of a concatenation.
pub broadcast proof fn lemma_subrange_left(a: Seq<u8>, b: Seq<u8>, i: int, j: int)
    requires
        0 <= i <= j <= a.len(),
    ensures
        #[trigger] (a + b).subrange(i, j) == a.subrange(i, j),
{
    assert((a + b).subrange(i, j) =~= a.subrange(i, j));
}

/// The right half of a concatenation.
pub broadcast proof fn lemma_subrange_right(a: Seq<u8>, b: Seq<u8>, i: int, j: int)
    requires
        i == a.len(),
        j == a.len() + b.len(),
    ensures
        #[trigger] (a + b).subrange(i, j) == b,
{
    assert((a + b).subrange(i, j) =~= b);
}

/// Writing nothing changes nothing.
pub proof fn lemma_splice_nothing(s: Seq<u8>, at: int)
    requires
        0 <= at <= s.len(),
    ensures
        splice(s, at, Seq::empty()) == s,
{
    reveal(splice);
    assert(splice(s, at, Seq::empty()) =~= s);
}

/// What stands in a sequence where the bytes of a 16-bit integer stand.
pub proof fn lemma_u16_at(s: Seq<u8>, i: int, v: u16)
    requires
        0 <= i,
        i + 2 <= s.len(),
        s.subrange(i, i + 2) == le16(v),
    ensures
        u16_at(s, i) == v,
{
    let t = s.subrange(i, i + 2);
    assert(t[0] == s[i] && t[1] == s[i + 1]);
    assert(t[0] == le16(v)[0] && t[1] == le16(v)[1]);
}

/// What stands in a sequence where the bytes of a 32-bit integer stand.
pub proof fn lemma_u32_at(s: Seq<u8>, i: int, v: u32)
    requires
        0 <= i,
        i + 4 <= s.len(),
        s.subrange(i, i + 4) == le32(v),
    ensures
        u32_at(s, i) == v,
{
    let t = s.subrange(i, i + 4);
    assert(t[0] == s[i] && t[1] == s[i + 1] && t[2] == s[i + 2] && t[3] == s[i + 3]);
    assert(t[0] == le32(v)[0] && t[1] == le32(v)[1] && t[2] == le32(v)[2] && t[3] == le32(v)[3]);
}

/// What stands in a sequence where the bytes of a 64-bit integer stand.
pub proof fn lemma_u64_at(s: Seq<u8>, i: int, v: u64)
    requires
        0 <= i,
        i + 8 <= s.len(),
        s.subrange(i, i + 8) == le64(v),
    ensures
        u64_at(s, i) == v,
{
    let low = (v % 0x1_0000_0000) as u32;
    let high = (v / 0x1_0000_0000) as u32;
    assert(s.subrange(i, i + 4) =~= s.subrange(i, i + 8).subrange(0, 4));
    assert(s.subrange(i + 4, i + 8) =~= s.subrange(i, i + 8).subrange(4, 8));
    assert(le64(v).subrange(0, 4) =~= le32(low));
    assert(le64(v).subrange(4, 8) =~= le32(high));
    lemma_u32_at(s, i, low);
    lemma_u32_at(s, i + 4, high);
}

/// Whether two byte strings are equal.
pub fn bytes_equal(a: &[u8], b: &[u8]) -> (r: bool)
    ensures
        r == (a@ == b@),
{
    if a.len() != b.len() {
        return false;
    }
    let mut i: usize = 0;
    while i < a.len()
        invariant
            i <= a.len(),
            a.len() == b.len(),
            forall|j: int| 0 <= j < i ==> a@[j] == b@[j],
        decreases a.len() - i,
    {
        if a[i] != b[i] {
            return false;
        }
        i += 1;
    }
    assert(a@ =~= b@);
    true
}

/// Whether `s` begins with `prefix`.
pub fn starts_with(s: &[u8], prefix: &[u8]) -> (r: bool)
    ensures
        r == prefix@.is_prefix_of(s@),
{
    if prefix.len() > s.len() {
        return false;
    }
    bytes_equal(vstd::slice::slice_subrange(s, 0, prefix.len()), prefix)
}

/// The bytes of `s` in a vector of their own.
pub fn to_vec(s: &[u8]) -> (r: Vec<u8>)
    ensures
        r@ == s@,
{
    let mut r: Vec<u8> = Vec::new();
    let mut i: usize = 0;
    while i < s.len()
        invariant
            i <= s.len(),
            r@ == s@.take(i as int),
        decreases s.len() - i,
    {
        r.push(s[i]);
        i += 1;
    }
    r
}

/// What was written is what stands at the start.
pub proof fn lemma_written_front(s: Seq<u8>, frame: Seq<u8>)
    requires
        frame.len() <= s.len(),
    ensures
        written(s, frame).take(frame.len() as int) == frame,
        written(s, frame).len() == s.len(),
{
    reveal(written);
    assert(written(s, frame).take(frame.len() as int) =~= frame);
}

/// The first `n` bytes of `s` in a vector of their own.
pub fn front(s: &[u8], n: usize) -> (r: Vec<u8>)
    requires
        n <= s@.len(),
    ensures
        r@ == s@.take(n as int),
{
    to_vec(vstd::slice::slice_subrange(s, 0, n))
}

/// What stands in `s` behind its first `n` bytes, in a vector of its own.
pub fn behind(s: &[u8], n: usize) -> (r: Vec<u8>)
    requires
        n <= s@.len(),
    ensures
        r@ == s@.skip(n as int),
{
    assert(s@.subrange(n as int, s@.len() as int) =~= s@.skip(n as int));
    to_vec(vstd::slice::slice_subrange(s, n, s.len()))
}

/// Add bytes at the end of a vector.
pub fn append(v: &mut Vec<u8>, s: &[u8])
    ensures
        final(v)@ == old(v)@ + s@,
{
    let mut i: usize = 0;
    while i < s.len()
        invariant
            i <= s.len(),
            v@ == old(v)@ + s@.take(i as int),
        decreases s.len() - i,
    {
        v.push(s[i]);
        i += 1;
    }
    assert(s@.take(i as int) =~= s@);
}

/// Write `src` into `dst` from `at` on.
pub fn put_bytes(dst: &mut [u8], at: usize, src: &[u8])
    requires
        at + src@.len() <= old(dst)@.len(),
    ensures
        final(dst)@.len() == old(dst)@.len(),
        final(dst)@ == splice(old(dst)@, at as int, src@),
{
    let ghost before = dst@;
    let size: usize = dst.len();
    let mut i: usize = 0;
    while i < src.len()
        invariant
            i <= src.len(),
            size == before.len(),
            at + src.len() <= size,
            dst@.len() == size,
            forall|j: int| 0 <= j < i ==> #[trigger] dst@[at + j] == src@[j],
            forall|j: int| 0 <= j < size && !(at <= j < at + i) ==> #[trigger] dst@[j] == before[j],
        decreases src.len() - i,
    {
        let ghost prev = dst@;
        dst[at + i] = src[i];
        i += 1;
    }
    proof {
        reveal(splice);
    }
    assert forall|j: int| 0 <= j < size implies dst@[j] == splice(before, at as int, src@)[j] by {
        if at <= j < at + src.len() {
            let d = j - at;
            assert(dst@[at + d] == src@[d]);
        }
    }
    assert(dst@ =~= splice(before, at as int, src@));
}

/// Write one byte at `at`.
pub fn put_u8(dst: &mut [u8], at: usize, v: u8)
    requires
        at < old(dst)@.len(),
    ensures
        final(dst)@.len() == old(dst)@.len(),
        final(dst)@ == splice(old(dst)@, at as int, seq![v]),
{
    dst[at] = v;
    proof {
        reveal(splice);
    }
    assert(dst@ =~= splice(old(dst)@, at as int, seq![v]));
}

/// Write a 16-bit integer at `at`.
pub fn put_u16(dst: &mut [u8], at: usize, v: u16)
    requires
        at + 2 <= old(dst)@.len(),
    ensures
        final(dst)@.len() == old(dst)@.len(),
        final(dst)@ == splice(old(dst)@, at as int, le16(v)),
{
    dst[at] = (v % 256) as u8;
    dst[at + 1] = (v / 256) as u8;
    proof {
        reveal(splice);
    }
    assert(dst@ =~= splice(old(dst)@, at as int, le16(v)));
}

/// Write a 32-bit integer at `at`.
pub fn put_u32(dst: &mut [u8], at: usize, v: u32)
    requires
        at + 4 <= old(dst)@.len(),
    ensures
        final(dst)@.len() == old(dst)@.len(),
        final(dst)@ == splice(old(dst)@, at as int, le32(v)),
{
    dst[at] = (v % 256) as u8;
    dst[at + 1] = (v / 256 % 256) as u8;
    dst[at + 2] = (v / 0x1_0000 % 256) as u8;
    dst[at + 3] = (v / 0x100_0000) as u8;
    proof {
        reveal(splice);
    }
    assert(dst@ =~= splice(old(dst)@, at as int, le32(v)));
}

/// Write a 64-bit integer at `at`.
pub fn put_u64(dst: &mut [u8], at: usize, v: u64)
    requires
        at + 8 <= old(dst)@.len(),
    ensures
        final(dst)@.len() == old(dst)@.len(),
        final(dst)@ == splice(old(dst)@, at as int, le64(v)),
{
    let size: usize = dst.len();
    assert(at + 8 <= size);
    let low: u32 = (v % 0x1_0000_0000) as u32;
    let high: u32 = (v / 0x1_0000_0000) as u32;
    put_u32(dst, at, low);
    put_u32(dst, at + 4, high);
    proof {
        lemma_splice_chain(old(dst)@, at as int, le32(low), at + 4, le32(high));
    }
}

/// The 16-bit integer at `i`.
pub fn get_u16(s: &[u8], i: usize) -> (r: u16)
    requires
        i + 2 <= s@.len(),
    ensures
        r == u16_at(s@, i as int),
{
    s[i] as u16 + 256 * s[i + 1] as u16
}

/// The 32-bit integer at `i`.
pub fn get_u32(s: &[u8], i: usize) -> (r: u32)
    requires
        i + 4 <= s@.len(),
    ensures
        r == u32_at(s@, i as int),
{
    s[i] as u32 + 256 * s[i + 1] as u32 + 0x1_0000 * s[i + 2] as u32 + 0x100_0000 * s[i + 3] as u32
}

/// The 64-bit integer at `i`.
pub fn get_u64(s: &[u8], i: usize) -> (r: u64)
    requires
        i + 8 <= s@.len(),
    ensures
        r == u64_at(s@, i as int),
{
    let size: usize = s.len();
    assert(i + 4 <= size);
    get_u32(s, i) as u64 + 0x1_0000_0000 * get_u32(s, i + 4) as u64
}

} // verus!
