//! SHA-256, as a stream.
use vstd::prelude::*;

verus! {

pub const DIGEST_LEN: usize = 32;

/// The hash value before the first block.
pub const INITIAL: [u32; 8] = [
    0x6a09e667,
    0xbb67ae85,
    0x3c6ef372,
    0xa54ff53a,
    0x510e527f,
    0x9b05688c,
    0x1f83d9ab,
    0x5be0cd19,
];

/// The round constants.
pub const ROUND: [u32; 64] = [
    0x428a2f98,
    0x71374491,
    0xb5c0fbcf,
    0xe9b5dba5,
    0x3956c25b,
    0x59f111f1,
    0x923f82a4,
    0xab1c5ed5,
    0xd807aa98,
    0x12835b01,
    0x243185be,
    0x550c7dc3,
    0x72be5d74,
    0x80deb1fe,
    0x9bdc06a7,
    0xc19bf174,
    0xe49b69c1,
    0xefbe4786,
    0x0fc19dc6,
    0x240ca1cc,
    0x2de92c6f,
    0x4a7484aa,
    0x5cb0a9dc,
    0x76f988da,
    0x983e5152,
    0xa831c66d,
    0xb00327c8,
    0xbf597fc7,
    0xc6e00bf3,
    0xd5a79147,
    0x06ca6351,
    0x14292967,
    0x27b70a85,
    0x2e1b2138,
    0x4d2c6dfc,
    0x53380d13,
    0x650a7354,
    0x766a0abb,
    0x81c2c92e,
    0x92722c85,
    0xa2bfe8a1,
    0xa81a664b,
    0xc24b8b70,
    0xc76c51a3,
    0xd192e819,
    0xd6990624,
    0xf40e3585,
    0x106aa070,
    0x19a4c116,
    0x1e376c08,
    0x2748774c,
    0x34b0bcb5,
    0x391c0cb3,
    0x4ed8aa4a,
    0x5b9cca4f,
    0x682e6ff3,
    0x748f82ee,
    0x78a5636f,
    0x84c87814,
    0x8cc70208,
    0x90befffa,
    0xa4506ceb,
    0xbef9a3f7,
    0xc67178f2,
];

/// The 32-bit integer whose bytes stand at `i`, most significant first.
pub open spec fn be32_at(s: Seq<u8>, i: int) -> u32 {
    (0x100_0000 * s[i] + 0x1_0000 * s[i + 1] + 256 * s[i + 2] + s[i + 3]) as u32
}

/// The four bytes of `v`, most significant first.
pub open spec fn be32(v: u32) -> Seq<u8> {
    seq![(v / 0x100_0000) as u8, (v / 0x1_0000 % 256) as u8, (v / 256 % 256) as u8, (v % 256) as u8]
}

/// The eight bytes of `v`, most significant first.
pub open spec fn be64(v: u64) -> Seq<u8> {
    be32((v / 0x1_0000_0000) as u32) + be32((v % 0x1_0000_0000) as u32)
}

pub open spec fn rotated(x: u32, n: u32) -> u32 {
    (x >> n) | (x << ((32 - n) as u32))
}

pub open spec fn small_sigma0(x: u32) -> u32 {
    rotated(x, 7) ^ rotated(x, 18) ^ (x >> 3u32)
}

pub open spec fn small_sigma1(x: u32) -> u32 {
    rotated(x, 17) ^ rotated(x, 19) ^ (x >> 10u32)
}

pub open spec fn big_sigma0(x: u32) -> u32 {
    rotated(x, 2) ^ rotated(x, 13) ^ rotated(x, 22)
}

pub open spec fn big_sigma1(x: u32) -> u32 {
    rotated(x, 6) ^ rotated(x, 11) ^ rotated(x, 25)
}

pub open spec fn choose_bits(x: u32, y: u32, z: u32) -> u32 {
    (x & y) ^ (!x & z)
}

pub open spec fn majority(x: u32, y: u32, z: u32) -> u32 {
    (x & y) ^ (x & z) ^ (y & z)
}

/// Word `t` of the message schedule of a block.
pub open spec fn schedule(block: Seq<u8>, t: nat) -> u32
    decreases t,
{
    if t < 16 {
        be32_at(block, 4 * t as int)
    } else {
        small_sigma1(schedule(block, (t - 2) as nat)).wrapping_add(schedule(block, (t - 7) as nat)).wrapping_add(
            small_sigma0(schedule(block, (t - 15) as nat)),
        ).wrapping_add(schedule(block, (t - 16) as nat))
    }
}

/// One round on the eight working variables.
pub open spec fn round(v: Seq<u32>, k: u32, w: u32) -> Seq<u32> {
    let t1 = v[7].wrapping_add(big_sigma1(v[4])).wrapping_add(choose_bits(v[4], v[5], v[6])).wrapping_add(
        k,
    ).wrapping_add(w);
    let t2 = big_sigma0(v[0]).wrapping_add(majority(v[0], v[1], v[2]));
    seq![t1.wrapping_add(t2), v[0], v[1], v[2], v[3].wrapping_add(t1), v[4], v[5], v[6]]
}

/// The working variables after `t` rounds.
pub open spec fn rounds(h: Seq<u32>, block: Seq<u8>, t: nat) -> Seq<u32>
    decreases t,
{
    if t == 0 {
        h
    } else {
        round(rounds(h, block, (t - 1) as nat), ROUND@[t - 1], schedule(block, (t - 1) as nat))
    }
}

/// The hash value after a block.
pub open spec fn compressed(h: Seq<u32>, block: Seq<u8>) -> Seq<u32> {
    Seq::new(8, |i: int| h[i].wrapping_add(rounds(h, block, 64)[i]))
}

/// The hash value after the first `n` blocks of `data`.
pub open spec fn hashed(data: Seq<u8>, n: nat) -> Seq<u32>
    decreases n,
{
    if n == 0 {
        INITIAL@
    } else {
        compressed(hashed(data, (n - 1) as nat), data.subrange(64 * (n - 1), 64 * n as int))
    }
}

/// The message with a one bit, zeros and its bit length behind it: whole blocks.
pub open spec fn padded(msg: Seq<u8>) -> Seq<u8> {
    msg + seq![0x80u8] + Seq::new(((119 - msg.len() % 64) % 64) as nat, |i: int| 0u8) + be64((8 * msg.len()) as u64)
}

/// The digest of a message.
pub open spec fn digest(msg: Seq<u8>) -> Seq<u8> {
    joined(hashed(padded(msg), padded(msg).len() / 64))
}

fn rotate(x: u32, n: u32) -> (r: u32)
    requires
        0 < n < 32,
    ensures
        r == rotated(x, n),
{
    (x >> n) | (x << (32 - n))
}

fn compress(h: &[u32; 8], block: &Vec<u8>) -> (r: [u32; 8])
    requires
        block@.len() == 64,
    ensures
        r@ == compressed(h@, block@),
{
    let k: [u32; 64] = ROUND;
    let mut w: [u32; 64] = [0u32; 64];
    let mut t: usize = 0;
    while t < 16
        invariant
            t <= 16,
            block@.len() == 64,
            forall|j: int| 0 <= j < t ==> #[trigger] w@[j] == schedule(block@, j as nat),
        decreases 16 - t,
    {
        w[t] = 0x100_0000 * block[4 * t] as u32 + 0x1_0000 * block[4 * t + 1] as u32 + 256 * block[4 * t + 2] as u32
            + block[4 * t + 3] as u32;
        t += 1;
    }
    while t < 64
        invariant
            16 <= t <= 64,
            forall|j: int| 0 <= j < t ==> #[trigger] w@[j] == schedule(block@, j as nat),
        decreases 64 - t,
    {
        let a: u32 = w[t - 2];
        let b: u32 = w[t - 15];
        let s1: u32 = rotate(a, 17) ^ rotate(a, 19) ^ (a >> 10u32);
        let s0: u32 = rotate(b, 7) ^ rotate(b, 18) ^ (b >> 3u32);
        w[t] = s1.wrapping_add(w[t - 7]).wrapping_add(s0).wrapping_add(w[t - 16]);
        t += 1;
    }
    let mut v: [u32; 8] = *h;
    let mut i: usize = 0;
    while i < 64
        invariant
            i <= 64,
            k == ROUND,
            forall|j: int| 0 <= j < 64 ==> #[trigger] w@[j] == schedule(block@, j as nat),
            v@ == rounds(h@, block@, i as nat),
        decreases 64 - i,
    {
        let e: u32 = v[4];
        let a: u32 = v[0];
        let s1: u32 = rotate(e, 6) ^ rotate(e, 11) ^ rotate(e, 25);
        let ch: u32 = (e & v[5]) ^ (!e & v[6]);
        let t1: u32 = v[7].wrapping_add(s1).wrapping_add(ch).wrapping_add(k[i]).wrapping_add(w[i]);
        let s0: u32 = rotate(a, 2) ^ rotate(a, 13) ^ rotate(a, 22);
        let maj: u32 = (a & v[1]) ^ (a & v[2]) ^ (v[1] & v[2]);
        let t2: u32 = s0.wrapping_add(maj);
        let ghost before = v@;
        v = [t1.wrapping_add(t2), a, v[1], v[2], v[3].wrapping_add(t1), e, v[5], v[6]];
        assert(v@ =~= round(before, ROUND@[i as int], schedule(block@, i as nat)));
        i += 1;
    }
    let mut r: [u32; 8] = [0u32; 8];
    let mut j: usize = 0;
    while j < 8
        invariant
            j <= 8,
            v@ == rounds(h@, block@, 64),
            forall|q: int| 0 <= q < j ==> #[trigger] r@[q] == h@[q].wrapping_add(v@[q]),
        decreases 8 - j,
    {
        r[j] = h[j].wrapping_add(v[j]);
        j += 1;
    }
    assert(r@ =~= compressed(h@, block@));
    r
}

/// A running hash. Its view is the message so far.
pub struct Sha256 {
    h: [u32; 8],
    tail: Vec<u8>,
    total: u64,
    msg: Ghost<Seq<u8>>,
}

impl View for Sha256 {
    type V = Seq<u8>;

    closed spec fn view(&self) -> Seq<u8> {
        self.msg@
    }
}

proof fn lemma_hashed_prefix(a: Seq<u8>, b: Seq<u8>, n: nat)
    requires
        64 * n <= a.len(),
        a.len() <= b.len(),
        b.take(a.len() as int) == a,
    ensures
        hashed(a, n) == hashed(b, n),
    decreases n,
{
    if n > 0 {
        lemma_hashed_prefix(a, b, (n - 1) as nat);
        assert(a.subrange(64 * (n - 1), 64 * n as int) =~= b.subrange(64 * (n - 1), 64 * n as int)) by {
            assert forall|i: int| 64 * (n - 1) <= i < 64 * n implies a[i] == b[i] by {
                assert(b.take(a.len() as int)[i] == b[i]);
            }
        }
    }
}

impl Sha256 {
    /// The stored value is that of the whole blocks, and the rest is the tail.
    pub closed spec fn wf(&self) -> bool {
        let n = self.msg@.len() / 64;
        &&& self.h@ == hashed(self.msg@, n)
        &&& self.tail@ == self.msg@.skip(64 * n as int)
        &&& self.total == self.msg@.len()
    }

    /// A hash of the empty message.
    pub fn new() -> (r: Self)
        ensures
            r.wf(),
            r@ == Seq::<u8>::empty(),
    {
        let tail: Vec<u8> = Vec::new();
        let r: Sha256 = Sha256 { h: INITIAL, tail, total: 0, msg: Ghost(Seq::empty()) };
        assert(r.tail@ =~= r.msg@.skip(0));
        r
    }

    fn push(&mut self, b: u8)
        requires
            old(self).wf(),
            old(self)@.len() < u64::MAX,
        ensures
            final(self).wf(),
            final(self)@ == old(self)@.push(b),
            final(self).tail@.len() == final(self)@.len() % 64,
    {
        let ghost before = self.msg@;
        let ghost after = before.push(b);
        let ghost n = before.len() / 64;
        self.tail.push(b);
        self.total += 1;
        self.msg = Ghost(after);
        assert(after.take(before.len() as int) =~= before);
        assert(self.tail@ =~= after.skip(64 * n as int));
        proof {
            lemma_hashed_prefix(before, after, n);
        }
        if self.tail.len() == 64 {
            self.h = compress(&self.h, &self.tail);
            assert(self.tail@ =~= after.subrange(64 * n as int, 64 * (n + 1) as int));
            self.tail = Vec::new();
            assert(after.len() == 64 * (n + 1));
            assert(self.tail@ =~= after.skip(64 * (n + 1) as int));
        }
    }

    /// Hash more bytes.
    pub fn update(&mut self, data: &[u8])
        requires
            old(self).wf(),
            old(self)@.len() + data@.len() <= u64::MAX,
        ensures
            final(self).wf(),
            final(self)@ == old(self)@ + data@,
    {
        let mut i: usize = 0;
        assert(old(self)@ + data@.take(0) =~= old(self)@);
        while i < data.len()
            invariant
                i <= data.len(),
                self.wf(),
                old(self)@.len() + data@.len() <= u64::MAX,
                self@ == old(self)@ + data@.take(i as int),
            decreases data.len() - i,
        {
            self.push(data[i]);
            assert((old(self)@ + data@.take(i as int)).push(data@[i as int]) =~= old(self)@ + data@.take(i + 1));
            i += 1;
        }
        assert(data@.take(i as int) =~= data@);
    }

    /// The digest of the message. A message is shorter than 2^61 bytes, so that
    /// its bit length fits its field.
    pub fn finalize(self) -> (r: [u8; DIGEST_LEN])
        requires
            self.wf(),
            self@.len() < 0x2000_0000_0000_0000,
        ensures
            r@ == digest(self@),
    {
        let ghost msg = self@;
        let mut s: Sha256 = self;
        let bits: u64 = 8 * s.total;
        s.push(0x80);
        let ghost zeros: nat = ((119 - msg.len() % 64) % 64) as nat;
        let mut z: Ghost<nat> = Ghost(0);
        assert(msg.push(0x80) + Seq::new(0, |i: int| 0u8) =~= msg.push(0x80));
        while s.tail.len() != 56
            invariant
                s.wf(),
                zeros == (119 - msg.len() % 64) % 64,
                z@ <= zeros,
                msg.len() < 0x2000_0000_0000_0000,
                s@ == msg.push(0x80) + Seq::new(z@, |i: int| 0u8),
                s.tail@.len() == s@.len() % 64,
            decreases zeros - z@,
        {
            s.push(0);
            assert((msg.push(0x80) + Seq::new(z@, |i: int| 0u8)).push(0) =~= msg.push(0x80) + Seq::new(
                z@ + 1,
                |i: int| 0u8,
            ));
            proof {
                z@ = z@ + 1;
            }
        }
        assert(z@ == zeros);
        let ghost body = s@;
        s.push_word((bits / 0x1_0000_0000) as u32);
        s.push_word((bits % 0x1_0000_0000) as u32);
        assert(s@ =~= body + be64(bits));
        assert(s@ =~= padded(msg));
        word_bytes(&s.h)
    }

    fn push_word(&mut self, v: u32)
        requires
            old(self).wf(),
            old(self)@.len() < u64::MAX - 4,
        ensures
            final(self).wf(),
            final(self)@ == old(self)@ + be32(v),
    {
        self.push((v / 0x100_0000) as u8);
        self.push((v / 0x1_0000 % 256) as u8);
        self.push((v / 256 % 256) as u8);
        self.push((v % 256) as u8);
        assert(self@ =~= old(self)@ + be32(v));
    }
}

/// The bytes of the eight words, one word behind the other.
pub open spec fn joined(h: Seq<u32>) -> Seq<u8> {
    be32(h[0]) + be32(h[1]) + be32(h[2]) + be32(h[3]) + be32(h[4]) + be32(h[5]) + be32(h[6]) + be32(h[7])
}

fn word_bytes(h: &[u32; 8]) -> (r: [u8; DIGEST_LEN])
    ensures
        r@ == joined(h@),
{
    let mut r: [u8; DIGEST_LEN] = [0u8; DIGEST_LEN];
    let mut i: usize = 0;
    while i < 8
        invariant
            i <= 8,
            forall|j: int| 0 <= j < i ==> #[trigger] r@.subrange(4 * j, 4 * j + 4) == be32(h@[j]),
        decreases 8 - i,
    {
        let v: u32 = h[i];
        let ghost prev = r@;
        r[4 * i] = (v / 0x100_0000) as u8;
        r[4 * i + 1] = (v / 0x1_0000 % 256) as u8;
        r[4 * i + 2] = (v / 256 % 256) as u8;
        r[4 * i + 3] = (v % 256) as u8;
        assert forall|j: int| 0 <= j < i + 1 implies #[trigger] r@.subrange(4 * j, 4 * j + 4) == be32(h@[j]) by {
            if j < i {
                assert(r@.subrange(4 * j, 4 * j + 4) =~= prev.subrange(4 * j, 4 * j + 4));
            } else {
                assert(r@.subrange(4 * j, 4 * j + 4) =~= be32(v));
            }
        }
        i += 1;
    }
    proof {
        lemma_joined(r@, h@);
    }
    r
}

proof fn lemma_joined(r: Seq<u8>, h: Seq<u32>)
    requires
        r.len() == 32,
        forall|j: int| 0 <= j < 8 ==> #[trigger] r.subrange(4 * j, 4 * j + 4) == be32(h[j]),
    ensures
        r == joined(h),
{
    assert forall|i: int| 0 <= i < 32 implies r[i] == joined(h)[i] by {
        let j = i / 4;
        assert(r.subrange(4 * j, 4 * j + 4)[i % 4] == r[i]);
        assert(joined(h)[i] == be32(h[j])[i % 4]);
    }
    assert(r =~= joined(h));
}

/// The digest of `data`.
pub fn sha256(data: &[u8]) -> (r: [u8; DIGEST_LEN])
    requires
        data@.len() < 0x2000_0000_0000_0000,
    ensures
        r@ == digest(data@),
{
    let mut h: Sha256 = Sha256::new();
    h.update(data);
    assert(h@ =~= data@);
    h.finalize()
}

/// A digest has 32 bytes.
pub proof fn lemma_digest_len(msg: Seq<u8>)
    ensures
        digest(msg).len() == DIGEST_LEN,
{
}

} // verus!
