//! Erasure coding of a body into `k` data and `m` parity shards.
//!
//! The code is systematic Cauchy Reed-Solomon over the field of 256 elements:
//! the data shards are the body itself, cut into `k` runs and padded with
//! zeros, and each parity shard is a Cauchy combination of them. Any `k` of
//! the `k + m` shards bring the body back.
//!
//! All shards live in one buffer: shard `s` occupies the bytes from
//! `s * shard_len` up to `(s + 1) * shard_len`.
use crate::cauchy;
use crate::gf256;
use crate::gf_matrix;
use vstd::prelude::*;

verus! {

/// The most shards a code may have.
pub const MAX_SHARDS: usize = 16;

#[derive(Debug, Clone, Copy, PartialEq, Eq, Structural)]
pub enum EcError {
    /// No data shard, more than `MAX_SHARDS` shards, or empty shards.
    BadParams,
    /// The shards buffer is shorter than the shards.
    BufferTooSmall { needed: usize, actual: usize },
    /// Fewer than `k` shards are present.
    NotEnoughShards { present: u8, need: u8 },
    /// The body is longer than the data shards.
    BodyTooLarge { len: usize, max: usize },
}

/// Byte `p` of shard `s`.
pub open spec fn at(buf: Seq<u8>, len: int, s: int, p: int) -> u8 {
    buf[s * len + p]
}

/// Byte `q` of the body, which zeros follow.
pub open spec fn body_byte(body: Seq<u8>, q: int) -> u8 {
    if q < body.len() {
        body[q]
    } else {
        0
    }
}

/// What byte `p` of shard `s` holds for `body`.
pub open spec fn code_byte(body: Seq<u8>, len: int, k: int, s: int, p: int) -> u8 {
    gf256::sum(
        k as nat,
        |i: int| gf256::times(cauchy::generator(k, s as u8, i as u8), body_byte(body, i * len + p)),
    )
}

/// The combination of the data shards in `buf` that shard `s` stands for, at byte `p`.
pub open spec fn data_combination(buf: Seq<u8>, len: int, k: int, s: int, p: int) -> u8 {
    gf256::sum(
        k as nat,
        |i: int| gf256::times(cauchy::generator(k, s as u8, i as u8), at(buf, len, i, p)),
    )
}

/// All `total` shards of `body` stand in `buf`.
pub open spec fn holds_shards(buf: Seq<u8>, body: Seq<u8>, len: int, k: int, total: int) -> bool {
    forall|s: int, p: int|
        0 <= s < total && 0 <= p < len ==> #[trigger] at(buf, len, s, p) == code_byte(body, len, k, s, p)
}

/// The shard length for a body of `body_len` bytes: an even split, at least one byte.
pub open spec fn split_len(body_len: int, k: int) -> int {
    if k == 0 {
        0
    } else if body_len == 0 {
        1
    } else {
        (body_len + k - 1) / k
    }
}

/// Parameters that `encode` and `reconstruct` refuse.
pub open spec fn bad_params(k: u8, m: u8, len: int) -> bool {
    k == 0 || k + m > MAX_SHARDS || len == 0
}

/// Bit `s` of the mask says that shard `s` is present.
pub open spec fn present(mask: u32, s: int) -> bool {
    mask & (1u32 << (s as u32)) != 0
}

/// How many of the first `n` shards are present.
pub open spec fn count_present(mask: u32, n: nat) -> nat
    decreases n,
{
    if n == 0 {
        0
    } else {
        count_present(mask, (n - 1) as nat) + (if present(mask, n - 1) { 1nat } else { 0nat })
    }
}

/// Shard `s` is one of the first `k` present shards.
pub open spec fn in_basis(mask: u32, k: int, s: int) -> bool {
    present(mask, s) && count_present(mask, s as nat) < k
}

/// The first `k` present shards among the first `n`, in order.
pub open spec fn basis(mask: u32, k: int, n: nat) -> Seq<u8>
    decreases n,
{
    if n == 0 {
        Seq::empty()
    } else if in_basis(mask, k, n - 1) {
        basis(mask, k, (n - 1) as nat).push((n - 1) as u8)
    } else {
        basis(mask, k, (n - 1) as nat)
    }
}

/// What `reconstruct` does to a buffer: every present shard and everything past
/// the shards stays; the first `k` present shards and every missing shard are
/// the combinations of the data shards that they stand for.
pub open spec fn reconstructed(before: Seq<u8>, after: Seq<u8>, len: int, k: int, m: int, mask: u32) -> bool {
    &&& after.len() == before.len()
    &&& forall|q: int| (k + m) * len <= q < before.len() ==> #[trigger] after[q] == before[q]
    &&& forall|s: int, p: int|
        0 <= s < k + m && 0 <= p < len && present(mask, s) ==> #[trigger] at(after, len, s, p) == at(
            before,
            len,
            s,
            p,
        )
    &&& forall|s: int, p: int|
        0 <= s < k + m && 0 <= p < len && (in_basis(mask, k, s) || !present(mask, s)) ==> #[trigger] at(
            after,
            len,
            s,
            p,
        ) == data_combination(after, len, k, s, p)
}

proof fn lemma_index(len: int, s: int, p: int, total: int)
    by (nonlinear_arith)
    requires
        0 <= p < len,
        0 <= s < total,
    ensures
        0 <= s * len + p < total * len,
        s * len <= s * len + p < (s + 1) * len,
        0 <= s * len,
        (s + 1) * len <= total * len,
        (s + 1) * len == s * len + len,
{
}

proof fn lemma_order(len: int, s: int, t: int)
    by (nonlinear_arith)
    requires
        0 <= len,
        s <= t,
    ensures
        s * len <= t * len,
{
}

/// The bytes of different shards do not overlap.
proof fn lemma_apart(len: int, s: int, p: int, t: int)
    requires
        0 <= p < len,
        s != t,
    ensures
        !(t * len <= s * len + p < (t + 1) * len),
{
    if s < t {
        lemma_order(len, s + 1, t);
        assert((s + 1) * len == s * len + len) by (nonlinear_arith);
    } else {
        lemma_order(len, t + 1, s);
    }
}

/// A data shard is a run of the body.
pub proof fn lemma_code_data(body: Seq<u8>, len: int, k: int, s: int, p: int)
    requires
        0 <= s < k <= MAX_SHARDS,
    ensures
        code_byte(body, len, k, s, p) == body_byte(body, s * len + p),
{
    let f = |i: int| gf256::times(cauchy::generator(k, s as u8, i as u8), body_byte(body, i * len + p));
    assert forall|i: int| 0 <= i < k && i != s implies #[trigger] f(i) == 0 by {
        gf256::lemma_times_unit(body_byte(body, i * len + p));
    }
    gf256::lemma_sum_single(k as nat, s, f);
    gf256::lemma_times_unit(body_byte(body, s * len + p));
}

proof fn lemma_combination_data(buf: Seq<u8>, len: int, k: int, s: int, p: int)
    requires
        0 <= s < k <= MAX_SHARDS,
    ensures
        data_combination(buf, len, k, s, p) == at(buf, len, s, p),
{
    let f = |i: int| gf256::times(cauchy::generator(k, s as u8, i as u8), at(buf, len, i, p));
    assert forall|i: int| 0 <= i < k && i != s implies #[trigger] f(i) == 0 by {
        gf256::lemma_times_unit(at(buf, len, i, p));
    }
    gf256::lemma_sum_single(k as nat, s, f);
    gf256::lemma_times_unit(at(buf, len, s, p));
}

/// Buffers with the same data shards combine alike.
proof fn lemma_combination_same(a: Seq<u8>, b: Seq<u8>, len: int, k: int, s: int, p: int)
    requires
        0 <= k,
        forall|i: int| 0 <= i < k ==> #[trigger] at(a, len, i, p) == at(b, len, i, p),
    ensures
        data_combination(a, len, k, s, p) == data_combination(b, len, k, s, p),
{
    gf256::lemma_sum_same(
        k as nat,
        |i: int| gf256::times(cauchy::generator(k, s as u8, i as u8), at(a, len, i, p)),
        |i: int| gf256::times(cauchy::generator(k, s as u8, i as u8), at(b, len, i, p)),
    );
}

/// The shard length for a body of `body_len` bytes split `k` ways.
pub fn shard_len_for(body_len: usize, k: u8) -> (r: usize)
    ensures
        r == split_len(body_len as int, k as int),
        k != 0 ==> body_len <= k * r,
        r <= body_len || r <= 1,
{
    if k == 0 {
        return 0;
    }
    if body_len == 0 {
        return 1;
    }
    let kk: usize = k as usize;
    let q: usize = body_len / kk;
    let rem: usize = body_len % kk;
    proof {
        vstd::arithmetic::div_mod::lemma_fundamental_div_mod(body_len as int, kk as int);
        let c: int = if rem == 0 { 0 } else { 1 };
        assert((body_len + kk - 1) / kk as int == q + c) by {
            assert(body_len + kk - 1 == (q + c) * kk + (if rem == 0 { kk - 1 } else { rem - 1 })) by (nonlinear_arith)
                requires
                    body_len == kk * q + rem,
                    c == (if rem == 0 { 0int } else { 1int }),
            ;
            vstd::arithmetic::div_mod::lemma_fundamental_div_mod_converse(
                body_len + kk - 1,
                kk as int,
                q + c,
                if rem == 0 { kk - 1 } else { rem - 1 },
            );
        }
        assert(body_len <= k * (q + c)) by (nonlinear_arith)
            requires
                body_len == kk * q + rem,
                rem < kk,
                kk == k,
                c == (if rem == 0 { 0int } else { 1int }),
        ;
        assert(q + c <= body_len) by (nonlinear_arith)
            requires
                body_len == kk * q + rem,
                kk >= 1,
                c == (if rem == 0 { 0int } else { 1int }),
                0 <= q,
                0 <= rem,
        ;
    }
    if rem == 0 {
        q
    } else {
        q + 1
    }
}

fn check_params(k: u8, m: u8, shard_len: usize, shards: &[u8]) -> (r: Result<(), EcError>)
    requires
        !bad_params(k, m, shard_len as int) ==> (k + m) * shard_len <= usize::MAX,
    ensures
        r == if bad_params(k, m, shard_len as int) {
            Err::<(), EcError>(EcError::BadParams)
        } else if shards.len() < (k + m) * shard_len {
            Err(
                EcError::BufferTooSmall {
                    needed: ((k + m) * shard_len) as usize,
                    actual: shards.len(),
                },
            )
        } else {
            Ok(())
        },
{
    if k == 0 || k as usize + m as usize > MAX_SHARDS || shard_len == 0 {
        return Err(EcError::BadParams);
    }
    let needed: usize = (k as usize + m as usize) * shard_len;
    if shards.len() < needed {
        return Err(EcError::BufferTooSmall { needed, actual: shards.len() });
    }
    Ok(())
}

/// The generator entry of shard `s` at data column `i`.
fn coefficient(k: u8, s: u8, i: u8) -> (r: u8)
    requires
        i < k,
    ensures
        r == cauchy::generator(k as int, s, i),
{
    if s < k {
        if s == i {
            1
        } else {
            0
        }
    } else {
        proof {
            gf256::lemma_xor(s, i, 0);
        }
        gf256::gf_inv(s ^ i)
    }
}

/// Write shard `dst` as the combination of the shards `sources` with the given coefficients.
fn fill_combination(shards: &mut [u8], shard_len: usize, dst: u8, sources: &Vec<u8>, coeffs: &Vec<u8>)
    requires
        0 < shard_len,
        (dst + 1) * shard_len <= old(shards)@.len(),
        sources.len() == coeffs.len(),
        forall|r: int|
            0 <= r < sources.len() ==> #[trigger] sources[r] != dst && (sources[r] + 1) * shard_len <= old(shards)@.len(),
    ensures
        final(shards)@.len() == old(shards)@.len(),
        forall|q: int|
            0 <= q < old(shards)@.len() && !(dst * shard_len <= q < (dst + 1) * shard_len) ==> #[trigger] final(shards)@[q] == old(shards)@[q],
        forall|p: int|
            0 <= p < shard_len ==> #[trigger] at(final(shards)@, shard_len as int, dst as int, p) == gf256::sum(
                sources@.len(),
                |r: int| gf256::times(coeffs@[r], at(old(shards)@, shard_len as int, sources@[r] as int, p)),
            ),
{
    let ghost before = shards@;
    let ghost len = shard_len as int;
    let size: usize = shards.len();
    proof {
        lemma_index(len, dst as int, 0, dst + 1);
        assert(dst * shard_len == dst as int * len);
    }
    let base: usize = dst as usize * shard_len;
    let mut p: usize = 0;
    while p < shard_len
        invariant
            before.len() == size,
            p <= shard_len,
            len == shard_len,
            base == dst * shard_len,
            (dst + 1) * shard_len == base + shard_len,
            base + shard_len <= before.len(),
            shards@.len() == before.len(),
            sources.len() == coeffs.len(),
            forall|r: int|
                0 <= r < sources.len() ==> #[trigger] sources[r] != dst && (sources[r] + 1) * shard_len
                    <= before.len(),
            forall|q: int|
                0 <= q < before.len() && !(base <= q < base + p) ==> #[trigger] shards@[q] == before[q],
            forall|j: int|
                0 <= j < p ==> #[trigger] at(shards@, len, dst as int, j) == gf256::sum(
                    sources@.len(),
                    |r: int| gf256::times(coeffs@[r], at(before, len, sources@[r] as int, j)),
                ),
        decreases shard_len - p,
    {
        let mut acc: u8 = 0;
        let mut i: usize = 0;
        let ghost term = |r: int| gf256::times(coeffs@[r], at(before, len, sources@[r] as int, p as int));
        while i < sources.len()
            invariant
                i <= sources.len(),
                before.len() == size,
                len == shard_len,
                p < shard_len,
                base == dst * shard_len,
                base + shard_len <= before.len(),
                shards@.len() == before.len(),
                sources.len() == coeffs.len(),
                forall|r: int|
                    0 <= r < sources.len() ==> #[trigger] sources[r] != dst && (sources[r] + 1) * shard_len
                        <= before.len(),
                forall|q: int|
                    0 <= q < before.len() && !(base <= q < base + p) ==> #[trigger] shards@[q] == before[q],
                term == (|r: int| gf256::times(coeffs@[r], at(before, len, sources@[r] as int, p as int))),
                acc == gf256::sum(i as nat, term),
            decreases sources.len() - i,
        {
            let s: u8 = sources[i];
            proof {
                lemma_index(len, s as int, p as int, s + 1);
                lemma_apart(len, s as int, p as int, dst as int);
                assert(dst as int * len == dst * shard_len);
                assert((dst + 1) * len == dst * len + len) by (nonlinear_arith);
                assert(s as int * len == s * shard_len);
                assert((s + 1) * len == (s + 1) * shard_len);
            }
            let src: usize = s as usize * shard_len;
            acc = acc ^ gf256::gf_mul(coeffs[i], shards[src + p]);
            i += 1;
        }
        let ghost prev = shards@;
        shards[base + p] = acc;
        proof {
            assert(dst as int * len == dst * shard_len);
            assert forall|j: int| 0 <= j < p implies #[trigger] at(shards@, len, dst as int, j) == at(
                prev,
                len,
                dst as int,
                j,
            ) by {
            }
        }
        p += 1;
    }
}

/// The shard numbers from zero up to `k`.
fn data_shards(k: u8) -> (r: Vec<u8>)
    ensures
        r@ == Seq::new(k as nat, |i: int| i as u8),
{
    let mut r: Vec<u8> = Vec::new();
    let mut i: u8 = 0;
    while i < k
        invariant
            i <= k,
            r@ == Seq::new(i as nat, |i: int| i as u8),
        decreases k - i,
    {
        r.push(i);
        i += 1;
        assert(r@ =~= Seq::new(i as nat, |i: int| i as u8));
    }
    r
}

/// The generator row of shard `s`.
fn generator_coeffs(k: u8, s: u8) -> (r: Vec<u8>)
    ensures
        r@ == Seq::new(k as nat, |i: int| cauchy::generator(k as int, s, i as u8)),
{
    let mut r: Vec<u8> = Vec::new();
    let mut i: u8 = 0;
    while i < k
        invariant
            i <= k,
            r@ == Seq::new(i as nat, |i: int| cauchy::generator(k as int, s, i as u8)),
        decreases k - i,
    {
        r.push(coefficient(k, s, i));
        i += 1;
        assert(r@ =~= Seq::new(i as nat, |i: int| cauchy::generator(k as int, s, i as u8)));
    }
    r
}

/// Write shard `s` as the combination of the data shards that it stands for.
fn fill_parity(shards: &mut [u8], shard_len: usize, k: u8, s: u8)
    requires
        0 < k <= s < MAX_SHARDS,
        0 < shard_len,
        (s + 1) * shard_len <= old(shards)@.len(),
    ensures
        final(shards)@.len() == old(shards)@.len(),
        forall|q: int|
            0 <= q < old(shards)@.len() && !(s * shard_len <= q < (s + 1) * shard_len) ==> #[trigger] final(shards)@[q] == old(shards)@[q],
        forall|p: int|
            0 <= p < shard_len ==> #[trigger] at(final(shards)@, shard_len as int, s as int, p)
                == data_combination(old(shards)@, shard_len as int, k as int, s as int, p),
{
    let ghost before = shards@;
    let ghost len = shard_len as int;
    let sources: Vec<u8> = data_shards(k);
    let coeffs: Vec<u8> = generator_coeffs(k, s);
    proof {
        assert forall|r: int| 0 <= r < sources.len() implies #[trigger] sources[r] != s && (sources[r] + 1) * shard_len
            <= before.len() by {
            lemma_order(len, r + 1, s + 1);
        }
    }
    fill_combination(shards, shard_len, s, &sources, &coeffs);
    proof {
        assert forall|p: int| 0 <= p < shard_len implies #[trigger] at(shards@, len, s as int, p) == data_combination(
            before,
            len,
            k as int,
            s as int,
            p,
        ) by {
            gf256::lemma_sum_same(
                k as nat,
                |r: int| gf256::times(coeffs@[r], at(before, len, sources@[r] as int, p)),
                |i: int| gf256::times(cauchy::generator(k as int, s as int as u8, i as u8), at(before, len, i, p)),
            );
        }
    }
}

/// Cut `body` into `k` data shards and compute `m` parity shards, all written
/// to the start of `shards`. Returns the shard length.
///
/// The shard length always covers the body, so `BodyTooLarge` does not occur here.
pub fn encode(body: &[u8], k: u8, m: u8, shards: &mut [u8]) -> (r: Result<usize, EcError>)
    requires
        !bad_params(k, m, split_len(body@.len() as int, k as int)) ==> (k + m) * split_len(
            body@.len() as int,
            k as int,
        ) <= usize::MAX,
    ensures
        ({
            let len = split_len(body@.len() as int, k as int);
            let total = k + m;
            if bad_params(k, m, len) {
                r == Err::<usize, EcError>(EcError::BadParams) && final(shards)@ == old(shards)@
            } else if old(shards)@.len() < total * len {
                &&& r == Err::<usize, EcError>(
                    EcError::BufferTooSmall { needed: (total * len) as usize, actual: old(shards)@.len() as usize },
                )
                &&& final(shards)@ == old(shards)@
            } else {
                &&& r == Ok::<usize, EcError>(len as usize)
                &&& holds_shards(final(shards)@, body@, len, k as int, total)
                &&& final(shards)@.len() == old(shards)@.len()
                &&& final(shards)@.take(body@.len() as int) == body@
                &&& forall|q: int|
                    total * len <= q < old(shards)@.len() ==> #[trigger] final(shards)@[q] == old(shards)@[q]
            }
        }),
{
    let shard_len: usize = shard_len_for(body.len(), k);
    check_params(k, m, shard_len, shards)?;
    let ghost before = shards@;
    let ghost len = shard_len as int;
    let ghost total = k + m;
    proof {
        lemma_order(len, k as int, total);
        assert(k as int * len == k * shard_len);
        assert(total * len == (k + m) * shard_len);
    }
    let data_area: usize = k as usize * shard_len;
    let mut q: usize = 0;
    while q < data_area
        invariant
            q <= data_area <= before.len(),
            shards@.len() == before.len(),
            forall|j: int| 0 <= j < q ==> #[trigger] shards@[j] == body_byte(body@, j),
            forall|j: int| q <= j < before.len() ==> #[trigger] shards@[j] == before[j],
        decreases data_area - q,
    {
        shards[q] = if q < body.len() { body[q] } else { 0 };
        q += 1;
    }
    let ghost data = shards@;
    let mut j: u8 = 0;
    while j < m
        invariant
            j <= m,
            0 < k,
            k + m <= MAX_SHARDS,
            total == k + m,
            0 < shard_len,
            len == shard_len,
            data_area == k * shard_len,
            data_area <= before.len(),
            data.len() == before.len(),
            total * len <= before.len(),
            shards@.len() == before.len(),
            forall|q: int| 0 <= q < data_area ==> #[trigger] data[q] == body_byte(body@, q),
            forall|q: int| data_area <= q < before.len() ==> #[trigger] data[q] == before[q],
            forall|q: int| 0 <= q < data_area ==> #[trigger] shards@[q] == data[q],
            forall|q: int| (k + j) * len <= q < before.len() ==> #[trigger] shards@[q] == before[q],
            forall|s: int, p: int|
                k <= s < k + j && 0 <= p < len ==> #[trigger] at(shards@, len, s, p) == data_combination(
                    data,
                    len,
                    k as int,
                    s,
                    p,
                ),
        decreases m - j,
    {
        let s: u8 = k + j;
        let ghost prev = shards@;
        proof {
            lemma_index(len, s as int, 0, total);
            lemma_order(len, k as int, s as int);
            assert(k as int * len == k * shard_len);
            assert((s + 1) * len == (s + 1) * shard_len);
            assert(s as int * len == s * shard_len);
            lemma_order(len, s + 1, total);
        }
        fill_parity(shards, shard_len, k, s);
        proof {
            assert forall|t: int, p: int| k <= t < k + j + 1 && 0 <= p < len implies #[trigger] at(shards@, len, t, p)
                == data_combination(data, len, k as int, t, p) by {
                lemma_index(len, t, p, total);
                if t == s {
                    assert forall|i: int| 0 <= i < k implies #[trigger] at(prev, len, i, p) == at(data, len, i, p) by {
                        lemma_index(len, i, p, k as int);
                    }
                    lemma_combination_same(prev, data, len, k as int, t, p);
                } else {
                    lemma_apart(len, t, p, s as int);
                    assert(at(shards@, len, t, p) == at(prev, len, t, p));
                }
            }
            assert forall|q: int| 0 <= q < data_area implies #[trigger] shards@[q] == data[q] by {
                assert(prev[q] == data[q]);
            }
            assert forall|q: int| (k + j + 1) * len <= q < before.len() implies #[trigger] shards@[q] == before[q] by {
                lemma_order(len, k + j, k + j + 1);
                assert(prev[q] == before[q]);
            }
        }
        j += 1;
    }
    proof {
        assert forall|s: int, p: int| 0 <= s < total && 0 <= p < len implies #[trigger] at(shards@, len, s, p)
            == code_byte(body@, len, k as int, s, p) by {
            if s < k {
                lemma_index(len, s, p, k as int);
                lemma_code_data(body@, len, k as int, s, p);
            } else {
                assert forall|i: int| 0 <= i < k implies #[trigger] at(data, len, i, p) == body_byte(
                    body@,
                    i * len + p,
                ) by {
                    lemma_index(len, i, p, k as int);
                }
                gf256::lemma_sum_same(
                    k as nat,
                    |i: int| gf256::times(cauchy::generator(k as int, s as u8, i as u8), at(data, len, i, p)),
                    |i: int| gf256::times(cauchy::generator(k as int, s as u8, i as u8), body_byte(body@, i * len + p)),
                );
            }
        }
        assert(shards@.take(body@.len() as int) =~= body@);
    }
    Ok(shard_len)
}

/// Copy the body out of the data shards.
pub fn body_from_shards(shards: &[u8], shard_len: usize, k: u8, body_len: usize, out: &mut [u8]) -> (r: Result<
    (),
    EcError,
>)
    requires
        k * shard_len <= usize::MAX,
    ensures
        if k == 0 || shard_len == 0 {
            r == Err::<(), EcError>(EcError::BadParams) && final(out)@ == old(out)@
        } else if body_len > k * shard_len {
            r == Err::<(), EcError>(EcError::BodyTooLarge { len: body_len, max: (k * shard_len) as usize })
                && final(out)@ == old(out)@
        } else if shards@.len() < k * shard_len || old(out)@.len() < body_len {
            &&& r == Err::<(), EcError>(
                EcError::BufferTooSmall {
                    needed: body_len,
                    actual: if old(out)@.len() < shards@.len() {
                        old(out)@.len() as usize
                    } else {
                        shards@.len() as usize
                    },
                },
            )
            &&& final(out)@ == old(out)@
        } else {
            &&& r == Ok::<(), EcError>(())
            &&& final(out)@ == shards@.take(body_len as int) + old(out)@.skip(body_len as int)
        },
{
    if k == 0 || shard_len == 0 {
        return Err(EcError::BadParams);
    }
    if body_len > k as usize * shard_len {
        return Err(EcError::BodyTooLarge { len: body_len, max: k as usize * shard_len });
    }
    if shards.len() < k as usize * shard_len || out.len() < body_len {
        let actual: usize = if out.len() < shards.len() { out.len() } else { shards.len() };
        return Err(EcError::BufferTooSmall { needed: body_len, actual });
    }
    let ghost before = out@;
    let mut i: usize = 0;
    while i < body_len
        invariant
            i <= body_len <= shards.len(),
            body_len <= before.len(),
            out@.len() == before.len(),
            forall|j: int| 0 <= j < i ==> #[trigger] out@[j] == shards@[j],
            forall|j: int| i <= j < before.len() ==> #[trigger] out@[j] == before[j],
        decreases body_len - i,
    {
        out[i] = shards[i];
        i += 1;
    }
    assert(out@ =~= shards@.take(body_len as int) + before.skip(body_len as int));
    Ok(())
}

fn is_present(mask: u32, s: u8) -> (r: bool)
    requires
        s < 32,
    ensures
        r == present(mask, s as int),
{
    mask & (1u32 << (s as u32)) != 0
}

fn count_shards(mask: u32, total: u8) -> (r: u8)
    requires
        total <= MAX_SHARDS,
    ensures
        r == count_present(mask, total as nat),
        r <= total,
{
    let mut r: u8 = 0;
    let mut s: u8 = 0;
    while s < total
        invariant
            s <= total <= MAX_SHARDS,
            r <= s,
            r == count_present(mask, s as nat),
        decreases total - s,
    {
        if is_present(mask, s) {
            r += 1;
        }
        s += 1;
    }
    r
}

/// The basis holds `k` different shards, or all present ones where there are fewer.
proof fn lemma_basis(mask: u32, k: int, n: nat)
    requires
        0 <= k,
        n <= MAX_SHARDS,
    ensures
        basis(mask, k, n).len() == if count_present(mask, n) < k {
            count_present(mask, n) as int
        } else {
            k
        },
        forall|r: int|
            0 <= r < basis(mask, k, n).len() ==> (#[trigger] basis(mask, k, n)[r]) < n && in_basis(
                mask,
                k,
                basis(mask, k, n)[r] as int,
            ),
        cauchy::distinct(basis(mask, k, n)),
        forall|s: int| 0 <= s < n && #[trigger] in_basis(mask, k, s) ==> basis(mask, k, n).contains(s as u8),
    decreases n,
{
    if n > 0 {
        let prev = basis(mask, k, (n - 1) as nat);
        let b = basis(mask, k, n);
        lemma_basis(mask, k, (n - 1) as nat);
        assert forall|s: int| 0 <= s < n && #[trigger] in_basis(mask, k, s) implies b.contains(s as u8) by {
            if s < n - 1 {
                assert(prev.contains(s as u8));
                let i = prev.index_of(s as u8);
                assert(b[i] == s as u8);
            } else {
                assert(b[b.len() - 1] == s as u8);
            }
        }
    }
}

fn choose_basis(mask: u32, k: u8, total: u8) -> (r: Vec<u8>)
    requires
        total <= MAX_SHARDS,
    ensures
        r@ == basis(mask, k as int, total as nat),
{
    let mut r: Vec<u8> = Vec::new();
    let mut seen: u8 = 0;
    let mut s: u8 = 0;
    while s < total
        invariant
            s <= total <= MAX_SHARDS,
            seen <= s,
            seen == count_present(mask, s as nat),
            r@ == basis(mask, k as int, s as nat),
        decreases total - s,
    {
        if is_present(mask, s) {
            if seen < k {
                r.push(s);
            }
            seen += 1;
        }
        s += 1;
    }
    r
}

/// The matrix whose rows are the generator rows of the shards `chosen`.
fn generator_matrix(k: u8, chosen: &Vec<u8>) -> (mat: Vec<Vec<u8>>)
    ensures
        mat.len() == chosen.len(),
        forall|r: int|
            0 <= r < chosen.len() ==> (#[trigger] mat[r])@ == Seq::new(
                k as nat,
                |i: int| cauchy::generator(k as int, chosen[r], i as u8),
            ),
{
    let mut mat: Vec<Vec<u8>> = Vec::new();
    let mut r: usize = 0;
    while r < chosen.len()
        invariant
            r <= chosen.len(),
            mat.len() == r,
            forall|j: int|
                0 <= j < r ==> (#[trigger] mat[j])@ == Seq::new(
                    k as nat,
                    |i: int| cauchy::generator(k as int, chosen[j], i as u8),
                ),
        decreases chosen.len() - r,
    {
        let row: Vec<u8> = generator_coeffs(k, chosen[r]);
        mat.push(row);
        r += 1;
    }
    mat
}

/// The generator rows of `k` different shards send only zero to zero.
proof fn lemma_basis_independent(k: int, chosen: Seq<u8>, v: Seq<u8>)
    requires
        0 <= k <= MAX_SHARDS,
        chosen.len() == k,
        v.len() == k,
        cauchy::distinct(chosen),
        forall|r: int|
            0 <= r < k ==> gf256::sum(
                k as nat,
                |i: int| gf256::times(cauchy::generator(k, #[trigger] chosen[r], i as u8), v[i]),
            ) == 0,
    ensures
        forall|i: int| 0 <= i < k ==> #[trigger] v[i] == 0,
{
    let ys = Seq::new(k as nat, |i: int| i as u8);
    assert forall|j: int| 0 <= j < chosen.len() && #[trigger] chosen[j] < k implies ys.contains(chosen[j]) by {
        assert(ys[chosen[j] as int] == chosen[j]);
    }
    assert forall|j: int| 0 <= j < chosen.len() implies cauchy::generator_row(k, #[trigger] chosen[j], ys, v) == 0 by {
        gf256::lemma_sum_same(
            k as nat,
            |i: int| gf256::times(cauchy::generator(k, chosen[j], i as u8), v[i]),
            |i: int| gf256::times(cauchy::generator(k, chosen[j], ys[i]), v[i]),
        );
    }
    cauchy::lemma_generator_independent(k, chosen, ys, v);
}

/// Rebuild the missing data shards from the first `k` present shards.
fn recover_data(shards: &mut [u8], shard_len: usize, k: u8, total: u8, mask: u32)
    requires
        0 < k <= total <= MAX_SHARDS,
        0 < shard_len,
        total * shard_len <= old(shards)@.len(),
        count_present(mask, total as nat) >= k,
    ensures
        final(shards)@.len() == old(shards)@.len(),
        forall|q: int|
            total * shard_len <= q < old(shards)@.len() ==> #[trigger] final(shards)@[q] == old(shards)@[q],
        forall|s: int, p: int|
            0 <= s < total && 0 <= p < shard_len && (present(mask, s) || k <= s) ==> #[trigger] at(
                final(shards)@,
                shard_len as int,
                s,
                p,
            ) == at(old(shards)@, shard_len as int, s, p),
        forall|s: int, p: int|
            0 <= s < total && 0 <= p < shard_len && in_basis(mask, k as int, s) ==> #[trigger] at(
                final(shards)@,
                shard_len as int,
                s,
                p,
            ) == data_combination(final(shards)@, shard_len as int, k as int, s, p),
{
    let ghost before = shards@;
    let ghost len = shard_len as int;
    let ghost kk = k as int;
    let ghost n = k as nat;
    let chosen: Vec<u8> = choose_basis(mask, k, total);
    proof {
        lemma_basis(mask, kk, total as nat);
    }
    let mat: Vec<Vec<u8>> = generator_matrix(k, &chosen);
    let ghost m = gf_matrix::rows(mat@);
    assert(gf_matrix::square(n, m));
    let inverted: Option<Vec<Vec<u8>>> = gf_matrix::invert(mat, k as usize);
    proof {
        assert forall|v: Seq<u8>, i: int|
            #![trigger gf_matrix::kernel(n, m, v), v[i]]
            v.len() == n && 0 <= i < n && gf_matrix::kernel(n, m, v) implies v[i] == 0 by {
            assert forall|r: int| 0 <= r < k implies gf256::sum(
                n,
                |i: int| gf256::times(cauchy::generator(kk, #[trigger] chosen@[r], i as u8), v[i]),
            ) == 0 by {
                assert(gf_matrix::dot(n, m[r], v) == 0);
                gf256::lemma_sum_same(
                    n,
                    |i: int| gf256::times(m[r][i], v[i]),
                    |i: int| gf256::times(cauchy::generator(kk, chosen@[r], i as u8), v[i]),
                );
            }
            lemma_basis_independent(kk, chosen@, v);
        }
    }
    match inverted {
        None => {
            assert(false);
        },
        Some(inv) => {
            let ghost g = gf_matrix::rows(inv@);
            let ghost solved = |i: int, p: int|
                gf256::sum(n, |r: int| gf256::times(g[i][r], at(before, len, chosen@[r] as int, p)));
            proof {
                assert forall|r: int| 0 <= r < chosen.len() implies (#[trigger] chosen[r] + 1) * shard_len
                    <= before.len() by {
                    lemma_order(len, chosen[r] + 1, total as int);
                }
            }
            let mut i: u8 = 0;
            while i < k
                invariant
                    i <= k,
                    0 < k <= total <= MAX_SHARDS,
                    0 < shard_len,
                    len == shard_len,
                    kk == k,
                    n == k,
                    shards@.len() == before.len(),
                    total * shard_len <= before.len(),
                    chosen@ == basis(mask, kk, total as nat),
                    chosen.len() == k,
                    g == gf_matrix::rows(inv@),
                    gf_matrix::square(n, g),
                    forall|r: int|
                        0 <= r < chosen.len() ==> (#[trigger] chosen[r] + 1) * shard_len <= before.len(),
                    forall|r: int|
                        0 <= r < chosen.len() ==> (#[trigger] chosen@[r]) < total && in_basis(
                            mask,
                            kk,
                            chosen@[r] as int,
                        ),
                    solved == (|i: int, p: int|
                        gf256::sum(n, |r: int| gf256::times(g[i][r], at(before, len, chosen@[r] as int, p)))),
                    forall|q: int|
                        total * shard_len <= q < before.len() ==> #[trigger] shards@[q] == before[q],
                    forall|s: int, p: int|
                        0 <= s < total && 0 <= p < len && (present(mask, s) || i <= s) ==> #[trigger] at(
                            shards@,
                            len,
                            s,
                            p,
                        ) == at(before, len, s, p),
                    forall|s: int, p: int|
                        0 <= s < i && 0 <= p < len && !present(mask, s) ==> #[trigger] at(shards@, len, s, p)
                            == solved(s, p),
                decreases k - i,
            {
                if !is_present(mask, i) {
                    let ghost prev = shards@;
                    proof {
                        lemma_order(len, i + 1, total as int);
                        assert((i + 1) * len == (i + 1) * shard_len);
                        assert(i as int * len == i * shard_len);
                        assert(g[i as int] == inv[i as int]@);
                        assert forall|r: int| 0 <= r < chosen.len() implies #[trigger] chosen[r] != i && (chosen[r]
                            + 1) * shard_len <= prev.len() by {
                            assert(in_basis(mask, kk, chosen@[r] as int));
                        }
                    }
                    fill_combination(shards, shard_len, i, &chosen, &inv[i as usize]);
                    proof {
                        assert forall|s: int, p: int|
                            0 <= s < total && 0 <= p < len && s != i implies #[trigger] at(shards@, len, s, p) == at(
                            prev,
                            len,
                            s,
                            p,
                        ) by {
                            lemma_apart(len, s, p, i as int);
                            lemma_index(len, s, p, total as int);
                        }
                        assert forall|p: int| 0 <= p < len implies #[trigger] at(shards@, len, i as int, p) == solved(
                            i as int,
                            p,
                        ) by {
                            assert forall|r: int| 0 <= r < n implies at(prev, len, #[trigger] chosen@[r] as int, p)
                                == at(before, len, chosen@[r] as int, p) by {
                                assert(present(mask, chosen@[r] as int));
                            }
                            gf256::lemma_sum_same(
                                n,
                                |r: int|
                                    gf256::times(inv[i as int]@[r], at(prev, len, chosen@[r] as int, p)),
                                |r: int|
                                    gf256::times(g[i as int][r], at(before, len, chosen@[r] as int, p)),
                            );
                        }
                        assert forall|q: int| total * shard_len <= q < before.len() implies #[trigger] shards@[q]
                            == before[q] by {
                            assert(prev[q] == before[q]);
                        }
                        assert forall|s: int, p: int|
                            0 <= s < i + 1 && 0 <= p < len && !present(mask, s) implies #[trigger] at(
                            shards@,
                            len,
                            s,
                            p,
                        ) == solved(s, p) by {
                            if s != i {
                                assert(at(prev, len, s, p) == solved(s, p));
                            }
                        }
                    }
                }
                i += 1;
            }
            proof {
                assert forall|s: int, p: int|
                    0 <= s < total && 0 <= p < shard_len && in_basis(mask, kk, s) implies #[trigger] at(
                    shards@,
                    len,
                    s,
                    p,
                ) == data_combination(shards@, len, kk, s, p) by {
                    let x = Seq::new(n, |r: int| at(before, len, chosen@[r] as int, p));
                    let z = Seq::new(n, |i: int| gf_matrix::dot(n, g[i], x));
                    gf_matrix::lemma_right_inverse(n, g, m, x);
                    assert forall|i: int| 0 <= i < n implies #[trigger] at(shards@, len, i, p) == z[i] by {
                        gf256::lemma_sum_same(
                            n,
                            |r: int| gf256::times(g[i][r], at(before, len, chosen@[r] as int, p)),
                            |r: int| gf256::times(g[i][r], x[r]),
                        );
                        if present(mask, i) {
                            lemma_count_below(mask, i as nat);
                            assert(in_basis(mask, kk, i));
                            let q = chosen@.index_of(i as u8);
                            assert(chosen@.contains(i as u8));
                            assert(chosen@[q] == i as u8);
                            let f = |c: int| gf256::times(m[q][c], z[c]);
                            assert forall|c: int| 0 <= c < n && c != i implies #[trigger] f(c) == 0 by {
                                gf256::lemma_times_unit(z[c]);
                            }
                            gf256::lemma_sum_single(n, i, f);
                            gf256::lemma_times_unit(z[i]);
                            assert(gf_matrix::dot(n, m[q], z) == x[q]);
                        } else {
                            assert(at(shards@, len, i, p) == solved(i, p));
                        }
                    }
                    let q = chosen@.index_of(s as u8);
                    assert(chosen@.contains(s as u8));
                    assert(chosen@[q] == s as u8);
                    assert(gf_matrix::dot(n, m[q], z) == x[q]);
                    gf256::lemma_sum_same(
                        n,
                        |i: int| gf256::times(m[q][i], z[i]),
                        |i: int| gf256::times(cauchy::generator(kk, s as u8, i as u8), at(shards@, len, i, p)),
                    );
                }
            }
        },
    }
}

/// At most `n` of the first `n` shards are present.
proof fn lemma_count_below(mask: u32, n: nat)
    ensures
        count_present(mask, n) <= n,
    decreases n,
{
    if n > 0 {
        lemma_count_below(mask, (n - 1) as nat);
    }
}

/// Rebuild every missing shard in place. Bit `s` of `present_mask` says that the
/// bytes of shard `s` are valid; at least `k` bits must be set.
pub fn reconstruct(shards: &mut [u8], shard_len: usize, k: u8, m: u8, present_mask: u32) -> (r: Result<(), EcError>)
    requires
        !bad_params(k, m, shard_len as int) ==> (k + m) * shard_len <= usize::MAX,
    ensures
        if bad_params(k, m, shard_len as int) {
            r == Err::<(), EcError>(EcError::BadParams) && final(shards)@ == old(shards)@
        } else if old(shards)@.len() < (k + m) * shard_len {
            &&& r == Err::<(), EcError>(
                EcError::BufferTooSmall {
                    needed: ((k + m) * shard_len) as usize,
                    actual: old(shards)@.len() as usize,
                },
            )
            &&& final(shards)@ == old(shards)@
        } else if count_present(present_mask, (k + m) as nat) < k {
            &&& r == Err::<(), EcError>(
                EcError::NotEnoughShards { present: count_present(present_mask, (k + m) as nat) as u8, need: k },
            )
            &&& final(shards)@ == old(shards)@
        } else {
            &&& r == Ok::<(), EcError>(())
            &&& reconstructed(old(shards)@, final(shards)@, shard_len as int, k as int, m as int, present_mask)
        },
{
    check_params(k, m, shard_len, shards)?;
    let total: u8 = k + m;
    let available: u8 = count_shards(present_mask, total);
    if available < k {
        return Err(EcError::NotEnoughShards { present: available, need: k });
    }
    let ghost before = shards@;
    let ghost len = shard_len as int;
    let ghost kk = k as int;
    recover_data(shards, shard_len, k, total, present_mask);
    let ghost data = shards@;
    let mut s: u8 = k;
    while s < total
        invariant
            k <= s <= total,
            0 < k,
            total <= MAX_SHARDS,
            total == k + m,
            0 < shard_len,
            len == shard_len,
            kk == k,
            total * shard_len <= before.len(),
            data.len() == before.len(),
            shards@.len() == before.len(),
            forall|q: int| total * shard_len <= q < before.len() ==> #[trigger] shards@[q] == before[q],
            forall|t: int, p: int|
                0 <= t < total && 0 <= p < len && (t < k || present(present_mask, t) || s <= t) ==> #[trigger] at(
                    shards@,
                    len,
                    t,
                    p,
                ) == at(data, len, t, p),
            forall|t: int, p: int|
                k <= t < s && 0 <= p < len && !present(present_mask, t) ==> #[trigger] at(shards@, len, t, p)
                    == data_combination(data, len, kk, t, p),
        decreases total - s,
    {
        if !is_present(present_mask, s) {
            let ghost prev = shards@;
            proof {
                lemma_order(len, s + 1, total as int);
                assert((s + 1) * len == (s + 1) * shard_len);
                assert(s as int * len == s * shard_len);
            }
            fill_parity(shards, shard_len, k, s);
            proof {
                assert forall|t: int, p: int| 0 <= t < total && 0 <= p < len && t != s implies #[trigger] at(
                    shards@,
                    len,
                    t,
                    p,
                ) == at(prev, len, t, p) by {
                    lemma_apart(len, t, p, s as int);
                    lemma_index(len, t, p, total as int);
                }
                assert forall|p: int| 0 <= p < len implies #[trigger] at(shards@, len, s as int, p)
                    == data_combination(data, len, kk, s as int, p) by {
                    lemma_combination_same(prev, data, len, kk, s as int, p);
                }
                assert forall|q: int| total * shard_len <= q < before.len() implies #[trigger] shards@[q]
                    == before[q] by {
                    assert(prev[q] == before[q]);
                }
                assert forall|t: int, p: int|
                    k <= t < s + 1 && 0 <= p < len && !present(present_mask, t) implies #[trigger] at(shards@, len, t, p)
                    == data_combination(data, len, kk, t, p) by {
                    if t != s {
                        assert(at(prev, len, t, p) == data_combination(data, len, kk, t, p));
                    }
                }
            }
        }
        s += 1;
    }
    proof {
        assert(total * shard_len == (k + m) * len);
        assert forall|t: int, p: int|
            0 <= t < k + m && 0 <= p < len && (in_basis(present_mask, kk, t) || !present(
                present_mask,
                t,
            )) implies #[trigger] at(shards@, len, t, p) == data_combination(shards@, len, kk, t, p) by {
            lemma_combination_same(shards@, data, len, kk, t, p);
            if t < k {
                lemma_combination_data(shards@, len, kk, t, p);
            } else if present(present_mask, t) {
                assert(at(data, len, t, p) == data_combination(data, len, kk, t, p));
            }
        }
    }
    Ok(())
}

/// Any `k` shards of a body bring all shards back: where the present shards hold
/// the body's bytes and at least `k` are present, all shards hold them after
/// `reconstruct`.
pub proof fn lemma_reconstruct_restores(
    before: Seq<u8>,
    after: Seq<u8>,
    body: Seq<u8>,
    len: int,
    k: int,
    m: int,
    mask: u32,
)
    requires
        0 < k,
        0 <= m,
        k + m <= MAX_SHARDS,
        count_present(mask, (k + m) as nat) >= k,
        forall|s: int, p: int|
            0 <= s < k + m && 0 <= p < len && present(mask, s) ==> #[trigger] at(before, len, s, p) == code_byte(
                body,
                len,
                k,
                s,
                p,
            ),
        reconstructed(before, after, len, k, m, mask),
    ensures
        holds_shards(after, body, len, k, k + m),
{
    let n = k as nat;
    let chosen = basis(mask, k, (k + m) as nat);
    lemma_basis(mask, k, (k + m) as nat);
    assert forall|s: int, p: int| 0 <= s < k + m && 0 <= p < len implies #[trigger] at(after, len, s, p) == code_byte(
        body,
        len,
        k,
        s,
        p,
    ) by {
        let v = Seq::new(n, |i: int| at(after, len, i, p) ^ body_byte(body, i * len + p));
        assert forall|r: int| 0 <= r < k implies gf256::sum(
            n,
            |i: int| gf256::times(cauchy::generator(k, #[trigger] chosen[r], i as u8), v[i]),
        ) == 0 by {
            let t = chosen[r] as int;
            assert(in_basis(mask, k, t));
            let found = |i: int| gf256::times(cauchy::generator(k, t as u8, i as u8), at(after, len, i, p));
            let wanted = |i: int|
                gf256::times(cauchy::generator(k, t as u8, i as u8), body_byte(body, i * len + p));
            assert forall|i: int| 0 <= i < n implies #[trigger] gf256::times(
                cauchy::generator(k, chosen[r], i as u8),
                v[i],
            ) == found(i) ^ wanted(i) by {
                gf256::lemma_times_xor_right(
                    cauchy::generator(k, chosen[r], i as u8),
                    at(after, len, i, p),
                    body_byte(body, i * len + p),
                );
            }
            gf256::lemma_sum_same(
                n,
                |i: int| gf256::times(cauchy::generator(k, chosen[r], i as u8), v[i]),
                |i: int| found(i) ^ wanted(i),
            );
            gf256::lemma_sum_xor(n, found, wanted);
            assert(at(after, len, t, p) == data_combination(after, len, k, t, p));
            assert(at(before, len, t, p) == code_byte(body, len, k, t, p));
            gf256::lemma_xor(code_byte(body, len, k, t, p), 0, 0);
        }
        lemma_basis_independent(k, chosen, v);
        assert forall|i: int| 0 <= i < n implies #[trigger] at(after, len, i, p) == body_byte(body, i * len + p) by {
            assert(v[i] == 0);
            gf256::lemma_xor(at(after, len, i, p), body_byte(body, i * len + p), 0);
        }
        if !present(mask, s) {
            gf256::lemma_sum_same(
                n,
                |i: int| gf256::times(cauchy::generator(k, s as u8, i as u8), at(after, len, i, p)),
                |i: int| gf256::times(cauchy::generator(k, s as u8, i as u8), body_byte(body, i * len + p)),
            );
        } else {
            assert(at(before, len, s, p) == code_byte(body, len, k, s, p));
        }
    }
}

/// A buffer that holds the shards of a body starts with the body, so the body
/// comes back out of what `encode` wrote or `reconstruct` restored.
pub proof fn lemma_shards_start_with_body(buf: Seq<u8>, body: Seq<u8>, len: int, k: int, total: int)
    requires
        0 < k <= total <= MAX_SHARDS,
        0 < len,
        body.len() <= k * len <= buf.len(),
        holds_shards(buf, body, len, k, total),
    ensures
        buf.take(body.len() as int) == body,
{
    assert forall|q: int| 0 <= q < body.len() implies #[trigger] buf[q] == body[q] by {
        let s = q / len;
        let p = q % len;
        vstd::arithmetic::div_mod::lemma_fundamental_div_mod(q, len);
        assert(q == s * len + p && 0 <= p < len && 0 <= s) by (nonlinear_arith)
            requires
                q == len * (q / len) + q % len,
                s == q / len,
                p == q % len,
                0 < len,
                0 <= q,
        ;
        assert(s < k) by (nonlinear_arith)
            requires
                s * len <= q < k * len,
                0 < len,
        ;
        assert(at(buf, len, s, p) == code_byte(body, len, k, s, p));
        lemma_code_data(body, len, k, s, p);
    }
    assert(buf.take(body.len() as int) =~= body);
}

} // verus!
