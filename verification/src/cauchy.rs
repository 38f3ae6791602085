//! Linear independence of the rows of a systematic Cauchy generator.
use crate::gf256;
use vstd::prelude::*;

verus! {

/// The row of the Cauchy matrix at `x` applied to `v`, with the columns at `ys`.
pub open spec fn cauchy_row(x: u8, ys: Seq<u8>, v: Seq<u8>) -> u8 {
    gf256::sum(ys.len(), |i: int| gf256::times(gf256::inverse(x ^ ys[i]), v[i]))
}

pub open spec fn distinct(s: Seq<u8>) -> bool {
    forall|i: int, j: int| 0 <= i < j < s.len() ==> s[i] != s[j]
}

/// `(p + q) * (1/p * w)` is `w` plus `q * (1/p * w)`.
proof fn lemma_split_term(p: u8, q: u8, w: u8)
    requires
        p != 0,
    ensures
        gf256::times(p ^ q, gf256::times(gf256::inverse(p), w)) == w ^ gf256::times(gf256::inverse(p), gf256::times(q, w)),
{
    let i = gf256::inverse(p);
    gf256::lemma_inverse(p);
    gf256::lemma_times_xor_left(p, q, gf256::times(i, w));
    gf256::lemma_times_assoc(p, i, w);
    gf256::lemma_times_unit(w);
    gf256::lemma_times_assoc(q, i, w);
    gf256::lemma_times_commutes(q, i);
    gf256::lemma_times_assoc(i, q, w);
}

/// `1/p + 1/q` is `(p + q)` over `p * q`.
proof fn lemma_inverse_sum(p: u8, q: u8)
    requires
        p != 0,
        q != 0,
    ensures
        gf256::inverse(p) ^ gf256::inverse(q) == gf256::times(p ^ q, gf256::times(gf256::inverse(p), gf256::inverse(q))),
{
    let i = gf256::inverse(p);
    let j = gf256::inverse(q);
    gf256::lemma_inverse(p);
    gf256::lemma_inverse(q);
    gf256::lemma_times_xor_left(p, q, gf256::times(i, j));
    gf256::lemma_times_assoc(p, i, j);
    gf256::lemma_times_unit(j);
    gf256::lemma_times_commutes(i, j);
    gf256::lemma_times_assoc(q, j, i);
    gf256::lemma_times_unit(i);
    gf256::lemma_xor(i, j, 0);
}

/// Multiplying a row's equation by `x + y_last` turns it into one without the last column.
proof fn lemma_clear_last(x: u8, ys: Seq<u8>, v: Seq<u8>)
    requires
        0 < ys.len() == v.len(),
        forall|i: int| 0 <= i < ys.len() ==> x != #[trigger] ys[i],
        cauchy_row(x, ys, v) == 0,
    ensures
        ({
            let n = (ys.len() - 1) as nat;
            gf256::sum(n, |i: int| gf256::times(gf256::inverse(x ^ ys[i]), gf256::times(ys[i] ^ ys[n as int], v[i]))) == gf256::sum(
                ys.len(),
                |i: int| v[i],
            )
        }),
{
    let t = ys.len();
    let n = (t - 1) as nat;
    let yt = ys[n as int];
    let term = |i: int| gf256::times(gf256::inverse(x ^ ys[i]), v[i]);
    let rest = |i: int| gf256::times(gf256::inverse(x ^ ys[i]), gf256::times(ys[i] ^ yt, v[i]));
    let plain = |i: int| v[i];
    gf256::lemma_sum_scale(t, x ^ yt, term);
    gf256::lemma_times_unit(x ^ yt);
    assert forall|i: int| 0 <= i < t implies gf256::times(x ^ yt, #[trigger] term(i)) == plain(i) ^ rest(i) by {
        gf256::lemma_xor(x, ys[i], 0);
        lemma_split_term(x ^ ys[i], ys[i] ^ yt, v[i]);
        gf256::lemma_xor(x, yt, ys[i]);
    }
    gf256::lemma_sum_same(t, |i: int| gf256::times(x ^ yt, term(i)), |i: int| plain(i) ^ rest(i));
    gf256::lemma_sum_xor(t, plain, rest);
    assert(rest(n as int) == 0) by {
        gf256::lemma_xor(yt, yt, 0);
        gf256::lemma_times_unit(v[n as int]);
        gf256::lemma_times_unit(gf256::inverse(x ^ yt));
    }
    gf256::lemma_xor(gf256::sum(n, rest), 0, 0);
    gf256::lemma_xor(gf256::sum(t, plain), gf256::sum(t, rest), 0);
}

/// A vector that a square Cauchy matrix sends to zero is zero.
pub proof fn lemma_cauchy_independent(xs: Seq<u8>, ys: Seq<u8>, v: Seq<u8>)
    requires
        xs.len() == ys.len() == v.len(),
        distinct(xs),
        distinct(ys),
        forall|j: int, i: int| 0 <= j < xs.len() && 0 <= i < ys.len() ==> #[trigger] xs[j] != #[trigger] ys[i],
        forall|j: int| 0 <= j < xs.len() ==> cauchy_row(#[trigger] xs[j], ys, v) == 0,
    ensures
        forall|i: int| 0 <= i < v.len() ==> #[trigger] v[i] == 0,
    decreases xs.len(),
{
    if xs.len() > 0 {
        let t = xs.len();
        let n = (t - 1) as nat;
        let xt = xs[n as int];
        let yt = ys[n as int];
        let w = |i: int| gf256::times(ys[i] ^ yt, v[i]);
        let u = Seq::new(n, |i: int| gf256::times(gf256::inverse(xt ^ ys[i]), w(i)));
        let xs1 = xs.drop_last();
        let ys1 = ys.drop_last();
        assert forall|j: int| 0 <= j < n implies cauchy_row(#[trigger] xs1[j], ys1, u) == 0 by {
            let x = xs[j];
            assert(xs1[j] == x);
            lemma_clear_last(x, ys, v);
            lemma_clear_last(xt, ys, v);
            let at_x = |i: int| gf256::times(gf256::inverse(x ^ ys[i]), gf256::times(ys[i] ^ ys[n as int], v[i]));
            let at_t = |i: int| gf256::times(gf256::inverse(xt ^ ys[i]), gf256::times(ys[i] ^ ys[n as int], v[i]));
            let goal = |i: int| gf256::times(gf256::inverse(x ^ ys1[i]), u[i]);
            assert(gf256::sum(n, at_x) == gf256::sum(n, at_t));
            gf256::lemma_sum_xor(n, at_x, at_t);
            gf256::lemma_xor(gf256::sum(n, at_x), 0, 0);
            assert forall|i: int| 0 <= i < n implies #[trigger] at_x(i) ^ at_t(i) == gf256::times(x ^ xt, goal(i)) by {
                let p = x ^ ys[i];
                let q = xt ^ ys[i];
                gf256::lemma_xor(x, ys[i], 0);
                gf256::lemma_xor(xt, ys[i], 0);
                gf256::lemma_times_xor_left(gf256::inverse(p), gf256::inverse(q), w(i));
                lemma_inverse_sum(p, q);
                gf256::lemma_xor(x, xt, ys[i]);
                gf256::lemma_times_assoc(x ^ xt, gf256::times(gf256::inverse(p), gf256::inverse(q)), w(i));
                gf256::lemma_times_assoc(gf256::inverse(p), gf256::inverse(q), w(i));
            }
            gf256::lemma_sum_same(n, |i: int| at_x(i) ^ at_t(i), |i: int| gf256::times(x ^ xt, goal(i)));
            gf256::lemma_sum_scale(n, x ^ xt, goal);
            gf256::lemma_no_zero_divisors(x ^ xt, gf256::sum(n, goal));
            gf256::lemma_xor(x, xt, 0);
        }
        lemma_cauchy_independent(xs1, ys1, u);
        assert forall|i: int| 0 <= i < n implies #[trigger] v[i] == 0 by {
            assert(u[i] == 0);
            gf256::lemma_xor(xt, ys[i], 0);
            gf256::lemma_inverse(xt ^ ys[i]);
            gf256::lemma_no_zero_divisors(gf256::inverse(xt ^ ys[i]), w(i));
            gf256::lemma_xor(ys[i], yt, 0);
            gf256::lemma_no_zero_divisors(ys[i] ^ yt, v[i]);
        }
        let last = |i: int| gf256::times(gf256::inverse(xt ^ ys[i]), v[i]);
        assert forall|i: int| 0 <= i < t && i != n implies #[trigger] last(i) == 0 by {
            gf256::lemma_times_unit(gf256::inverse(xt ^ ys[i]));
        }
        gf256::lemma_sum_single(t, n as int, last);
        assert(cauchy_row(xs[n as int], ys, v) == 0);
        gf256::lemma_xor(xt, yt, 0);
        gf256::lemma_inverse(xt ^ yt);
        gf256::lemma_no_zero_divisors(gf256::inverse(xt ^ yt), v[n as int]);
    }
}

/// Entry of the generator of a code with `k` data shards: the row of shard `s`
/// at the data column `i`. The first `k` rows are the identity; below them
/// stands the Cauchy matrix `1 / (s + i)`.
pub open spec fn generator(k: int, s: u8, i: u8) -> u8 {
    if s < k {
        if s == i {
            1
        } else {
            0
        }
    } else {
        gf256::inverse(s ^ i)
    }
}

/// The generator row of shard `s` applied to `v`, with the columns at `ys`.
pub open spec fn generator_row(k: int, s: u8, ys: Seq<u8>, v: Seq<u8>) -> u8 {
    gf256::sum(ys.len(), |i: int| gf256::times(generator(k, s, ys[i]), v[i]))
}

/// A vector that as many generator rows as it has entries send to zero is zero.
pub proof fn lemma_generator_independent(k: int, rows: Seq<u8>, ys: Seq<u8>, v: Seq<u8>)
    requires
        rows.len() == ys.len() == v.len(),
        distinct(rows),
        distinct(ys),
        forall|i: int| 0 <= i < ys.len() ==> #[trigger] ys[i] < k,
        forall|j: int| 0 <= j < rows.len() && #[trigger] rows[j] < k ==> ys.contains(rows[j]),
        forall|j: int| 0 <= j < rows.len() ==> generator_row(k, #[trigger] rows[j], ys, v) == 0,
    ensures
        forall|i: int| 0 <= i < v.len() ==> #[trigger] v[i] == 0,
    decreases rows.len(),
{
    if forall|j: int| 0 <= j < rows.len() ==> #[trigger] rows[j] >= k {
        assert forall|j: int| 0 <= j < rows.len() implies cauchy_row(#[trigger] rows[j], ys, v) == 0 by {
            gf256::lemma_sum_same(
                ys.len(),
                |i: int| gf256::times(generator(k, rows[j], ys[i]), v[i]),
                |i: int| gf256::times(gf256::inverse(rows[j] ^ ys[i]), v[i]),
            );
        }
        lemma_cauchy_independent(rows, ys, v);
    } else {
        let j0 = choose|j: int| 0 <= j < rows.len() && #[trigger] rows[j] < k;
        let s0 = rows[j0];
        let p = ys.index_of(s0);
        assert(ys.contains(s0));
        assert(0 <= p < ys.len() && ys[p] == s0);
        let picked = |i: int| gf256::times(generator(k, s0, ys[i]), v[i]);
        assert forall|i: int| 0 <= i < ys.len() && i != p implies #[trigger] picked(i) == 0 by {
            if i < p {
                assert(ys[i] != ys[p]);
            } else {
                assert(ys[p] != ys[i]);
            }
            gf256::lemma_times_unit(v[i]);
        }
        gf256::lemma_sum_single(ys.len(), p, picked);
        gf256::lemma_times_unit(v[p]);
        assert(generator_row(k, rows[j0], ys, v) == 0);
        assert(v[p] == 0);
        let rows1 = rows.remove(j0);
        let ys1 = ys.remove(p);
        let v1 = v.remove(p);
        assert(distinct(rows1));
        assert(distinct(ys1));
        assert forall|j: int| 0 <= j < rows1.len() implies generator_row(k, #[trigger] rows1[j], ys1, v1) == 0 by {
            let s = rows1[j];
            let j1 = if j < j0 { j } else { j + 1 };
            assert(rows[j1] == s);
            let f = |i: int| gf256::times(generator(k, s, ys[i]), v[i]);
            gf256::lemma_times_unit(generator(k, s, ys[p]));
            gf256::lemma_sum_skip(ys.len(), p, f);
            gf256::lemma_sum_same(
                ys1.len(),
                |i: int| if i < p { f(i) } else { f(i + 1) },
                |i: int| gf256::times(generator(k, s, ys1[i]), v1[i]),
            );
            assert(generator_row(k, rows[j1], ys, v) == 0);
        }
        assert forall|j: int| 0 <= j < rows1.len() && #[trigger] rows1[j] < k implies ys1.contains(rows1[j]) by {
            let j1 = if j < j0 { j } else { j + 1 };
            assert(rows[j1] == rows1[j]);
            assert(ys.contains(rows[j1]));
            let q = ys.index_of(rows[j1]);
            assert(0 <= q < ys.len() && ys[q] == rows[j1]);
            assert(rows[j1] != rows[j0]);
            let q1 = if q < p { q } else { q - 1 };
            assert(ys1[q1] == rows1[j]);
        }
        assert forall|i: int| 0 <= i < ys1.len() implies #[trigger] ys1[i] < k by {
            assert(ys1[i] == ys[if i < p { i } else { i + 1 }]);
        }
        lemma_generator_independent(k, rows1, ys1, v1);
        assert forall|i: int| 0 <= i < v.len() implies #[trigger] v[i] == 0 by {
            if i < p {
                assert(v1[i] == v[i]);
            } else if i > p {
                assert(v1[i - 1] == v[i]);
            }
        }
    }
}

} // verus!
