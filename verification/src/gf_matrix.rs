//! Square matrices over the field of 256 elements, and their inversion by
//! Gauss-Jordan elimination.
use crate::gf256;
use vstd::prelude::*;

verus! {

/// The inner product of the first `n` entries of `a` and `b`.
pub open spec fn dot(n: nat, a: Seq<u8>, b: Seq<u8>) -> u8 {
    gf256::sum(n, |i: int| gf256::times(a[i], b[i]))
}

/// The entries of a matrix held as a vector of rows.
pub open spec fn rows(m: Seq<Vec<u8>>) -> Seq<Seq<u8>> {
    Seq::new(m.len(), |r: int| m[r]@)
}

/// `m` has `n` rows of `n` entries.
pub open spec fn square(n: nat, m: Seq<Seq<u8>>) -> bool {
    &&& m.len() == n
    &&& forall|r: int| 0 <= r < n ==> (#[trigger] m[r]).len() == n
}

/// `m` sends `v` to zero.
pub open spec fn kernel(n: nat, m: Seq<Seq<u8>>, v: Seq<u8>) -> bool {
    forall|r: int| 0 <= r < n ==> dot(n, #[trigger] m[r], v) == 0
}

/// Whatever `m` sends to zero, `o` sends to zero.
pub open spec fn kernel_within(n: nat, m: Seq<Seq<u8>>, o: Seq<Seq<u8>>) -> bool {
    forall|v: Seq<u8>| v.len() == n && #[trigger] kernel(n, m, v) ==> kernel(n, o, v)
}

/// The row `row` times the matrix `m`, at column `c`.
pub open spec fn row_times(n: nat, row: Seq<u8>, m: Seq<Seq<u8>>, c: int) -> u8 {
    gf256::sum(n, |q: int| gf256::times(row[q], m[q][c]))
}

/// `a` is the product of `l` and `m`.
pub open spec fn is_product(n: nat, a: Seq<Seq<u8>>, l: Seq<Seq<u8>>, m: Seq<Seq<u8>>) -> bool {
    forall|r: int, c: int|
        0 <= r < n && 0 <= c < n ==> #[trigger] a[r][c] == row_times(n, l[r], m, c)
}

/// The identity matrix.
pub open spec fn identity(n: nat) -> Seq<Seq<u8>> {
    Seq::new(n, |r: int| Seq::new(n, |c: int| if r == c { 1u8 } else { 0u8 }))
}

/// A row multiplied by a constant.
pub open spec fn scaled(c: u8, row: Seq<u8>) -> Seq<u8> {
    Seq::new(row.len(), |i: int| gf256::times(c, row[i]))
}

/// A row plus a multiple of another.
pub open spec fn added(a: Seq<u8>, f: u8, b: Seq<u8>) -> Seq<u8> {
    Seq::new(a.len(), |i: int| a[i] ^ gf256::times(f, b[i]))
}

/// `m` with two rows exchanged.
pub open spec fn swapped(m: Seq<Seq<u8>>, i: int, j: int) -> Seq<Seq<u8>> {
    m.update(i, m[j]).update(j, m[i])
}

proof fn lemma_dot_scaled(n: nat, c: u8, a: Seq<u8>, v: Seq<u8>)
    requires
        a.len() == n,
    ensures
        dot(n, scaled(c, a), v) == gf256::times(c, dot(n, a, v)),
{
    let f = |i: int| gf256::times(a[i], v[i]);
    assert forall|i: int| 0 <= i < n implies #[trigger] gf256::times(scaled(c, a)[i], v[i]) == gf256::times(
        c,
        f(i),
    ) by {
        gf256::lemma_times_assoc(c, a[i], v[i]);
    }
    gf256::lemma_sum_same(
        n,
        |i: int| gf256::times(scaled(c, a)[i], v[i]),
        |i: int| gf256::times(c, f(i)),
    );
    gf256::lemma_sum_scale(n, c, f);
}

proof fn lemma_dot_added(n: nat, a: Seq<u8>, f: u8, b: Seq<u8>, v: Seq<u8>)
    requires
        a.len() == n,
        b.len() == n,
    ensures
        dot(n, added(a, f, b), v) == dot(n, a, v) ^ gf256::times(f, dot(n, b, v)),
{
    let p = |i: int| gf256::times(a[i], v[i]);
    let q = |i: int| gf256::times(b[i], v[i]);
    let fq = |i: int| gf256::times(f, q(i));
    assert forall|i: int| 0 <= i < n implies #[trigger] gf256::times(added(a, f, b)[i], v[i]) == p(i) ^ fq(i) by {
        gf256::lemma_times_xor_left(a[i], gf256::times(f, b[i]), v[i]);
        gf256::lemma_times_assoc(f, b[i], v[i]);
    }
    gf256::lemma_sum_same(
        n,
        |i: int| gf256::times(added(a, f, b)[i], v[i]),
        |i: int| p(i) ^ fq(i),
    );
    gf256::lemma_sum_xor(n, p, fq);
    gf256::lemma_sum_scale(n, f, q);
}

spec fn column(n: nat, m: Seq<Seq<u8>>, c: int) -> Seq<u8> {
    Seq::new(n, |q: int| m[q][c])
}

proof fn lemma_row_times_dot(n: nat, row: Seq<u8>, m: Seq<Seq<u8>>, c: int)
    ensures
        row_times(n, row, m, c) == dot(n, row, column(n, m, c)),
{
    gf256::lemma_sum_same(
        n,
        |q: int| gf256::times(row[q], m[q][c]),
        |i: int| gf256::times(row[i], column(n, m, c)[i]),
    );
}

/// Multiplying row `r` of a matrix and of its left factor by the same nonzero constant.
proof fn lemma_scale_step(n: nat, a: Seq<Seq<u8>>, l: Seq<Seq<u8>>, m: Seq<Seq<u8>>, r: int, c: u8)
    requires
        square(n, a),
        square(n, l),
        0 <= r < n,
        c != 0,
    ensures
        is_product(n, a, l, m) ==> is_product(
            n,
            a.update(r, scaled(c, a[r])),
            l.update(r, scaled(c, l[r])),
            m,
        ),
        kernel_within(n, a.update(r, scaled(c, a[r])), a),
{
    let a1 = a.update(r, scaled(c, a[r]));
    let l1 = l.update(r, scaled(c, l[r]));
    if is_product(n, a, l, m) {
        assert forall|i: int, j: int| 0 <= i < n && 0 <= j < n implies #[trigger] a1[i][j] == row_times(
            n,
            l1[i],
            m,
            j,
        ) by {
            assert(a[i][j] == row_times(n, l[i], m, j));
            lemma_row_times_dot(n, l[i], m, j);
            lemma_row_times_dot(n, l1[i], m, j);
            if i == r {
                lemma_dot_scaled(n, c, l[r], column(n, m, j));
            }
        }
    }
    assert forall|v: Seq<u8>| v.len() == n && #[trigger] kernel(n, a1, v) implies kernel(n, a, v) by {
        assert forall|i: int| 0 <= i < n implies dot(n, #[trigger] a[i], v) == 0 by {
            assert(dot(n, a1[i], v) == 0);
            if i == r {
                lemma_dot_scaled(n, c, a[r], v);
                gf256::lemma_no_zero_divisors(c, dot(n, a[r], v));
            }
        }
    }
}

/// Adding a multiple of row `q` to row `r` of a matrix and of its left factor.
proof fn lemma_add_step(n: nat, a: Seq<Seq<u8>>, l: Seq<Seq<u8>>, m: Seq<Seq<u8>>, r: int, f: u8, q: int)
    requires
        square(n, a),
        square(n, l),
        0 <= r < n,
        0 <= q < n,
        q != r,
    ensures
        is_product(n, a, l, m) ==> is_product(
            n,
            a.update(r, added(a[r], f, a[q])),
            l.update(r, added(l[r], f, l[q])),
            m,
        ),
        kernel_within(n, a.update(r, added(a[r], f, a[q])), a),
{
    let a1 = a.update(r, added(a[r], f, a[q]));
    let l1 = l.update(r, added(l[r], f, l[q]));
    if is_product(n, a, l, m) {
        assert forall|i: int, j: int| 0 <= i < n && 0 <= j < n implies #[trigger] a1[i][j] == row_times(
            n,
            l1[i],
            m,
            j,
        ) by {
            assert(a[i][j] == row_times(n, l[i], m, j));
            assert(a[q][j] == row_times(n, l[q], m, j));
            lemma_row_times_dot(n, l[i], m, j);
            lemma_row_times_dot(n, l[q], m, j);
            lemma_row_times_dot(n, l1[i], m, j);
            if i == r {
                lemma_dot_added(n, l[r], f, l[q], column(n, m, j));
            }
        }
    }
    assert forall|v: Seq<u8>| v.len() == n && #[trigger] kernel(n, a1, v) implies kernel(n, a, v) by {
        assert(dot(n, a1[q], v) == 0);
        assert forall|i: int| 0 <= i < n implies dot(n, #[trigger] a[i], v) == 0 by {
            assert(dot(n, a1[i], v) == 0);
            if i == r {
                lemma_dot_added(n, a[r], f, a[q], v);
                gf256::lemma_times_unit(f);
                gf256::lemma_xor(dot(n, a[r], v), 0, 0);
            }
        }
    }
}

/// Exchanging two rows of a matrix and of its left factor.
proof fn lemma_swap_step(n: nat, a: Seq<Seq<u8>>, l: Seq<Seq<u8>>, m: Seq<Seq<u8>>, i: int, j: int)
    requires
        square(n, a),
        square(n, l),
        0 <= i < n,
        0 <= j < n,
    ensures
        is_product(n, a, l, m) ==> is_product(n, swapped(a, i, j), swapped(l, i, j), m),
        kernel_within(n, swapped(a, i, j), a),
        square(n, swapped(a, i, j)),
        square(n, swapped(l, i, j)),
{
    let a1 = swapped(a, i, j);
    assert forall|v: Seq<u8>| v.len() == n && #[trigger] kernel(n, a1, v) implies kernel(n, a, v) by {
        assert(dot(n, a1[i], v) == 0);
        assert(dot(n, a1[j], v) == 0);
        assert forall|r: int| 0 <= r < n implies dot(n, #[trigger] a[r], v) == 0 by {
            assert(dot(n, a1[r], v) == 0);
        }
    }
    if is_product(n, a, l, m) {
        assert forall|r: int, c: int| 0 <= r < n && 0 <= c < n implies #[trigger] a1[r][c] == row_times(
            n,
            swapped(l, i, j)[r],
            m,
            c,
        ) by {
            let r0 = if r == j { i } else if r == i { j } else { r };
            assert(a[r0][c] == row_times(n, l[r0], m, c));
        }
    }
}

proof fn lemma_kernel_chain(n: nat, a: Seq<Seq<u8>>, b: Seq<Seq<u8>>, c: Seq<Seq<u8>>)
    requires
        kernel_within(n, a, b),
        kernel_within(n, b, c),
    ensures
        kernel_within(n, a, c),
{
}

/// The identity sends only zero to zero, and multiplies nothing away.
proof fn lemma_identity(n: nat, m: Seq<Seq<u8>>)
    requires
        square(n, m),
    ensures
        is_product(n, m, identity(n), m),
        forall|v: Seq<u8>, i: int|
            #![trigger kernel(n, identity(n), v), v[i]]
            v.len() == n && kernel(n, identity(n), v) && 0 <= i < n ==> v[i] == 0,
{
    let e = identity(n);
    assert forall|r: int, c: int| 0 <= r < n && 0 <= c < n implies #[trigger] m[r][c] == row_times(n, e[r], m, c) by {
        let f = |q: int| gf256::times(e[r][q], m[q][c]);
        assert forall|q: int| 0 <= q < n && q != r implies #[trigger] f(q) == 0 by {
            gf256::lemma_times_unit(m[q][c]);
        }
        gf256::lemma_sum_single(n, r, f);
        gf256::lemma_times_unit(m[r][c]);
    }
    assert forall|v: Seq<u8>, i: int|
        #![trigger kernel(n, e, v), v[i]]
        v.len() == n && kernel(n, e, v) && 0 <= i < n implies v[i] == 0 by {
        let f = |q: int| gf256::times(e[i][q], v[q]);
        assert forall|q: int| 0 <= q < n && q != i implies #[trigger] f(q) == 0 by {
            gf256::lemma_times_unit(v[q]);
        }
        gf256::lemma_sum_single(n, i, f);
        gf256::lemma_times_unit(v[i]);
        assert(dot(n, e[i], v) == 0);
    }
}

/// A matrix reduced up to column `col`, with nothing left to divide by in that
/// column, sends a nonzero vector to zero.
proof fn lemma_stuck(n: nat, a: Seq<Seq<u8>>, col: int) -> (v: Seq<u8>)
    requires
        square(n, a),
        0 <= col < n,
        forall|r: int, c: int|
            0 <= r < n && 0 <= c < col ==> #[trigger] a[r][c] == (if r == c { 1u8 } else { 0u8 }),
        forall|r: int| col <= r < n ==> #[trigger] a[r][col] == 0,
    ensures
        v.len() == n,
        v[col] == 1,
        kernel(n, a, v),
{
    let v = Seq::new(
        n,
        |i: int|
            if i < col {
                a[i][col]
            } else if i == col {
                1u8
            } else {
                0u8
            },
    );
    assert forall|r: int| 0 <= r < n implies dot(n, #[trigger] a[r], v) == 0 by {
        let f = |i: int| gf256::times(a[r][i], v[i]);
        let at_col = |i: int| if i == col { a[r][col] } else { 0u8 };
        let at_r = |i: int| if i == r && r < col { a[r][col] } else { 0u8 };
        assert forall|i: int| 0 <= i < n implies #[trigger] f(i) == at_col(i) ^ at_r(i) by {
            gf256::lemma_times_unit(v[i]);
            gf256::lemma_times_unit(a[r][i]);
            gf256::lemma_xor(a[r][col], 0, 0);
            gf256::lemma_xor(0, 0, 0);
            if i < col {
                assert(a[r][i] == (if r == i { 1u8 } else { 0u8 }));
            }
        }
        gf256::lemma_sum_same(n, f, |i: int| at_col(i) ^ at_r(i));
        gf256::lemma_sum_xor(n, at_col, at_r);
        gf256::lemma_sum_single(n, col, at_col);
        gf256::lemma_sum_single(n, r, at_r);
        gf256::lemma_xor(a[r][col], 0, 0);
        gf256::lemma_xor(0, 0, 0);
    }
    v
}

fn copy_row(row: &Vec<u8>) -> (r: Vec<u8>)
    ensures
        r@ == row@,
{
    let mut r: Vec<u8> = Vec::new();
    let mut i: usize = 0;
    while i < row.len()
        invariant
            i <= row.len(),
            r@ == row@.take(i as int),
        decreases row.len() - i,
    {
        r.push(row[i]);
        i += 1;
    }
    r
}

fn swap_rows(m: &mut Vec<Vec<u8>>, i: usize, j: usize)
    requires
        i < old(m).len(),
        j < old(m).len(),
    ensures
        rows(final(m)@) == swapped(rows(old(m)@), i as int, j as int),
{
    let x: Vec<u8> = copy_row(&m[i]);
    let y: Vec<u8> = copy_row(&m[j]);
    m[i] = y;
    m[j] = x;
    assert(rows(m@) =~= swapped(rows(old(m)@), i as int, j as int));
}

fn scale_row(c: u8, row: &Vec<u8>) -> (r: Vec<u8>)
    ensures
        r@ == scaled(c, row@),
{
    let mut r: Vec<u8> = Vec::new();
    let mut i: usize = 0;
    while i < row.len()
        invariant
            i <= row.len(),
            r.len() == i,
            forall|j: int| 0 <= j < i ==> #[trigger] r[j] == gf256::times(c, row[j]),
        decreases row.len() - i,
    {
        r.push(gf256::gf_mul(c, row[i]));
        i += 1;
    }
    r
}

fn add_row(a: &Vec<u8>, f: u8, b: &Vec<u8>) -> (r: Vec<u8>)
    requires
        a.len() == b.len(),
    ensures
        r@ == added(a@, f, b@),
{
    let mut r: Vec<u8> = Vec::new();
    let mut i: usize = 0;
    while i < a.len()
        invariant
            i <= a.len(),
            a.len() == b.len(),
            r.len() == i,
            forall|j: int| 0 <= j < i ==> #[trigger] r[j] == a[j] ^ gf256::times(f, b[j]),
        decreases a.len() - i,
    {
        r.push(a[i] ^ gf256::gf_mul(f, b[i]));
        i += 1;
    }
    r
}

fn identity_rows(n: usize) -> (m: Vec<Vec<u8>>)
    ensures
        rows(m@) == identity(n as nat),
{
    let mut m: Vec<Vec<u8>> = Vec::new();
    let mut r: usize = 0;
    while r < n
        invariant
            r <= n,
            m.len() == r,
            forall|i: int| 0 <= i < r ==> (#[trigger] m[i])@ == identity(n as nat)[i],
        decreases n - r,
    {
        let mut row: Vec<u8> = Vec::new();
        let mut c: usize = 0;
        while c < n
            invariant
                c <= n,
                row.len() == c,
                forall|j: int| 0 <= j < c ==> #[trigger] row[j] == (if r == j { 1u8 } else { 0u8 }),
            decreases n - c,
        {
            row.push(if r == c { 1 } else { 0 });
            c += 1;
        }
        assert(row@ =~= identity(n as nat)[r as int]);
        m.push(row);
        r += 1;
    }
    assert(rows(m@) =~= identity(n as nat));
    m
}

/// The inverse of the `n` by `n` matrix `mat`, by Gauss-Jordan elimination.
///
/// `Some` holds a left inverse, which itself sends only zero to zero. `None`
/// means that `mat` is singular: it sends some nonzero vector to zero.
pub fn invert(mat: Vec<Vec<u8>>, n: usize) -> (r: Option<Vec<Vec<u8>>>)
    requires
        square(n as nat, rows(mat@)),
    ensures
        match r {
            Some(inv) => {
                &&& square(n as nat, rows(inv@))
                &&& is_product(n as nat, identity(n as nat), rows(inv@), rows(mat@))
                &&& kernel_within(n as nat, rows(inv@), identity(n as nat))
            },
            None => exists|v: Seq<u8>, i: int|
                #![trigger kernel(n as nat, rows(mat@), v), v[i]]
                v.len() == n && 0 <= i < n && v[i] != 0 && kernel(n as nat, rows(mat@), v),
        },
{
    let ghost orig = rows(mat@);
    let ghost nn = n as nat;
    let mut a: Vec<Vec<u8>> = mat;
    let mut inv: Vec<Vec<u8>> = identity_rows(n);
    proof {
        lemma_identity(nn, orig);
    }
    let mut col: usize = 0;
    while col < n
        invariant
            col <= n,
            nn == n,
            orig == rows(mat@),
            square(nn, rows(a@)),
            square(nn, rows(inv@)),
            is_product(nn, rows(a@), rows(inv@), orig),
            kernel_within(nn, rows(a@), orig),
            kernel_within(nn, rows(inv@), identity(nn)),
            forall|r: int, c: int|
                0 <= r < n && 0 <= c < col ==> #[trigger] rows(a@)[r][c] == (if r == c { 1u8 } else { 0u8 }),
        decreases n - col,
    {
        let mut pivot: usize = col;
        while pivot < n && a[pivot][col] == 0
            invariant
                col <= pivot <= n,
                col < n,
                nn == n,
                square(nn, rows(a@)),
                forall|r: int| 0 <= r < n ==> (#[trigger] a[r])@ == rows(a@)[r],
                forall|r: int| col <= r < pivot ==> #[trigger] rows(a@)[r][col as int] == 0,
            decreases n - pivot,
        {
            pivot += 1;
        }
        if pivot == n {
            proof {
                let v = lemma_stuck(nn, rows(a@), col as int);
                assert(kernel(nn, rows(mat@), v) && v[col as int] != 0);
            }
            return None;
        }
        proof {
            lemma_swap_step(nn, rows(a@), rows(inv@), orig, pivot as int, col as int);
            lemma_swap_step(nn, rows(inv@), rows(inv@), orig, pivot as int, col as int);
        }
        let ghost a0 = rows(a@);
        let ghost inv0 = rows(inv@);
        if pivot != col {
            swap_rows(&mut a, pivot, col);
            swap_rows(&mut inv, pivot, col);
        }
        assert(rows(a@) =~= swapped(a0, pivot as int, col as int));
        assert(rows(inv@) =~= swapped(inv0, pivot as int, col as int));
        proof {
            lemma_kernel_chain(nn, rows(a@), a0, orig);
            lemma_kernel_chain(nn, rows(inv@), inv0, identity(nn));
        }
        let ghost a1 = rows(a@);
        let ghost inv1 = rows(inv@);
        assert(a1[col as int][col as int] != 0);
        assert(a1[col as int] == a[col as int]@);
        let pinv: u8 = gf256::gf_inv(a[col][col]);
        proof {
            gf256::lemma_inverse(a1[col as int][col as int]);
            gf256::lemma_times_unit(pinv);
            lemma_scale_step(nn, a1, inv1, orig, col as int, pinv);
            lemma_scale_step(nn, inv1, inv1, orig, col as int, pinv);
        }
        let arow: Vec<u8> = scale_row(pinv, &a[col]);
        let irow: Vec<u8> = scale_row(pinv, &inv[col]);
        a[col] = arow;
        inv[col] = irow;
        assert(rows(a@) =~= a1.update(col as int, scaled(pinv, a1[col as int])));
        assert(rows(inv@) =~= inv1.update(col as int, scaled(pinv, inv1[col as int])));
        proof {
            lemma_kernel_chain(nn, rows(a@), a1, orig);
            lemma_kernel_chain(nn, rows(inv@), inv1, identity(nn));
            assert forall|r: int, c: int| 0 <= r < n && 0 <= c < col implies #[trigger] rows(a@)[r][c] == (if r == c {
                1u8
            } else {
                0u8
            }) by {
                let r0 = if r == col { pivot as int } else if r == pivot { col as int } else { r };
                assert(a0[r0][c] == (if r0 == c { 1u8 } else { 0u8 }));
            }
        }
        let mut r: usize = 0;
        while r < n
            invariant
                r <= n,
                col < n,
                nn == n,
                orig == rows(mat@),
                square(nn, rows(a@)),
                square(nn, rows(inv@)),
                is_product(nn, rows(a@), rows(inv@), orig),
                kernel_within(nn, rows(a@), orig),
                kernel_within(nn, rows(inv@), identity(nn)),
                forall|r: int, c: int|
                    0 <= r < n && 0 <= c < col ==> #[trigger] rows(a@)[r][c] == (if r == c { 1u8 } else { 0u8 }),
                rows(a@)[col as int][col as int] == 1,
                forall|q: int| 0 <= q < r && q != col ==> #[trigger] rows(a@)[q][col as int] == 0,
            decreases n - r,
        {
            let ghost a2 = rows(a@);
            let ghost inv2 = rows(inv@);
            assert(a2[r as int] == a[r as int]@);
            assert(a2[col as int] == a[col as int]@);
            assert(inv2[r as int] == inv[r as int]@);
            assert(inv2[col as int] == inv[col as int]@);
            if r != col && a[r][col] != 0 {
                let f: u8 = a[r][col];
                proof {
                    lemma_add_step(nn, a2, inv2, orig, r as int, f, col as int);
                    lemma_add_step(nn, inv2, inv2, orig, r as int, f, col as int);
                    gf256::lemma_times_unit(f);
                    gf256::lemma_xor(f, 0, 0);
                }
                let arow: Vec<u8> = add_row(&a[r], f, &a[col]);
                let irow: Vec<u8> = add_row(&inv[r], f, &inv[col]);
                a[r] = arow;
                inv[r] = irow;
                assert(rows(a@) =~= a2.update(r as int, added(a2[r as int], f, a2[col as int])));
                assert(rows(inv@) =~= inv2.update(r as int, added(inv2[r as int], f, inv2[col as int])));
                proof {
                    lemma_kernel_chain(nn, rows(a@), a2, orig);
                    lemma_kernel_chain(nn, rows(inv@), inv2, identity(nn));
                    assert forall|q: int, c: int| 0 <= q < n && 0 <= c < col implies #[trigger] rows(a@)[q][c] == (if q
                        == c {
                        1u8
                    } else {
                        0u8
                    }) by {
                        assert(a2[q][c] == (if q == c { 1u8 } else { 0u8 }));
                        if q == r {
                            assert(a2[col as int][c] == 0);
                            gf256::lemma_xor(a2[q][c], 0, 0);
                        }
                    }
                }
            }
            r += 1;
        }
        proof {
            assert forall|r: int, c: int| 0 <= r < n && 0 <= c < col + 1 implies #[trigger] rows(a@)[r][c] == (if r == c {
                1u8
            } else {
                0u8
            }) by {
            }
        }
        col += 1;
    }
    proof {
        assert(rows(a@) =~= identity(nn)) by {
            assert forall|r: int| 0 <= r < n implies rows(a@)[r] =~= identity(nn)[r] by {
                assert forall|c: int| 0 <= c < n implies rows(a@)[r][c] == identity(nn)[r][c] by {
                    assert(rows(a@)[r][c] == (if r == c { 1u8 } else { 0u8 }));
                }
            }
        }
    }
    Some(inv)
}

/// The matrix `inv` that `invert` gives for `mat` is an inverse from the right too:
/// applying `inv` and then `mat` gives a vector back.
pub proof fn lemma_right_inverse(n: nat, inv: Seq<Seq<u8>>, mat: Seq<Seq<u8>>, x: Seq<u8>)
    requires
        square(n, inv),
        square(n, mat),
        is_product(n, identity(n), inv, mat),
        kernel_within(n, inv, identity(n)),
        x.len() == n,
    ensures
        forall|q: int|
            0 <= q < n ==> dot(n, #[trigger] mat[q], Seq::new(n, |i: int| dot(n, inv[i], x))) == x[q],
{
    let z = Seq::new(n, |i: int| dot(n, inv[i], x));
    let y = Seq::new(n, |q: int| dot(n, mat[q], z) ^ x[q]);
    let e = identity(n);
    assert forall|i: int| 0 <= i < n implies dot(n, #[trigger] inv[i], y) == 0 by {
        let row = inv[i];
        let through = |q: int| gf256::times(row[q], dot(n, mat[q], z));
        let direct = |q: int| gf256::times(row[q], x[q]);
        assert forall|q: int| 0 <= q < n implies #[trigger] gf256::times(row[q], y[q]) == through(q) ^ direct(q) by {
            gf256::lemma_times_xor_right(row[q], dot(n, mat[q], z), x[q]);
        }
        gf256::lemma_sum_same(n, |q: int| gf256::times(row[q], y[q]), |q: int| through(q) ^ direct(q));
        gf256::lemma_sum_xor(n, through, direct);
        assert(dot(n, row, x) == z[i]);
        let cell = |q: int, c: int| gf256::times(row[q], gf256::times(mat[q][c], z[c]));
        assert forall|q: int| 0 <= q < n implies #[trigger] through(q) == gf256::sum(n, |c: int| cell(q, c)) by {
            gf256::lemma_sum_scale(n, row[q], |c: int| gf256::times(mat[q][c], z[c]));
            gf256::lemma_sum_same(
                n,
                |c: int| gf256::times(row[q], (|c: int| gf256::times(mat[q][c], z[c]))(c)),
                |c: int| cell(q, c),
            );
        }
        gf256::lemma_sum_same(n, through, |q: int| gf256::sum(n, |c: int| cell(q, c)));
        gf256::lemma_sum_swap(n, n, cell);
        let by_column = |c: int| gf256::sum(n, |q: int| cell(q, c));
        let unit = |c: int| gf256::times(e[i][c], z[c]);
        assert forall|c: int| 0 <= c < n implies #[trigger] by_column(c) == unit(c) by {
            let entry = |q: int| gf256::times(row[q], mat[q][c]);
            assert(e[i][c] == row_times(n, row, mat, c));
            gf256::lemma_sum_scale(n, z[c], entry);
            assert forall|q: int| 0 <= q < n implies #[trigger] cell(q, c) == gf256::times(z[c], entry(q)) by {
                gf256::lemma_times_assoc(row[q], mat[q][c], z[c]);
                gf256::lemma_times_commutes(z[c], entry(q));
            }
            gf256::lemma_sum_same(n, |q: int| cell(q, c), |q: int| gf256::times(z[c], entry(q)));
            gf256::lemma_times_commutes(z[c], e[i][c]);
        }
        gf256::lemma_sum_same(n, by_column, unit);
        assert forall|c: int| 0 <= c < n && c != i implies #[trigger] unit(c) == 0 by {
            gf256::lemma_times_unit(z[c]);
        }
        gf256::lemma_sum_single(n, i, unit);
        gf256::lemma_times_unit(z[i]);
        gf256::lemma_xor(z[i], 0, 0);
    }
    assert(kernel(n, inv, y));
    lemma_identity(n, mat);
    assert forall|q: int| 0 <= q < n implies dot(n, #[trigger] mat[q], z) == x[q] by {
        assert(y[q] == 0);
        gf256::lemma_xor(dot(n, mat[q], z), x[q], 0);
    }
}

} // verus!
