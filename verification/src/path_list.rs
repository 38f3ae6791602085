//! A list of strings on the wire, each behind its 16-bit length.
use crate::bytes;
use vstd::prelude::*;
use vstd::slice::slice_subrange;

verus! {

/// One string behind its length.
pub open spec fn entry(path: Seq<u8>) -> Seq<u8> {
    bytes::le16(path.len() as u16) + path
}

/// The strings of a list, one behind the other.
pub open spec fn entries(paths: Seq<Seq<u8>>) -> Seq<u8>
    decreases paths.len(),
{
    if paths.len() == 0 {
        Seq::empty()
    } else {
        entries(paths.drop_last()) + entry(paths.last())
    }
}

/// The `count` strings that stand from `pos` on, or `None` where `s` ends before them.
pub open spec fn entries_parse(s: Seq<u8>, pos: int, count: nat) -> Option<Seq<Seq<u8>>>
    decreases count,
{
    if count == 0 {
        Some(Seq::empty())
    } else if pos + 2 > s.len() {
        None
    } else {
        let end = pos + 2 + bytes::u16_at(s, pos);
        if end > s.len() {
            None
        } else {
            match entries_parse(s, end, (count - 1) as nat) {
                Some(rest) => Some(seq![s.subrange(pos + 2, end)] + rest),
                None => None,
            }
        }
    }
}

/// The contents of a list of slices.
pub open spec fn contents(v: Seq<&[u8]>) -> Seq<Seq<u8>> {
    Seq::new(v.len(), |i: int| v[i]@)
}

/// The contents of a list of vectors.
pub open spec fn texts(v: Seq<Vec<u8>>) -> Seq<Seq<u8>> {
    Seq::new(v.len(), |i: int| v[i]@)
}

/// The vectors of a list as slices.
pub fn as_slices(v: &Vec<Vec<u8>>) -> (r: Vec<&[u8]>)
    ensures
        contents(r@) == texts(v@),
{
    let mut r: Vec<&[u8]> = Vec::new();
    let mut i: usize = 0;
    while i < v.len()
        invariant
            i <= v.len(),
            r.len() == i,
            forall|j: int| 0 <= j < i ==> (#[trigger] r@[j])@ == v@[j]@,
        decreases v.len() - i,
    {
        r.push(v[i].as_slice());
        i += 1;
    }
    assert(contents(r@) =~= texts(v@));
    r
}

/// Every string has a length that its length field can hold.
pub open spec fn all_short(paths: Seq<Seq<u8>>) -> bool {
    forall|i: int| 0 <= i < paths.len() ==> (#[trigger] paths[i]).len() <= u16::MAX
}

pub proof fn lemma_entries_push(paths: Seq<Seq<u8>>, path: Seq<u8>)
    ensures
        entries(paths.push(path)) == entries(paths) + entry(path),
{
    assert(paths.push(path).drop_last() =~= paths);
}

proof fn lemma_entries_first(paths: Seq<Seq<u8>>)
    requires
        paths.len() > 0,
    ensures
        entries(paths) == entry(paths[0]) + entries(paths.drop_first()),
    decreases paths.len(),
{
    if paths.len() == 1 {
        assert(paths.drop_last() =~= Seq::empty());
        assert(paths.drop_first() =~= Seq::empty());
        assert(entries(paths) =~= entry(paths[0]) + entries(paths.drop_first()));
    } else {
        lemma_entries_first(paths.drop_last());
        assert(paths.drop_last().drop_first() =~= paths.drop_first().drop_last());
        assert(entries(paths) =~= entry(paths[0]) + entries(paths.drop_first()));
    }
}

/// Reading back what was written, wherever it stands and whatever follows.
pub proof fn lemma_entries_round_trip(before: Seq<u8>, paths: Seq<Seq<u8>>, rest: Seq<u8>)
    requires
        all_short(paths),
    ensures
        entries_parse(before + entries(paths) + rest, before.len() as int, paths.len()) == Some(paths),
    decreases paths.len(),
{
    let s = before + entries(paths) + rest;
    if paths.len() == 0 {
        assert(paths =~= Seq::empty());
    } else {
        let first = paths[0];
        let others = paths.drop_first();
        lemma_entries_first(paths);
        let pos = before.len() as int;
        assert(s.subrange(pos, pos + 2) =~= bytes::le16(first.len() as u16));
        bytes::lemma_u16_at(s, pos, first.len() as u16);
        let end = pos + 2 + first.len();
        assert(s.subrange(pos + 2, end) =~= first);
        assert(s =~= (before + entry(first)) + entries(others) + rest);
        lemma_entries_round_trip(before + entry(first), others, rest);
        assert(seq![first] + others =~= paths);
    }
}

/// A prefix of a list takes no more bytes than the list.
pub proof fn lemma_entries_prefix(paths: Seq<Seq<u8>>, n: int)
    requires
        0 <= n <= paths.len(),
    ensures
        entries(paths.take(n)).len() <= entries(paths).len(),
    decreases paths.len() - n,
{
    if n < paths.len() {
        assert(paths.take(n + 1).drop_last() =~= paths.take(n));
        lemma_entries_prefix(paths, n + 1);
    } else {
        assert(paths.take(n) =~= paths);
    }
}

/// The length of a list of at most `n` short strings.
proof fn lemma_entries_len(paths: Seq<Seq<u8>>)
    requires
        all_short(paths),
    ensures
        entries(paths).len() <= paths.len() * 0x1_0001,
    decreases paths.len(),
{
    if paths.len() > 0 {
        lemma_entries_len(paths.drop_last());
        assert(paths[paths.len() - 1].len() <= u16::MAX);
        assert(paths.len() * 0x1_0001 == (paths.len() - 1) * 0x1_0001 + 0x1_0001) by (nonlinear_arith);
    }
}

/// How many bytes the strings of a list take.
pub fn entries_len(paths: &[&[u8]]) -> (r: usize)
    requires
        paths@.len() <= 0x1000,
        all_short(contents(paths@)),
    ensures
        r == entries(contents(paths@)).len(),
        r <= paths@.len() * 0x1_0001,
{
    let ghost all = contents(paths@);
    let mut n: usize = 0;
    let mut i: usize = 0;
    assert(all.take(0) =~= Seq::empty());
    while i < paths.len()
        invariant
            i <= paths.len() <= 0x1000,
            all == contents(paths@),
            all_short(all),
            n == entries(all.take(i as int)).len(),
            n <= i * 0x1_0001,
        decreases paths.len() - i,
    {
        assert(all.take(i + 1) =~= all.take(i as int).push(all[i as int]));
        proof {
            lemma_entries_push(all.take(i as int), all[i as int]);
        }
        assert(all[i as int].len() <= u16::MAX);
        n += 2 + paths[i].len();
        i += 1;
    }
    assert(all.take(i as int) =~= all);
    n
}

/// Write the strings of a list from `at` on.
pub fn put_entries(dst: &mut [u8], at: usize, paths: &[&[u8]])
    requires
        paths@.len() <= 0x1000,
        all_short(contents(paths@)),
        at + entries(contents(paths@)).len() <= old(dst)@.len(),
    ensures
        final(dst)@.len() == old(dst)@.len(),
        final(dst)@ == bytes::splice(old(dst)@, at as int, entries(contents(paths@))),
{
    let ghost all = contents(paths@);
    let ghost before = dst@;
    let size: usize = dst.len();
    let mut pos: usize = at;
    let mut i: usize = 0;
    assert(all.take(0) =~= Seq::empty());
    proof {
        bytes::lemma_splice_nothing(before, at as int);
    }
    while i < paths.len()
        invariant
            i <= paths.len(),
            all == contents(paths@),
            all_short(all),
            size == before.len(),
            dst@.len() == size,
            at + entries(all).len() <= size,
            pos == at + entries(all.take(i as int)).len(),
            dst@ == bytes::splice(before, at as int, entries(all.take(i as int))),
        decreases paths.len() - i,
    {
        assert(all.take(i + 1) =~= all.take(i as int).push(all[i as int]));
        proof {
            lemma_entries_push(all.take(i as int), all[i as int]);
            lemma_entries_prefix(all, i as int);
            lemma_entries_prefix(all, i + 1);
        }
        assert(all[i as int].len() <= u16::MAX);
        let path: &[u8] = paths[i];
        let ghost written = entries(all.take(i as int));
        bytes::put_u16(dst, pos, path.len() as u16);
        bytes::put_bytes(dst, pos + 2, path);
        proof {
            let head = bytes::le16(path.len() as u16);
            bytes::lemma_splice_chain(before, at as int, written, pos as int, head);
            bytes::lemma_splice_chain(before, at as int, written + head, pos + 2, path@);
            assert(written + head + path@ =~= entries(all.take(i + 1)));
        }
        pos += 2 + path.len();
        i += 1;
    }
    assert(all.take(i as int) =~= all);
}

/// The `count` strings from `start` on, or `None` where `src` ends before them.
pub fn get_entries(src: &[u8], start: usize, count: usize) -> (r: Option<Vec<&[u8]>>)
    requires
        start <= src@.len(),
    ensures
        match r {
            Some(v) => entries_parse(src@, start as int, count as nat) == Some(contents(v@)),
            None => entries_parse(src@, start as int, count as nat) is None,
        },
{
    let mut out: Vec<&[u8]> = Vec::new();
    let mut pos: usize = start;
    let mut left: usize = count;
    let ghost want = entries_parse(src@, start as int, count as nat);
    proof {
        if let Some(w) = want {
            assert(contents(out@) + w =~= w);
        }
    }
    while left > 0
        invariant
            pos <= src.len(),
            want == entries_parse(src@, start as int, count as nat),
            match entries_parse(src@, pos as int, left as nat) {
                Some(rest) => want == Some(contents(out@) + rest),
                None => want is None,
            },
        decreases left,
    {
        let size: usize = src.len();
        if size - pos < 2 {
            return None;
        }
        let len: usize = bytes::get_u16(src, pos) as usize;
        if size - pos - 2 < len {
            return None;
        }
        let path: &[u8] = slice_subrange(src, pos + 2, pos + 2 + len);
        let ghost prev = contents(out@);
        out.push(path);
        proof {
            assert(contents(out@) =~= prev + seq![path@]);
            if let Some(rest) = entries_parse(src@, pos + 2 + len, (left - 1) as nat) {
                assert(prev + (seq![path@] + rest) =~= contents(out@) + rest);
            }
        }
        pos += 2 + len;
        left -= 1;
    }
    assert(contents(out@) + Seq::<Seq<u8>>::empty() =~= contents(out@));
    Some(out)
}

} // verus!
