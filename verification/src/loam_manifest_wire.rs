//! The manifest of a snapshot: the keys it contains, each with the digest of its body.
//!
//! ```text
//! header  ["LMAN"][count:u32][root_len:u16][root]
//! record  [digest:32][key_len:u16][key], count times
//! ```
use crate::bytes;
use crate::loam_body_wire;
use crate::loam_limits;
use vstd::prelude::*;
use vstd::slice::slice_subrange;

verus! {

/// The letters `LMAN`, read as a little-endian integer.
pub const MAGIC: u32 = 0x4E41_4D4C;

pub const DIGEST_LEN: usize = 32;

/// Length of the header before the root.
pub const HEADER: usize = 10;

/// Length of a record before the key.
pub const REC_HEADER: usize = 34;

/// Most entries that the format can describe.
pub const MAX_ENTRIES: u32 = u32::MAX;

#[derive(Debug, Clone, Copy, PartialEq, Eq, Structural)]
pub enum ManifestError {
    /// The output buffer is too small.
    BufferTooSmall { needed: usize, actual: usize },
    /// Not a manifest.
    BadMagic,
    /// The bytes end inside a header or a record.
    Truncated,
    /// A root or key is over its ceiling.
    TooLong { len: usize, max: usize },
    /// More entries than the format can describe.
    TooManyEntries { count: usize, max: u32 },
}

/// The bytes of one record.
pub open spec fn record(key: Seq<u8>, digest: Seq<u8>) -> Seq<u8> {
    digest + bytes::le16(key.len() as u16) + key
}

/// The bytes of records, one behind the other.
pub open spec fn records(refs: Seq<(Seq<u8>, Seq<u8>)>) -> Seq<u8>
    decreases refs.len(),
{
    if refs.len() == 0 {
        Seq::empty()
    } else {
        records(refs.drop_last()) + record(refs.last().0, refs.last().1)
    }
}

/// The bytes of a manifest.
pub open spec fn manifest_frame(root: Seq<u8>, refs: Seq<(Seq<u8>, Seq<u8>)>) -> Seq<u8> {
    bytes::le32(MAGIC) + bytes::le32(refs.len() as u32) + bytes::le16(root.len() as u16) + root + records(refs)
}

/// The entries of a list, as keys and digests.
pub open spec fn entries(refs: Seq<(&[u8], [u8; DIGEST_LEN])>) -> Seq<(Seq<u8>, Seq<u8>)> {
    Seq::new(refs.len(), |i: int| (refs[i].0@, refs[i].1@))
}

/// The first key that is over its ceiling.
pub open spec fn first_long_key(refs: Seq<(Seq<u8>, Seq<u8>)>, from: int) -> Option<int>
    decreases refs.len() - from,
{
    if from < 0 || from >= refs.len() {
        None
    } else if refs[from].0.len() > loam_limits::MAX_PATH {
        Some(from)
    } else {
        first_long_key(refs, from + 1)
    }
}

/// Why a manifest is not written to a buffer with this much room.
pub open spec fn manifest_refusal(room: nat, root: Seq<u8>, refs: Seq<(Seq<u8>, Seq<u8>)>) -> Option<ManifestError> {
    if root.len() > loam_limits::MAX_ROOT {
        Some(ManifestError::TooLong { len: root.len() as usize, max: loam_limits::MAX_ROOT })
    } else if refs.len() > MAX_ENTRIES {
        Some(ManifestError::TooManyEntries { count: refs.len() as usize, max: MAX_ENTRIES })
    } else {
        match first_long_key(refs, 0) {
            Some(i) => Some(ManifestError::TooLong { len: refs[i].0.len() as usize, max: loam_limits::MAX_PATH }),
            None => if room < manifest_frame(root, refs).len() {
                Some(
                    ManifestError::BufferTooSmall {
                        needed: manifest_frame(root, refs).len() as usize,
                        actual: room as usize,
                    },
                )
            } else {
                None
            },
        }
    }
}

proof fn lemma_records_step(refs: Seq<(Seq<u8>, Seq<u8>)>, i: int)
    requires
        0 <= i < refs.len(),
    ensures
        records(refs.take(i + 1)) == records(refs.take(i)) + record(refs[i].0, refs[i].1),
{
    assert(refs.take(i + 1).drop_last() =~= refs.take(i));
}

proof fn lemma_records_prefix(refs: Seq<(Seq<u8>, Seq<u8>)>, n: int)
    requires
        0 <= n <= refs.len(),
    ensures
        records(refs.take(n)).len() <= records(refs).len(),
    decreases refs.len() - n,
{
    if n < refs.len() {
        lemma_records_step(refs, n);
        lemma_records_prefix(refs, n + 1);
    } else {
        assert(refs.take(n) =~= refs);
    }
}

/// The exact encoded length of a manifest.
pub fn encoded_len(root: &[u8], refs: &[(&[u8], [u8; DIGEST_LEN])]) -> (r: usize)
    requires
        manifest_frame(root@, entries(refs@)).len() <= usize::MAX,
    ensures
        r == manifest_frame(root@, entries(refs@)).len(),
{
    let ghost all = entries(refs@);
    let mut n: usize = 10 + root.len();
    let mut i: usize = 0;
    assert(all.take(0) =~= Seq::empty());
    while i < refs.len()
        invariant
            i <= refs.len(),
            all == entries(refs@),
            10 + root@.len() + records(all).len() <= usize::MAX,
            n == 10 + root@.len() + records(all.take(i as int)).len(),
        decreases refs.len() - i,
    {
        proof {
            lemma_records_step(all, i as int);
            lemma_records_prefix(all, i + 1);
        }
        assert(all[i as int].0 == refs@[i as int].0@);
        assert(all[i as int].1 == refs@[i as int].1@);
        n += 34 + refs[i].0.len();
        i += 1;
    }
    assert(all.take(i as int) =~= all);
    n
}

/// Write a manifest to the start of `out`, records in the order given. Returns
/// its length.
pub fn encode(out: &mut [u8], root: &[u8], refs: &[(&[u8], [u8; DIGEST_LEN])]) -> (r: Result<usize, ManifestError>)
    requires
        manifest_frame(root@, entries(refs@)).len() <= usize::MAX,
    ensures
        bytes::encodes(
            r,
            old(out)@,
            final(out)@,
            manifest_refusal(old(out)@.len(), root@, entries(refs@)),
            manifest_frame(root@, entries(refs@)),
        ),
{
    broadcast use bytes::lemma_write_first, bytes::lemma_write_next;

    let ghost all = entries(refs@);
    let ghost before = out@;
    if root.len() > loam_limits::MAX_ROOT {
        return Err(ManifestError::TooLong { len: root.len(), max: loam_limits::MAX_ROOT });
    }
    if refs.len() as u64 > MAX_ENTRIES as u64 {
        return Err(ManifestError::TooManyEntries { count: refs.len(), max: MAX_ENTRIES });
    }
    let mut k: usize = 0;
    while k < refs.len()
        invariant
            k <= refs.len(),
            all == entries(refs@),
            out@ == before,
            root@.len() <= loam_limits::MAX_ROOT,
            refs@.len() <= MAX_ENTRIES,
            before == old(out)@,
            first_long_key(all, 0) == first_long_key(all, k as int),
        decreases refs.len() - k,
    {
        assert(all[k as int].0 == refs@[k as int].0@);
        if refs[k].0.len() > loam_limits::MAX_PATH {
            return Err(ManifestError::TooLong { len: refs[k].0.len(), max: loam_limits::MAX_PATH });
        }
        k += 1;
    }
    let needed: usize = encoded_len(root, refs);
    if out.len() < needed {
        return Err(ManifestError::BufferTooSmall { needed, actual: out.len() });
    }
    bytes::put_u32(out, 0, MAGIC);
    bytes::put_u32(out, 4, refs.len() as u32);
    bytes::put_u16(out, 8, root.len() as u16);
    bytes::put_bytes(out, 10, root);
    let ghost head = bytes::le32(MAGIC) + bytes::le32(refs@.len() as u32) + bytes::le16(root@.len() as u16) + root@;
    let mut o: usize = 10 + root.len();
    let mut i: usize = 0;
    assert(all.take(0) =~= Seq::empty());
    assert(head + records(all.take(0)) =~= head);
    while i < refs.len()
        invariant
            i <= refs.len(),
            all == entries(refs@),
            head.len() == 10 + root@.len(),
            needed == head.len() + records(all).len(),
            needed <= before.len(),
            out@.len() == before.len(),
            o == head.len() + records(all.take(i as int)).len(),
            out@ == bytes::written(before, head + records(all.take(i as int))),
            first_long_key(all, 0) is None,
            root@.len() <= loam_limits::MAX_ROOT,
        decreases refs.len() - i,
    {
        broadcast use bytes::lemma_write_next;

        let ghost done = head + records(all.take(i as int));
        proof {
            lemma_records_step(all, i as int);
            lemma_records_prefix(all, i + 1);
            lemma_keys_short(all, 0, i as int);
        }
        assert(all[i as int].0 == refs@[i as int].0@);
        assert(all[i as int].1 == refs@[i as int].1@);
        let key: &[u8] = refs[i].0;
        bytes::put_bytes(out, o, refs[i].1.as_slice());
        bytes::put_u16(out, o + 32, key.len() as u16);
        bytes::put_bytes(out, o + 34, key);
        assert(done + all[i as int].1 + bytes::le16(key@.len() as u16) + key@ =~= head + records(all.take(i + 1)));
        o += 34 + key.len();
        i += 1;
    }
    assert(all.take(i as int) =~= all);
    Ok(o)
}

proof fn lemma_keys_short(refs: Seq<(Seq<u8>, Seq<u8>)>, from: int, i: int)
    requires
        0 <= from <= i < refs.len(),
        first_long_key(refs, from) is None,
    ensures
        refs[i].0.len() <= loam_limits::MAX_PATH,
    decreases i - from,
{
    if from < i {
        lemma_keys_short(refs, from + 1, i);
    }
}

/// What is made of a header: the root, the declared count, and where the records begin.
pub open spec fn header_parse(s: Seq<u8>) -> Result<(Seq<u8>, u32, int), ManifestError> {
    if s.len() < 10 {
        Err(ManifestError::Truncated)
    } else if bytes::u32_at(s, 0) != MAGIC {
        Err(ManifestError::BadMagic)
    } else {
        let root_len = bytes::u16_at(s, 8);
        if root_len > loam_limits::MAX_ROOT {
            Err(ManifestError::TooLong { len: root_len as usize, max: loam_limits::MAX_ROOT })
        } else if s.len() < 10 + root_len {
            Err(ManifestError::Truncated)
        } else {
            Ok((s.subrange(10, 10 + root_len), bytes::u32_at(s, 4), 10 + root_len))
        }
    }
}

fn split_header(manifest: &[u8]) -> (r: Result<(&[u8], u32, usize), ManifestError>)
    ensures
        match r {
            Ok(d) => header_parse(manifest@) == Ok::<(Seq<u8>, u32, int), ManifestError>((d.0@, d.1, d.2 as int))
                && d.2 <= manifest@.len(),
            Err(e) => header_parse(manifest@) == Err::<(Seq<u8>, u32, int), ManifestError>(e),
        },
{
    if manifest.len() < HEADER {
        return Err(ManifestError::Truncated);
    }
    if bytes::get_u32(manifest, 0) != MAGIC {
        return Err(ManifestError::BadMagic);
    }
    let count: u32 = bytes::get_u32(manifest, 4);
    let root_len: usize = bytes::get_u16(manifest, 8) as usize;
    if root_len > loam_limits::MAX_ROOT {
        return Err(ManifestError::TooLong { len: root_len, max: loam_limits::MAX_ROOT });
    }
    if manifest.len() < 10 + root_len {
        return Err(ManifestError::Truncated);
    }
    Ok((slice_subrange(manifest, 10, 10 + root_len), count, 10 + root_len))
}

/// The root and the declared count, without a look at the records.
pub open spec fn peek_parse(s: Seq<u8>) -> Result<(Seq<u8>, u32), ManifestError> {
    match header_parse(s) {
        Ok((root, count, _)) => Ok((root, count)),
        Err(e) => Err(e),
    }
}

/// The root of a manifest and how many entries it declares.
pub fn peek(manifest: &[u8]) -> (r: Result<(&[u8], u32), ManifestError>)
    ensures
        match r {
            Ok(d) => peek_parse(manifest@) == Ok::<(Seq<u8>, u32), ManifestError>((d.0@, d.1)),
            Err(e) => peek_parse(manifest@) == Err::<(Seq<u8>, u32), ManifestError>(e),
        },
{
    match split_header(manifest) {
        Ok((root, count, _)) => Ok((root, count)),
        Err(e) => Err(e),
    }
}

/// The `count` records from `o` on: the first that is cut short or has too long
/// a key spoils them all.
pub open spec fn records_parse(s: Seq<u8>, o: int, count: nat) -> Result<Seq<(Seq<u8>, Seq<u8>)>, ManifestError>
    decreases count,
{
    if count == 0 {
        Ok(Seq::empty())
    } else if o + 34 > s.len() {
        Err(ManifestError::Truncated)
    } else {
        let key_len = bytes::u16_at(s, o + 32);
        let end = o + 34 + key_len;
        if key_len > loam_limits::MAX_PATH {
            Err(ManifestError::TooLong { len: key_len as usize, max: loam_limits::MAX_PATH })
        } else if end > s.len() {
            Err(ManifestError::Truncated)
        } else {
            match records_parse(s, end, (count - 1) as nat) {
                Ok(rest) => Ok(seq![(s.subrange(o + 34, end), s.subrange(o, o + 32))] + rest),
                Err(e) => Err(e),
            }
        }
    }
}

/// All entries of a manifest, or what is wrong with it.
pub open spec fn manifest_parse(s: Seq<u8>) -> Result<Seq<(Seq<u8>, Seq<u8>)>, ManifestError> {
    match header_parse(s) {
        Ok((_, count, o)) => records_parse(s, o, count as nat),
        Err(e) => Err(e),
    }
}

/// Every key and digest of a manifest, in order. A manifest whose bytes do not
/// support its count is an error, never a shorter list.
pub fn for_each(manifest: &[u8]) -> (r: Result<Vec<(&[u8], [u8; DIGEST_LEN])>, ManifestError>)
    ensures
        match r {
            Ok(v) => manifest_parse(manifest@) == Ok::<Seq<(Seq<u8>, Seq<u8>)>, ManifestError>(entries(v@)),
            Err(e) => manifest_parse(manifest@) == Err::<Seq<(Seq<u8>, Seq<u8>)>, ManifestError>(e),
        },
{
    let (_, count, start) = match split_header(manifest) {
        Ok(h) => h,
        Err(e) => return Err(e),
    };
    let ghost want = records_parse(manifest@, start as int, count as nat);
    let mut out: Vec<(&[u8], [u8; DIGEST_LEN])> = Vec::new();
    let mut o: usize = start;
    let mut left: u32 = count;
    let size: usize = manifest.len();
    proof {
        if let Ok(w) = want {
            assert(entries(out@) + w =~= w);
        }
    }
    while left > 0
        invariant
            o <= size,
            size == manifest@.len(),
            manifest_parse(manifest@) == want,
            match records_parse(manifest@, o as int, left as nat) {
                Ok(rest) => want == Ok::<Seq<(Seq<u8>, Seq<u8>)>, ManifestError>(entries(out@) + rest),
                Err(e) => want == Err::<Seq<(Seq<u8>, Seq<u8>)>, ManifestError>(e),
            },
        decreases left,
    {
        if size - o < 34 {
            return Err(ManifestError::Truncated);
        }
        let key_len: usize = bytes::get_u16(manifest, o + 32) as usize;
        if key_len > loam_limits::MAX_PATH {
            return Err(ManifestError::TooLong { len: key_len, max: loam_limits::MAX_PATH });
        }
        if size - o - 34 < key_len {
            return Err(ManifestError::Truncated);
        }
        let key: &[u8] = slice_subrange(manifest, o + 34, o + 34 + key_len);
        let digest: [u8; DIGEST_LEN] = loam_body_wire::digest_at(manifest, o);
        let ghost prev = entries(out@);
        out.push((key, digest));
        proof {
            assert(entries(out@) =~= prev + seq![(key@, digest@)]);
            if let Ok(rest) = records_parse(manifest@, o + 34 + key_len, (left - 1) as nat) {
                assert(prev + (seq![(key@, digest@)] + rest) =~= entries(out@) + rest);
            }
        }
        o += 34 + key_len;
        left -= 1;
    }
    assert(entries(out@) + Seq::<(Seq<u8>, Seq<u8>)>::empty() =~= entries(out@));
    Ok(out)
}

proof fn lemma_records_first(refs: Seq<(Seq<u8>, Seq<u8>)>)
    requires
        refs.len() > 0,
    ensures
        records(refs) == record(refs[0].0, refs[0].1) + records(refs.drop_first()),
    decreases refs.len(),
{
    if refs.len() == 1 {
        assert(refs.drop_last() =~= Seq::empty());
        assert(refs.drop_first() =~= Seq::empty());
        assert(records(refs) =~= record(refs[0].0, refs[0].1) + records(refs.drop_first()));
    } else {
        lemma_records_first(refs.drop_last());
        assert(refs.drop_last().drop_first() =~= refs.drop_first().drop_last());
        assert(records(refs) =~= record(refs[0].0, refs[0].1) + records(refs.drop_first()));
    }
}

/// Every key fits, and every digest has its length.
pub open spec fn sound(refs: Seq<(Seq<u8>, Seq<u8>)>) -> bool {
    forall|i: int|
        0 <= i < refs.len() ==> (#[trigger] refs[i]).0.len() <= loam_limits::MAX_PATH && refs[i].1.len() == DIGEST_LEN
}

proof fn lemma_records_round_trip(before: Seq<u8>, refs: Seq<(Seq<u8>, Seq<u8>)>, rest: Seq<u8>)
    requires
        sound(refs),
    ensures
        records_parse(before + records(refs) + rest, before.len() as int, refs.len()) == Ok::<
            Seq<(Seq<u8>, Seq<u8>)>,
            ManifestError,
        >(refs),
    decreases refs.len(),
{
    let s = before + records(refs) + rest;
    if refs.len() == 0 {
        assert(refs =~= Seq::empty());
    } else {
        let (key, digest) = refs[0];
        let others = refs.drop_first();
        lemma_records_first(refs);
        let o = before.len() as int;
        assert(s.subrange(o + 32, o + 34) =~= bytes::le16(key.len() as u16));
        bytes::lemma_u16_at(s, o + 32, key.len() as u16);
        assert(s.subrange(o, o + 32) =~= digest);
        assert(s.subrange(o + 34, o + 34 + key.len()) =~= key);
        assert(s =~= (before + record(key, digest)) + records(others) + rest);
        lemma_records_round_trip(before + record(key, digest), others, rest);
        assert(seq![(key, digest)] + others =~= refs);
    }
}

/// Reading a manifest, whatever follows it, gives its root and entries back.
pub proof fn lemma_manifest_round_trip(root: Seq<u8>, refs: Seq<(Seq<u8>, Seq<u8>)>, rest: Seq<u8>)
    requires
        root.len() <= loam_limits::MAX_ROOT,
        refs.len() <= MAX_ENTRIES,
        sound(refs),
    ensures
        peek_parse(manifest_frame(root, refs) + rest) == Ok::<(Seq<u8>, u32), ManifestError>((root, refs.len() as u32)),
        manifest_parse(manifest_frame(root, refs) + rest) == Ok::<Seq<(Seq<u8>, Seq<u8>)>, ManifestError>(refs),
{
    let head = bytes::le32(MAGIC) + bytes::le32(refs.len() as u32) + bytes::le16(root.len() as u16) + root;
    let s = manifest_frame(root, refs) + rest;
    assert(s =~= head + records(refs) + rest);
    assert(s.subrange(0, 4) =~= bytes::le32(MAGIC));
    bytes::lemma_u32_at(s, 0, MAGIC);
    assert(s.subrange(4, 8) =~= bytes::le32(refs.len() as u32));
    bytes::lemma_u32_at(s, 4, refs.len() as u32);
    assert(s.subrange(8, 10) =~= bytes::le16(root.len() as u16));
    bytes::lemma_u16_at(s, 8, root.len() as u16);
    assert(s.subrange(10, (10 + root.len()) as int) =~= root);
    lemma_records_round_trip(head, refs, rest);
}

} // verus!
