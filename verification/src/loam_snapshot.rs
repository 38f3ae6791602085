//! Snapshot files: every binding, sorted, so that one can be found by a binary search.
//!
//! ```text
//! header  ["LSNP"][count:u32][generation:u64]
//! record  [ns_hash:u64][path_hash:u64][revision:u64][kind][oid_len][oid:96]
//!         [root_len][root:64][path_len:u16][path:1024]
//! ```
//!
//! The widths of a record are the ceilings of a key, so every binding has a record.
//!
//! Two files alternate. A new generation is written over the older one, and its
//! header last: until then the file is not a snapshot, and the other one stands.
use crate::bytes;
use crate::loam_hash;
use crate::loam_limits;
use vstd::prelude::*;
use vstd::slice::slice_subrange;

verus! {

/// The letters `LSNP`.
pub const SNAP_MAGIC: u32 = 0x504E_534C;

pub const SNAP_HDR: usize = 16;

pub const REC_SIZE: usize = 1213;

pub const MAX_OID: usize = loam_limits::MAX_OBJECT_ID;

pub const MAX_ROOT: usize = loam_limits::MAX_ROOT;

pub const MAX_PATH: usize = loam_limits::MAX_PATH;

/// The kind of a deletion, which no snapshot holds.
pub const KIND_TOMBSTONE: u8 = 0xFE;

/// One binding in a snapshot.
#[derive(Clone, Copy)]
pub struct SnapRecord {
    pub ns_hash: u64,
    pub path_hash: u64,
    pub revision: u64,
    pub kind: u8,
    pub oid_len: u8,
    pub oid: [u8; MAX_OID],
    pub root_len: u8,
    pub root: [u8; MAX_ROOT],
    pub path_len: u16,
    pub path: [u8; MAX_PATH],
}

/// What a record holds.
pub ghost struct Record {
    pub ns_hash: u64,
    pub path_hash: u64,
    pub revision: u64,
    pub kind: u8,
    pub oid_len: u8,
    pub oid: Seq<u8>,
    pub root_len: u8,
    pub root: Seq<u8>,
    pub path_len: u16,
    pub path: Seq<u8>,
}

impl View for SnapRecord {
    type V = Record;

    open spec fn view(&self) -> Record {
        Record {
            ns_hash: self.ns_hash,
            path_hash: self.path_hash,
            revision: self.revision,
            kind: self.kind,
            oid_len: self.oid_len,
            oid: self.oid@,
            root_len: self.root_len,
            root: self.root@,
            path_len: self.path_len,
            path: self.path@,
        }
    }
}

/// The fields have their widths.
pub open spec fn record_wf(r: Record) -> bool {
    r.oid.len() == MAX_OID && r.root.len() == MAX_ROOT && r.path.len() == MAX_PATH
}

/// The lengths in a record do not exceed the widths of its fields.
pub open spec fn lengths_fit(r: Record) -> bool {
    r.oid_len <= MAX_OID && r.root_len <= MAX_ROOT && r.path_len <= MAX_PATH
}

/// The object id in a record.
pub open spec fn record_oid(r: Record) -> Seq<u8> {
    r.oid.take(r.oid_len as int)
}

/// The root in a record.
pub open spec fn record_root(r: Record) -> Seq<u8> {
    r.root.take(r.root_len as int)
}

/// The path in a record.
pub open spec fn record_path(r: Record) -> Seq<u8> {
    r.path.take(r.path_len as int)
}

/// The record is that of a key. The hashes only say where to look for it; the bytes
/// of root and path decide.
pub open spec fn record_is(r: Record, root: Seq<u8>, path: Seq<u8>) -> bool {
    lengths_fit(r) && record_root(r) == root && record_path(r) == path
}

/// A record that was found by the hashes of a key, if it is that of the key.
pub open spec fn record_for(found: Option<Record>, root: Seq<u8>, path: Seq<u8>) -> Option<Record> {
    match found {
        Some(r) => if record_is(r, root, path) {
            Some(r)
        } else {
            None
        },
        None => None,
    }
}

/// The bytes of a record.
pub open spec fn record_frame(r: Record) -> Seq<u8> {
    bytes::le64(r.ns_hash) + bytes::le64(r.path_hash) + bytes::le64(r.revision) + seq![r.kind] + seq![r.oid_len]
        + r.oid + seq![r.root_len] + r.root + bytes::le16(r.path_len) + r.path
}

/// The record at the start of a byte string that is long enough.
pub open spec fn record_parse(s: Seq<u8>) -> Option<Record> {
    if s.len() < REC_SIZE {
        None
    } else {
        Some(
            Record {
                ns_hash: bytes::u64_at(s, 0),
                path_hash: bytes::u64_at(s, 8),
                revision: bytes::u64_at(s, 16),
                kind: s[24],
                oid_len: s[25],
                oid: s.subrange(26, 122),
                root_len: s[122],
                root: s.subrange(123, 187),
                path_len: bytes::u16_at(s, 187),
                path: s.subrange(189, 1213),
            },
        )
    }
}

/// Decoding a record gives it back.
pub proof fn lemma_record_round_trip(r: Record, rest: Seq<u8>)
    requires
        record_wf(r),
    ensures
        record_frame(r).len() == REC_SIZE,
        record_parse(record_frame(r) + rest) == Some(r),
{
    broadcast use bytes::lemma_subrange_left, bytes::lemma_subrange_right;

    let s = record_frame(r) + rest;
    assert(s.subrange(0, 8) == bytes::le64(r.ns_hash));
    assert(s.subrange(8, 16) == bytes::le64(r.path_hash));
    assert(s.subrange(16, 24) == bytes::le64(r.revision));
    bytes::lemma_u64_at(s, 0, r.ns_hash);
    bytes::lemma_u64_at(s, 8, r.path_hash);
    bytes::lemma_u64_at(s, 16, r.revision);
    assert(s.subrange(26, 122) == r.oid);
    assert(s.subrange(123, 187) == r.root);
    assert(s.subrange(187, 189) == bytes::le16(r.path_len));
    bytes::lemma_u16_at(s, 187, r.path_len);
    assert(s.subrange(189, 1213) == r.path);
    assert(s[24] == r.kind && s[25] == r.oid_len && s[122] == r.root_len);
}

impl SnapRecord {
    pub fn empty() -> (r: Self)
        ensures
            r@ == (Record {
                ns_hash: 0,
                path_hash: 0,
                revision: 0,
                kind: 0,
                oid_len: 0,
                oid: Seq::new(MAX_OID as nat, |i: int| 0u8),
                root_len: 0,
                root: Seq::new(MAX_ROOT as nat, |i: int| 0u8),
                path_len: 0,
                path: Seq::new(MAX_PATH as nat, |i: int| 0u8),
            }),
    {
        let r: SnapRecord = SnapRecord {
            ns_hash: 0,
            path_hash: 0,
            revision: 0,
            kind: 0,
            oid_len: 0,
            oid: [0u8; MAX_OID],
            root_len: 0,
            root: [0u8; MAX_ROOT],
            path_len: 0,
            path: [0u8; MAX_PATH],
        };
        assert(r@.oid =~= Seq::new(MAX_OID as nat, |i: int| 0u8));
        assert(r@.root =~= Seq::new(MAX_ROOT as nat, |i: int| 0u8));
        assert(r@.path =~= Seq::new(MAX_PATH as nat, |i: int| 0u8));
        r
    }

    /// Whether the lengths do not exceed the widths of the fields.
    pub fn is_sound(&self) -> (r: bool)
        ensures
            r == lengths_fit(self@),
    {
        self.oid_len as usize <= MAX_OID && self.root_len as usize <= MAX_ROOT && self.path_len as usize <= MAX_PATH
    }

    /// The object id.
    pub fn object_id(&self) -> (r: &[u8])
        requires
            lengths_fit(self@),
        ensures
            r@ == record_oid(self@),
    {
        slice_subrange(self.oid.as_slice(), 0, self.oid_len as usize)
    }

    /// The root.
    pub fn root(&self) -> (r: &[u8])
        requires
            lengths_fit(self@),
        ensures
            r@ == record_root(self@),
    {
        slice_subrange(self.root.as_slice(), 0, self.root_len as usize)
    }

    /// The path.
    pub fn path(&self) -> (r: &[u8])
        requires
            lengths_fit(self@),
        ensures
            r@ == record_path(self@),
    {
        slice_subrange(self.path.as_slice(), 0, self.path_len as usize)
    }

    /// Whether the record is that of a key.
    pub fn is_key(&self, root: &[u8], path: &[u8]) -> (r: bool)
        ensures
            r == record_is(self@, root@, path@),
    {
        self.is_sound() && bytes::bytes_equal(self.root(), root) && bytes::bytes_equal(self.path(), path)
    }

    /// What records are sorted by.
    pub fn key(&self) -> (r: (u64, u64))
        ensures
            r == (self@.ns_hash, self@.path_hash),
    {
        (self.ns_hash, self.path_hash)
    }

    /// Write the record to the start of `out`, if there is room.
    pub fn encode(&self, out: &mut [u8]) -> (r: bool)
        ensures
            r == (old(out)@.len() >= REC_SIZE),
            final(out)@ == if r {
                bytes::written(old(out)@, record_frame(self@))
            } else {
                old(out)@
            },
    {
        broadcast use bytes::lemma_write_first, bytes::lemma_write_next;

        if out.len() < REC_SIZE {
            return false;
        }
        bytes::put_u64(out, 0, self.ns_hash);
        bytes::put_u64(out, 8, self.path_hash);
        bytes::put_u64(out, 16, self.revision);
        bytes::put_u8(out, 24, self.kind);
        bytes::put_u8(out, 25, self.oid_len);
        bytes::put_bytes(out, 26, self.oid.as_slice());
        bytes::put_u8(out, 122, self.root_len);
        bytes::put_bytes(out, 123, self.root.as_slice());
        bytes::put_u16(out, 187, self.path_len);
        bytes::put_bytes(out, 189, self.path.as_slice());
        true
    }

    /// Read the record at the start of `src`.
    pub fn decode(src: &[u8]) -> (r: Option<Self>)
        ensures
            match r {
                Some(rec) => record_parse(src@) == Some(rec@),
                None => record_parse(src@) is None,
            },
    {
        broadcast use bytes::lemma_write_first;

        if src.len() < REC_SIZE {
            return None;
        }
        let mut oid: [u8; MAX_OID] = [0u8; MAX_OID];
        bytes::put_bytes(&mut oid, 0, slice_subrange(src, 26, 122));
        let mut root: [u8; MAX_ROOT] = [0u8; MAX_ROOT];
        bytes::put_bytes(&mut root, 0, slice_subrange(src, 123, 187));
        let mut path: [u8; MAX_PATH] = [0u8; MAX_PATH];
        bytes::put_bytes(&mut path, 0, slice_subrange(src, 189, 1213));
        proof {
            reveal(bytes::written);
            assert(oid@ =~= src@.subrange(26, 122));
            assert(root@ =~= src@.subrange(123, 187));
            assert(path@ =~= src@.subrange(189, 1213));
        }
        Some(
            SnapRecord {
                ns_hash: bytes::get_u64(src, 0),
                path_hash: bytes::get_u64(src, 8),
                revision: bytes::get_u64(src, 16),
                kind: src[24],
                oid_len: src[25],
                oid,
                root_len: src[122],
                root,
                path_len: bytes::get_u16(src, 187),
                path,
            },
        )
    }
}

/// `.snapA` or `.snapB`.
pub open spec fn snap_suffix(which: u8) -> Seq<u8> {
    seq![
        0x2Eu8,
        0x73,
        0x6E,
        0x61,
        0x70,
        if which == 0 {
            0x41
        } else {
            0x42
        },
    ]
}

/// Write the path of one of the two files to the start of `out`. Returns its
/// length, or zero where there is no room.
pub fn snap_path(wal_path: &[u8], which: u8, out: &mut [u8]) -> (r: usize)
    requires
        wal_path@.len() + 6 <= usize::MAX,
    ensures
        if old(out)@.len() < wal_path@.len() + 6 {
            r == 0 && final(out)@ == old(out)@
        } else {
            r == wal_path@.len() + 6 && final(out)@ == bytes::written(
                old(out)@,
                wal_path@ + snap_suffix(which),
            )
        },
{
    broadcast use bytes::lemma_write_first, bytes::lemma_write_next;

    let suffix: [u8; 6] = [
        0x2E,
        0x73,
        0x6E,
        0x61,
        0x70,
        if which == 0 {
            0x41
        } else {
            0x42
        },
    ];
    assert(suffix@ =~= snap_suffix(which));
    let n: usize = wal_path.len() + 6;
    if out.len() < n {
        return 0;
    }
    bytes::put_bytes(out, 0, wal_path);
    bytes::put_bytes(out, wal_path.len(), suffix.as_slice());
    n
}

/// The bytes of a header.
pub open spec fn header_frame(count: u32, generation: u64) -> Seq<u8> {
    bytes::le32(SNAP_MAGIC) + bytes::le32(count) + bytes::le64(generation)
}

/// Record count and generation of a file with this header and size, if it is a
/// whole snapshot.
pub open spec fn header_parse(hdr: Seq<u8>, size: Option<u32>) -> Option<(u32, u64)> {
    if hdr.len() != SNAP_HDR || bytes::u32_at(hdr, 0) != SNAP_MAGIC {
        None
    } else if size is None || size.unwrap() != 16 + 1213 * bytes::u32_at(hdr, 4) {
        None
    } else {
        Some((bytes::u32_at(hdr, 4), bytes::u64_at(hdr, 8)))
    }
}

/// A finished file of the right size is a snapshot, and one of another size is not.
pub proof fn lemma_header_round_trip(count: u32, generation: u64, size: Option<u32>)
    ensures
        header_parse(header_frame(count, generation), size) == if size is Some && size.unwrap() == 16 + 1213 * count {
            Some((count, generation))
        } else {
            None
        },
{
    let s = header_frame(count, generation);
    assert(s.subrange(0, 4) =~= bytes::le32(SNAP_MAGIC));
    assert(s.subrange(4, 8) =~= bytes::le32(count));
    assert(s.subrange(8, 16) =~= bytes::le64(generation));
    bytes::lemma_u32_at(s, 0, SNAP_MAGIC);
    bytes::lemma_u32_at(s, 4, count);
    bytes::lemma_u64_at(s, 8, generation);
}

/// The header that stands in a file while it is written.
pub open spec fn unfinished_header() -> Seq<u8> {
    Seq::new(SNAP_HDR as nat, |i: int| 0u8)
}

/// A file that was not finished is never a snapshot, whatever its size.
pub proof fn lemma_unfinished_is_no_snapshot(size: Option<u32>)
    ensures
        header_parse(unfinished_header(), size) is None,
{
}

/// Whether a file is a whole snapshot: its record count and generation.
pub fn check_header(hdr: &[u8; SNAP_HDR], size: Option<u32>) -> (r: Option<(u32, u64)>)
    ensures
        r == header_parse(hdr@, size),
{
    let s: &[u8] = hdr.as_slice();
    let count: u32 = bytes::get_u32(s, 4);
    let expect: u64 = 16 + 1213 * (count as u64);
    if bytes::get_u32(s, 0) != SNAP_MAGIC {
        return None;
    }
    match size {
        Some(n) => if n as u64 == expect {
            Some((count, bytes::get_u64(s, 8)))
        } else {
            None
        },
        None => None,
    }
}

/// An open, validated snapshot.
#[derive(Debug, Clone, Copy, PartialEq, Eq, Structural)]
pub struct OpenSnapshot {
    pub fd: i32,
    pub count: u32,
    pub generation: u64,
}

impl OpenSnapshot {
    /// Every record lies where a 32-bit offset reaches.
    pub open spec fn wf(&self) -> bool {
        16 + 1213 * self.count <= u32::MAX
    }
}

/// The snapshot behind a descriptor, given what was read of it.
pub fn snap_open_one(fd: i32, hdr: &[u8; SNAP_HDR], size: Option<u32>) -> (r: Option<OpenSnapshot>)
    ensures
        match r {
            Some(s) => s.wf() && s.fd == fd && header_parse(hdr@, size) == Some((s.count, s.generation)),
            None => header_parse(hdr@, size) is None,
        },
{
    match check_header(hdr, size) {
        Some((count, generation)) => Some(OpenSnapshot { fd, count, generation }),
        None => None,
    }
}

/// Which of the snapshots in the two places is used: the newer one, and of two
/// that are equally new the first.
pub open spec fn best_of(a: Option<OpenSnapshot>, b: Option<OpenSnapshot>) -> Option<(OpenSnapshot, u8)> {
    match (a, b) {
        (Some(x), Some(y)) => Some(
            if x.generation >= y.generation {
                (x, 0u8)
            } else {
                (y, 1u8)
            },
        ),
        (Some(x), None) => Some((x, 0u8)),
        (None, Some(y)) => Some((y, 1u8)),
        (None, None) => None,
    }
}

/// Choose between the two places. Returns the snapshot with its place, and the
/// descriptor of the other one, which is to be closed.
pub fn snap_open_best(a: Option<OpenSnapshot>, b: Option<OpenSnapshot>) -> (r: (
    Option<(OpenSnapshot, u8)>,
    Option<i32>,
))
    ensures
        r.0 == best_of(a, b),
        r.1 == match (a, b) {
            (Some(x), Some(y)) => Some(
                if x.generation >= y.generation {
                    y.fd
                } else {
                    x.fd
                },
            ),
            _ => None,
        },
{
    match (a, b) {
        (Some(x), Some(y)) => if x.generation >= y.generation {
            (Some((x, 0)), Some(y.fd))
        } else {
            (Some((y, 1)), Some(x.fd))
        },
        (Some(x), None) => (Some((x, 0)), None),
        (None, Some(y)) => (Some((y, 1)), None),
        (None, None) => (None, None),
    }
}

/// A torn or missing file leaves the other one in use, and of two whole ones no
/// older one is used.
pub proof fn lemma_best_is_newest(a: Option<OpenSnapshot>, b: Option<OpenSnapshot>)
    ensures
        best_of(a, b) is None <==> a is None && b is None,
        best_of(a, b) matches Some(p) ==> {
            &&& p.1 == 0 ==> a == Some(p.0)
            &&& p.1 != 0 ==> b == Some(p.0)
            &&& a is Some ==> a.unwrap().generation <= p.0.generation
            &&& b is Some ==> b.unwrap().generation <= p.0.generation
        },
{
}

/// Where a record stands in the file, if it is there.
pub fn snap_read_at(snap: &OpenSnapshot, idx: u32) -> (r: Option<u32>)
    requires
        snap.wf(),
    ensures
        match r {
            Some(offset) => idx < snap.count && offset == 16 + 1213 * idx,
            None => idx >= snap.count,
        },
{
    if idx >= snap.count {
        return None;
    }
    Some(16 + 1213 * idx)
}

/// The first of two keys comes before the second.
pub open spec fn key_less(a: (u64, u64), b: (u64, u64)) -> bool {
    a.0 < b.0 || (a.0 == b.0 && a.1 < b.1)
}

/// What a probed record tells a search.
#[derive(Debug, Clone, Copy, PartialEq, Eq, Structural)]
pub enum Probe {
    Found,
    Narrowed,
}

/// What the records are sorted by, of a record.
pub open spec fn hashes_of(r: Record) -> (u64, u64) {
    (r.ns_hash, r.path_hash)
}

/// A search in progress. While `lo` is less than `hi` it halves: the first record that
/// does not come before the key's hashes lies from `lo` up to `hi`. Then it walks along
/// the records from `lo` on, as long as they have those hashes: a hash is no identity.
pub ghost struct Search {
    pub root: Seq<u8>,
    pub path: Seq<u8>,
    pub lo: u32,
    pub hi: u32,
    pub count: u32,
}

impl Search {
    /// The search that a snapshot of `count` records is given.
    pub open spec fn begin(count: u32, root: Seq<u8>, path: Seq<u8>) -> Search {
        Search { root, path, lo: 0, hi: count, count }
    }

    /// The hashes of the key.
    pub open spec fn hashes(self) -> (u64, u64) {
        (loam_hash::fnv(self.root), loam_hash::fnv(self.path))
    }

    /// The record to probe next; none, once the search has failed.
    pub open spec fn next(self) -> Option<u32> {
        if self.lo < self.hi {
            Some((self.lo + (self.hi - self.lo) / 2) as u32)
        } else if self.lo < self.count {
            Some(self.lo)
        } else {
            None
        }
    }

    /// The search after the next record turned out to be that of another key.
    pub open spec fn after(self, r: Record) -> Search {
        if self.lo < self.hi {
            let mid = (self.lo + (self.hi - self.lo) / 2) as u32;
            if key_less(hashes_of(r), self.hashes()) {
                Search { lo: (mid + 1) as u32, ..self }
            } else {
                Search { hi: mid, ..self }
            }
        } else if hashes_of(r) == self.hashes() {
            Search { lo: (self.lo + 1) as u32, hi: (self.lo + 1) as u32, ..self }
        } else {
            Search { lo: self.count, hi: self.count, ..self }
        }
    }

    /// Where the search ends up on these records.
    pub open spec fn outcome(self, records: Seq<Record>) -> Option<u32>
        decreases self.hi - self.lo + self.count - self.lo,
        when self.lo <= self.hi <= self.count
    {
        match self.next() {
            None => None,
            Some(at) => if record_is(records[at as int], self.root, self.path) {
                Some(at)
            } else {
                self.after(records[at as int]).outcome(records)
            },
        }
    }
}

/// A search in progress.
#[derive(Debug, Clone)]
pub struct SnapSearch {
    root: Vec<u8>,
    path: Vec<u8>,
    ns_hash: u64,
    path_hash: u64,
    lo: u32,
    hi: u32,
    count: u32,
}

impl View for SnapSearch {
    type V = Search;

    closed spec fn view(&self) -> Search {
        Search { root: self.root@, path: self.path@, lo: self.lo, hi: self.hi, count: self.count }
    }
}

impl SnapSearch {
    /// The hashes are those of the key, and the bounds are in order.
    pub closed spec fn wf(&self) -> bool {
        &&& (self.ns_hash, self.path_hash) == self@.hashes()
        &&& self.lo <= self.hi <= self.count
    }

    /// The bounds are in order, so it is known where the search ends up.
    pub proof fn lemma_wf(&self)
        requires
            self.wf(),
        ensures
            self@.lo <= self@.hi <= self@.count,
    {
    }

    /// Begin a search for the record of a key.
    pub fn start(snap: &OpenSnapshot, root: &[u8], path: &[u8]) -> (r: Self)
        ensures
            r.wf(),
            r@ == Search::begin(snap.count, root@, path@),
    {
        SnapSearch {
            root: bytes::to_vec(root),
            path: bytes::to_vec(path),
            ns_hash: loam_hash::fnv1a64(root),
            path_hash: loam_hash::fnv1a64(path),
            lo: 0,
            hi: snap.count,
            count: snap.count,
        }
    }

    /// The record to read next.
    pub fn probe(&self) -> (r: Option<u32>)
        requires
            self.wf(),
        ensures
            r == self@.next(),
    {
        if self.lo < self.hi {
            Some(self.lo + (self.hi - self.lo) / 2)
        } else if self.lo < self.count {
            Some(self.lo)
        } else {
            None
        }
    }

    /// Take the record that `probe` named.
    pub fn narrow(&mut self, rec: &SnapRecord) -> (r: Probe)
        requires
            old(self).wf(),
            old(self)@.next() is Some,
        ensures
            final(self).wf(),
            r == if record_is(rec@, old(self)@.root, old(self)@.path) {
                Probe::Found
            } else {
                Probe::Narrowed
            },
            final(self)@ == if r == Probe::Found {
                old(self)@
            } else {
                old(self)@.after(rec@)
            },
    {
        if rec.is_key(self.root.as_slice(), self.path.as_slice()) {
            return Probe::Found;
        }
        let key: (u64, u64) = rec.key();
        if self.lo < self.hi {
            let mid: u32 = self.lo + (self.hi - self.lo) / 2;
            if key.0 < self.ns_hash || (key.0 == self.ns_hash && key.1 < self.path_hash) {
                self.lo = mid + 1;
            } else {
                self.hi = mid;
            }
        } else if key.0 == self.ns_hash && key.1 == self.path_hash {
            self.lo = self.lo + 1;
            self.hi = self.lo;
        } else {
            self.lo = self.count;
            self.hi = self.count;
        }
        Probe::Narrowed
    }
}

/// No record comes before one that stands earlier.
pub open spec fn sorted(records: Seq<Record>) -> bool {
    forall|i: int, j: int|
        0 <= i <= j < records.len() ==> !key_less(hashes_of(#[trigger] records[j]), hashes_of(#[trigger] records[i]))
}

/// The records that are those of a key have its hashes.
pub open spec fn hashed(records: Seq<Record>, root: Seq<u8>, path: Seq<u8>) -> bool {
    forall|i: int|
        0 <= i < records.len() && record_is(#[trigger] records[i], root, path) ==> hashes_of(records[i]) == (
            loam_hash::fnv(root),
            loam_hash::fnv(path),
        )
}

/// On sorted records a search finds the record of a key exactly where there is one,
/// whatever other keys have its hashes.
pub proof fn lemma_search_finds(records: Seq<Record>, root: Seq<u8>, path: Seq<u8>)
    requires
        records.len() <= u32::MAX,
        sorted(records),
        hashed(records, root, path),
    ensures
        match Search::begin(records.len() as u32, root, path).outcome(records) {
            Some(i) => i < records.len() && record_is(records[i as int], root, path),
            None => forall|i: int| 0 <= i < records.len() ==> !record_is(#[trigger] records[i], root, path),
        },
{
    lemma_search(Search::begin(records.len() as u32, root, path), records);
}

proof fn lemma_search(search: Search, records: Seq<Record>)
    requires
        sorted(records),
        hashed(records, search.root, search.path),
        search.lo <= search.hi <= search.count == records.len(),
        forall|i: int|
            0 <= i < records.len() && record_is(#[trigger] records[i], search.root, search.path) ==> search.lo <= i,
        forall|i: int|
            search.hi <= i < records.len() ==> !key_less(hashes_of(#[trigger] records[i]), search.hashes()),
    ensures
        match search.outcome(records) {
            Some(i) => i < records.len() && record_is(records[i as int], search.root, search.path),
            None => forall|i: int|
                0 <= i < records.len() ==> !record_is(#[trigger] records[i], search.root, search.path),
        },
    decreases search.hi - search.lo + search.count - search.lo,
{
    if let Some(at) = search.next() {
        let r = records[at as int];
        if !record_is(r, search.root, search.path) {
            let after = search.after(r);
            assert forall|i: int|
                0 <= i < records.len() && record_is(#[trigger] records[i], search.root, search.path) implies after.lo
                <= i by {
                assert(hashes_of(records[i]) == search.hashes());
                if i < at {
                    assert(!key_less(hashes_of(r), hashes_of(records[i])));
                } else {
                    assert(!key_less(hashes_of(records[i]), hashes_of(r)));
                }
            }
            assert forall|i: int| after.hi <= i < records.len() implies !key_less(
                hashes_of(#[trigger] records[i]),
                search.hashes(),
            ) by {
                if search.lo < search.hi && at <= i {
                    assert(!key_less(hashes_of(records[i]), hashes_of(r)));
                }
            }
            lemma_search(after, records);
        }
    }
}

/// A snapshot that is being written.
#[derive(Debug, Clone, Copy, PartialEq, Eq, Structural)]
pub struct SnapWriter {
    pub fd: i32,
    pub count: u32,
    pub generation: u64,
}

/// Begin a snapshot: the writer, and the header that goes to the file first.
pub fn snap_writer_start(fd: i32, generation: u64) -> (r: (SnapWriter, [u8; SNAP_HDR]))
    ensures
        r.0 == (SnapWriter { fd, count: 0, generation }),
        r.1@ == unfinished_header(),
{
    let hdr: [u8; SNAP_HDR] = [0u8; SNAP_HDR];
    assert(hdr@ =~= unfinished_header());
    (SnapWriter { fd, count: 0, generation }, hdr)
}

/// Count a record of which `written` bytes went to the file. Returns whether all did.
pub fn snap_writer_append(w: &mut SnapWriter, written: i32) -> (r: bool)
    requires
        old(w).count < u32::MAX,
    ensures
        r == (written == REC_SIZE),
        *final(w) == if r {
            SnapWriter { count: (old(w).count + 1) as u32, ..*old(w) }
        } else {
            *old(w)
        },
{
    if written != 1213 {
        return false;
    }
    w.count = w.count + 1;
    true
}

/// The header that makes the file a snapshot, to be written once its records are durable.
pub fn snap_writer_finish(w: &SnapWriter) -> (r: [u8; SNAP_HDR])
    ensures
        r@ == header_frame(w.count, w.generation),
{
    broadcast use bytes::lemma_write_first, bytes::lemma_write_next;

    let mut hdr: [u8; SNAP_HDR] = [0u8; SNAP_HDR];
    bytes::put_u32(&mut hdr, 0, SNAP_MAGIC);
    bytes::put_u32(&mut hdr, 4, w.count);
    bytes::put_u64(&mut hdr, 8, w.generation);
    proof {
        reveal(bytes::written);
        assert(hdr@ =~= header_frame(w.count, w.generation));
    }
    hdr
}

} // verus!
