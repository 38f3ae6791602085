//! Answering lookups, listings and questions about references.
//!
//! What the table holds of a key, a deletion included, stands for the key. Only where
//! it holds nothing does the snapshot on disk decide. Records of the snapshot are not
//! read here: each of these says which record it needs next and is given it.
use crate::bytes;
use crate::loam_hash;
use crate::loam_snapshot;
use crate::loam_snapshot::{Record, SnapRecord};
use crate::loam_wire;
use crate::namespace_apply;
use crate::namespace_apply::{NamespaceTable, Table};
use crate::namespace_pic_state;
use crate::namespace_pic_state::{Arena, Binding};
use crate::path_list;
use vstd::prelude::*;

verus! {

/// How many records of the snapshot one question about references looks at.
pub const REF_SCAN_PER_CALL: u32 = 128;

/// What a lookup is answered. `found` is what the snapshot was found to
/// hold, which counts only where it is the record of the key.
pub open spec fn lookup_answer(t: Table, root: Seq<u8>, path: Seq<u8>, found: Option<Record>) -> Seq<u8> {
    match t.arena.get(root, path) {
        Some(b) => if b.kind == namespace_pic_state::KIND_TOMBSTONE {
            not_found()
        } else {
            loam_wire::lookup_found_frame(b.object_id, b.revision, b.kind)
        },
        None => if t.snap_active {
            snapshot_answer(root, path, found)
        } else {
            not_found()
        },
    }
}

/// That nothing was found.
pub open spec fn not_found() -> Seq<u8> {
    seq![loam_wire::OP_LOOKUP, loam_wire::LOOKUP_NOT_FOUND]
}

/// What a lookup is answered from the snapshot alone.
pub open spec fn snapshot_answer(root: Seq<u8>, path: Seq<u8>, found: Option<Record>) -> Seq<u8> {
    match loam_snapshot::record_for(found, root, path) {
        Some(rec) => loam_wire::lookup_found_frame(loam_snapshot::record_oid(rec), rec.revision, rec.kind),
        None => not_found(),
    }
}

/// How a lookup goes on.
pub enum LookupNext {
    /// It is no lookup.
    Malformed,
    /// It is answered.
    Reply(Vec<u8>),
    /// The snapshot has to be searched for this key.
    Search { root: Vec<u8>, path: Vec<u8> },
}

fn encode_found(object_id: &[u8], revision: u64, kind: u8) -> (r: Vec<u8>)
    requires
        object_id@.len() <= 96,
    ensures
        r@ == loam_wire::lookup_found_frame(object_id@, revision, kind),
{
    let mut buf: [u8; 128] = [0u8; 128];
    let ghost before = buf@;
    proof {
        bytes::lemma_written_front(before, loam_wire::lookup_found_frame(object_id@, revision, kind));
    }
    match loam_wire::encode_lookup_found(&mut buf, object_id, revision, kind) {
        Ok(n) => bytes::front(buf.as_slice(), n),
        Err(_) => Vec::new(),
    }
}

fn encode_not_found() -> (r: Vec<u8>)
    ensures
        r@ == not_found(),
{
    let mut r: Vec<u8> = Vec::new();
    r.push(loam_wire::OP_LOOKUP);
    r.push(loam_wire::LOOKUP_NOT_FOUND);
    assert(r@ =~= not_found());
    r
}

/// Answer a lookup from the table, or ask for the snapshot.
pub fn handle_lookup<const N: usize>(table: &NamespaceTable<N>, request: &[u8]) -> (r: LookupNext)
    requires
        table.wf(),
    ensures
        match loam_wire::lookup_req_parse(request@) {
            Err(_) => r is Malformed,
            Ok((root, path)) => if table@.arena.get(root, path) is None && table@.snap_active {
                r matches LookupNext::Search { root: a, path: b } && a@ == root && b@ == path
            } else {
                r matches LookupNext::Reply(bytes) && bytes@ == lookup_answer(table@, root, path, None)
            },
        },
{
    match loam_wire::decode_lookup_req(request) {
        Err(_) => LookupNext::Malformed,
        Ok(req) => {
            let (ns_hash, path_hash): (u64, u64) = namespace_pic_state::key_hash(req.namespace_root, req.path);
            match table.bindings.lookup_hashed(ns_hash, path_hash, req.namespace_root, req.path) {
                Some(slot) => if slot.kind == namespace_pic_state::KIND_TOMBSTONE {
                    LookupNext::Reply(encode_not_found())
                } else {
                    LookupNext::Reply(encode_found(slot.object_id(), slot.revision, slot.kind))
                },
                None => if table.snap_active {
                    LookupNext::Search { root: bytes::to_vec(req.namespace_root), path: bytes::to_vec(req.path) }
                } else {
                    LookupNext::Reply(encode_not_found())
                },
            }
        },
    }
}

/// Answer a lookup with what the snapshot holds for its key. Returns also
/// whether that was the record of the key; `None` for what is no lookup.
pub fn lookup_found(request: &[u8], found: Option<&SnapRecord>) -> (r: Option<(Vec<u8>, bool)>)
    ensures
        match loam_wire::lookup_req_parse(request@) {
            Err(_) => r is None,
            Ok((root, path)) => r matches Some((b, hit)) && b@ == snapshot_answer(root, path, namespace_apply::read_record(found))
                && hit == (loam_snapshot::record_for(namespace_apply::read_record(found), root, path) is Some),
        },
{
    match loam_wire::decode_lookup_req(request) {
        Err(_) => None,
        Ok(req) => match found {
            Some(rec) => if rec.is_key(req.namespace_root, req.path) {
                Some((encode_found(rec.object_id(), rec.revision, rec.kind), true))
            } else {
                Some((encode_not_found(), false))
            },
            None => Some((encode_not_found(), false)),
        },
    }
}

/// A deletion in the table hides what the snapshot holds.
pub proof fn lemma_tombstone_hides_snapshot(t: Table, root: Seq<u8>, path: Seq<u8>, found: Option<Record>)
    requires
        t.arena.get(root, path) matches Some(b) && b.kind == namespace_pic_state::KIND_TOMBSTONE,
    ensures
        lookup_answer(t, root, path, found) == not_found(),
{
}

/// A lookup never answers with the binding of another key, whatever was found in
/// the snapshot.
pub proof fn lemma_bytes_decide(t: Table, root: Seq<u8>, path: Seq<u8>, found: Option<Record>)
    requires
        lookup_answer(t, root, path, found) != not_found(),
    ensures
        match t.arena.get(root, path) {
            Some(b) => b.root == root && b.path == path && lookup_answer(t, root, path, found)
                == loam_wire::lookup_found_frame(b.object_id, b.revision, b.kind),
            None => found matches Some(rec) && loam_snapshot::record_is(rec, root, path) && lookup_answer(
                t,
                root,
                path,
                found,
            ) == loam_wire::lookup_found_frame(loam_snapshot::record_oid(rec), rec.revision, rec.kind),
        },
{
    let p = |b: Option<Binding>| namespace_pic_state::has_key(b, root, path);
    namespace_pic_state::lemma_first_where(t.arena.slots, 0, p);
}

/// The paths in these slots.
pub open spec fn slot_paths(a: Arena, slots: Seq<int>) -> Seq<Seq<u8>> {
    Seq::new(slots.len(), |k: int| a.slots[slots[k]].unwrap().path)
}

/// The table holds something for the key of a record.
pub open spec fn is_shadowed(rec: Record, a: Arena) -> bool {
    &&& rec.ns_hash == loam_hash::fnv(loam_snapshot::record_root(rec))
    &&& rec.path_hash == loam_hash::fnv(loam_snapshot::record_path(rec))
    &&& a.get(loam_snapshot::record_root(rec), loam_snapshot::record_path(rec)) is Some
}

/// The record is listed under a root: it is one of that root, not only of its hash.
pub open spec fn is_listed(rec: Record, a: Arena, root: Seq<u8>) -> bool {
    &&& rec.ns_hash == loam_hash::fnv(root)
    &&& loam_snapshot::record_root(rec) == root
    &&& !is_shadowed(rec, a)
}

/// One page of a listing in the making.
pub ghost struct Walk {
    pub root: Seq<u8>,
    /// How many paths the page may hold.
    pub max: nat,
    pub paths: Seq<Seq<u8>>,
    /// Which record of the snapshot comes next, where the page goes on there.
    pub at: Option<u32>,
    /// Where the next page begins, where this one ended in the table.
    pub next: u32,
}

impl Walk {
    /// Beginning a page.
    pub open spec fn begin(t: Table, snap_count: u32, root: Seq<u8>, cursor: u32, max: u8) -> Walk {
        let m = if max <= loam_wire::MAX_LIST_PAGE {
            max as nat
        } else {
            loam_wire::MAX_LIST_PAGE as nat
        };
        if cursor < t.arena.slots.len() {
            let (slots, more) = namespace_pic_state::page(
                t.arena.slots,
                cursor as int,
                m as int,
                |b: Option<Binding>| namespace_pic_state::is_listed(b, root, Seq::empty()),
            );
            let next = match more {
                Some(i) => i as u32,
                None => 0,
            };
            Walk {
                root,
                max: m,
                paths: slot_paths(t.arena, slots),
                at: if next == 0 && t.snap_active && snap_count > 0 {
                    Some(0)
                } else {
                    None
                },
                next,
            }
        } else {
            Walk {
                root,
                max: m,
                paths: Seq::empty(),
                at: if t.snap_active {
                    Some((cursor - t.arena.slots.len()) as u32)
                } else {
                    None
                },
                next: cursor,
            }
        }
    }

    /// The record that is needed next.
    pub open spec fn wants(self, snap_count: u32) -> Option<u32> {
        match self.at {
            Some(idx) => if idx < snap_count && self.paths.len() < self.max {
                Some(idx)
            } else {
                None
            },
            None => None,
        }
    }

    /// Taking the record that was needed. One that cannot be read ends the listing.
    pub open spec fn feed(self, a: Arena, snap_count: u32, rec: Option<Record>) -> Walk {
        match rec {
            None => Walk { at: Some(snap_count), ..self },
            Some(r) => Walk {
                at: Some((self.at.unwrap() + 1) as u32),
                paths: if is_listed(r, a, self.root) {
                    self.paths.push(loam_snapshot::record_path(r))
                } else {
                    self.paths
                },
                ..self
            },
        }
    }

    /// Where the next page begins; zero after the last.
    pub open spec fn cursor(self, capacity: nat, snap_count: u32) -> u32 {
        match self.at {
            None => self.next,
            Some(idx) => if idx >= snap_count {
                0
            } else {
                (capacity + idx) as u32
            },
        }
    }

    /// The page once everything it needs of the snapshot `records` has been taken.
    pub open spec fn over(self, a: Arena, records: Seq<Record>) -> Walk
        decreases
                (if self.at is Some && self.at.unwrap() < records.len() {
                    records.len() - self.at.unwrap()
                } else {
                    0
                }),
    {
        if records.len() > u32::MAX {
            self
        } else {
            match self.wants(records.len() as u32) {
                None => self,
                Some(idx) => self.feed(a, records.len() as u32, Some(records[idx as int])).over(a, records),
            }
        }
    }
}

/// The paths of the records in a range that are listed.
pub open spec fn listed_paths(records: Seq<Record>, a: Arena, root: Seq<u8>, from: int, to: int) -> Seq<Seq<u8>>
    decreases to - from,
{
    if from >= to {
        Seq::empty()
    } else {
        let rest = listed_paths(records, a, root, from + 1, to);
        if is_listed(records[from], a, root) {
            seq![loam_snapshot::record_path(records[from])] + rest
        } else {
            rest
        }
    }
}

/// A page takes from the snapshot exactly the listed records of one range, in order,
/// and the next page begins right behind it. So a binding that was dropped from the
/// table is still listed, and nothing is listed twice.
pub proof fn lemma_page_of_snapshot(w: Walk, a: Arena, records: Seq<Record>)
    requires
        records.len() <= u32::MAX,
        w.at matches Some(idx) && idx <= records.len(),
        w.paths.len() <= w.max,
    ensures
        w.over(a, records).at matches Some(end) && w.at.unwrap() <= end <= records.len() && {
            &&& w.over(a, records).paths == w.paths + listed_paths(records, a, w.root, w.at.unwrap() as int, end as int)
            &&& end < records.len() ==> w.over(a, records).paths.len() == w.max
            &&& w.paths.len() < w.max && w.at.unwrap() < records.len() ==> w.at.unwrap() < end
        },
    decreases records.len() - w.at.unwrap(),
{
    let count = records.len() as u32;
    if let Some(idx) = w.wants(count) {
        let next = w.feed(a, count, Some(records[idx as int]));
        lemma_page_of_snapshot(next, a, records);
        let end = w.over(a, records).at.unwrap();
        assert(w.over(a, records).paths =~= w.paths + listed_paths(records, a, w.root, idx as int, end as int));
    } else {
        let idx = w.at.unwrap();
        assert(w.paths =~= w.paths + listed_paths(records, a, w.root, idx as int, idx as int));
    }
}

proof fn lemma_page_members(
    s: Seq<Option<Binding>>,
    from: int,
    max: int,
    p: spec_fn(Option<Binding>) -> bool,
)
    requires
        0 <= from,
    ensures
        forall|k: int|
            #![trigger namespace_pic_state::page(s, from, max, p).0[k]]
            0 <= k < namespace_pic_state::page(s, from, max, p).0.len() ==> {
                let i = namespace_pic_state::page(s, from, max, p).0[k];
                0 <= i < s.len() && p(s[i])
            },
    decreases s.len() - from,
{
    if from < s.len() && max > 0 {
        if p(s[from]) {
            lemma_page_members(s, from + 1, max - 1, p);
            let rest = namespace_pic_state::page(s, from + 1, max - 1, p).0;
            assert forall|k: int|
                #![trigger namespace_pic_state::page(s, from, max, p).0[k]]
                0 <= k < namespace_pic_state::page(s, from, max, p).0.len() implies {
                let i = namespace_pic_state::page(s, from, max, p).0[k];
                0 <= i < s.len() && p(s[i])
            } by {
                if k > 0 {
                    assert(namespace_pic_state::page(s, from, max, p).0[k] == rest[k - 1]);
                }
            }
        } else {
            lemma_page_members(s, from + 1, max, p);
            assert(namespace_pic_state::page(s, from, max, p) == namespace_pic_state::page(s, from + 1, max, p));
        }
    }
}

/// One page of a listing in the making.
pub struct ListWalk {
    root: Vec<u8>,
    max: usize,
    paths: Vec<Vec<u8>>,
    at: Option<u32>,
    next: u32,
}

impl View for ListWalk {
    type V = Walk;

    closed spec fn view(&self) -> Walk {
        Walk {
            root: self.root@,
            max: self.max as nat,
            paths: path_list::texts(self.paths@),
            at: self.at,
            next: self.next,
        }
    }
}

impl ListWalk {
    /// The page holds what it may.
    pub open spec fn wf(&self) -> bool {
        self@.paths.len() <= self@.max <= loam_wire::MAX_LIST_PAGE && path_list::all_short(self@.paths)
    }

    /// The record that is needed next.
    pub fn wants(&self, snap_count: u32) -> (r: Option<u32>)
        ensures
            r == self@.wants(snap_count),
    {
        match self.at {
            Some(idx) => if idx < snap_count && self.paths.len() < self.max {
                Some(idx)
            } else {
                None
            },
            None => None,
        }
    }

    /// Take the record that was needed.
    pub fn feed<const N: usize>(&mut self, table: &NamespaceTable<N>, snap_count: u32, rec: Option<&SnapRecord>)
        requires
            old(self).wf(),
            table.wf(),
            old(self)@.wants(snap_count) is Some,
            rec matches Some(r) ==> loam_snapshot::lengths_fit(r@),
        ensures
            final(self).wf(),
            final(self)@ == old(self)@.feed(table@.arena, snap_count, namespace_apply::read_record(rec)),
    {
        let idx: u32 = match self.at {
            Some(i) => i,
            None => {
                return;
            },
        };
        match rec {
            None => {
                self.at = Some(snap_count);
            },
            Some(r) => {
                self.at = Some(idx + 1);
                if r.ns_hash == loam_hash::fnv1a64(self.root.as_slice()) && bytes::bytes_equal(
                    r.root(),
                    self.root.as_slice(),
                ) && table.bindings.lookup_hashed(r.ns_hash, r.path_hash, r.root(), r.path()).is_none() {
                    self.paths.push(bytes::to_vec(r.path()));
                    assert(self@.paths =~= old(self)@.paths.push(loam_snapshot::record_path(r@)));
                }
            },
        }
    }

    /// Where the next page begins.
    pub fn cursor(&self, capacity: u32, snap_count: u32) -> (r: u32)
        requires
            capacity + snap_count <= u32::MAX,
        ensures
            r == self@.cursor(capacity as nat, snap_count),
    {
        match self.at {
            None => self.next,
            Some(idx) => if idx >= snap_count {
                0
            } else {
                capacity + idx
            },
        }
    }

    /// The answer, where it fits into `room` bytes.
    pub fn finish(&self, capacity: u32, snap_count: u32, room: usize) -> (r: Option<Vec<u8>>)
        requires
            self.wf(),
            capacity + snap_count <= u32::MAX,
        ensures
            ({
                let frame = loam_wire::list_resp_frame(self@.cursor(capacity as nat, snap_count), self@.paths);
                if frame.len() <= room {
                    r matches Some(bytes) && bytes@ == frame
                } else {
                    r is None
                }
            }),
    {
        let next_cursor: u32 = self.cursor(capacity, snap_count);
        let slices: Vec<&[u8]> = path_list::as_slices(&self.paths);
        let mut buf: Vec<u8> = zeros(room);
        let ghost frame = loam_wire::list_resp_frame(next_cursor, self@.paths);
        let ghost before = buf@;
        match loam_wire::encode_list_resp(buf.as_mut_slice(), next_cursor, slices.as_slice()) {
            Ok(n) => {
                proof {
                    bytes::lemma_written_front(before, frame);
                }
                Some(bytes::front(buf.as_slice(), n))
            },
            Err(_) => None,
        }
    }
}

fn zeros(n: usize) -> (r: Vec<u8>)
    ensures
        r@.len() == n,
{
    let mut r: Vec<u8> = Vec::new();
    let mut i: usize = 0;
    while i < n
        invariant
            i <= n,
            r@.len() == i,
        decreases n - i,
    {
        r.push(0);
        i += 1;
    }
    r
}

/// Begin one page of a listing; `None` for what is no request for one.
pub fn handle_list<const N: usize>(table: &NamespaceTable<N>, snap_count: u32, request: &[u8]) -> (r: Option<ListWalk>)
    requires
        table.wf(),
        N <= u32::MAX,
    ensures
        match loam_wire::list_req_parse(request@) {
            Err(_) => r is None,
            Ok((root, cursor, max)) => r matches Some(w) && w.wf() && w@ == Walk::begin(
                table@,
                snap_count,
                root,
                cursor,
                max,
            ),
        },
{
    let (root, cursor, max): (&[u8], u32, usize) = match loam_wire::decode_list_req(request) {
        Ok(req) => (
            req.namespace_root,
            req.cursor,
            if req.max as usize <= loam_wire::MAX_LIST_PAGE {
                req.max as usize
            } else {
                loam_wire::MAX_LIST_PAGE
            },
        ),
        Err(_) => {
            return None;
        },
    };
    let capacity: u32 = N as u32;
    if cursor < capacity {
        let ghost p = |b: Option<Binding>| namespace_pic_state::is_listed(b, root@, Seq::empty());
        let ghost want = namespace_pic_state::page(table@.arena.slots, cursor as int, max as int, p);
        proof {
            lemma_page_members(table@.arena.slots, cursor as int, max as int, p);
            namespace_pic_state::lemma_page(table@.arena.slots, cursor as int, max as int, p);
        }
        let (slots, next): (Vec<usize>, u32) = table.bindings.list_page(root, cursor, max);
        let mut paths: Vec<Vec<u8>> = Vec::new();
        let mut i: usize = 0;
        assert(namespace_pic_state::numbers(slots@) == want.0);
        while i < slots.len()
            invariant
                i <= slots.len(),
                table.wf(),
                paths.len() == i,
                want.0 == namespace_pic_state::numbers(slots@),
                forall|k: int|
                    #![trigger want.0[k]]
                    0 <= k < want.0.len() ==> 0 <= want.0[k] < N && p(table@.arena.slots[want.0[k]]),
                p == (|b: Option<Binding>| namespace_pic_state::is_listed(b, root@, Seq::empty())),
                forall|k: int|
                    0 <= k < i ==> (#[trigger] paths@[k])@ == slot_paths(table@.arena, want.0)[k]
                        && paths@[k]@.len() <= 1024,
            decreases slots.len() - i,
        {
            assert(want.0[i as int] == slots@[i as int]);
            let ghost b = table@.arena.slots[want.0[i as int]];
            assert(p(b));
            match table.bindings.slot_ref(slots[i]) {
                Some(slot) => {
                    paths.push(bytes::to_vec(slot.path()));
                },
                None => {},
            }
            i += 1;
        }
        assert(path_list::texts(paths@) =~= slot_paths(table@.arena, want.0));
        Some(
            ListWalk {
                root: bytes::to_vec(root),
                max,
                paths,
                at: if next == 0 && table.snap_active && snap_count > 0 {
                    Some(0)
                } else {
                    None
                },
                next,
            },
        )
    } else {
        let w: ListWalk = ListWalk {
            root: bytes::to_vec(root),
            max,
            paths: Vec::new(),
            at: if table.snap_active {
                Some(cursor - capacity)
            } else {
                None
            },
            next: cursor,
        };
        assert(w@.paths =~= Seq::empty());
        Some(w)
    }
}

/// The record counts as a reference to the object. One without an id might be one.
pub open spec fn record_refers(rec: Record, object_id: Seq<u8>) -> bool {
    rec.oid_len == 0 || loam_snapshot::record_oid(rec) == object_id
}

/// A question about references in the making.
pub ghost struct Scan {
    pub object_id: Seq<u8>,
    pub referenced: bool,
    /// The record of the snapshot that comes next.
    pub idx: u32,
    /// Where this question stops.
    pub end: u32,
}

impl Scan {
    /// Beginning to answer. The first question also looks at the table.
    pub open spec fn begin(t: Table, snap_count: u32, cursor: u32, object_id: Seq<u8>) -> Scan {
        let referenced = cursor == 0 && exists|i: int|
            0 <= i < t.arena.slots.len() && namespace_pic_state::refers_to(#[trigger] t.arena.slots[i], object_id);
        let end = if !t.snap_active {
            cursor
        } else if cursor + REF_SCAN_PER_CALL <= snap_count {
            (cursor + REF_SCAN_PER_CALL) as u32
        } else {
            snap_count
        };
        Scan { object_id, referenced, idx: cursor, end }
    }

    /// The record that is needed next.
    pub open spec fn wants(self) -> Option<u32> {
        if !self.referenced && self.idx < self.end {
            Some(self.idx)
        } else {
            None
        }
    }

    /// Taking the record that was needed. One that cannot be read might be a reference.
    pub open spec fn feed(self, rec: Option<Record>) -> Scan {
        if rec is None || record_refers(rec.unwrap(), self.object_id) {
            Scan { referenced: true, ..self }
        } else {
            Scan { idx: (self.idx + 1) as u32, ..self }
        }
    }

    /// Where the next question begins; zero where there is none to ask.
    pub open spec fn cursor(self, t: Table, snap_count: u32) -> u32 {
        if !self.referenced && t.snap_active && self.end < snap_count {
            self.end
        } else {
            0
        }
    }

    /// The outcome on a snapshot that can be read.
    pub open spec fn over(self, records: Seq<Record>) -> Scan
        decreases
                (if self.idx < self.end {
                    self.end - self.idx
                } else {
                    0
                }),
    {
        match self.wants() {
            None => self,
            Some(idx) => {
                let next = self.feed(Some(records[idx as int]));
                if next.referenced {
                    next
                } else {
                    next.over(records)
                }
            },
        }
    }
}

proof fn lemma_scan(s: Scan, records: Seq<Record>)
    requires
        s.idx <= s.end <= records.len(),
    ensures
        s.over(records).end == s.end,
        s.over(records).referenced == (s.referenced || exists|i: int|
            s.idx <= i < s.end && record_refers(#[trigger] records[i], s.object_id)),
    decreases s.end - s.idx,
{
    if let Some(idx) = s.wants() {
        let next = s.feed(Some(records[idx as int]));
        if !next.referenced {
            lemma_scan(next, records);
        } else {
            assert(record_refers(records[idx as int], s.object_id));
        }
    }
}

/// One question covers its range of the snapshot, the first one the table too, and
/// the next one begins where it stopped.
proof fn lemma_one_question(t: Table, records: Seq<Record>, cursor: u32, object_id: Seq<u8>)
    requires
        records.len() <= u32::MAX,
        t.snap_active,
        cursor <= records.len(),
        !Scan::begin(t, records.len() as u32, cursor, object_id).over(records).referenced,
    ensures
        cursor == 0 ==> forall|i: int|
            0 <= i < t.arena.slots.len() ==> !namespace_pic_state::refers_to(#[trigger] t.arena.slots[i], object_id),
        ({
            let s = Scan::begin(t, records.len() as u32, cursor, object_id).over(records);
            let next = s.cursor(t, records.len() as u32);
            let covered = if next == 0 {
                records.len() as int
            } else {
                next as int
            };
            &&& next == 0 || cursor < next <= records.len()
            &&& forall|i: int| cursor <= i < covered ==> !record_refers(#[trigger] records[i], object_id)
        }),
{
    lemma_scan(Scan::begin(t, records.len() as u32, cursor, object_id), records);
}

/// The outcome of asking on from `cursor` until a reference is found or there is no
/// next question.
pub open spec fn asked(t: Table, records: Seq<Record>, cursor: u32, object_id: Seq<u8>) -> bool
    decreases records.len() - cursor,
{
    let s = Scan::begin(t, records.len() as u32, cursor, object_id).over(records);
    let next = s.cursor(t, records.len() as u32);
    if s.referenced {
        true
    } else if next == 0 || next <= cursor || next > records.len() {
        false
    } else {
        asked(t, records, next, object_id)
    }
}

/// Asking on from the start says of an object that it is not referenced only where
/// neither the table nor the snapshot holds a reference to it.
pub proof fn lemma_unreferenced_is_safe(t: Table, records: Seq<Record>, object_id: Seq<u8>)
    requires
        records.len() <= u32::MAX,
        t.snap_active,
        !asked(t, records, 0, object_id),
    ensures
        forall|i: int|
            0 <= i < t.arena.slots.len() ==> !namespace_pic_state::refers_to(#[trigger] t.arena.slots[i], object_id),
        forall|i: int| 0 <= i < records.len() ==> !record_refers(#[trigger] records[i], object_id),
{
    lemma_one_question(t, records, 0, object_id);
    lemma_asked(t, records, 0, object_id);
}

proof fn lemma_asked(t: Table, records: Seq<Record>, cursor: u32, object_id: Seq<u8>)
    requires
        records.len() <= u32::MAX,
        t.snap_active,
        cursor <= records.len(),
        !asked(t, records, cursor, object_id),
    ensures
        forall|i: int| cursor <= i < records.len() ==> !record_refers(#[trigger] records[i], object_id),
    decreases records.len() - cursor,
{
    lemma_one_question(t, records, cursor, object_id);
    let s = Scan::begin(t, records.len() as u32, cursor, object_id).over(records);
    let next = s.cursor(t, records.len() as u32);
    if next != 0 {
        lemma_asked(t, records, next, object_id);
    }
}

/// A question about references in the making.
pub struct RefScan {
    object_id: Vec<u8>,
    referenced: bool,
    idx: u32,
    end: u32,
}

impl View for RefScan {
    type V = Scan;

    closed spec fn view(&self) -> Scan {
        Scan { object_id: self.object_id@, referenced: self.referenced, idx: self.idx, end: self.end }
    }
}

/// Begin to answer a question about references; `None` for what is none.
pub fn handle_referenced<const N: usize>(table: &NamespaceTable<N>, snap_count: u32, request: &[u8]) -> (r: Option<RefScan>)
    requires
        table.wf(),
    ensures
        match loam_wire::referenced_req_parse(request@) {
            Err(_) => r is None,
            Ok((cursor, object_id)) => r matches Some(s) && s@ == Scan::begin(table@, snap_count, cursor, object_id),
        },
{
    match loam_wire::decode_referenced_req(request) {
        Err(_) => None,
        Ok((cursor, object_id)) => {
            let referenced: bool = cursor == 0 && table.bindings.object_id_referenced(object_id);
            let end: u32 = if !table.snap_active {
                cursor
            } else if cursor as u64 + REF_SCAN_PER_CALL as u64 <= snap_count as u64 {
                cursor + REF_SCAN_PER_CALL
            } else {
                snap_count
            };
            let r: RefScan = RefScan { object_id: bytes::to_vec(object_id), referenced, idx: cursor, end };
            assert(r@.referenced == Scan::begin(table@, snap_count, cursor, object_id@).referenced);
            assert(r@.end == Scan::begin(table@, snap_count, cursor, object_id@).end);
            assert(r@ == Scan::begin(table@, snap_count, cursor, object_id@));
            Some(r)
        },
    }
}

impl RefScan {
    /// The record that is needed next.
    pub fn wants(&self) -> (r: Option<u32>)
        ensures
            r == self@.wants(),
    {
        if !self.referenced && self.idx < self.end {
            Some(self.idx)
        } else {
            None
        }
    }

    /// Take the record that was needed.
    pub fn feed(&mut self, rec: Option<&SnapRecord>)
        requires
            old(self)@.wants() is Some,
            rec matches Some(r) ==> loam_snapshot::lengths_fit(r@),
        ensures
            final(self)@ == old(self)@.feed(namespace_apply::read_record(rec)),
    {
        match rec {
            Some(r) => if r.oid_len == 0 || bytes::bytes_equal(r.object_id(), self.object_id.as_slice()) {
                self.referenced = true;
            } else {
                self.idx = self.idx + 1;
            },
            None => {
                self.referenced = true;
            },
        }
    }

    /// The answer.
    pub fn finish<const N: usize>(&self, table: &NamespaceTable<N>, snap_count: u32) -> (r: Vec<u8>)
        ensures
            r@ == loam_wire::referenced_resp_frame(self@.referenced, self@.cursor(table@, snap_count)),
    {
        let next_cursor: u32 = if !self.referenced && table.snap_active && self.end < snap_count {
            self.end
        } else {
            0
        };
        let mut buf: [u8; 6] = [0u8; 6];
        let ghost before = buf@;
        proof {
            bytes::lemma_written_front(before, loam_wire::referenced_resp_frame(self.referenced, next_cursor));
        }
        match loam_wire::encode_referenced_resp(&mut buf, self.referenced, next_cursor) {
            Ok(n) => bytes::front(buf.as_slice(), n),
            Err(_) => Vec::new(),
        }
    }
}

/// A binding in the table that is no deletion is found, whatever its kind, with its object
/// id, its revision and its kind. One that is a deletion is not found, whatever the snapshot
/// holds.
pub proof fn lemma_bound_is_found(t: Table, i: int, found: Option<Record>)
    requires
        t.arena.wf(),
        0 <= i < t.arena.slots.len(),
        t.arena.slots[i] is Some,
    ensures
        ({
            let b = t.arena.slots[i].unwrap();
            loam_wire::lookup_resp_parse(lookup_answer(t, b.root, b.path, found)) == Ok::<
                Option<(Seq<u8>, u64, u8)>,
                loam_wire::WireError,
            >(
                if b.kind != 0xFE {
                    Some((b.object_id, b.revision, b.kind))
                } else {
                    None
                },
            )
        }),
{
    let b = t.arena.slots[i].unwrap();
    let p = |x: Option<Binding>| namespace_pic_state::has_key(x, b.root, b.path);
    namespace_pic_state::lemma_first_where(t.arena.slots, 0, p);
    assert(p(t.arena.slots[i]));
    let k = t.arena.find(b.root, b.path).unwrap();
    assert(p(t.arena.slots[k]));
    assert(k == i);
    let f = loam_wire::lookup_found_frame(b.object_id, b.revision, b.kind);
    loam_wire::lemma_lookup_resp_round_trip(b.object_id, b.revision, b.kind, Seq::empty());
    assert(f + Seq::<u8>::empty() =~= f);
}

/// What the table does not hold is found in the snapshot that is in use, with the object
/// id, the revision and the kind of its record, and is found nowhere else.
pub proof fn lemma_snapshot_is_found(t: Table, root: Seq<u8>, path: Seq<u8>, found: Option<Record>)
    requires
        forall|i: int|
            0 <= i < t.arena.slots.len() && (#[trigger] t.arena.slots[i]) is Some ==> t.arena.slots[i].unwrap().root
                != root || t.arena.slots[i].unwrap().path != path,
        found matches Some(rec) ==> loam_snapshot::lengths_fit(rec) && rec.oid.len() == 96,
    ensures
        loam_wire::lookup_resp_parse(lookup_answer(t, root, path, found)) == Ok::<
            Option<(Seq<u8>, u64, u8)>,
            loam_wire::WireError,
        >(
            match found {
                Some(rec) => if t.snap_active && rec.root.take(rec.root_len as int) == root && rec.path.take(
                    rec.path_len as int,
                ) == path {
                    Some((rec.oid.take(rec.oid_len as int), rec.revision, rec.kind))
                } else {
                    None
                },
                None => None,
            },
        ),
{
    let p = |x: Option<Binding>| namespace_pic_state::has_key(x, root, path);
    namespace_pic_state::lemma_first_where(t.arena.slots, 0, p);
    if let Some(k) = t.arena.find(root, path) {
        assert(p(t.arena.slots[k]));
    }
    if let Some(rec) = found {
        let id = loam_snapshot::record_oid(rec);
        assert(id =~= rec.oid.take(rec.oid_len as int));
        assert(loam_snapshot::record_root(rec) =~= rec.root.take(rec.root_len as int));
        assert(loam_snapshot::record_path(rec) =~= rec.path.take(rec.path_len as int));
        let f = loam_wire::lookup_found_frame(id, rec.revision, rec.kind);
        loam_wire::lemma_lookup_resp_round_trip(id, rec.revision, rec.kind, Seq::empty());
        assert(f + Seq::<u8>::empty() =~= f);
    }
}

} // verus!
