//! One page of a listing under a prefix, as it is written into a caller's buffer.
//!
//! An entry is `[name_len][kind][name]`; behind the entries stands where to go on,
//! `[FF][4][cursor:u32]`, or that there is no more, `[FF][0]`. Room for that is kept
//! before any entry is written. A name that the length byte cannot hold, or whose
//! length would read as the end of the page, is passed over.
//!
//! The table comes first, then the snapshot, whose records are handed in one by one.
use crate::bytes;
use crate::loam_hash;
use crate::loam_snapshot;
use crate::loam_snapshot::{Record, SnapRecord};
use crate::namespace_apply;
use crate::namespace_apply::{NamespaceTable, Table};
use crate::namespace_pic_state;
use crate::namespace_pic_state::{Arena, Binding};
use crate::namespace_reads;
use vstd::prelude::*;

verus! {

/// Room that is kept for where to go on.
pub const CURSOR_RECORD_BYTES: usize = 6;

pub const E_INVAL: i32 = -22;

/// A name has an entry.
pub open spec fn has_entry(name: Seq<u8>) -> bool {
    0 < name.len() < 255
}

/// The entry of a name.
pub open spec fn entry(name: Seq<u8>, kind: u8) -> Seq<u8> {
    if has_entry(name) {
        seq![name.len() as u8] + seq![kind] + name
    } else {
        Seq::empty()
    }
}

/// The page with one more entry, if there is room for it.
pub open spec fn taken(out: Seq<u8>, name: Seq<u8>, kind: u8, room: nat) -> Option<Seq<u8>> {
    if has_entry(name) && out.len() + 2 + name.len() + CURSOR_RECORD_BYTES > room {
        None
    } else {
        Some(out + entry(name, kind))
    }
}

/// Add an entry to the page. Returns whether there was room for it.
pub fn list_take(out: &mut Vec<u8>, name: &[u8], kind: u8, room: usize) -> (r: bool)
    ensures
        match taken(old(out)@, name@, kind, room as nat) {
            Some(page) => r && final(out)@ == page,
            None => !r && final(out)@ == old(out)@,
        },
{
    if name.len() == 0 || name.len() >= 255 {
        assert(out@ =~= old(out)@ + entry(name@, kind));
        return true;
    }
    if room < 8 + name.len() || out.len() > room - 8 - name.len() {
        return false;
    }
    out.push(name.len() as u8);
    out.push(kind);
    bytes::append(out, name);
    assert(out@ =~= old(out)@ + entry(name@, kind));
    true
}

/// The entries of the listed slots in a range.
pub open spec fn entries_of(s: Seq<Option<Binding>>, prefix: Seq<u8>, from: int, to: int) -> Seq<u8>
    decreases to - from,
{
    if from >= to {
        Seq::empty()
    } else {
        let rest = entries_of(s, prefix, from + 1, to);
        if namespace_pic_state::is_listed(s[from], Seq::empty(), prefix) {
            entry(s[from].unwrap().path, s[from].unwrap().kind) + rest
        } else {
            rest
        }
    }
}

/// Writing the table from `from` on, until the page is full: the page, and the slot
/// that was not written any more.
pub open spec fn list_table(s: Seq<Option<Binding>>, prefix: Seq<u8>, from: int, out: Seq<u8>, room: nat) -> (
    Seq<u8>,
    Option<int>,
)
    decreases s.len() - from,
{
    if from < 0 || from >= s.len() {
        (out, None)
    } else if namespace_pic_state::is_listed(s[from], Seq::empty(), prefix) {
        match taken(out, s[from].unwrap().path, s[from].unwrap().kind, room) {
            Some(page) => list_table(s, prefix, from + 1, page, room),
            None => (out, Some(from)),
        }
    } else {
        list_table(s, prefix, from + 1, out, room)
    }
}

/// A page holds the entries of all listed slots from where it begins to where it stops.
pub proof fn lemma_page_of_table(s: Seq<Option<Binding>>, prefix: Seq<u8>, from: int, out: Seq<u8>, room: nat)
    requires
        0 <= from <= s.len(),
    ensures
        ({
            let (page, stop) = list_table(s, prefix, from, out, room);
            let end = match stop {
                Some(i) => i,
                None => s.len() as int,
            };
            &&& from <= end <= s.len()
            &&& stop is Some ==> end < s.len()
            &&& page == out + entries_of(s, prefix, from, end)
        }),
    decreases s.len() - from,
{
    let (page, stop) = list_table(s, prefix, from, out, room);
    let end = match stop {
        Some(i) => i,
        None => s.len() as int,
    };
    if from < s.len() {
        if namespace_pic_state::is_listed(s[from], Seq::empty(), prefix) {
            let e = entry(s[from].unwrap().path, s[from].unwrap().kind);
            match taken(out, s[from].unwrap().path, s[from].unwrap().kind, room) {
                Some(next) => {
                    lemma_page_of_table(s, prefix, from + 1, next, room);
                    assert(page =~= out + (e + entries_of(s, prefix, from + 1, end)));
                },
                None => {
                    assert(page =~= out + entries_of(s, prefix, from, end));
                },
            }
        } else {
            lemma_page_of_table(s, prefix, from + 1, out, room);
        }
    } else {
        assert(page =~= out + entries_of(s, prefix, from, end));
    }
}

/// The entries of the table on pages with these rooms, each going on where the one before
/// stopped, and where to go on.
pub open spec fn table_pages(s: Seq<Option<Binding>>, prefix: Seq<u8>, from: int, rooms: Seq<nat>) -> (
    Seq<u8>,
    Option<int>,
)
    decreases rooms.len(),
{
    if rooms.len() == 0 {
        (Seq::empty(), Some(from))
    } else {
        let (page, stop) = list_table(s, prefix, from, Seq::empty(), rooms[0]);
        match stop {
            None => (page, None),
            Some(i) => {
                let rest = table_pages(s, prefix, i, rooms.skip(1));
                (page + rest.0, rest.1)
            },
        }
    }
}

proof fn lemma_entries_split(s: Seq<Option<Binding>>, prefix: Seq<u8>, from: int, mid: int, to: int)
    requires
        0 <= from <= mid <= to <= s.len(),
    ensures
        entries_of(s, prefix, from, to) == entries_of(s, prefix, from, mid) + entries_of(s, prefix, mid, to),
    decreases mid - from,
{
    if from < mid {
        lemma_entries_split(s, prefix, from + 1, mid, to);
        assert(entries_of(s, prefix, from, to) =~= entries_of(s, prefix, from, mid) + entries_of(s, prefix, mid, to));
    } else {
        assert(entries_of(s, prefix, from, to) =~= entries_of(s, prefix, from, mid) + entries_of(s, prefix, mid, to));
    }
}

/// However the table is cut into pages, a caller that follows the cursors gets the entry
/// of every listed slot once and in order.
pub proof fn lemma_pages_of_table_cover(s: Seq<Option<Binding>>, prefix: Seq<u8>, from: int, rooms: Seq<nat>)
    requires
        0 <= from <= s.len(),
    ensures
        match table_pages(s, prefix, from, rooms).1 {
            Some(i) => from <= i <= s.len() && entries_of(s, prefix, from, s.len() as int) == table_pages(
                s,
                prefix,
                from,
                rooms,
            ).0 + entries_of(s, prefix, i, s.len() as int),
            None => entries_of(s, prefix, from, s.len() as int) == table_pages(s, prefix, from, rooms).0,
        },
    decreases rooms.len(),
{
    let n = s.len() as int;
    if rooms.len() == 0 {
        assert(entries_of(s, prefix, from, n) =~= Seq::<u8>::empty() + entries_of(s, prefix, from, n));
    } else {
        lemma_page_of_table(s, prefix, from, Seq::empty(), rooms[0]);
        let (page, stop) = list_table(s, prefix, from, Seq::empty(), rooms[0]);
        match stop {
            None => {
                assert(page =~= entries_of(s, prefix, from, n));
            },
            Some(i) => {
                assert(page =~= entries_of(s, prefix, from, i));
                lemma_entries_split(s, prefix, from, i, n);
                lemma_pages_of_table_cover(s, prefix, i, rooms.skip(1));
                let rest = table_pages(s, prefix, i, rooms.skip(1));
                match rest.1 {
                    Some(j) => {
                        assert(page + rest.0 + entries_of(s, prefix, j, n) =~= page + (rest.0 + entries_of(
                            s,
                            prefix,
                            j,
                            n,
                        )));
                    },
                    None => {},
                }
            },
        }
    }
}

/// Where a page stands.
#[derive(Debug, Clone, Copy, PartialEq, Eq, Structural)]
pub enum PageAt {
    /// Everything was written.
    Done,
    /// The page is full, or nothing is known of what follows: go on here.
    Stopped(u32),
    /// This record of the snapshot comes next.
    Snapshot(u32),
    /// The page is full; this record of the snapshot comes next.
    Full(u32),
}

/// A page in the making.
pub ghost struct Page {
    pub prefix: Seq<u8>,
    pub room: nat,
    pub out: Seq<u8>,
    pub at: PageAt,
}

impl Page {
    /// Beginning a page.
    pub open spec fn begin(
        a: Arena,
        snap_active: bool,
        snap_count: u32,
        prefix: Seq<u8>,
        cursor: u32,
        room: nat,
    ) -> Page {
        if cursor < a.slots.len() {
            let (out, stop) = list_table(a.slots, prefix, cursor as int, Seq::empty(), room);
            Page {
                prefix,
                room,
                out,
                at: match stop {
                    Some(i) => PageAt::Stopped(i as u32),
                    None => if snap_active && snap_count > 0 {
                        PageAt::Snapshot(0)
                    } else {
                        PageAt::Done
                    },
                },
            }
        } else {
            Page {
                prefix,
                room,
                out: Seq::empty(),
                at: if snap_active {
                    PageAt::Snapshot((cursor - a.slots.len()) as u32)
                } else {
                    PageAt::Stopped(cursor)
                },
            }
        }
    }

    /// The record that is needed next.
    pub open spec fn wants(self, snap_count: u32) -> Option<u32> {
        match self.at {
            PageAt::Snapshot(idx) => if idx < snap_count {
                Some(idx)
            } else {
                None
            },
            _ => None,
        }
    }

    /// The record takes part.
    pub open spec fn lists(self, a: Arena, r: Record) -> bool {
        namespace_reads::is_listed(r, a, Seq::empty()) && self.prefix.is_prefix_of(loam_snapshot::record_path(r))
    }

    /// Taking the record that was needed. One that cannot be read ends the listing.
    pub open spec fn feed(self, a: Arena, snap_count: u32, rec: Option<Record>) -> Page {
        let idx = self.at->Snapshot_0;
        match rec {
            None => Page { at: PageAt::Snapshot(snap_count), ..self },
            Some(r) => if self.lists(a, r) {
                match taken(self.out, loam_snapshot::record_path(r), r.kind, self.room) {
                    Some(out) => Page { out, at: PageAt::Snapshot((idx + 1) as u32), ..self },
                    None => Page { at: PageAt::Full(idx), ..self },
                }
            } else {
                Page { at: PageAt::Snapshot((idx + 1) as u32), ..self }
            },
        }
    }

    /// Taking these answers, each where a record was needed.
    pub open spec fn fed(self, a: Arena, snap_count: u32, answers: Seq<Option<Record>>) -> Page
        decreases answers.len(),
    {
        if answers.len() == 0 {
            self
        } else {
            let page = self.fed(a, snap_count, answers.drop_last());
            if page.wants(snap_count) is Some {
                page.feed(a, snap_count, answers.last())
            } else {
                page
            }
        }
    }

    /// The page stands behind `cursor`, or there with nothing written.
    pub open spec fn is_past(self, cursor: u32, capacity: nat, snap_count: u32) -> bool {
        match self.at {
            PageAt::Done => true,
            PageAt::Stopped(c) => c < capacity && cursor <= c && (self.out.len() > 0 ==> cursor < c),
            PageAt::Snapshot(idx) => cursor <= capacity + idx && (self.out.len() > 0 ==> cursor < capacity + idx),
            PageAt::Full(idx) => idx < snap_count && cursor <= capacity + idx && (self.out.len() > 0 ==> cursor < capacity
                + idx),
        }
    }

    /// Where the next page begins.
    pub open spec fn next(self, capacity: nat, snap_count: u32) -> Option<u32> {
        match self.at {
            PageAt::Done => None,
            PageAt::Stopped(c) => Some(c),
            PageAt::Snapshot(idx) => if idx < snap_count {
                Some((capacity + idx) as u32)
            } else {
                None
            },
            PageAt::Full(idx) => Some((capacity + idx) as u32),
        }
    }

    /// Not even one entry fitted. The next page would be the same.
    pub open spec fn is_stalled(self, capacity: nat) -> bool {
        self.out.len() == 0 && match self.at {
            PageAt::Stopped(c) => c < capacity,
            PageAt::Full(_) => true,
            _ => false,
        }
    }

    /// The page with where to go on, or that the buffer cannot hold it.
    pub open spec fn finished(self, capacity: nat, snap_count: u32) -> Result<Seq<u8>, i32> {
        let next = self.next(capacity, snap_count);
        if self.is_stalled(capacity) || (self.out.len() == 0 && next is Some && self.room < CURSOR_RECORD_BYTES + 3) {
            Err(E_INVAL)
        } else {
            match next {
                Some(at) => if self.out.len() + 6 > self.room {
                    Err(E_INVAL)
                } else {
                    Ok(self.out + seq![0xFFu8, 4u8] + bytes::le32(at))
                },
                None => if self.out.len() + 2 > self.room {
                    Err(E_INVAL)
                } else {
                    Ok(self.out + seq![0xFFu8, 0u8])
                },
            }
        }
    }
}

/// A page that goes on goes on behind where it began, whatever the snapshot answers: no
/// caller that follows the cursor asks forever.
pub proof fn lemma_page_goes_on(
    a: Arena,
    snap_active: bool,
    snap_count: u32,
    prefix: Seq<u8>,
    cursor: u32,
    room: nat,
    answers: Seq<Option<Record>>,
)
    requires
        snap_active || cursor < a.slots.len(),
        a.slots.len() + snap_count <= u32::MAX,
    ensures
        ({
            let page = Page::begin(a, snap_active, snap_count, prefix, cursor, room).fed(a, snap_count, answers);
            page.wants(snap_count) is None && page.finished(a.slots.len(), snap_count) is Ok ==> (page.next(
                a.slots.len(),
                snap_count,
            ) matches Some(c) ==> cursor < c)
        }),
{
    let begun = Page::begin(a, snap_active, snap_count, prefix, cursor, room);
    if cursor < a.slots.len() {
        lemma_page_of_table(a.slots, prefix, cursor as int, Seq::empty(), room);
        assert(entries_of(a.slots, prefix, cursor as int, cursor as int) =~= Seq::empty());
    }
    lemma_fed_is_past(begun, a, snap_count, cursor, answers);
}

/// A cursor behind the table, where there is no snapshot, is none that a listing gave out
/// with the snapshot as it is. Both listings answer it with an empty page that goes on at
/// the same cursor.
pub proof fn lemma_page_behind_the_table(
    t: Table,
    snap_count: u32,
    prefix: Seq<u8>,
    root: Seq<u8>,
    cursor: u32,
    max: u8,
    room: nat,
)
    requires
        !t.snap_active,
        t.arena.slots.len() <= cursor,
    ensures
        ({
            let page = Page::begin(t.arena, t.snap_active, snap_count, prefix, cursor, room);
            let walk = namespace_reads::Walk::begin(t, snap_count, root, cursor, max);
            &&& page.wants(snap_count) is None
            &&& page.finished(t.arena.slots.len(), snap_count) == if room < CURSOR_RECORD_BYTES + 3 {
                Err::<Seq<u8>, i32>(E_INVAL)
            } else {
                Ok::<Seq<u8>, i32>(seq![0xFFu8, 4u8] + bytes::le32(cursor))
            }
            &&& walk.wants(snap_count) is None
            &&& walk.paths.len() == 0
            &&& walk.cursor(t.arena.slots.len(), snap_count) == cursor
        }),
{
    let page = Page::begin(t.arena, t.snap_active, snap_count, prefix, cursor, room);
    assert(page.out + seq![0xFFu8, 4u8] + bytes::le32(cursor) =~= seq![0xFFu8, 4u8] + bytes::le32(cursor));
}

proof fn lemma_fed_is_past(page: Page, a: Arena, snap_count: u32, cursor: u32, answers: Seq<Option<Record>>)
    requires
        page.is_past(cursor, a.slots.len(), snap_count),
    ensures
        page.fed(a, snap_count, answers).is_past(cursor, a.slots.len(), snap_count),
    decreases answers.len(),
{
    if answers.len() > 0 {
        lemma_fed_is_past(page, a, snap_count, cursor, answers.drop_last());
    }
}

/// A page in the making.
pub struct ListPage {
    prefix: Vec<u8>,
    room: usize,
    out: Vec<u8>,
    at: PageAt,
}

impl View for ListPage {
    type V = Page;

    closed spec fn view(&self) -> Page {
        Page { prefix: self.prefix@, room: self.room as nat, out: self.out@, at: self.at }
    }
}

impl ListPage {
    /// Begin a page at a cursor.
    pub fn begin<const N: usize>(
        table: &NamespaceTable<N>,
        snap_count: u32,
        prefix: &[u8],
        cursor: u32,
        room: usize,
    ) -> (r: Self)
        requires
            table.wf(),
            N <= u32::MAX,
        ensures
            r@ == Page::begin(table@.arena, table@.snap_active, snap_count, prefix@, cursor, room as nat),
    {
        let capacity: u32 = N as u32;
        let mut out: Vec<u8> = Vec::new();
        if cursor >= capacity {
            return ListPage {
                prefix: bytes::to_vec(prefix),
                room,
                out,
                at: if table.snap_active {
                    PageAt::Snapshot(cursor - capacity)
                } else {
                    PageAt::Stopped(cursor)
                },
            };
        }
        let ghost s = table@.arena.slots;
        let mut i: usize = cursor as usize;
        let mut stop: Option<u32> = None;
        assert(out@ =~= Seq::empty());
        while i < N && stop.is_none()
            invariant
                cursor <= i <= N,
                N <= u32::MAX,
                table.wf(),
                s == table@.arena.slots,
                match stop {
                    None => list_table(s, prefix@, cursor as int, Seq::empty(), room as nat) == list_table(
                        s,
                        prefix@,
                        i as int,
                        out@,
                        room as nat,
                    ),
                    Some(c) => list_table(s, prefix@, cursor as int, Seq::empty(), room as nat) == (
                        out@,
                        Some(c as int),
                    ),
                },
            decreases N - i + if stop.is_none() {
                1int
            } else {
                0int
            },
        {
            match table.bindings.slot_ref(i) {
                Some(slot) => {
                    if slot.occupied && slot.kind != namespace_pic_state::KIND_TOMBSTONE && slot.root().len() == 0
                        && bytes::starts_with(slot.path(), prefix) {
                        assert(slot@.unwrap().root =~= Seq::empty());
                        assert(namespace_pic_state::is_listed(s[i as int], Seq::empty(), prefix@));
                        if list_take(&mut out, slot.path(), slot.kind, room) {
                            i += 1;
                        } else {
                            stop = Some(i as u32);
                        }
                    } else {
                        assert(!namespace_pic_state::is_listed(s[i as int], Seq::empty(), prefix@));
                        i += 1;
                    }
                },
                None => {
                    i += 1;
                },
            }
        }
        ListPage {
            prefix: bytes::to_vec(prefix),
            room,
            out,
            at: match stop {
                Some(c) => PageAt::Stopped(c),
                None => if table.snap_active && snap_count > 0 {
                    PageAt::Snapshot(0)
                } else {
                    PageAt::Done
                },
            },
        }
    }

    /// The record that is needed next.
    pub fn wants(&self, snap_count: u32) -> (r: Option<u32>)
        ensures
            r == self@.wants(snap_count),
    {
        match self.at {
            PageAt::Snapshot(idx) => if idx < snap_count {
                Some(idx)
            } else {
                None
            },
            _ => None,
        }
    }

    /// Take the record that was needed.
    pub fn feed<const N: usize>(&mut self, table: &NamespaceTable<N>, snap_count: u32, rec: Option<&SnapRecord>)
        requires
            table.wf(),
            old(self)@.wants(snap_count) is Some,
            rec matches Some(r) ==> loam_snapshot::lengths_fit(r@),
        ensures
            final(self)@ == old(self)@.feed(table@.arena, snap_count, namespace_apply::read_record(rec)),
    {
        let idx: u32 = match self.at {
            PageAt::Snapshot(i) => i,
            _ => {
                return;
            },
        };
        match rec {
            None => {
                self.at = PageAt::Snapshot(snap_count);
            },
            Some(r) => {
                let none: [u8; 0] = [];
                assert(none@ =~= Seq::<u8>::empty());
                assert(r.root_len == 0 <==> loam_snapshot::record_root(r@) =~= Seq::<u8>::empty());
                if r.ns_hash == loam_hash::fnv1a64(none.as_slice()) && r.root_len == 0 && bytes::starts_with(
                    r.path(),
                    self.prefix.as_slice(),
                ) && table.bindings.lookup_hashed(r.ns_hash, r.path_hash, r.root(), r.path()).is_none() {
                    if list_take(&mut self.out, r.path(), r.kind, self.room) {
                        self.at = PageAt::Snapshot(idx + 1);
                    } else {
                        self.at = PageAt::Full(idx);
                    }
                } else {
                    self.at = PageAt::Snapshot(idx + 1);
                }
            },
        }
    }

    /// Where the next page begins.
    pub fn next(&self, capacity: u32, snap_count: u32) -> (r: Option<u32>)
        requires
            capacity + snap_count <= u32::MAX,
            self@.at matches PageAt::Full(idx) ==> idx < snap_count,
        ensures
            r == self@.next(capacity as nat, snap_count),
    {
        match self.at {
            PageAt::Done => None,
            PageAt::Stopped(c) => Some(c),
            PageAt::Snapshot(idx) => if idx < snap_count {
                Some(capacity + idx)
            } else {
                None
            },
            PageAt::Full(idx) => Some(capacity + idx),
        }
    }

    /// The page with where to go on.
    pub fn finish(&self, capacity: u32, snap_count: u32) -> (r: Result<Vec<u8>, i32>)
        requires
            capacity + snap_count <= u32::MAX,
            self@.at matches PageAt::Full(idx) ==> idx < snap_count,
        ensures
            match r {
                Ok(bytes) => self@.finished(capacity as nat, snap_count) == Ok::<Seq<u8>, i32>(bytes@),
                Err(e) => self@.finished(capacity as nat, snap_count) == Err::<Seq<u8>, i32>(e),
            },
    {
        let next: Option<u32> = self.next(capacity, snap_count);
        let unfit: bool = match self.at {
            PageAt::Stopped(c) => c < capacity,
            PageAt::Full(_) => true,
            _ => false,
        };
        if self.out.len() == 0 && (unfit || (next.is_some() && self.room < 9)) {
            return Err(E_INVAL);
        }
        let mut out: Vec<u8> = bytes::to_vec(self.out.as_slice());
        match next {
            Some(at) => {
                if self.room < 6 || out.len() > self.room - 6 {
                    return Err(E_INVAL);
                }
                out.push(0xFF);
                out.push(4);
                let mut buf: [u8; 4] = [0u8; 4];
                bytes::put_u32(&mut buf, 0, at);
                proof {
                    reveal(bytes::splice);
                    assert(buf@ =~= bytes::le32(at));
                }
                bytes::append(&mut out, buf.as_slice());
                assert(out@ =~= self@.out + seq![0xFFu8, 4u8] + bytes::le32(at));
            },
            None => {
                if self.room < 2 || out.len() > self.room - 2 {
                    return Err(E_INVAL);
                }
                out.push(0xFF);
                out.push(0);
                assert(out@ =~= self@.out + seq![0xFFu8, 0u8]);
            },
        }
        Ok(out)
    }
}

} // verus!
