//! A store of blobs on disk, addressed by their digests.
//!
//! A blob is acknowledged only once its bytes and its name are durable; a deletion only
//! once the file is provably gone. A blob that the table does not know is served only
//! if its bytes belong to the key. A streamed write is published only if every byte
//! arrived and the digest is the one that was promised.
//!
//! The disk is not touched here: a `StoreAction` says what to do, and the outcome is
//! handed back. The answer to a request stays owed until the channel has taken it.
use crate::body_names;
use crate::body_names::{DirEntry, PublishTier};
use crate::body_slots;
use crate::body_slots::{Blob, BodySlots};
use crate::bytes;
use crate::loam_body_wire;
use crate::loam_ec_wire;
use crate::loam_extent_wire;
use crate::loam_limits;
use crate::sha256;
use crate::sha256::Sha256;
use vstd::prelude::*;

verus! {

/// How many requests one step takes.
pub const MAX_OPS_PER_STEP: u32 = loam_limits::OPS_PER_STEP;

/// How many blobs can be known.
pub const BODY_SLOTS: usize = loam_limits::BODY_SLOTS;

/// How many streamed writes there can be.
pub const WRITE_SESSIONS: usize = loam_limits::WRITE_SESSIONS;

/// A streamed write that is not touched for so many steps is given up.
pub const SESSION_REAP_TICKS: u32 = 120_000;

/// A streamed write, or a free place.
pub struct WriteSession {
    pub in_use: bool,
    /// Every byte has arrived, and the file is being published.
    pub sealed: bool,
    pub fd: i32,
    pub expect: [u8; 32],
    pub total_len: u64,
    pub written: u64,
    pub last_tick: u32,
    pub hasher: Sha256,
}

/// What a streamed write holds.
pub ghost struct Session {
    pub in_use: bool,
    pub sealed: bool,
    pub fd: i32,
    pub expect: Seq<u8>,
    pub total_len: u64,
    pub written: u64,
    pub last_tick: u32,
    /// What has arrived.
    pub data: Seq<u8>,
}

impl View for WriteSession {
    type V = Session;

    open spec fn view(&self) -> Session {
        Session {
            in_use: self.in_use,
            sealed: self.sealed,
            fd: self.fd,
            expect: self.expect@,
            total_len: self.total_len,
            written: self.written,
            last_tick: self.last_tick,
            data: self.hasher@,
        }
    }
}

impl Session {
    /// Bytes can be added.
    pub open spec fn is_open(self) -> bool {
        self.in_use && !self.sealed
    }

    /// The count of what has arrived is right, and no more arrived than was announced.
    pub open spec fn wf(self) -> bool {
        self.is_open() ==> self.written == self.data.len() && self.written <= self.total_len
            <= loam_body_wire::MAX_STREAM_TOTAL
    }
}

/// How often what happened.
#[derive(Debug, Clone, Copy, PartialEq, Eq, Structural)]
pub struct Counts {
    pub puts: u32,
    pub gets: u32,
    pub heads: u32,
    pub deletes: u32,
    pub scans: u32,
    pub ranges: u32,
    pub stream_opens: u32,
    pub stream_commits: u32,
    pub stream_aborts: u32,
    pub rehydrated: u32,
    pub apply_errors: u32,
}

/// What is to be done on disk.
pub enum StoreAction {
    /// Nothing; an answer may be owed.
    Done,
    /// Write a blob and publish it: under another name first and then renamed, or in
    /// place, after what is there was removed.
    Publish {
        digest: [u8; 32],
        path: Vec<u8>,
        staging: Option<Vec<u8>>,
        replace: bool,
        keyed: bool,
        body: Vec<u8>,
    },
    /// Read a blob, to its end or up to its size.
    Read { digest: [u8; 32], path: Vec<u8>, size: Option<u32> },
    /// Look at the size and the first bytes of a blob.
    Stat { digest: [u8; 32], path: Vec<u8> },
    /// Remove a blob, and make that durable if that is possible.
    Unlink { digest: [u8; 32], path: Vec<u8>, fence: bool },
    /// Go through the directory, and then answer with a page of the inventory.
    Sweep { cursor: u32, max: u8 },
    /// Create the file of a streamed write.
    Open { wid: usize, path: Vec<u8>, digest: [u8; 32], total_len: u64 },
    /// Add to the file of a streamed write.
    Append { wid: usize, fd: i32, chunk: Vec<u8> },
    /// Close and remove the file of a streamed write.
    Discard { fd: i32, path: Option<Vec<u8>> },
    /// Make the bytes of a streamed write durable.
    Sync { wid: usize, fd: i32, digest: [u8; 32] },
    /// Close the file of a streamed write and rename it.
    Rename { fd: i32, from: Vec<u8>, to: Vec<u8>, digest: [u8; 32], written: u64 },
    /// Copy a streamed write to its name, and make bytes and name durable.
    Copy { wid: usize, fd: i32, to: Vec<u8>, digest: [u8; 32], written: u64 },
    /// Read a part of a blob.
    ReadRange { path: Vec<u8>, off: u64, want: u32 },
}

/// What is to be done on disk.
pub ghost enum Act {
    Done,
    Publish {
        digest: Seq<u8>,
        path: Seq<u8>,
        staging: Option<Seq<u8>>,
        replace: bool,
        keyed: bool,
        body: Seq<u8>,
    },
    Read { digest: Seq<u8>, path: Seq<u8>, size: Option<u32> },
    Stat { digest: Seq<u8>, path: Seq<u8> },
    Unlink { digest: Seq<u8>, path: Seq<u8>, fence: bool },
    Sweep { cursor: u32, max: u8 },
    Open { wid: int, path: Seq<u8>, digest: Seq<u8>, total_len: u64 },
    Append { wid: int, fd: i32, chunk: Seq<u8> },
    Discard { fd: i32, path: Option<Seq<u8>> },
    Sync { wid: int, fd: i32, digest: Seq<u8> },
    Rename { fd: i32, from: Seq<u8>, to: Seq<u8>, digest: Seq<u8>, written: u64 },
    Copy { wid: int, fd: i32, to: Seq<u8>, digest: Seq<u8>, written: u64 },
    ReadRange { path: Seq<u8>, off: u64, want: u32 },
}

pub open spec fn view_of(v: Option<Vec<u8>>) -> Option<Seq<u8>> {
    match v {
        Some(b) => Some(b@),
        None => None,
    }
}

impl StoreAction {
    pub open spec fn model(self) -> Act {
        match self {
            StoreAction::Done => Act::Done,
            StoreAction::Publish { digest, path, staging, replace, keyed, body } => Act::Publish {
                digest: digest@,
                path: path@,
                staging: view_of(staging),
                replace,
                keyed,
                body: body@,
            },
            StoreAction::Read { digest, path, size } => Act::Read { digest: digest@, path: path@, size },
            StoreAction::Stat { digest, path } => Act::Stat { digest: digest@, path: path@ },
            StoreAction::Unlink { digest, path, fence } => Act::Unlink { digest: digest@, path: path@, fence },
            StoreAction::Sweep { cursor, max } => Act::Sweep { cursor, max },
            StoreAction::Open { wid, path, digest, total_len } => Act::Open {
                wid: wid as int,
                path: path@,
                digest: digest@,
                total_len,
            },
            StoreAction::Append { wid, fd, chunk } => Act::Append { wid: wid as int, fd, chunk: chunk@ },
            StoreAction::Discard { fd, path } => Act::Discard { fd, path: view_of(path) },
            StoreAction::Sync { wid, fd, digest } => Act::Sync { wid: wid as int, fd, digest: digest@ },
            StoreAction::Rename { fd, from, to, digest, written } => Act::Rename {
                fd,
                from: from@,
                to: to@,
                digest: digest@,
                written,
            },
            StoreAction::Copy { wid, fd, to, digest, written } => Act::Copy {
                wid: wid as int,
                fd,
                to: to@,
                digest: digest@,
                written,
            },
            StoreAction::ReadRange { path, off, want } => Act::ReadRange { path: path@, off, want },
        }
    }
}

/// What came of publishing a blob.
#[derive(Debug, Clone, Copy, PartialEq, Eq, Structural)]
pub enum PublishOutcome {
    Published,
    /// There is no such directory.
    NoRoot,
    Failed,
}

/// What is to be done with an entry of the directory.
pub enum SweepAction {
    Skip,
    /// Remove a file that nothing will finish.
    Remove { path: Vec<u8> },
    /// Look at the size and the first bytes of a blob.
    Look { digest: [u8; 32], path: Vec<u8> },
}

/// What is to be done with an entry of the directory.
pub ghost enum Sweep {
    Skip,
    Remove { path: Seq<u8> },
    Look { digest: Seq<u8>, path: Seq<u8> },
}

impl SweepAction {
    pub open spec fn model(self) -> Sweep {
        match self {
            SweepAction::Skip => Sweep::Skip,
            SweepAction::Remove { path } => Sweep::Remove { path: path@ },
            SweepAction::Look { digest, path } => Sweep::Look { digest: digest@, path: path@ },
        }
    }
}

/// What the store holds.
pub ghost struct Store {
    pub root: Seq<u8>,
    pub slots: Seq<Option<Blob>>,
    pub sessions: Seq<Session>,
    /// What the provider can do, once it has said so.
    pub caps: Option<u32>,
    /// How blobs are published has been said.
    pub tier_reported: bool,
    /// How many requests this step has taken.
    pub handled: u32,
    pub ticks: u32,
    /// What the channel has not taken of an answer.
    pub owed: Seq<u8>,
    pub counts: Counts,
}

/// The first free place for a streamed write, from `from` on.
pub open spec fn free_session(s: Seq<Session>, from: int) -> Option<int>
    decreases s.len() - from,
{
    if from < 0 || from >= s.len() {
        None
    } else if !s[from].in_use {
        Some(from)
    } else {
        free_session(s, from + 1)
    }
}

/// The bytes belong to the key: they hash to it, or they say themselves that they were
/// stored under it. With whether it is the latter.
pub open spec fn belongs(body: Seq<u8>, key: Seq<u8>) -> Option<bool> {
    if sha256::digest(body) == key {
        Some(false)
    } else if loam_ec_wire::is_shard_under(body, key) || (loam_extent_wire::extent_parse(body) matches Some(p) && p.0
        == key) {
        Some(true)
    } else {
        None
    }
}

/// How much of a part of a blob can be read.
pub open spec fn range_len(off: u64, want: u32, size: u32) -> int {
    if off >= size {
        0
    } else {
        let most = if want < loam_body_wire::MAX_BODY {
            want as int
        } else {
            loam_body_wire::MAX_BODY as int
        };
        if most < size - off {
            most
        } else {
            size - off
        }
    }
}

impl Store {
    /// What every operation keeps.
    pub open spec fn wf(self) -> bool {
        &&& self.root.len() <= body_names::ROOT_DIR_BUF
        &&& body_slots::sound(self.slots)
        &&& self.sessions.len() == WRITE_SESSIONS
        &&& forall|i: int| 0 <= i < self.sessions.len() ==> (#[trigger] self.sessions[i]).wf()
    }

    pub open spec fn respond(self, bytes: Seq<u8>) -> Store {
        Store { owed: bytes, ..self }
    }

    pub open spec fn failed(self) -> Store {
        Store { counts: Counts { apply_errors: self.counts.apply_errors.wrapping_add(1), ..self.counts }, ..self }
    }

    /// A request is refused.
    pub open spec fn nak(self, errno: u8) -> Store {
        self.respond(loam_body_wire::nak_frame(errno)).failed()
    }

    pub open spec fn put_counted(self) -> Store {
        Store { counts: Counts { puts: self.counts.puts.wrapping_add(1), ..self.counts }, ..self }
    }

    /// Publishing a blob.
    pub open spec fn publish(self, digest: Seq<u8>, body: Seq<u8>, keyed: bool) -> (Store, Act) {
        let tier = body_names::tier_of(self.caps);
        match body_names::body_path(self.root, digest) {
            Some(path) => if tier == PublishTier::Unavailable {
                (self.nak(loam_body_wire::ERR_IO).failed(), Act::Done)
            } else {
                (
                    self,
                    Act::Publish {
                        digest,
                        path,
                        staging: if tier == PublishTier::Rename {
                            body_names::pub_path(self.root, digest)
                        } else {
                            None
                        },
                        replace: keyed && tier == PublishTier::NameFence,
                        keyed,
                        body,
                    },
                )
            },
            None => (self.nak(loam_body_wire::ERR_IO).failed(), Act::Done),
        }
    }

    /// A request to store a blob under its digest.
    pub open spec fn put(self, request: Seq<u8>) -> (Store, Act) {
        if self.root.len() == 0 {
            (self.nak(loam_body_wire::ERR_NO_ROOT), Act::Done)
        } else {
            match loam_body_wire::put_req_parse(request) {
                Err(loam_body_wire::WireError::BodyTooLarge { .. }) => (
                    self.nak(loam_body_wire::ERR_TOO_LARGE),
                    Act::Done,
                ),
                Err(_) => (self.nak(loam_body_wire::ERR_BAD_REQ), Act::Done),
                Ok(body) => {
                    let digest = sha256::digest(body);
                    if body_slots::get(self.slots, digest) is Some {
                        (self.respond(loam_body_wire::put_resp_frame(digest)).put_counted(), Act::Done)
                    } else {
                        self.publish(digest, body, false)
                    }
                },
            }
        }
    }

    /// A request to store a blob under a key.
    pub open spec fn put_keyed(self, request: Seq<u8>) -> (Store, Act) {
        if self.root.len() == 0 {
            (self.nak(loam_body_wire::ERR_NO_ROOT), Act::Done)
        } else {
            match loam_body_wire::put_keyed_req_parse(request) {
                Err(loam_body_wire::WireError::BodyTooLarge { .. }) => (
                    self.nak(loam_body_wire::ERR_TOO_LARGE),
                    Act::Done,
                ),
                Err(_) => (self.nak(loam_body_wire::ERR_BAD_REQ), Act::Done),
                Ok((key, body)) => self.publish(key, body, true),
            }
        }
    }

    /// A blob was published, or could not be. Without the directory it says so.
    pub open spec fn published(self, digest: Seq<u8>, size: u32, keyed: bool, outcome: PublishOutcome) -> Store {
        let (slots, noted) = body_slots::recorded(self.slots, digest, size, keyed);
        if outcome == PublishOutcome::NoRoot {
            self.nak(loam_body_wire::ERR_NO_ROOT)
        } else if outcome == PublishOutcome::Published && noted {
            Store { slots, ..self }.respond(
                if keyed {
                    loam_body_wire::put_keyed_resp_frame(digest)
                } else {
                    loam_body_wire::put_resp_frame(digest)
                },
            ).put_counted()
        } else {
            self.nak(loam_body_wire::ERR_IO).failed()
        }
    }

    /// A request for a blob.
    pub open spec fn get(self, request: Seq<u8>) -> (Store, Act) {
        if self.root.len() == 0 {
            (self.nak(loam_body_wire::ERR_NO_ROOT), Act::Done)
        } else {
            match loam_body_wire::get_req_parse(request) {
                Err(_) => (self.nak(loam_body_wire::ERR_BAD_REQ), Act::Done),
                Ok(digest) => {
                    let size = match body_slots::get(self.slots, digest) {
                        Some(b) => Some(b.size),
                        None => None,
                    };
                    if size is Some && size.unwrap() > loam_body_wire::MAX_BODY {
                        (self.nak(loam_body_wire::ERR_TOO_LARGE), Act::Done)
                    } else {
                        match body_names::body_path(self.root, digest) {
                            None => (self.nak(loam_body_wire::ERR_IO), Act::Done),
                            Some(path) => (self, Act::Read { digest, path, size }),
                        }
                    }
                },
            }
        }
    }

    /// What was read of a blob; `None` where there is no file. What the table does not
    /// know is served only if it belongs to the key, and is then known.
    pub open spec fn got(self, digest: Seq<u8>, size: Option<u32>, body: Option<Seq<u8>>) -> Store {
        match body {
            None => self.nak(loam_body_wire::ERR_NOT_FOUND),
            Some(b) => {
                let served = self.respond(loam_body_wire::get_resp_frame(b));
                let counted = Store {
                    counts: Counts { gets: self.counts.gets.wrapping_add(1), ..self.counts },
                    ..served
                };
                match size {
                    Some(n) => if b.len() != n {
                        self.nak(loam_body_wire::ERR_IO)
                    } else {
                        counted
                    },
                    None => match belongs(b, digest) {
                        None => self.nak(loam_body_wire::ERR_NOT_FOUND),
                        Some(keyed) => Store {
                            slots: body_slots::recorded(self.slots, digest, b.len() as u32, keyed).0,
                            ..counted
                        },
                    },
                }
            },
        }
    }

    pub open spec fn head_answer(self, size: u64) -> Store {
        Store {
            counts: Counts { heads: self.counts.heads.wrapping_add(1), ..self.counts },
            ..self.respond(loam_body_wire::head_resp_frame(size))
        }
    }

    /// A request for the size of a blob.
    pub open spec fn head(self, request: Seq<u8>) -> (Store, Act) {
        match loam_body_wire::head_req_parse(request) {
            Err(_) => (self.nak(loam_body_wire::ERR_BAD_REQ), Act::Done),
            Ok(digest) => match body_slots::get(self.slots, digest) {
                Some(b) => (self.head_answer(b.size as u64), Act::Done),
                None => match body_names::body_path(self.root, digest) {
                    None => (self.nak(loam_body_wire::ERR_IO), Act::Done),
                    Some(path) => (self, Act::Stat { digest, path }),
                },
            },
        }
    }

    /// What was seen of a blob that the table does not know: its size and its first bytes.
    /// One that is too large to be read at once is not answered for.
    pub open spec fn headed(self, digest: Seq<u8>, seen: Option<(u32, Seq<u8>)>) -> Store {
        match seen {
            None => self.nak(loam_body_wire::ERR_NOT_FOUND),
            Some((size, magic)) => if size > loam_body_wire::MAX_BODY {
                self.nak(loam_body_wire::ERR_TOO_LARGE)
            } else {
                Store {
                    slots: body_slots::recorded(self.slots, digest, size, loam_extent_wire::is_keyed_magic(magic)).0,
                    ..self
                }.head_answer(size as u64)
            },
        }
    }

    /// A request to remove a blob.
    pub open spec fn delete(self, request: Seq<u8>) -> (Store, Act) {
        match loam_body_wire::delete_req_parse(request) {
            Err(_) => (self.nak(loam_body_wire::ERR_BAD_REQ), Act::Done),
            Ok(digest) => if self.root.len() == 0 {
                (self.deleted(digest, false, true), Act::Done)
            } else {
                match body_names::body_path(self.root, digest) {
                    None => (self.nak(loam_body_wire::ERR_IO), Act::Done),
                    Some(path) => (
                        self,
                        Act::Unlink {
                            digest,
                            path,
                            fence: self.caps is Some && self.caps.unwrap() & body_names::CAP_FSYNC_NAME != 0,
                        },
                    ),
                }
            },
        }
    }

    /// What came of removing a blob: whether there was a file to remove, and whether it
    /// is provably gone.
    pub open spec fn deleted(self, digest: Seq<u8>, unlinked: bool, gone: bool) -> Store {
        if !gone {
            self.failed().nak(loam_body_wire::ERR_IO)
        } else {
            let existed = unlinked || body_slots::get(self.slots, digest) is Some;
            Store {
                slots: body_slots::cleared(self.slots, digest),
                counts: Counts { deletes: self.counts.deletes.wrapping_add(1), ..self.counts },
                ..self.respond(loam_body_wire::delete_resp_frame(existed))
            }
        }
    }

    /// A request for a page of the inventory. The first page asks for the directory.
    pub open spec fn scan(self, request: Seq<u8>) -> (Store, Act) {
        match loam_body_wire::scan_req_parse(request) {
            Err(_) => (self.nak(loam_body_wire::ERR_BAD_REQ), Act::Done),
            Ok((cursor, max)) => if cursor == 0 && self.root.len() != 0 {
                (self, Act::Sweep { cursor, max })
            } else {
                (self.scanned(cursor, max), Act::Done)
            },
        }
    }

    pub open spec fn scanned(self, cursor: u32, max: u8) -> Store {
        Store {
            counts: Counts { scans: self.counts.scans.wrapping_add(1), ..self.counts },
            ..self.respond(body_slots::scan_answer(self.slots, cursor, max))
        }
    }

    /// Giving up a streamed write.
    pub open spec fn discard(self, wid: int) -> (Store, Act) {
        let s = self.sessions[wid];
        (
            Store { sessions: self.sessions.update(wid, Session { in_use: false, fd: -1i32, ..s }), ..self },
            if s.fd >= 0 {
                Act::Discard { fd: s.fd, path: body_names::wip_path(self.root, wid as u8) }
            } else {
                Act::Done
            },
        )
    }

    /// The streamed write can be added to.
    pub open spec fn has_session(self, wid: int) -> bool {
        0 <= wid < self.sessions.len() && self.sessions[wid].is_open()
    }

    /// A request to begin a streamed write.
    pub open spec fn wopen(self, request: Seq<u8>) -> (Store, Act) {
        if self.root.len() == 0 {
            (self.nak(loam_body_wire::ERR_NO_ROOT), Act::Done)
        } else {
            match loam_body_wire::wopen_req_parse(request) {
                Err(_) => (self.nak(loam_body_wire::ERR_BAD_REQ), Act::Done),
                Ok((digest, total_len)) => if total_len == 0 || total_len > loam_body_wire::MAX_STREAM_TOTAL {
                    (self.nak(loam_body_wire::ERR_TOO_LARGE), Act::Done)
                } else {
                    match free_session(self.sessions, 0) {
                        None => (self.nak(loam_body_wire::ERR_IO), Act::Done),
                        Some(wid) => match body_names::wip_path(self.root, wid as u8) {
                            None => (self.nak(loam_body_wire::ERR_IO), Act::Done),
                            Some(path) => (self, Act::Open { wid, path, digest, total_len }),
                        },
                    }
                },
            }
        }
    }

    /// The file of a streamed write was created, or could not be.
    pub open spec fn wopened(self, wid: int, digest: Seq<u8>, total_len: u64, fd: i32) -> Store {
        if fd < 0 {
            self.nak(loam_body_wire::ERR_IO)
        } else {
            Store {
                sessions: self.sessions.update(
                    wid,
                    Session {
                        in_use: true,
                        sealed: false,
                        fd,
                        expect: digest,
                        total_len,
                        written: 0,
                        last_tick: self.ticks,
                        data: Seq::empty(),
                    },
                ),
                counts: Counts { stream_opens: self.counts.stream_opens.wrapping_add(1), ..self.counts },
                ..self.respond(loam_body_wire::wopen_resp_frame(wid as u8))
            }
        }
    }

    /// A request to add to a streamed write. More than was announced ends it.
    pub open spec fn wappend(self, request: Seq<u8>) -> (Store, Act) {
        match loam_body_wire::wappend_req_parse(request) {
            Err(_) => (self.nak(loam_body_wire::ERR_BAD_REQ), Act::Done),
            Ok((wid, chunk)) => if !self.has_session(wid as int) {
                (self.nak(loam_body_wire::ERR_BAD_REQ), Act::Done)
            } else {
                let s = self.sessions[wid as int];
                if s.written + chunk.len() > s.total_len {
                    let (t, act) = self.discard(wid as int);
                    (t.nak(loam_body_wire::ERR_TOO_LARGE), act)
                } else {
                    (self, Act::Append { wid: wid as int, fd: s.fd, chunk })
                }
            },
        }
    }

    /// Bytes were added to the file of a streamed write, or could not be.
    pub open spec fn wappended(self, wid: int, chunk: Seq<u8>, ok: bool) -> (Store, Act) {
        if !ok {
            let (t, act) = self.discard(wid);
            (t.nak(loam_body_wire::ERR_IO), act)
        } else {
            let s = self.sessions[wid];
            (
                Store {
                    sessions: self.sessions.update(
                        wid,
                        Session {
                            data: s.data + chunk,
                            written: (s.written + chunk.len()) as u64,
                            last_tick: self.ticks,
                            ..s
                        },
                    ),
                    ..self.respond(loam_body_wire::wappend_resp_frame(wid as u8))
                },
                Act::Done,
            )
        }
    }

    /// Every byte of a streamed write arrived, and they hash to what was promised.
    pub open spec fn is_whole(self, wid: int) -> bool {
        let s = self.sessions[wid];
        s.written == s.total_len && sha256::digest(s.data) == s.expect
    }

    /// No byte is added to a streamed write any more.
    pub open spec fn sealed(self, wid: int) -> Store {
        Store {
            sessions: self.sessions.update(
                wid,
                Session { sealed: true, data: Seq::empty(), ..self.sessions[wid] },
            ),
            ..self
        }
    }

    /// Giving up a streamed write that was sealed.
    pub open spec fn unsealed(self, wid: int) -> (Store, Act) {
        let (t, act) = self.discard(wid);
        (
            Store { sessions: t.sessions.update(wid, Session { sealed: false, ..t.sessions[wid] }), ..t },
            act,
        )
    }

    /// A request to publish a streamed write. Only what is whole, and hashes to what was
    /// promised, goes on.
    pub open spec fn wcommit(self, request: Seq<u8>) -> (Store, Act) {
        match loam_body_wire::wid_parse(request, loam_body_wire::OP_WCOMMIT) {
            Err(_) => (self.nak(loam_body_wire::ERR_BAD_REQ), Act::Done),
            Ok(wid) => if !self.has_session(wid as int) {
                (self.nak(loam_body_wire::ERR_BAD_REQ), Act::Done)
            } else {
                let t = self.sealed(wid as int);
                if !self.is_whole(wid as int) {
                    let (u, act) = t.unsealed(wid as int);
                    (u.nak(loam_body_wire::ERR_BAD_REQ).failed(), act)
                } else {
                    let s = self.sessions[wid as int];
                    (t, Act::Sync { wid: wid as int, fd: s.fd, digest: s.expect })
                }
            },
        }
    }

    /// The bytes of a streamed write are durable, or could not be made so.
    pub open spec fn wsynced(self, wid: int, digest: Seq<u8>, ok: bool) -> (Store, Act) {
        let s = self.sessions[wid];
        let tier = body_names::tier_of(self.caps);
        let to = body_names::body_path(self.root, digest);
        let from = body_names::wip_path(self.root, wid as u8);
        let (t, act) = self.discard(wid);
        if !ok || to is None {
            (t.nak(loam_body_wire::ERR_IO), act)
        } else if tier == PublishTier::Unavailable {
            (t.nak(loam_body_wire::ERR_IO).failed(), act)
        } else if tier == PublishTier::Rename {
            if from is None {
                (t.nak(loam_body_wire::ERR_IO), act)
            } else {
                (
                    t,
                    Act::Rename { fd: s.fd, from: from.unwrap(), to: to.unwrap(), digest, written: s.written },
                )
            }
        } else {
            (self, Act::Copy { wid, fd: s.fd, to: to.unwrap(), digest, written: s.written })
        }
    }

    /// A streamed write was published, or could not be.
    pub open spec fn wpublished(self, digest: Seq<u8>, written: u64, ok: bool) -> Store {
        if !ok {
            self.nak(loam_body_wire::ERR_IO)
        } else {
            Store {
                slots: body_slots::recorded(
                    self.slots,
                    digest,
                    if written <= u32::MAX {
                        written as u32
                    } else {
                        u32::MAX
                    },
                    false,
                ).0,
                counts: Counts { stream_commits: self.counts.stream_commits.wrapping_add(1), ..self.counts },
                ..self.respond(loam_body_wire::wcommit_resp_frame(digest))
            }
        }
    }

    /// A streamed write was copied to its name, or could not be; its own file goes.
    pub open spec fn wcopied(self, wid: int, digest: Seq<u8>, written: u64, ok: bool) -> (Store, Act) {
        let (t, act) = self.discard(wid);
        (t.wpublished(digest, written, ok), act)
    }

    /// A request to give up a streamed write.
    pub open spec fn wabort(self, request: Seq<u8>) -> (Store, Act) {
        match loam_body_wire::wid_parse(request, loam_body_wire::OP_WABORT) {
            Err(_) => (self.nak(loam_body_wire::ERR_BAD_REQ), Act::Done),
            Ok(wid) => if !self.has_session(wid as int) {
                (self.respond(loam_body_wire::wabort_resp_frame()), Act::Done)
            } else {
                let (t, act) = self.discard(wid as int);
                (
                    Store {
                        counts: Counts {
                            stream_aborts: self.counts.stream_aborts.wrapping_add(1),
                            ..self.counts
                        },
                        ..t.respond(loam_body_wire::wabort_resp_frame())
                    },
                    act,
                )
            },
        }
    }

    /// A request for a part of a blob.
    pub open spec fn range(self, request: Seq<u8>) -> (Store, Act) {
        if self.root.len() == 0 {
            (self.nak(loam_body_wire::ERR_NO_ROOT), Act::Done)
        } else {
            match loam_body_wire::range_req_parse(request) {
                Err(_) => (self.nak(loam_body_wire::ERR_BAD_REQ), Act::Done),
                Ok((digest, off, want)) => match body_names::body_path(self.root, digest) {
                    None => (self.nak(loam_body_wire::ERR_IO), Act::Done),
                    Some(path) => (self, Act::ReadRange { path, off, want }),
                },
            }
        }
    }

    /// What was read of a part of a blob, or why nothing was.
    pub open spec fn ranged(self, part: Result<Seq<u8>, u8>) -> Store {
        match part {
            Err(errno) => self.nak(errno),
            Ok(p) => Store {
                counts: Counts { ranges: self.counts.ranges.wrapping_add(1), ..self.counts },
                ..self.respond(loam_body_wire::range_resp_frame(p))
            },
        }
    }

    /// What is to be done with an entry of the directory: the file of a streamed write
    /// that is gone and an unfinished publication go, a blob that the table does not
    /// know is looked at.
    pub open spec fn swept(self, is_dir: bool, name: Seq<u8>) -> Sweep {
        if is_dir {
            Sweep::Skip
        } else if body_names::wip_id(name) is Some {
            let wid = body_names::wip_id(name).unwrap();
            if wid < self.sessions.len() && self.sessions[wid].in_use {
                Sweep::Skip
            } else {
                match body_names::wip_path(self.root, wid as u8) {
                    Some(path) => Sweep::Remove { path },
                    None => Sweep::Skip,
                }
            }
        } else if body_names::is_pub_name(name) {
            if self.root.len() + 1 + name.len() <= body_names::PATH_BUF {
                Sweep::Remove { path: self.root + seq![0x2Fu8] + name }
            } else {
                Sweep::Skip
            }
        } else {
            match body_names::name_digest(name) {
                None => Sweep::Skip,
                Some(digest) => if body_slots::get(self.slots, digest) is Some {
                    Sweep::Skip
                } else {
                    match body_names::body_path(self.root, digest) {
                        Some(path) => Sweep::Look { digest, path },
                        None => Sweep::Skip,
                    }
                },
            }
        }
    }

    /// What was seen of a blob in the directory; and whether the sweep goes on.
    pub open spec fn looked(self, digest: Seq<u8>, seen: Option<(u32, Seq<u8>)>) -> (Store, bool) {
        match seen {
            None => (self, true),
            Some((size, magic)) => {
                let (slots, noted) = body_slots::recorded(
                    self.slots,
                    digest,
                    size,
                    loam_extent_wire::is_keyed_magic(magic),
                );
                if noted {
                    (
                        Store {
                            slots,
                            counts: Counts { rehydrated: self.counts.rehydrated.wrapping_add(1), ..self.counts },
                            ..self
                        },
                        true,
                    )
                } else {
                    (self, false)
                }
            },
        }
    }

    /// A streamed write has not been touched for long.
    pub open spec fn is_stale(self, wid: int) -> bool {
        self.sessions[wid].in_use && self.ticks.wrapping_sub(self.sessions[wid].last_tick) > SESSION_REAP_TICKS
    }

    /// A streamed write that has not been touched for long is given up.
    pub open spec fn reap(self, wid: int) -> (Store, Act) {
        if self.is_stale(wid) {
            let (t, act) = self.discard(wid);
            (
                Store {
                    counts: Counts { stream_aborts: self.counts.stream_aborts.wrapping_add(1), ..self.counts },
                    ..t
                },
                act,
            )
        } else {
            (self, Act::Done)
        }
    }

    /// The channel took this much of the answer.
    pub open spec fn sent(self, n: int) -> Store {
        Store {
            owed: if n >= self.owed.len() {
                Seq::empty()
            } else {
                self.owed.skip(n)
            },
            ..self
        }
    }

    /// The step takes another request.
    pub open spec fn takes_more(self) -> bool {
        self.handled < MAX_OPS_PER_STEP && self.owed.len() == 0
    }

    /// Taking a request.
    pub open spec fn take(self, request: Seq<u8>) -> (Store, Act) {
        Store { handled: self.handled.wrapping_add(1), ..self }.serve(request)
    }

    /// Carrying out a request.
    pub open spec fn serve(self, request: Seq<u8>) -> (Store, Act) {
        if request.len() == 0 {
            (self.nak(loam_body_wire::ERR_BAD_REQ), Act::Done)
        } else if request[0] == loam_body_wire::OP_PUT {
            self.put(request)
        } else if request[0] == loam_body_wire::OP_GET {
            self.get(request)
        } else if request[0] == loam_body_wire::OP_HEAD {
            self.head(request)
        } else if request[0] == loam_body_wire::OP_DELETE {
            self.delete(request)
        } else if request[0] == loam_body_wire::OP_SCAN {
            self.scan(request)
        } else if request[0] == loam_body_wire::OP_PUT_KEYED {
            self.put_keyed(request)
        } else if request[0] == loam_body_wire::OP_WOPEN {
            self.wopen(request)
        } else if request[0] == loam_body_wire::OP_WAPPEND {
            self.wappend(request)
        } else if request[0] == loam_body_wire::OP_WCOMMIT {
            self.wcommit(request)
        } else if request[0] == loam_body_wire::OP_WABORT {
            self.wabort(request)
        } else if request[0] == loam_body_wire::OP_RANGE {
            self.range(request)
        } else {
            (self.nak(loam_body_wire::ERR_BAD_REQ), Act::Done)
        }
    }
}

/// A store of blobs. `N` blobs can be known.
pub struct ModuleState<const N: usize> {
    root: Vec<u8>,
    slots: BodySlots<N>,
    sessions: Vec<WriteSession>,
    caps: Option<u32>,
    tier_reported: bool,
    handled: u32,
    ticks: u32,
    owed: Vec<u8>,
    counts: Counts,
}

impl<const N: usize> View for ModuleState<N> {
    type V = Store;

    closed spec fn view(&self) -> Store {
        Store {
            root: self.root@,
            slots: self.slots@,
            sessions: sessions_of(self.sessions@),
            caps: self.caps,
            tier_reported: self.tier_reported,
            handled: self.handled,
            ticks: self.ticks,
            owed: self.owed@,
            counts: self.counts,
        }
    }
}

pub open spec fn sessions_of(s: Seq<WriteSession>) -> Seq<Session> {
    Seq::new(s.len(), |i: int| s[i]@)
}

/// The bytes of a key.
fn key_of(d: &[u8]) -> (r: [u8; 32])
    requires
        d@.len() == 32,
    ensures
        r@ == d@,
{
    assert(d@.subrange(0, 32) =~= d@);
    loam_body_wire::digest_at(d, 0)
}

/// An opcode, a length and that many bytes.
fn framed(op: u8, body: &[u8]) -> (r: Vec<u8>)
    requires
        body@.len() <= u32::MAX,
    ensures
        r@ == seq![op] + bytes::le32(body@.len() as u32) + body@,
{
    let mut n: [u8; 4] = [0u8; 4];
    bytes::put_u32(&mut n, 0, body.len() as u32);
    proof {
        reveal(bytes::splice);
        assert(n@ =~= bytes::le32(body@.len() as u32));
    }
    let mut r: Vec<u8> = Vec::new();
    r.push(op);
    bytes::append(&mut r, n.as_slice());
    bytes::append(&mut r, body);
    assert(r@ =~= seq![op] + bytes::le32(body@.len() as u32) + body@);
    r
}

fn put_answer(digest: &[u8; 32]) -> (r: Vec<u8>)
    ensures
        r@ == loam_body_wire::put_resp_frame(digest@),
{
    let mut buf: [u8; 64] = [0u8; 64];
    let ghost before = buf@;
    proof {
        bytes::lemma_written_front(before, loam_body_wire::put_resp_frame(digest@));
    }
    match loam_body_wire::encode_put_resp(&mut buf, digest) {
        Ok(n) => bytes::front(buf.as_slice(), n),
        Err(_) => Vec::new(),
    }
}

fn put_keyed_answer(key: &[u8; 32]) -> (r: Vec<u8>)
    ensures
        r@ == loam_body_wire::put_keyed_resp_frame(key@),
{
    let mut buf: [u8; 64] = [0u8; 64];
    let ghost before = buf@;
    proof {
        bytes::lemma_written_front(before, loam_body_wire::put_keyed_resp_frame(key@));
    }
    match loam_body_wire::encode_put_keyed_resp(&mut buf, key) {
        Ok(n) => bytes::front(buf.as_slice(), n),
        Err(_) => Vec::new(),
    }
}

fn wcommit_answer(digest: &[u8; 32]) -> (r: Vec<u8>)
    ensures
        r@ == loam_body_wire::wcommit_resp_frame(digest@),
{
    let mut buf: [u8; 64] = [0u8; 64];
    let ghost before = buf@;
    proof {
        bytes::lemma_written_front(before, loam_body_wire::wcommit_resp_frame(digest@));
    }
    match loam_body_wire::encode_wcommit_resp(&mut buf, digest) {
        Ok(n) => bytes::front(buf.as_slice(), n),
        Err(_) => Vec::new(),
    }
}

fn size_answer(size: u64) -> (r: Vec<u8>)
    ensures
        r@ == loam_body_wire::head_resp_frame(size),
{
    let mut buf: [u8; 64] = [0u8; 64];
    let ghost before = buf@;
    proof {
        bytes::lemma_written_front(before, loam_body_wire::head_resp_frame(size));
    }
    match loam_body_wire::encode_head_resp(&mut buf, size) {
        Ok(n) => bytes::front(buf.as_slice(), n),
        Err(_) => Vec::new(),
    }
}

fn delete_answer(existed: bool) -> (r: Vec<u8>)
    ensures
        r@ == loam_body_wire::delete_resp_frame(existed),
{
    let mut buf: [u8; 64] = [0u8; 64];
    let ghost before = buf@;
    proof {
        bytes::lemma_written_front(before, loam_body_wire::delete_resp_frame(existed));
    }
    match loam_body_wire::encode_delete_resp(&mut buf, existed) {
        Ok(n) => bytes::front(buf.as_slice(), n),
        Err(_) => Vec::new(),
    }
}

fn wopen_answer(wid: u8) -> (r: Vec<u8>)
    ensures
        r@ == loam_body_wire::wopen_resp_frame(wid),
{
    let mut buf: [u8; 64] = [0u8; 64];
    let ghost before = buf@;
    proof {
        bytes::lemma_written_front(before, loam_body_wire::wopen_resp_frame(wid));
    }
    match loam_body_wire::encode_wopen_resp(&mut buf, wid) {
        Ok(n) => bytes::front(buf.as_slice(), n),
        Err(_) => Vec::new(),
    }
}

fn wappend_answer(wid: u8) -> (r: Vec<u8>)
    ensures
        r@ == loam_body_wire::wappend_resp_frame(wid),
{
    let mut buf: [u8; 64] = [0u8; 64];
    let ghost before = buf@;
    proof {
        bytes::lemma_written_front(before, loam_body_wire::wappend_resp_frame(wid));
    }
    match loam_body_wire::encode_wappend_resp(&mut buf, wid) {
        Ok(n) => bytes::front(buf.as_slice(), n),
        Err(_) => Vec::new(),
    }
}

fn wabort_answer() -> (r: Vec<u8>)
    ensures
        r@ == loam_body_wire::wabort_resp_frame(),
{
    let mut buf: [u8; 64] = [0u8; 64];
    let ghost before = buf@;
    proof {
        bytes::lemma_written_front(before, loam_body_wire::wabort_resp_frame());
    }
    match loam_body_wire::encode_wabort_resp(&mut buf) {
        Ok(n) => bytes::front(buf.as_slice(), n),
        Err(_) => Vec::new(),
    }
}

fn nak_answer(errno: u8) -> (r: Vec<u8>)
    ensures
        r@ == loam_body_wire::nak_frame(errno),
{
    let mut buf: [u8; 64] = [0u8; 64];
    let ghost before = buf@;
    proof {
        bytes::lemma_written_front(before, loam_body_wire::nak_frame(errno));
    }
    match loam_body_wire::encode_nak(&mut buf, errno) {
        Ok(n) => bytes::front(buf.as_slice(), n),
        Err(_) => Vec::new(),
    }
}

/// Whether bytes belong to a key, and if so, whether under a key of their own.
fn verified(body: &[u8], key: &[u8; 32]) -> (r: Option<bool>)
    requires
        body@.len() <= loam_body_wire::MAX_BODY,
    ensures
        r == belongs(body@, key@),
{
    let d: [u8; 32] = sha256::sha256(body);
    if bytes::bytes_equal(d.as_slice(), key.as_slice()) {
        Some(false)
    } else if loam_ec_wire::shard_blob_matches_key(body, key) || loam_extent_wire::extent_blob_matches_key(body, key) {
        Some(true)
    } else {
        None
    }
}

impl<const N: usize> ModuleState<N> {
    /// What every operation keeps.
    pub closed spec fn wf(&self) -> bool {
        &&& N <= u32::MAX
        &&& self@.wf()
        &&& self.slots.wf()
        &&& forall|i: int| 0 <= i < self.sessions.len() ==> (#[trigger] self.sessions@[i]).hasher.wf()
    }

    /// What the operations keep, said of the model: the laws of the store hold of it.
    pub proof fn lemma_wf(&self)
        requires
            self.wf(),
        ensures
            self@.wf(),
            self@.slots.len() == N,
            N <= u32::MAX,
    {
    }

    pub fn new() -> (r: Self)
        requires
            N <= u32::MAX,
        ensures
            r.wf(),
            r@ == (Store {
                root: Seq::empty(),
                slots: Seq::new(N as nat, |i: int| None::<Blob>),
                sessions: r@.sessions,
                caps: None,
                tier_reported: false,
                handled: 0,
                ticks: 0,
                owed: Seq::empty(),
                counts: Counts {
                    puts: 0,
                    gets: 0,
                    heads: 0,
                    deletes: 0,
                    scans: 0,
                    ranges: 0,
                    stream_opens: 0,
                    stream_commits: 0,
                    stream_aborts: 0,
                    rehydrated: 0,
                    apply_errors: 0,
                },
            }),
            forall|i: int| 0 <= i < r@.sessions.len() ==> !(#[trigger] r@.sessions[i]).in_use,
    {
        let mut sessions: Vec<WriteSession> = Vec::new();
        while sessions.len() < WRITE_SESSIONS
            invariant
                sessions.len() <= WRITE_SESSIONS,
                forall|i: int|
                    0 <= i < sessions.len() ==> !(#[trigger] sessions@[i]).in_use && sessions@[i].hasher.wf(),
            decreases WRITE_SESSIONS - sessions.len(),
        {
            sessions.push(
                WriteSession {
                    in_use: false,
                    sealed: false,
                    fd: -1,
                    expect: [0u8; 32],
                    total_len: 0,
                    written: 0,
                    last_tick: 0,
                    hasher: Sha256::new(),
                },
            );
        }
        ModuleState {
            root: Vec::new(),
            slots: BodySlots::new(),
            sessions,
            caps: None,
            tier_reported: false,
            handled: 0,
            ticks: 0,
            owed: Vec::new(),
            counts: Counts {
                puts: 0,
                gets: 0,
                heads: 0,
                deletes: 0,
                scans: 0,
                ranges: 0,
                stream_opens: 0,
                stream_commits: 0,
                stream_aborts: 0,
                rehydrated: 0,
                apply_errors: 0,
            },
        }
    }

    /// Say in which directory the blobs are. It must not be empty nor too long.
    pub fn set_root_dir(&mut self, path: &[u8]) -> (r: bool)
        requires
            old(self).wf(),
        ensures
            final(self).wf(),
            r == (1 <= path@.len() <= body_names::ROOT_DIR_BUF),
            final(self)@ == (if r {
                Store { root: path@, ..old(self)@ }
            } else {
                old(self)@
            }),
    {
        if path.len() == 0 || path.len() > body_names::ROOT_DIR_BUF {
            return false;
        }
        self.root = bytes::to_vec(path);
        true
    }

    fn respond(&mut self, bytes: Vec<u8>)
        requires
            old(self).wf(),
        ensures
            final(self).wf(),
            final(self)@ == old(self)@.respond(bytes@),
    {
        self.owed = bytes;
    }

    fn failed(&mut self)
        requires
            old(self).wf(),
        ensures
            final(self).wf(),
            final(self)@ == old(self)@.failed(),
    {
        self.counts.apply_errors = self.counts.apply_errors.wrapping_add(1);
    }

    fn nak(&mut self, errno: u8)
        requires
            old(self).wf(),
        ensures
            final(self).wf(),
            final(self)@ == old(self)@.nak(errno),
    {
        self.respond(nak_answer(errno));
        self.failed();
    }

    fn publish(&mut self, digest: &[u8; 32], body: &[u8], keyed: bool) -> (r: StoreAction)
        requires
            old(self).wf(),
        ensures
            final(self).wf(),
            (final(self)@, r.model()) == old(self)@.publish(digest@, body@, keyed),
    {
        let tier: PublishTier = body_names::publish_tier(self.caps);
        match body_names::build_body_path(self.root.as_slice(), digest) {
            Some(path) => {
                if tier == PublishTier::Unavailable {
                    self.nak(loam_body_wire::ERR_IO);
                    self.failed();
                    StoreAction::Done
                } else {
                    let staging: Option<Vec<u8>> = if tier == PublishTier::Rename {
                        body_names::build_pub_path(self.root.as_slice(), digest)
                    } else {
                        None
                    };
                    StoreAction::Publish {
                        digest: *digest,
                        path,
                        staging,
                        replace: keyed && tier == PublishTier::NameFence,
                        keyed,
                        body: bytes::to_vec(body),
                    }
                }
            },
            None => {
                self.nak(loam_body_wire::ERR_IO);
                self.failed();
                StoreAction::Done
            },
        }
    }

    /// Store a blob under its digest.
    pub fn handle_put(&mut self, request: &[u8]) -> (r: StoreAction)
        requires
            old(self).wf(),
        ensures
            final(self).wf(),
            (final(self)@, r.model()) == old(self)@.put(request@),
    {
        if self.root.len() == 0 {
            self.nak(loam_body_wire::ERR_NO_ROOT);
            return StoreAction::Done;
        }
        match loam_body_wire::decode_put_req(request) {
            Err(loam_body_wire::WireError::BodyTooLarge { .. }) => {
                self.nak(loam_body_wire::ERR_TOO_LARGE);
                StoreAction::Done
            },
            Err(_) => {
                self.nak(loam_body_wire::ERR_BAD_REQ);
                StoreAction::Done
            },
            Ok(body) => {
                let digest: [u8; 32] = sha256::sha256(body);
                if self.slots.find_slot(&digest).is_some() {
                    self.respond(put_answer(&digest));
                    self.counts.puts = self.counts.puts.wrapping_add(1);
                    return StoreAction::Done;
                }
                self.publish(&digest, body, false)
            },
        }
    }

    /// Store a blob under a key.
    pub fn handle_put_keyed(&mut self, request: &[u8]) -> (r: StoreAction)
        requires
            old(self).wf(),
        ensures
            final(self).wf(),
            (final(self)@, r.model()) == old(self)@.put_keyed(request@),
    {
        if self.root.len() == 0 {
            self.nak(loam_body_wire::ERR_NO_ROOT);
            return StoreAction::Done;
        }
        match loam_body_wire::decode_put_keyed_req(request) {
            Err(loam_body_wire::WireError::BodyTooLarge { .. }) => {
                self.nak(loam_body_wire::ERR_TOO_LARGE);
                StoreAction::Done
            },
            Err(_) => {
                self.nak(loam_body_wire::ERR_BAD_REQ);
                StoreAction::Done
            },
            Ok((key, body)) => {
                let key: [u8; 32] = key_of(key);
                self.publish(&key, body, true)
            },
        }
    }

    /// A blob was published, or could not be.
    pub fn publish_done(&mut self, digest: &[u8; 32], size: u32, keyed: bool, outcome: PublishOutcome)
        requires
            old(self).wf(),
        ensures
            final(self).wf(),
            final(self)@ == old(self)@.published(digest@, size, keyed, outcome),
    {
        if outcome == PublishOutcome::NoRoot {
            self.nak(loam_body_wire::ERR_NO_ROOT);
            return;
        }
        if outcome == PublishOutcome::Published {
            let noted: bool = self.slots.record_slot(digest, size, keyed);
            if noted {
                if keyed {
                    self.respond(put_keyed_answer(digest));
                } else {
                    self.respond(put_answer(digest));
                }
                self.counts.puts = self.counts.puts.wrapping_add(1);
                return;
            }
        }
        self.nak(loam_body_wire::ERR_IO);
        self.failed();
    }

    /// Read a blob.
    pub fn handle_get(&mut self, request: &[u8]) -> (r: StoreAction)
        requires
            old(self).wf(),
        ensures
            final(self).wf(),
            (final(self)@, r.model()) == old(self)@.get(request@),
    {
        if self.root.len() == 0 {
            self.nak(loam_body_wire::ERR_NO_ROOT);
            return StoreAction::Done;
        }
        match loam_body_wire::decode_get_req(request) {
            Err(_) => {
                self.nak(loam_body_wire::ERR_BAD_REQ);
                StoreAction::Done
            },
            Ok(d) => {
                let digest: [u8; 32] = key_of(d);
                let size: Option<u32> = match self.slots.find_slot(&digest) {
                    Some(slot) => Some(slot.size),
                    None => None,
                };
                if let Some(n) = size {
                    if n as usize > loam_body_wire::MAX_BODY {
                        self.nak(loam_body_wire::ERR_TOO_LARGE);
                        return StoreAction::Done;
                    }
                }
                match body_names::build_body_path(self.root.as_slice(), &digest) {
                    None => {
                        self.nak(loam_body_wire::ERR_IO);
                        StoreAction::Done
                    },
                    Some(path) => StoreAction::Read { digest, path, size },
                }
            },
        }
    }

    /// A blob was read, up to the size that is known of it or up to the largest size;
    /// `None` where there is no file.
    pub fn read_done(&mut self, digest: &[u8; 32], size: Option<u32>, body: Option<&[u8]>)
        requires
            old(self).wf(),
            body matches Some(b) ==> b@.len() <= loam_body_wire::MAX_BODY,
        ensures
            final(self).wf(),
            final(self)@ == old(self)@.got(
                digest@,
                size,
                match body {
                    Some(b) => Some(b@),
                    None => None,
                },
            ),
    {
        match body {
            None => self.nak(loam_body_wire::ERR_NOT_FOUND),
            Some(b) => {
                match size {
                    Some(n) => {
                        if b.len() != n as usize {
                            self.nak(loam_body_wire::ERR_IO);
                            return;
                        }
                    },
                    None => match verified(b, digest) {
                        None => {
                            self.nak(loam_body_wire::ERR_NOT_FOUND);
                            return;
                        },
                        Some(keyed) => {
                            let _noted: bool = self.slots.record_slot(digest, b.len() as u32, keyed);
                        },
                    },
                }
                self.respond(framed(loam_body_wire::OP_GET, b));
                self.counts.gets = self.counts.gets.wrapping_add(1);
            },
        }
    }

    fn answer_size(&mut self, size: u64)
        requires
            old(self).wf(),
        ensures
            final(self).wf(),
            final(self)@ == old(self)@.head_answer(size),
    {
        self.respond(size_answer(size));
        self.counts.heads = self.counts.heads.wrapping_add(1);
    }

    /// Say how large a blob is.
    pub fn handle_head(&mut self, request: &[u8]) -> (r: StoreAction)
        requires
            old(self).wf(),
        ensures
            final(self).wf(),
            (final(self)@, r.model()) == old(self)@.head(request@),
    {
        match loam_body_wire::decode_head_req(request) {
            Err(_) => {
                self.nak(loam_body_wire::ERR_BAD_REQ);
                StoreAction::Done
            },
            Ok(d) => {
                let digest: [u8; 32] = key_of(d);
                match self.slots.find_slot(&digest) {
                    Some(slot) => {
                        self.answer_size(slot.size as u64);
                        StoreAction::Done
                    },
                    None => match body_names::build_body_path(self.root.as_slice(), &digest) {
                        None => {
                            self.nak(loam_body_wire::ERR_IO);
                            StoreAction::Done
                        },
                        Some(path) => StoreAction::Stat { digest, path },
                    },
                }
            },
        }
    }

    /// A blob was looked at: its size and its first bytes.
    pub fn stat_done(&mut self, digest: &[u8; 32], seen: Option<(u32, &[u8])>)
        requires
            old(self).wf(),
        ensures
            final(self).wf(),
            final(self)@ == old(self)@.headed(digest@, seen_of(seen)),
    {
        match seen {
            None => self.nak(loam_body_wire::ERR_NOT_FOUND),
            Some((size, magic)) => {
                if size as usize > loam_body_wire::MAX_BODY {
                    self.nak(loam_body_wire::ERR_TOO_LARGE);
                    return;
                }
                let keyed: bool = loam_extent_wire::blob_is_keyed_magic(magic);
                let _noted: bool = self.slots.record_slot(digest, size, keyed);
                self.answer_size(size as u64);
            },
        }
    }

    /// Remove a blob.
    pub fn handle_delete(&mut self, request: &[u8]) -> (r: StoreAction)
        requires
            old(self).wf(),
        ensures
            final(self).wf(),
            (final(self)@, r.model()) == old(self)@.delete(request@),
    {
        match loam_body_wire::decode_delete_req(request) {
            Err(_) => {
                self.nak(loam_body_wire::ERR_BAD_REQ);
                StoreAction::Done
            },
            Ok(d) => {
                let digest: [u8; 32] = key_of(d);
                if self.root.len() == 0 {
                    self.delete_done(&digest, false, true);
                    return StoreAction::Done;
                }
                match body_names::build_body_path(self.root.as_slice(), &digest) {
                    None => {
                        self.nak(loam_body_wire::ERR_IO);
                        StoreAction::Done
                    },
                    Some(path) => {
                        let fence: bool = match self.caps {
                            Some(bits) => bits & body_names::CAP_FSYNC_NAME != 0,
                            None => false,
                        };
                        StoreAction::Unlink { digest, path, fence }
                    },
                }
            },
        }
    }

    /// A blob was removed, or was not there, or may still be there.
    pub fn delete_done(&mut self, digest: &[u8; 32], unlinked: bool, gone: bool)
        requires
            old(self).wf(),
        ensures
            final(self).wf(),
            final(self)@ == old(self)@.deleted(digest@, unlinked, gone),
    {
        if !gone {
            self.failed();
            self.nak(loam_body_wire::ERR_IO);
            return;
        }
        let existed: bool = unlinked || self.slots.find_slot(digest).is_some();
        self.slots.clear(digest);
        self.respond(delete_answer(existed));
        self.counts.deletes = self.counts.deletes.wrapping_add(1);
    }

    /// Answer with a page of the inventory.
    pub fn handle_scan(&mut self, request: &[u8]) -> (r: StoreAction)
        requires
            old(self).wf(),
        ensures
            final(self).wf(),
            (final(self)@, r.model()) == old(self)@.scan(request@),
    {
        match loam_body_wire::decode_scan_req(request) {
            Err(_) => {
                self.nak(loam_body_wire::ERR_BAD_REQ);
                StoreAction::Done
            },
            Ok((cursor, max)) => {
                if cursor == 0 && self.root.len() != 0 {
                    StoreAction::Sweep { cursor, max }
                } else {
                    self.scan_page(cursor, max);
                    StoreAction::Done
                }
            },
        }
    }

    /// The directory was gone through: answer with a page of the inventory.
    pub fn scan_page(&mut self, cursor: u32, max: u8)
        requires
            old(self).wf(),
        ensures
            final(self).wf(),
            final(self)@ == old(self)@.scanned(cursor, max),
    {
        let answer: Vec<u8> = self.slots.scan(cursor, max);
        self.respond(answer);
        self.counts.scans = self.counts.scans.wrapping_add(1);
    }

    /// What to do with an entry of the directory.
    pub fn sweep_entry(&self, entry: &DirEntry) -> (r: SweepAction)
        requires
            self.wf(),
        ensures
            r.model() == self@.swept(entry.is_dir, entry.name@),
    {
        if entry.is_dir {
            return SweepAction::Skip;
        }
        let name: &[u8] = entry.name.as_slice();
        match body_names::wip_id_from_name(name) {
            Some(wid) => {
                if wid < WRITE_SESSIONS && self.sessions[wid].in_use {
                    return SweepAction::Skip;
                }
                return match body_names::build_wip_path(self.root.as_slice(), wid as u8) {
                    Some(path) => SweepAction::Remove { path },
                    None => SweepAction::Skip,
                };
            },
            None => {},
        }
        if body_names::is_pub_staging_name(name) {
            if self.root.len() < body_names::PATH_BUF && name.len() <= body_names::PATH_BUF - 1 - self.root.len() {
                let mut path: Vec<u8> = bytes::to_vec(self.root.as_slice());
                path.push(0x2F);
                bytes::append(&mut path, name);
                assert(path@ =~= self.root@ + seq![0x2Fu8] + name@);
                return SweepAction::Remove { path };
            }
            return SweepAction::Skip;
        }
        match body_names::hex_digest_from_name(name) {
            None => SweepAction::Skip,
            Some(digest) => {
                if self.slots.find_slot(&digest).is_some() {
                    return SweepAction::Skip;
                }
                match body_names::build_body_path(self.root.as_slice(), &digest) {
                    Some(path) => SweepAction::Look { digest, path },
                    None => SweepAction::Skip,
                }
            },
        }
    }

    /// A blob in the directory was looked at. Returns whether the sweep goes on: it ends
    /// where the table is full.
    pub fn sweep_found(&mut self, digest: &[u8; 32], seen: Option<(u32, &[u8])>) -> (r: bool)
        requires
            old(self).wf(),
        ensures
            final(self).wf(),
            (final(self)@, r) == old(self)@.looked(digest@, seen_of(seen)),
    {
        match seen {
            None => true,
            Some((size, magic)) => {
                let keyed: bool = loam_extent_wire::blob_is_keyed_magic(magic);
                let noted: bool = self.slots.record_slot(digest, size, keyed);
                if noted {
                    self.counts.rehydrated = self.counts.rehydrated.wrapping_add(1);
                }
                noted
            },
        }
    }

    /// A step begins.
    pub fn begin_step(&mut self)
        requires
            old(self).wf(),
        ensures
            final(self).wf(),
            final(self)@ == (Store { ticks: old(self)@.ticks.wrapping_add(1), handled: 0, ..old(self)@ }),
    {
        self.ticks = self.ticks.wrapping_add(1);
        self.handled = 0;
    }

    /// Whether this step takes another request: only so many, and none while an answer is
    /// owed.
    pub fn wants_input(&self) -> (r: bool)
        requires
            self.wf(),
        ensures
            r == self@.takes_more(),
    {
        self.handled < MAX_OPS_PER_STEP && self.owed.len() == 0
    }

    /// What the channel has not taken of the answer.
    pub fn answer(&self) -> (r: &[u8])
        requires
            self.wf(),
        ensures
            r@ == self@.owed,
    {
        self.owed.as_slice()
    }

    /// The channel took this much of the answer. Returns whether nothing is owed now.
    pub fn flush_resp(&mut self, n: usize) -> (r: bool)
        requires
            old(self).wf(),
        ensures
            final(self).wf(),
            final(self)@ == old(self)@.sent(n as int),
            r == (final(self)@.owed.len() == 0),
    {
        if n >= self.owed.len() {
            self.owed = Vec::new();
        } else {
            self.owed = bytes::behind(self.owed.as_slice(), n);
        }
        self.owed.len() == 0
    }

    /// Whether the provider has not said yet what it can do.
    pub fn wants_caps(&self) -> (r: bool)
        requires
            self.wf(),
        ensures
            r == (self@.caps is None),
    {
        self.caps.is_none()
    }

    /// The provider said what it can do. The first answer stays.
    pub fn learn_caps(&mut self, bits: u32)
        requires
            old(self).wf(),
        ensures
            final(self).wf(),
            final(self)@ == (Store {
                caps: if old(self)@.caps is None {
                    Some(bits)
                } else {
                    old(self)@.caps
                },
                ..old(self)@
            }),
    {
        if self.caps.is_none() {
            self.caps = Some(bits);
        }
    }

    /// How often what happened.
    pub fn counts(&self) -> (r: Counts)
        requires
            self.wf(),
        ensures
            r == self@.counts,
    {
        self.counts
    }
}

/// How blobs are published, as a line to log.
pub open spec fn tier_line(tier: PublishTier) -> Seq<char> {
    match tier {
        PublishTier::Rename => "[body_store] publish tier=rename"@,
        PublishTier::NameFence => "[body_store] publish tier=name_fence"@,
        PublishTier::Unavailable => "[body_store] publish tier=unavailable"@,
    }
}

impl<const N: usize> ModuleState<N> {
    /// How blobs are published, as a line to log: once, after the provider has said what
    /// it can do.
    pub fn take_tier_report(&mut self) -> (r: Option<&'static str>)
        requires
            old(self).wf(),
        ensures
            final(self).wf(),
            r is Some <==> old(self)@.caps is Some && !old(self)@.tier_reported,
            r matches Some(line) ==> line@ == tier_line(body_names::tier_of(old(self)@.caps)),
            final(self)@ == (Store { tier_reported: old(self)@.tier_reported || r is Some, ..old(self)@ }),
    {
        if self.caps.is_none() || self.tier_reported {
            return None;
        }
        self.tier_reported = true;
        Some(
            match body_names::publish_tier(self.caps) {
                PublishTier::Rename => "[body_store] publish tier=rename",
                PublishTier::NameFence => "[body_store] publish tier=name_fence",
                PublishTier::Unavailable => "[body_store] publish tier=unavailable",
            },
        )
    }

    fn session_cleanup(&mut self, wid: usize) -> (r: StoreAction)
        requires
            old(self).wf(),
            wid < WRITE_SESSIONS,
        ensures
            final(self).wf(),
            (final(self)@, r.model()) == old(self)@.discard(wid as int),
    {
        assert(self@.sessions[wid as int] == self.sessions@[wid as int]@);
        let fd: i32 = self.sessions[wid].fd;
        self.sessions[wid].in_use = false;
        self.sessions[wid].fd = -1;
        assert(self@.sessions =~= old(self)@.discard(wid as int).0.sessions);
        if fd >= 0 {
            StoreAction::Discard { fd, path: body_names::build_wip_path(self.root.as_slice(), wid as u8) }
        } else {
            StoreAction::Done
        }
    }

    /// Give up a streamed write that has not been touched for long.
    pub fn reap_stale_session(&mut self, wid: usize) -> (r: StoreAction)
        requires
            old(self).wf(),
            wid < WRITE_SESSIONS,
        ensures
            final(self).wf(),
            (final(self)@, r.model()) == old(self)@.reap(wid as int),
    {
        assert(self@.sessions[wid as int] == self.sessions@[wid as int]@);
        if self.sessions[wid].in_use && self.ticks.wrapping_sub(self.sessions[wid].last_tick) > SESSION_REAP_TICKS {
            let r: StoreAction = self.session_cleanup(wid);
            self.counts.stream_aborts = self.counts.stream_aborts.wrapping_add(1);
            r
        } else {
            StoreAction::Done
        }
    }

    fn free_session(&self) -> (r: Option<usize>)
        requires
            self.wf(),
        ensures
            match r {
                Some(i) => i < WRITE_SESSIONS && free_session(self@.sessions, 0) == Some(i as int),
                None => free_session(self@.sessions, 0) is None,
            },
    {
        let mut i: usize = 0;
        while i < WRITE_SESSIONS
            invariant
                i <= WRITE_SESSIONS,
                self.wf(),
                free_session(self@.sessions, 0) == free_session(self@.sessions, i as int),
            decreases WRITE_SESSIONS - i,
        {
            assert(self@.sessions[i as int] == self.sessions@[i as int]@);
            if !self.sessions[i].in_use {
                return Some(i);
            }
            i += 1;
        }
        None
    }

    /// Begin a streamed write.
    pub fn handle_wopen(&mut self, request: &[u8]) -> (r: StoreAction)
        requires
            old(self).wf(),
        ensures
            final(self).wf(),
            (final(self)@, r.model()) == old(self)@.wopen(request@),
    {
        if self.root.len() == 0 {
            self.nak(loam_body_wire::ERR_NO_ROOT);
            return StoreAction::Done;
        }
        match loam_body_wire::decode_wopen_req(request) {
            Err(_) => {
                self.nak(loam_body_wire::ERR_BAD_REQ);
                StoreAction::Done
            },
            Ok((d, total_len)) => {
                if total_len == 0 || total_len > loam_body_wire::MAX_STREAM_TOTAL {
                    self.nak(loam_body_wire::ERR_TOO_LARGE);
                    return StoreAction::Done;
                }
                match self.free_session() {
                    None => {
                        self.nak(loam_body_wire::ERR_IO);
                        StoreAction::Done
                    },
                    Some(wid) => match body_names::build_wip_path(self.root.as_slice(), wid as u8) {
                        None => {
                            self.nak(loam_body_wire::ERR_IO);
                            StoreAction::Done
                        },
                        Some(path) => StoreAction::Open { wid, path, digest: key_of(d), total_len },
                    },
                }
            },
        }
    }

    /// The file of a streamed write was created, or could not be.
    pub fn wopen_done(&mut self, wid: usize, digest: &[u8; 32], total_len: u64, fd: i32)
        requires
            old(self).wf(),
            wid < WRITE_SESSIONS,
            total_len <= loam_body_wire::MAX_STREAM_TOTAL,
        ensures
            final(self).wf(),
            final(self)@ == old(self)@.wopened(wid as int, digest@, total_len, fd),
    {
        if fd < 0 {
            self.nak(loam_body_wire::ERR_IO);
            return;
        }
        let ticks: u32 = self.ticks;
        self.sessions.set(
            wid,
            WriteSession {
                in_use: true,
                sealed: false,
                fd,
                expect: *digest,
                total_len,
                written: 0,
                last_tick: ticks,
                hasher: Sha256::new(),
            },
        );
        assert(self@.sessions =~= old(self)@.wopened(wid as int, digest@, total_len, fd).sessions);
        self.counts.stream_opens = self.counts.stream_opens.wrapping_add(1);
        self.respond(wopen_answer(wid as u8));
    }

    fn has_session(&self, wid: usize) -> (r: bool)
        requires
            self.wf(),
        ensures
            r == self@.has_session(wid as int),
            r ==> wid < WRITE_SESSIONS,
    {
        if wid >= WRITE_SESSIONS {
            return false;
        }
        assert(self@.sessions[wid as int] == self.sessions@[wid as int]@);
        self.sessions[wid].in_use && !self.sessions[wid].sealed
    }

    /// Add to a streamed write.
    pub fn handle_wappend(&mut self, request: &[u8]) -> (r: StoreAction)
        requires
            old(self).wf(),
        ensures
            final(self).wf(),
            (final(self)@, r.model()) == old(self)@.wappend(request@),
    {
        match loam_body_wire::decode_wappend_req(request) {
            Err(_) => {
                self.nak(loam_body_wire::ERR_BAD_REQ);
                StoreAction::Done
            },
            Ok((w, chunk)) => {
                let wid: usize = w as usize;
                if !self.has_session(wid) {
                    self.nak(loam_body_wire::ERR_BAD_REQ);
                    return StoreAction::Done;
                }
                assert(self@.sessions[wid as int] == self.sessions@[wid as int]@);
                if self.sessions[wid].written + chunk.len() as u64 > self.sessions[wid].total_len {
                    let r: StoreAction = self.session_cleanup(wid);
                    self.nak(loam_body_wire::ERR_TOO_LARGE);
                    return r;
                }
                StoreAction::Append { wid, fd: self.sessions[wid].fd, chunk: bytes::to_vec(chunk) }
            },
        }
    }

    /// Bytes were added to the file of a streamed write, or not all of them.
    pub fn wappend_done(&mut self, wid: usize, chunk: &[u8], ok: bool) -> (r: StoreAction)
        requires
            old(self).wf(),
            old(self)@.has_session(wid as int),
            old(self)@.sessions[wid as int].written + chunk@.len() <= old(self)@.sessions[wid as int].total_len,
        ensures
            final(self).wf(),
            (final(self)@, r.model()) == old(self)@.wappended(wid as int, chunk@, ok),
    {
        if !ok {
            let r: StoreAction = self.session_cleanup(wid);
            self.nak(loam_body_wire::ERR_IO);
            return r;
        }
        assert(self@.sessions[wid as int] == self.sessions@[wid as int]@);
        let ticks: u32 = self.ticks;
        self.sessions[wid].hasher.update(chunk);
        self.sessions[wid].written = self.sessions[wid].written + chunk.len() as u64;
        self.sessions[wid].last_tick = ticks;
        assert(self@.sessions =~= old(self)@.wappended(wid as int, chunk@, ok).0.sessions);
        self.respond(wappend_answer(wid as u8));
        StoreAction::Done
    }

    /// No byte is added to a streamed write any more. Returns whether every byte arrived
    /// and they hash to what was promised, and the digest.
    fn seal(&mut self, wid: usize) -> (r: (bool, [u8; 32]))
        requires
            old(self).wf(),
            old(self)@.has_session(wid as int),
        ensures
            final(self).wf(),
            final(self)@ == old(self)@.sealed(wid as int),
            r.1@ == sha256::digest(old(self)@.sessions[wid as int].data),
            r.0 == old(self)@.is_whole(wid as int),
    {
        assert(self@.sessions[wid as int] == self.sessions@[wid as int]@);
        let complete: bool = self.sessions[wid].written == self.sessions[wid].total_len;
        let mut h: Sha256 = Sha256::new();
        std::mem::swap(&mut h, &mut self.sessions[wid].hasher);
        let digest: [u8; 32] = h.finalize();
        self.sessions[wid].sealed = true;
        assert(self@.sessions =~= old(self)@.sealed(wid as int).sessions);
        let good: bool = complete && bytes::bytes_equal(digest.as_slice(), self.sessions[wid].expect.as_slice());
        (good, digest)
    }

    /// Give up a streamed write that was sealed.
    fn unseal(&mut self, wid: usize) -> (r: StoreAction)
        requires
            old(self).wf(),
            wid < WRITE_SESSIONS,
        ensures
            final(self).wf(),
            (final(self)@, r.model()) == old(self)@.unsealed(wid as int),
    {
        let r: StoreAction = self.session_cleanup(wid);
        let ghost before = self@.sessions;
        assert(self@.sessions[wid as int] == self.sessions@[wid as int]@);
        self.sessions[wid].sealed = false;
        assert(self@.sessions =~= before.update(wid as int, Session { sealed: false, ..before[wid as int] }));
        r
    }

    /// Publish a streamed write, if every byte arrived and they hash to what was promised.
    pub fn handle_wcommit(&mut self, request: &[u8]) -> (r: StoreAction)
        requires
            old(self).wf(),
        ensures
            final(self).wf(),
            (final(self)@, r.model()) == old(self)@.wcommit(request@),
    {
        match loam_body_wire::decode_wid_req(request, loam_body_wire::OP_WCOMMIT) {
            Err(_) => {
                self.nak(loam_body_wire::ERR_BAD_REQ);
                StoreAction::Done
            },
            Ok(w) => {
                let wid: usize = w as usize;
                if !self.has_session(wid) {
                    self.nak(loam_body_wire::ERR_BAD_REQ);
                    return StoreAction::Done;
                }
                assert(self@.sessions[wid as int] == self.sessions@[wid as int]@);
                let (good, digest): (bool, [u8; 32]) = self.seal(wid);
                if !good {
                    let r: StoreAction = self.unseal(wid);
                    self.nak(loam_body_wire::ERR_BAD_REQ);
                    self.failed();
                    return r;
                }
                assert(self@.sessions[wid as int] == self.sessions@[wid as int]@);
                StoreAction::Sync { wid, fd: self.sessions[wid].fd, digest }
            },
        }
    }

    /// The bytes of a streamed write are durable, or could not be made so.
    pub fn wsync_done(&mut self, wid: usize, digest: &[u8; 32], ok: bool) -> (r: StoreAction)
        requires
            old(self).wf(),
            wid < WRITE_SESSIONS,
        ensures
            final(self).wf(),
            (final(self)@, r.model()) == old(self)@.wsynced(wid as int, digest@, ok),
    {
        assert(self@.sessions[wid as int] == self.sessions@[wid as int]@);
        let fd: i32 = self.sessions[wid].fd;
        let written: u64 = self.sessions[wid].written;
        let tier: PublishTier = body_names::publish_tier(self.caps);
        if !ok {
            let r: StoreAction = self.session_cleanup(wid);
            self.nak(loam_body_wire::ERR_IO);
            return r;
        }
        match body_names::build_body_path(self.root.as_slice(), digest) {
            None => {
                let r: StoreAction = self.session_cleanup(wid);
                self.nak(loam_body_wire::ERR_IO);
                r
            },
            Some(to) => match tier {
                PublishTier::Unavailable => {
                    let r: StoreAction = self.session_cleanup(wid);
                    self.nak(loam_body_wire::ERR_IO);
                    self.failed();
                    r
                },
                PublishTier::Rename => {
                    let r: StoreAction = self.session_cleanup(wid);
                    match body_names::build_wip_path(self.root.as_slice(), wid as u8) {
                        None => {
                            self.nak(loam_body_wire::ERR_IO);
                            r
                        },
                        Some(from) => StoreAction::Rename { fd, from, to, digest: *digest, written },
                    }
                },
                PublishTier::NameFence => StoreAction::Copy { wid, fd, to, digest: *digest, written },
            },
        }
    }

    fn wpublished(&mut self, digest: &[u8; 32], written: u64, ok: bool)
        requires
            old(self).wf(),
        ensures
            final(self).wf(),
            final(self)@ == old(self)@.wpublished(digest@, written, ok),
    {
        if !ok {
            self.nak(loam_body_wire::ERR_IO);
            return;
        }
        let size: u32 = if written <= u32::MAX as u64 {
            written as u32
        } else {
            u32::MAX
        };
        let _noted: bool = self.slots.record_slot(digest, size, false);
        self.counts.stream_commits = self.counts.stream_commits.wrapping_add(1);
        self.respond(wcommit_answer(digest));
    }

    /// The file of a streamed write was renamed, or could not be.
    pub fn wrename_done(&mut self, digest: &[u8; 32], written: u64, ok: bool)
        requires
            old(self).wf(),
        ensures
            final(self).wf(),
            final(self)@ == old(self)@.wpublished(digest@, written, ok),
    {
        self.wpublished(digest, written, ok);
    }

    /// A streamed write was copied to its name, or could not be.
    pub fn wcopy_done(&mut self, wid: usize, digest: &[u8; 32], written: u64, ok: bool) -> (r: StoreAction)
        requires
            old(self).wf(),
            wid < WRITE_SESSIONS,
        ensures
            final(self).wf(),
            (final(self)@, r.model()) == old(self)@.wcopied(wid as int, digest@, written, ok),
    {
        let r: StoreAction = self.session_cleanup(wid);
        self.wpublished(digest, written, ok);
        r
    }

    /// Give up a streamed write.
    pub fn handle_wabort(&mut self, request: &[u8]) -> (r: StoreAction)
        requires
            old(self).wf(),
        ensures
            final(self).wf(),
            (final(self)@, r.model()) == old(self)@.wabort(request@),
    {
        match loam_body_wire::decode_wid_req(request, loam_body_wire::OP_WABORT) {
            Err(_) => {
                self.nak(loam_body_wire::ERR_BAD_REQ);
                StoreAction::Done
            },
            Ok(w) => {
                let wid: usize = w as usize;
                if !self.has_session(wid) {
                    self.respond(wabort_answer());
                    return StoreAction::Done;
                }
                let r: StoreAction = self.session_cleanup(wid);
                self.counts.stream_aborts = self.counts.stream_aborts.wrapping_add(1);
                self.respond(wabort_answer());
                r
            },
        }
    }

    /// Read a part of a blob.
    pub fn handle_range(&mut self, request: &[u8]) -> (r: StoreAction)
        requires
            old(self).wf(),
        ensures
            final(self).wf(),
            (final(self)@, r.model()) == old(self)@.range(request@),
    {
        if self.root.len() == 0 {
            self.nak(loam_body_wire::ERR_NO_ROOT);
            return StoreAction::Done;
        }
        match loam_body_wire::decode_range_req(request) {
            Err(_) => {
                self.nak(loam_body_wire::ERR_BAD_REQ);
                StoreAction::Done
            },
            Ok((d, off, want)) => {
                let digest: [u8; 32] = key_of(d);
                match body_names::build_body_path(self.root.as_slice(), &digest) {
                    None => {
                        self.nak(loam_body_wire::ERR_IO);
                        StoreAction::Done
                    },
                    Some(path) => StoreAction::ReadRange { path, off, want },
                }
            },
        }
    }

    /// A part of a blob was read, or there is no file, or it could not be looked at.
    pub fn range_done(&mut self, part: Result<&[u8], u8>)
        requires
            old(self).wf(),
            part matches Ok(p) ==> p@.len() <= loam_body_wire::MAX_BODY,
        ensures
            final(self).wf(),
            final(self)@ == old(self)@.ranged(
                match part {
                    Ok(p) => Ok(p@),
                    Err(errno) => Err(errno),
                },
            ),
    {
        match part {
            Err(errno) => self.nak(errno),
            Ok(p) => {
                self.respond(framed(loam_body_wire::OP_RANGE, p));
                self.counts.ranges = self.counts.ranges.wrapping_add(1);
            },
        }
    }

    /// Take a request.
    pub fn handle(&mut self, request: &[u8]) -> (r: StoreAction)
        requires
            old(self).wf(),
        ensures
            final(self).wf(),
            (final(self)@, r.model()) == old(self)@.take(request@),
    {
        self.handled = self.handled.wrapping_add(1);
        match loam_body_wire::peek_opcode(request) {
            None => {
                self.nak(loam_body_wire::ERR_BAD_REQ);
                StoreAction::Done
            },
            Some(op) => {
                if op == loam_body_wire::OP_PUT {
                    self.handle_put(request)
                } else if op == loam_body_wire::OP_GET {
                    self.handle_get(request)
                } else if op == loam_body_wire::OP_HEAD {
                    self.handle_head(request)
                } else if op == loam_body_wire::OP_DELETE {
                    self.handle_delete(request)
                } else if op == loam_body_wire::OP_SCAN {
                    self.handle_scan(request)
                } else if op == loam_body_wire::OP_PUT_KEYED {
                    self.handle_put_keyed(request)
                } else if op == loam_body_wire::OP_WOPEN {
                    self.handle_wopen(request)
                } else if op == loam_body_wire::OP_WAPPEND {
                    self.handle_wappend(request)
                } else if op == loam_body_wire::OP_WCOMMIT {
                    self.handle_wcommit(request)
                } else if op == loam_body_wire::OP_WABORT {
                    self.handle_wabort(request)
                } else if op == loam_body_wire::OP_RANGE {
                    self.handle_range(request)
                } else {
                    self.nak(loam_body_wire::ERR_BAD_REQ);
                    StoreAction::Done
                }
            },
        }
    }
}

/// How much of a part of a blob to read, where the blob has this size.
pub fn range_take(off: u64, want: u32, size: u32) -> (r: usize)
    ensures
        r == range_len(off, want, size),
{
    if off >= size as u64 {
        return 0;
    }
    let left: u64 = size as u64 - off;
    let most: u64 = if (want as u64) < loam_body_wire::MAX_BODY as u64 {
        want as u64
    } else {
        loam_body_wire::MAX_BODY as u64
    };
    if most < left {
        most as usize
    } else {
        left as usize
    }
}

/// What was seen of a blob.
pub open spec fn seen_of(seen: Option<(u32, &[u8])>) -> Option<(u32, Seq<u8>)> {
    match seen {
        Some((size, magic)) => Some((size, magic@)),
        None => None,
    }
}

} // verus!
