//! The frames that an administrative router sends, each as bytes of its own.
use crate::admin_router_state;
use crate::body_names;
use crate::bytes;
use crate::loam_admin_wire;
use crate::loam_body_wire;
use crate::loam_object_wire;
use crate::loam_object_wire::PutFields;
use crate::loam_wire;
use vstd::prelude::*;
use vstd::slice::slice_subrange;

verus! {

/// The four bytes of a number.
fn put_le32(r: &mut Vec<u8>, v: u32)
    ensures
        final(r)@ == old(r)@ + bytes::le32(v),
{
    let mut n: [u8; 4] = [0u8; 4];
    bytes::put_u32(&mut n, 0, v);
    proof {
        reveal(bytes::splice);
        assert(n@ =~= bytes::le32(v));
    }
    bytes::append(r, n.as_slice());
}

/// An answer that is only a status.
pub fn ack(op: u8, correlation_id: u32, status: u8) -> (r: Vec<u8>)
    ensures
        r@ == loam_admin_wire::ack_frame(op, correlation_id, status),
{
    let mut r: Vec<u8> = Vec::new();
    r.push(op);
    put_le32(&mut r, correlation_id);
    r.push(status);
    assert(r@ =~= loam_admin_wire::ack_frame(op, correlation_id, status));
    r
}

/// An answer of success that brings a digest.
pub fn digest_ack(op: u8, correlation_id: u32, digest: &[u8]) -> (r: Vec<u8>)
    ensures
        r@ == loam_admin_wire::digest_ack_frame(op, correlation_id, loam_admin_wire::STATUS_OK, Some(digest@)),
{
    let mut r: Vec<u8> = ack(op, correlation_id, loam_admin_wire::STATUS_OK);
    bytes::append(&mut r, digest);
    r
}

/// An answer of success that brings bytes.
pub fn body_ack(op: u8, correlation_id: u32, body: &[u8]) -> (r: Vec<u8>)
    requires
        body@.len() <= u32::MAX,
    ensures
        r@ == loam_admin_wire::body_ack_frame(op, correlation_id, loam_admin_wire::STATUS_OK, Some(body@)),
{
    let mut r: Vec<u8> = ack(op, correlation_id, loam_admin_wire::STATUS_OK);
    put_le32(&mut r, body.len() as u32);
    bytes::append(&mut r, body);
    r
}

/// An answer of success that brings a page of files.
pub fn list_ack(correlation_id: u32, next_cursor: u32, count: u8, entries: &[u8]) -> (r: Vec<u8>)
    ensures
        r@ == loam_admin_wire::list_files_ack_frame(
            correlation_id,
            loam_admin_wire::STATUS_OK,
            next_cursor,
            count,
            entries@,
        ),
{
    let mut r: Vec<u8> = ack(loam_admin_wire::OP_LIST_FILES, correlation_id, loam_admin_wire::STATUS_OK);
    put_le32(&mut r, next_cursor);
    r.push(count);
    bytes::append(&mut r, entries);
    assert(r@ =~= loam_admin_wire::list_files_ack_frame(
        correlation_id,
        loam_admin_wire::STATUS_OK,
        next_cursor,
        count,
        entries@,
    ));
    r
}

/// The answer to the start of a streamed file.
pub fn open_ack(correlation_id: u32, status: u8, pfid: u8) -> (r: Vec<u8>)
    ensures
        r@ == loam_admin_wire::put_file_open_ack_frame(correlation_id, status, pfid),
{
    let mut buf: [u8; 8] = [0u8; 8];
    proof {
        bytes::lemma_written_front(buf@, loam_admin_wire::put_file_open_ack_frame(correlation_id, status, pfid));
    }
    match loam_admin_wire::encode_put_file_open_ack(&mut buf, correlation_id, status, pfid) {
        Ok(n) => bytes::front(buf.as_slice(), n),
        Err(_) => Vec::new(),
    }
}

/// The answer to a chunk of a streamed file.
pub fn chunk_ack(correlation_id: u32, status: u8) -> (r: Vec<u8>)
    ensures
        r@ == loam_admin_wire::put_file_chunk_ack_frame(correlation_id, status),
{
    let mut buf: [u8; 8] = [0u8; 8];
    proof {
        bytes::lemma_written_front(buf@, loam_admin_wire::put_file_chunk_ack_frame(correlation_id, status));
    }
    match loam_admin_wire::encode_put_file_chunk_ack(&mut buf, correlation_id, status) {
        Ok(n) => bytes::front(buf.as_slice(), n),
        Err(_) => Vec::new(),
    }
}

/// The answer to a request for the size of a file.
pub fn stat_ack(correlation_id: u32, status: u8, size: u64) -> (r: Vec<u8>)
    ensures
        r@ == loam_admin_wire::stat_file_ack_frame(correlation_id, status, size),
{
    let mut buf: [u8; 16] = [0u8; 16];
    proof {
        bytes::lemma_written_front(buf@, loam_admin_wire::stat_file_ack_frame(correlation_id, status, size));
    }
    match loam_admin_wire::encode_stat_file_ack(&mut buf, correlation_id, status, size) {
        Ok(n) => bytes::front(buf.as_slice(), n),
        Err(_) => Vec::new(),
    }
}

/// The answer to a request to remove a body.
pub fn delete_body_ack(correlation_id: u32, status: u8, existed: bool) -> (r: Vec<u8>)
    ensures
        r@ == loam_admin_wire::admin_delete_body_ack_frame(correlation_id, status, existed),
{
    let mut buf: [u8; 8] = [0u8; 8];
    proof {
        bytes::lemma_written_front(buf@, loam_admin_wire::admin_delete_body_ack_frame(correlation_id, status, existed));
    }
    match loam_admin_wire::encode_admin_delete_body_ack(&mut buf, correlation_id, status, existed) {
        Ok(n) => bytes::front(buf.as_slice(), n),
        Err(_) => Vec::new(),
    }
}

/// A request for a body.
pub fn get_request(digest: &[u8; 32]) -> (r: Vec<u8>)
    ensures
        r@ == loam_body_wire::get_req_frame(digest@),
{
    let mut buf: [u8; 64] = [0u8; 64];
    proof {
        bytes::lemma_written_front(buf@, loam_body_wire::get_req_frame(digest@));
    }
    match loam_body_wire::encode_get_req(&mut buf, digest) {
        Ok(n) => bytes::front(buf.as_slice(), n),
        Err(_) => Vec::new(),
    }
}

/// A request for the size of a body.
pub fn head_request(digest: &[u8; 32]) -> (r: Vec<u8>)
    ensures
        r@ == loam_body_wire::head_req_frame(digest@),
{
    let mut buf: [u8; 64] = [0u8; 64];
    proof {
        bytes::lemma_written_front(buf@, loam_body_wire::head_req_frame(digest@));
    }
    match loam_body_wire::encode_head_req(&mut buf, digest) {
        Ok(n) => bytes::front(buf.as_slice(), n),
        Err(_) => Vec::new(),
    }
}

/// A request to remove a body.
pub fn delete_request(digest: &[u8; 32]) -> (r: Vec<u8>)
    ensures
        r@ == loam_body_wire::delete_req_frame(digest@),
{
    let mut buf: [u8; 64] = [0u8; 64];
    proof {
        bytes::lemma_written_front(buf@, loam_body_wire::delete_req_frame(digest@));
    }
    match loam_body_wire::encode_delete_req(&mut buf, digest) {
        Ok(n) => bytes::front(buf.as_slice(), n),
        Err(_) => Vec::new(),
    }
}

/// A request for a part of a body.
pub fn range_request(digest: &[u8; 32], off: u64, len: u32) -> (r: Vec<u8>)
    ensures
        r@ == loam_body_wire::range_req_frame(digest@, off, len),
{
    let mut buf: [u8; 64] = [0u8; 64];
    proof {
        bytes::lemma_written_front(buf@, loam_body_wire::range_req_frame(digest@, off, len));
    }
    match loam_body_wire::encode_range_req(&mut buf, digest, off, len) {
        Ok(n) => bytes::front(buf.as_slice(), n),
        Err(_) => Vec::new(),
    }
}

/// A request to stream a body.
pub fn open_request(digest: &[u8; 32], total_len: u64) -> (r: Vec<u8>)
    ensures
        r@ == loam_body_wire::wopen_req_frame(digest@, total_len),
{
    let mut buf: [u8; 64] = [0u8; 64];
    proof {
        bytes::lemma_written_front(buf@, loam_body_wire::wopen_req_frame(digest@, total_len));
    }
    match loam_body_wire::encode_wopen_req(&mut buf, digest, total_len) {
        Ok(n) => bytes::front(buf.as_slice(), n),
        Err(_) => Vec::new(),
    }
}

/// A request to publish a streamed body.
pub fn commit_request(wid: u8) -> (r: Vec<u8>)
    ensures
        r@ == loam_body_wire::wcommit_req_frame(wid),
{
    let mut buf: [u8; 8] = [0u8; 8];
    proof {
        bytes::lemma_written_front(buf@, loam_body_wire::wcommit_req_frame(wid));
    }
    match loam_body_wire::encode_wcommit_req(&mut buf, wid) {
        Ok(n) => bytes::front(buf.as_slice(), n),
        Err(_) => Vec::new(),
    }
}

/// A request for a page of the inventory.
pub fn scan_request(cursor: u32, max: u8) -> (r: Vec<u8>)
    ensures
        r@ == loam_body_wire::scan_req_frame(cursor, max),
{
    let mut buf: [u8; 8] = [0u8; 8];
    proof {
        bytes::lemma_written_front(buf@, loam_body_wire::scan_req_frame(cursor, max));
    }
    match loam_body_wire::encode_scan_req(&mut buf, cursor, max) {
        Ok(n) => bytes::front(buf.as_slice(), n),
        Err(_) => Vec::new(),
    }
}

/// A request to store a body; `None` where it is too long.
pub fn put_request(body: &[u8]) -> (r: Option<Vec<u8>>)
    ensures
        match r {
            Some(f) => loam_body_wire::put_req_refusal(admin_router_state::SCRATCH as nat, body@) is None && f@
                == loam_body_wire::put_req_frame(body@),
            None => loam_body_wire::put_req_refusal(admin_router_state::SCRATCH as nat, body@) is Some,
        },
{
    let mut buf: [u8; 61568] = [0u8; 61568];
    let ghost before = buf@;
    match loam_body_wire::encode_put_req(&mut buf, body) {
        Ok(n) => {
            proof {
                bytes::lemma_written_front(before, loam_body_wire::put_req_frame(body@));
            }
            Some(bytes::front(buf.as_slice(), n))
        },
        Err(_) => None,
    }
}

/// A request to store a body under a key; `None` where it is too long.
pub fn put_keyed_request(key: &[u8; 32], body: &[u8]) -> (r: Option<Vec<u8>>)
    ensures
        match r {
            Some(f) => loam_body_wire::put_keyed_req_refusal(admin_router_state::SCRATCH as nat, key@, body@) is None && f@
                == loam_body_wire::put_keyed_req_frame(key@, body@),
            None => loam_body_wire::put_keyed_req_refusal(admin_router_state::SCRATCH as nat, key@, body@) is Some,
        },
{
    let mut buf: [u8; 61568] = [0u8; 61568];
    let ghost before = buf@;
    match loam_body_wire::encode_put_keyed_req(&mut buf, key, body) {
        Ok(n) => {
            proof {
                bytes::lemma_written_front(before, loam_body_wire::put_keyed_req_frame(key@, body@));
            }
            Some(bytes::front(buf.as_slice(), n))
        },
        Err(_) => None,
    }
}

/// A chunk of a streamed body; `None` where it is too long.
pub fn append_request(wid: u8, chunk: &[u8]) -> (r: Option<Vec<u8>>)
    ensures
        match r {
            Some(f) => loam_body_wire::wappend_req_refusal(admin_router_state::SCRATCH as nat, wid, chunk@) is None && f@
                == loam_body_wire::wappend_req_frame(wid, chunk@),
            None => loam_body_wire::wappend_req_refusal(admin_router_state::SCRATCH as nat, wid, chunk@) is Some,
        },
{
    let mut buf: [u8; 61568] = [0u8; 61568];
    let ghost before = buf@;
    match loam_body_wire::encode_wappend_req(&mut buf, wid, chunk) {
        Ok(n) => {
            proof {
                bytes::lemma_written_front(before, loam_body_wire::wappend_req_frame(wid, chunk@));
            }
            Some(bytes::front(buf.as_slice(), n))
        },
        Err(_) => None,
    }
}

/// A request to bind a path; `None` where it is too long.
pub fn bind_request(root: &[u8], path: &[u8], id: &[u8], kind: u8, revision: u64) -> (r: Option<Vec<u8>>)
    ensures
        match r {
            Some(f) => loam_wire::bind_refusal(admin_router_state::SCRATCH as nat, root@, path@, id@, kind, revision) is None && f@
                == loam_wire::bind_frame(root@, path@, id@, kind, revision),
            None => loam_wire::bind_refusal(admin_router_state::SCRATCH as nat, root@, path@, id@, kind, revision) is Some,
        },
{
    let mut buf: [u8; 61568] = [0u8; 61568];
    let ghost before = buf@;
    match loam_wire::encode_bind(&mut buf, root, path, id, kind, revision) {
        Ok(n) => {
            proof {
                bytes::lemma_written_front(before, loam_wire::bind_frame(root@, path@, id@, kind, revision));
            }
            Some(bytes::front(buf.as_slice(), n))
        },
        Err(_) => None,
    }
}

/// A request to unbind a path; `None` where it is too long.
pub fn unbind_request(root: &[u8], path: &[u8]) -> (r: Option<Vec<u8>>)
    ensures
        match r {
            Some(f) => loam_wire::unbind_refusal(admin_router_state::SCRATCH as nat, root@, path@) is None && f@
                == loam_wire::unbind_frame(root@, path@),
            None => loam_wire::unbind_refusal(admin_router_state::SCRATCH as nat, root@, path@) is Some,
        },
{
    let mut buf: [u8; 61568] = [0u8; 61568];
    let ghost before = buf@;
    match loam_wire::encode_unbind(&mut buf, root, path) {
        Ok(n) => {
            proof {
                bytes::lemma_written_front(before, loam_wire::unbind_frame(root@, path@));
            }
            Some(bytes::front(buf.as_slice(), n))
        },
        Err(_) => None,
    }
}

/// A request to look a path up; `None` where it is too long.
pub fn lookup_request(root: &[u8], path: &[u8]) -> (r: Option<Vec<u8>>)
    ensures
        match r {
            Some(f) => loam_wire::lookup_req_refusal(admin_router_state::SCRATCH as nat, root@, path@) is None && f@
                == loam_wire::lookup_req_frame(root@, path@),
            None => loam_wire::lookup_req_refusal(admin_router_state::SCRATCH as nat, root@, path@) is Some,
        },
{
    let mut buf: [u8; 61568] = [0u8; 61568];
    let ghost before = buf@;
    match loam_wire::encode_lookup_req(&mut buf, root, path) {
        Ok(n) => {
            proof {
                bytes::lemma_written_front(before, loam_wire::lookup_req_frame(root@, path@));
            }
            Some(bytes::front(buf.as_slice(), n))
        },
        Err(_) => None,
    }
}

/// A request for a page of paths; `None` where it is too long.
pub fn list_request(root: &[u8], cursor: u32, max: u8) -> (r: Option<Vec<u8>>)
    ensures
        match r {
            Some(f) => loam_wire::list_req_refusal(admin_router_state::SCRATCH as nat, root@, cursor, max) is None && f@
                == loam_wire::list_req_frame(root@, cursor, max),
            None => loam_wire::list_req_refusal(admin_router_state::SCRATCH as nat, root@, cursor, max) is Some,
        },
{
    let mut buf: [u8; 61568] = [0u8; 61568];
    let ghost before = buf@;
    match loam_wire::encode_list_req(&mut buf, root, cursor, max) {
        Ok(n) => {
            proof {
                bytes::lemma_written_front(before, loam_wire::list_req_frame(root@, cursor, max));
            }
            Some(bytes::front(buf.as_slice(), n))
        },
        Err(_) => None,
    }
}

/// A question whether an object is bound anywhere; `None` where it is too long.
pub fn referenced_request(cursor: u32, id: &[u8]) -> (r: Option<Vec<u8>>)
    ensures
        match r {
            Some(f) => loam_wire::referenced_req_refusal(admin_router_state::SCRATCH as nat, cursor, id@) is None && f@
                == loam_wire::referenced_req_frame(cursor, id@),
            None => loam_wire::referenced_req_refusal(admin_router_state::SCRATCH as nat, cursor, id@) is Some,
        },
{
    let mut buf: [u8; 61568] = [0u8; 61568];
    let ghost before = buf@;
    match loam_wire::encode_referenced_req(&mut buf, cursor, id) {
        Ok(n) => {
            proof {
                bytes::lemma_written_front(before, loam_wire::referenced_req_frame(cursor, id@));
            }
            Some(bytes::front(buf.as_slice(), n))
        },
        Err(_) => None,
    }
}

/// The id of the object whose body has this digest.
pub fn object_id(digest: &[u8; 32]) -> (r: Vec<u8>)
    ensures
        r@ == admin_router_state::object_id(digest@),
        r@.len() == 71,
{
    let prefix: [u8; 7] = [0x73, 0x68, 0x61, 0x32, 0x35, 0x36, 0x3A];
    assert(prefix@ =~= admin_router_state::id_prefix());
    let mut hex: [u8; 64] = [0u8; 64];
    let n: usize = loam_body_wire::hex_lower_into(digest, &mut hex);
    assert(hex@ =~= loam_body_wire::hex_of(digest@));
    let mut r: Vec<u8> = bytes::to_vec(prefix.as_slice());
    bytes::append(&mut r, hex.as_slice());
    r
}

/// The digest that an object's id stands for.
pub fn digest_from_object_id(id: &[u8]) -> (r: Option<[u8; 32]>)
    ensures
        match r {
            Some(d) => admin_router_state::id_digest(id@) == Some(d@),
            None => admin_router_state::id_digest(id@) is None,
        },
{
    let prefix: [u8; 7] = [0x73, 0x68, 0x61, 0x32, 0x35, 0x36, 0x3A];
    assert(prefix@ =~= admin_router_state::id_prefix());
    if id.len() != 71 || !bytes::bytes_equal(slice_subrange(id, 0, 7), prefix.as_slice()) {
        return None;
    }
    assert(id@.skip(7) =~= id@.subrange(7, 71));
    body_names::hex_digest_from_name(slice_subrange(id, 7, 71))
}

/// The description of the object that a stored file is.
pub fn describe_request(digest: &[u8; 32], root: &[u8], path: &[u8], body_len: u32, revision: u64) -> (r: Vec<u8>)
    requires
        root@.len() <= admin_router_state::NS_ROOT_BUF,
        path@.len() <= admin_router_state::NS_PATH_BUF,
    ensures
        r@ == loam_object_wire::put_frame(
            loam_object_wire::OP_OBJ_PUT,
            admin_router_state::object_id(digest@),
            root@,
            path@,
            admin_router_state::object_id(digest@),
            body_len as u64,
            revision,
            loam_object_wire::DATA_CLASS_LOCAL,
            1,
            None,
        ),
{
    let id: Vec<u8> = object_id(digest);
    let mut buf: [u8; 2048] = [0u8; 2048];
    let ghost frame = loam_object_wire::put_frame(
        loam_object_wire::OP_OBJ_PUT,
        id@,
        root@,
        path@,
        id@,
        body_len as u64,
        revision,
        loam_object_wire::DATA_CLASS_LOCAL,
        1,
        None,
    );
    proof {
        bytes::lemma_written_front(buf@, frame);
    }
    let fields: PutFields<'_> = PutFields {
        id: id.as_slice(),
        namespace: root,
        key: path,
        content_hash: id.as_slice(),
        size_bytes: body_len as u64,
        revision,
        data_class: loam_object_wire::DATA_CLASS_LOCAL,
        replica_count: 1,
        erasure: None,
    };
    match loam_object_wire::encode_put(&mut buf, &fields) {
        Ok(n) => bytes::front(buf.as_slice(), n),
        Err(_) => Vec::new(),
    }
}

} // verus!
