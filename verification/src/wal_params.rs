//! The path a module is given to keep its files at.
//!
//! It comes either as raw bytes, or tagged: `[FE][01][_][_]` and then entries
//! `[tag][len][value]`, of which the path is the one with tag 1 and the entry
//! with tag `FF` is the last.
use crate::body_names;
use crate::bytes;
use vstd::prelude::*;
use vstd::slice::slice_subrange;

verus! {

/// Longest path that is kept.
pub const WAL_PATH_BUF: usize = 256;

/// The value of the first whole entry with tag 1 from `off` on.
pub open spec fn tagged_path(s: Seq<u8>, off: int) -> Option<Seq<u8>>
    decreases s.len() - off,
{
    if off < 0 || off + 2 > s.len() || s[off] == 0xFF {
        None
    } else {
        let end = off + 2 + s[off + 1];
        if end > s.len() {
            None
        } else if s[off] == 1 {
            Some(s.subrange(off + 2, end))
        } else {
            tagged_path(s, end)
        }
    }
}

/// The parameters are tagged entries.
pub open spec fn is_tagged(s: Seq<u8>) -> bool {
    s.len() >= 4 && s[0] == 0xFE && s[1] == 0x01
}

/// As much of a path as is kept.
pub open spec fn kept(path: Seq<u8>) -> Seq<u8> {
    if path.len() <= WAL_PATH_BUF {
        path
    } else {
        path.take(WAL_PATH_BUF as int)
    }
}

/// The path in a module's parameters, if they hold one.
pub open spec fn path_param(s: Seq<u8>) -> Option<Seq<u8>> {
    if s.len() == 0 {
        None
    } else if is_tagged(s) {
        match tagged_path(s, 4) {
            Some(path) => Some(kept(path)),
            None => None,
        }
    } else {
        Some(kept(s))
    }
}

fn keep(path: &[u8]) -> (r: Vec<u8>)
    ensures
        r@ == kept(path@),
{
    if path.len() <= WAL_PATH_BUF {
        bytes::to_vec(path)
    } else {
        bytes::front(path, WAL_PATH_BUF)
    }
}

/// The path in a module's parameters, if they hold one. A path that is too long is cut.
pub fn decode_wal_path_params(params: &[u8]) -> (r: Option<Vec<u8>>)
    ensures
        match r {
            Some(path) => path_param(params@) == Some(path@),
            None => path_param(params@) is None,
        },
{
    if params.len() == 0 {
        return None;
    }
    if !(params.len() >= 4 && params[0] == 0xFE && params[1] == 0x01) {
        return Some(keep(params));
    }
    match tagged(params) {
        Some((from, to)) => Some(keep(slice_subrange(params, from, to))),
        None => None,
    }
}

/// Where the value of the first whole entry with tag 1 stands.
fn tagged(params: &[u8]) -> (r: Option<(usize, usize)>)
    requires
        is_tagged(params@),
    ensures
        match r {
            Some((from, to)) => from <= to <= params@.len() && tagged_path(params@, 4) == Some(
                params@.subrange(from as int, to as int),
            ),
            None => tagged_path(params@, 4) is None,
        },
{
    let mut off: usize = 4;
    while params.len() >= 2 && off <= params.len() - 2
        invariant
            is_tagged(params@),
            tagged_path(params@, 4) == tagged_path(params@, off as int),
        decreases params.len() - off,
    {
        let tag: u8 = params[off];
        let elen: usize = params[off + 1] as usize;
        off += 2;
        if tag == 0xFF {
            return None;
        }
        if elen > params.len() - off {
            return None;
        }
        if tag == 1 {
            return Some((off, off + elen));
        }
        off += elen;
    }
    None
}

/// The directory in a body store's parameters, if they hold one that is not too long.
pub open spec fn root_dir_param(s: Seq<u8>) -> Option<Seq<u8>> {
    let dir = if is_tagged(s) {
        tagged_path(s, 4)
    } else {
        Some(s)
    };
    match dir {
        Some(d) => if 1 <= d.len() <= body_names::ROOT_DIR_BUF {
            Some(d)
        } else {
            None
        },
        None => None,
    }
}

/// The directory in a body store's parameters, if they hold one. One that is too long is
/// none.
pub fn decode_root_dir_params(params: &[u8]) -> (r: Option<Vec<u8>>)
    ensures
        match r {
            Some(dir) => root_dir_param(params@) == Some(dir@),
            None => root_dir_param(params@) is None,
        },
{
    if !(params.len() >= 4 && params[0] == 0xFE && params[1] == 0x01) {
        if params.len() == 0 || params.len() > body_names::ROOT_DIR_BUF {
            return None;
        }
        return Some(bytes::to_vec(params));
    }
    match tagged(params) {
        Some((from, to)) => if to - from == 0 || to - from > body_names::ROOT_DIR_BUF {
            None
        } else {
            Some(bytes::to_vec(slice_subrange(params, from, to)))
        },
        None => None,
    }
}

} // verus!
