//! The file names of a body store.
//!
//! A blob is at `<root>/<64 hex digits>`, a streamed write that is not finished at
//! `<root>/.wip_<digit>`, and a blob that is not published yet at
//! `<root>/.pub_<16 hex digits>`. Nothing else in the directory is the store's.
use crate::bytes;
use crate::loam_body_wire;
use crate::loam_hash;
use vstd::prelude::*;
use vstd::slice::slice_subrange;

verus! {

/// Longest root directory.
pub const ROOT_DIR_BUF: usize = 192;

/// Longest path.
pub const PATH_BUF: usize = 256;

/// The digits of a digest.
pub const HEX_DIGEST_LEN: usize = 64;

/// `.pub_`
pub open spec fn pub_prefix() -> Seq<u8> {
    seq![0x2Eu8, 0x70, 0x75, 0x62, 0x5F]
}

/// `.wip_`
pub open spec fn wip_prefix() -> Seq<u8> {
    seq![0x2Eu8, 0x77, 0x69, 0x70, 0x5F]
}

/// The path of a blob, if there is a root and the path is not too long.
pub open spec fn body_path(root: Seq<u8>, digest: Seq<u8>) -> Option<Seq<u8>> {
    if root.len() == 0 || root.len() + 65 > PATH_BUF {
        None
    } else {
        Some(root + seq![0x2Fu8] + loam_body_wire::hex_of(digest))
    }
}

/// The path of a blob before it is published.
pub open spec fn pub_path(root: Seq<u8>, digest: Seq<u8>) -> Option<Seq<u8>> {
    if root.len() == 0 || root.len() + 22 > PATH_BUF {
        None
    } else {
        Some(root + seq![0x2Fu8] + pub_prefix() + loam_body_wire::hex_of(digest.take(8)))
    }
}

/// The path of a streamed write.
pub open spec fn wip_path(root: Seq<u8>, wid: u8) -> Option<Seq<u8>> {
    if root.len() == 0 || root.len() + 8 > PATH_BUF {
        None
    } else {
        Some(root + seq![0x2Fu8] + wip_prefix() + seq![(0x30 + wid % 10) as u8])
    }
}

fn under_root(root: &[u8]) -> (r: Vec<u8>)
    ensures
        r@ == root@ + seq![0x2Fu8],
{
    let mut r: Vec<u8> = bytes::to_vec(root);
    r.push(0x2F);
    assert(r@ =~= root@ + seq![0x2Fu8]);
    r
}

/// Build the path of a blob.
pub fn build_body_path(root: &[u8], digest: &[u8; 32]) -> (r: Option<Vec<u8>>)
    ensures
        match r {
            Some(p) => body_path(root@, digest@) == Some(p@),
            None => body_path(root@, digest@) is None,
        },
{
    if root.len() == 0 || root.len() > PATH_BUF - 65 {
        return None;
    }
    let mut r: Vec<u8> = under_root(root);
    let mut hex: [u8; 64] = [0u8; 64];
    let n: usize = loam_body_wire::hex_lower_into(digest, &mut hex);
    assert(hex@ =~= loam_body_wire::hex_of(digest@));
    bytes::append(&mut r, hex.as_slice());
    Some(r)
}

/// Build the path of a blob before it is published.
pub fn build_pub_path(root: &[u8], digest: &[u8; 32]) -> (r: Option<Vec<u8>>)
    ensures
        match r {
            Some(p) => pub_path(root@, digest@) == Some(p@),
            None => pub_path(root@, digest@) is None,
        },
{
    if root.len() == 0 || root.len() > PATH_BUF - 22 {
        return None;
    }
    let mut r: Vec<u8> = under_root(root);
    let prefix: [u8; 5] = [0x2E, 0x70, 0x75, 0x62, 0x5F];
    assert(prefix@ =~= pub_prefix());
    bytes::append(&mut r, prefix.as_slice());
    let mut hex: [u8; 64] = [0u8; 64];
    let n: usize = loam_body_wire::hex_lower_into(digest, &mut hex);
    assert(hex@.take(16) =~= loam_body_wire::hex_of(digest@.take(8)));
    bytes::append(&mut r, slice_subrange(hex.as_slice(), 0, 16));
    Some(r)
}

/// Build the path of a streamed write.
pub fn build_wip_path(root: &[u8], wid: u8) -> (r: Option<Vec<u8>>)
    ensures
        match r {
            Some(p) => wip_path(root@, wid) == Some(p@),
            None => wip_path(root@, wid) is None,
        },
{
    if root.len() == 0 || root.len() > PATH_BUF - 8 {
        return None;
    }
    let mut r: Vec<u8> = under_root(root);
    let prefix: [u8; 5] = [0x2E, 0x77, 0x69, 0x70, 0x5F];
    assert(prefix@ =~= wip_prefix());
    bytes::append(&mut r, prefix.as_slice());
    r.push(0x30 + wid % 10);
    assert(r@ =~= root@ + seq![0x2Fu8] + wip_prefix() + seq![(0x30 + wid % 10) as u8]);
    Some(r)
}

/// The number of the streamed write that a name belongs to.
pub open spec fn wip_id(name: Seq<u8>) -> Option<int> {
    if name.len() == 6 && name.take(5) == wip_prefix() && 0x30 <= name[5] <= 0x39 {
        Some(name[5] - 0x30)
    } else {
        None
    }
}

/// The number of the streamed write that a name belongs to.
pub fn wip_id_from_name(name: &[u8]) -> (r: Option<usize>)
    ensures
        match r {
            Some(wid) => wip_id(name@) == Some(wid as int) && wid < 10,
            None => wip_id(name@) is None,
        },
{
    let prefix: [u8; 5] = [0x2E, 0x77, 0x69, 0x70, 0x5F];
    assert(prefix@ =~= wip_prefix());
    if name.len() != 6 || !bytes::bytes_equal(slice_subrange(name, 0, 5), prefix.as_slice()) {
        return None;
    }
    let d: u8 = name[5];
    if 0x30 <= d && d <= 0x39 {
        Some((d - 0x30) as usize)
    } else {
        None
    }
}

/// Every byte is a hex digit.
pub open spec fn all_hex(s: Seq<u8>) -> bool {
    forall|i: int| 0 <= i < s.len() ==> loam_hash::hex_digit_value(#[trigger] s[i]) is Some
}

/// The name is that of a blob which is not published yet.
pub open spec fn is_pub_name(name: Seq<u8>) -> bool {
    name.len() > 5 && name.take(5) == pub_prefix() && all_hex(name.skip(5))
}

/// Whether a name is that of a blob which is not published yet.
pub fn is_pub_staging_name(name: &[u8]) -> (r: bool)
    ensures
        r == is_pub_name(name@),
{
    let prefix: [u8; 5] = [0x2E, 0x70, 0x75, 0x62, 0x5F];
    assert(prefix@ =~= pub_prefix());
    if name.len() <= 5 || !bytes::bytes_equal(slice_subrange(name, 0, 5), prefix.as_slice()) {
        return false;
    }
    let mut i: usize = 5;
    while i < name.len()
        invariant
            5 <= i <= name.len(),
            forall|j: int| 5 <= j < i ==> loam_hash::hex_digit_value(#[trigger] name@[j]) is Some,
        decreases name.len() - i,
    {
        if loam_hash::hex_val(name[i]).is_none() {
            assert(name@.skip(5)[i - 5] == name@[i as int]);
            return false;
        }
        i += 1;
    }
    true
}

/// The digest that a name stands for.
pub open spec fn name_digest(name: Seq<u8>) -> Option<Seq<u8>> {
    if name.len() == HEX_DIGEST_LEN && all_hex(name) {
        Some(
            Seq::new(
                32,
                |i: int|
                    (16 * loam_hash::hex_digit_value(name[2 * i]).unwrap() + loam_hash::hex_digit_value(
                        name[2 * i + 1],
                    ).unwrap()) as u8,
            ),
        )
    } else {
        None
    }
}

/// The digest that a name stands for.
pub fn hex_digest_from_name(name: &[u8]) -> (r: Option<[u8; 32]>)
    ensures
        match r {
            Some(d) => name_digest(name@) == Some(d@),
            None => name_digest(name@) is None,
        },
{
    if name.len() != HEX_DIGEST_LEN {
        return None;
    }
    let mut d: [u8; 32] = [0u8; 32];
    let mut i: usize = 0;
    while i < 32
        invariant
            i <= 32,
            name@.len() == HEX_DIGEST_LEN,
            forall|j: int| 0 <= j < 2 * i ==> loam_hash::hex_digit_value(#[trigger] name@[j]) is Some,
            forall|j: int|
                0 <= j < i ==> #[trigger] d@[j] == (16 * loam_hash::hex_digit_value(name@[2 * j]).unwrap()
                    + loam_hash::hex_digit_value(name@[2 * j + 1]).unwrap()) as u8,
        decreases 32 - i,
    {
        match (loam_hash::hex_val(name[2 * i]), loam_hash::hex_val(name[2 * i + 1])) {
            (Some(hi), Some(lo)) => {
                d[i] = 16 * hi + lo;
            },
            (None, _) => {
                assert(!all_hex(name@)) by {
                    assert(loam_hash::hex_digit_value(name@[2 * i as int]) is None);
                }
                return None;
            },
            (_, None) => {
                assert(!all_hex(name@)) by {
                    assert(loam_hash::hex_digit_value(name@[2 * i as int + 1]) is None);
                }
                return None;
            },
        }
        i += 1;
    }
    assert(all_hex(name@));
    assert(d@ =~= name_digest(name@).unwrap());
    Some(d)
}

/// The name of a blob leads back to its digest.
pub proof fn lemma_name_leads_back(digest: Seq<u8>)
    requires
        digest.len() == 32,
    ensures
        name_digest(loam_body_wire::hex_of(digest)) == Some(digest),
{
    let name = loam_body_wire::hex_of(digest);
    assert forall|i: int| 0 <= i < name.len() implies loam_hash::hex_digit_value(#[trigger] name[i]) is Some by {
        let b = digest[i / 2];
    }
    assert(name_digest(name).unwrap() =~= digest) by {
        assert forall|i: int| 0 <= i < 32 implies #[trigger] name_digest(name).unwrap()[i] == digest[i] by {
            let b = digest[i];
            assert((2 * i) / 2 == i && (2 * i + 1) / 2 == i);
            assert(name[2 * i] == loam_hash::hex_digit(b as int / 16));
            assert(name[2 * i + 1] == loam_hash::hex_digit(b as int % 16));
        }
    }
}

/// No name is of two kinds.
pub proof fn lemma_kinds_of_names(name: Seq<u8>)
    ensures
        !(wip_id(name) is Some && is_pub_name(name)),
        !(wip_id(name) is Some && name_digest(name) is Some),
        !(is_pub_name(name) && name_digest(name) is Some),
{
    if name.len() > 5 {
        assert(name.take(5)[1] == name[1]);
        assert(name.take(5)[0] == name[0]);
    }
}

/// An entry of a directory.
pub struct DirEntry {
    pub is_dir: bool,
    pub name: Vec<u8>,
}

/// The entries from `pos` on, at most `count`, of a buffer that a directory was read into.
pub open spec fn dir_entries(s: Seq<u8>, pos: int, count: nat) -> Seq<(bool, Seq<u8>)>
    decreases count,
{
    if count == 0 || pos < 0 || pos + 2 > s.len() || pos + 2 + s[pos] > s.len() {
        Seq::empty()
    } else {
        let end = pos + 2 + s[pos];
        seq![(s[pos + 1] != 0, s.subrange(pos + 2, end))] + dir_entries(s, end, (count - 1) as nat)
    }
}

/// The entries in a buffer that a directory was read into: a count, and behind it
/// `[len][is_dir][name]` for each.
pub open spec fn dir_listing(s: Seq<u8>) -> Seq<(bool, Seq<u8>)> {
    if s.len() < 2 {
        Seq::empty()
    } else {
        dir_entries(s, 2, bytes::u16_at(s, 0) as nat)
    }
}

pub open spec fn entries_of(v: Seq<DirEntry>) -> Seq<(bool, Seq<u8>)> {
    Seq::new(v.len(), |i: int| (v[i].is_dir, v[i].name@))
}

/// Read the entries out of a buffer that a directory was read into.
pub fn parse_dir_listing(buf: &[u8]) -> (r: Vec<DirEntry>)
    ensures
        entries_of(r@) == dir_listing(buf@),
{
    let mut r: Vec<DirEntry> = Vec::new();
    if buf.len() < 2 {
        assert(entries_of(r@) =~= dir_listing(buf@));
        return r;
    }
    let count: usize = bytes::get_u16(buf, 0) as usize;
    let mut pos: usize = 2;
    let mut seen: usize = 0;
    assert(entries_of(r@) + dir_listing(buf@) =~= dir_listing(buf@));
    while seen < count && pos <= buf.len() - 2 && buf[pos] as usize <= buf.len() - 2 - pos
        invariant
            seen <= count,
            2 <= pos <= buf.len(),
            dir_listing(buf@) == entries_of(r@) + dir_entries(buf@, pos as int, (count - seen) as nat),
        decreases count - seen,
    {
        let end: usize = pos + 2 + buf[pos] as usize;
        let ghost before = entries_of(r@);
        let e: DirEntry = DirEntry {
            is_dir: buf[pos + 1] != 0,
            name: bytes::to_vec(slice_subrange(buf, pos + 2, end)),
        };
        let ghost item = (e.is_dir, e.name@);
        r.push(e);
        assert(entries_of(r@) =~= before.push(item));
        assert(before + (seq![item] + dir_entries(buf@, end as int, (count - seen - 1) as nat)) =~= before.push(item)
            + dir_entries(buf@, end as int, (count - seen - 1) as nat));
        pos = end;
        seen += 1;
    }
    assert(entries_of(r@) + Seq::<(bool, Seq<u8>)>::empty() =~= entries_of(r@));
    r
}

/// How a blob reaches its name.
#[derive(Debug, Clone, Copy, PartialEq, Eq, Structural)]
pub enum PublishTier {
    /// Write it under another name, make its bytes durable, and rename it.
    Rename,
    /// Write it under its name, make its bytes durable, and then the name.
    NameFence,
    /// Neither is possible, so nothing can be acknowledged.
    Unavailable,
}

/// The provider can rename.
pub const CAP_RENAME: u32 = 0x100;

/// The provider can make a name durable.
pub const CAP_FSYNC_NAME: u32 = 0x800;

/// How blobs are published by a provider that can do this much; nothing is known of
/// one that has not answered yet.
pub open spec fn tier_of(caps: Option<u32>) -> PublishTier {
    match caps {
        None => PublishTier::Unavailable,
        Some(bits) => if bits & CAP_RENAME != 0 {
            PublishTier::Rename
        } else if bits & CAP_FSYNC_NAME != 0 {
            PublishTier::NameFence
        } else {
            PublishTier::Unavailable
        },
    }
}

/// How blobs are published.
pub fn publish_tier(caps: Option<u32>) -> (r: PublishTier)
    ensures
        r == tier_of(caps),
{
    match caps {
        None => PublishTier::Unavailable,
        Some(bits) => if bits & CAP_RENAME != 0 {
            PublishTier::Rename
        } else if bits & CAP_FSYNC_NAME != 0 {
            PublishTier::NameFence
        } else {
            PublishTier::Unavailable
        },
    }
}

/// The argument of a rename, `[src_len:u16][src][dst_len:u16][dst]`.
pub open spec fn rename_arg(src: Seq<u8>, dst: Seq<u8>) -> Option<Seq<u8>> {
    if 4 + src.len() + dst.len() > 516 {
        None
    } else {
        Some(bytes::le16(src.len() as u16) + src + bytes::le16(dst.len() as u16) + dst)
    }
}

/// Build the argument of a rename; `None` where it is too long.
pub fn build_rename_arg(src: &[u8], dst: &[u8]) -> (r: Option<Vec<u8>>)
    ensures
        match r {
            Some(arg) => rename_arg(src@, dst@) == Some(arg@),
            None => rename_arg(src@, dst@) is None,
        },
{
    if src.len() > 512 || dst.len() > 512 - src.len() {
        return None;
    }
    let mut n: [u8; 2] = [0u8; 2];
    bytes::put_u16(&mut n, 0, src.len() as u16);
    proof {
        reveal(bytes::splice);
        assert(n@ =~= bytes::le16(src@.len() as u16));
    }
    let mut r: Vec<u8> = bytes::to_vec(n.as_slice());
    bytes::append(&mut r, src);
    bytes::put_u16(&mut n, 0, dst.len() as u16);
    proof {
        assert(n@ =~= bytes::le16(dst@.len() as u16));
    }
    bytes::append(&mut r, n.as_slice());
    bytes::append(&mut r, dst);
    Some(r)
}

} // verus!
