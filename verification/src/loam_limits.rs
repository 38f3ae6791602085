//! Every deliberate ceiling, declared once.
//!
//! Capacities come in four profiles: `minimal`, `embedded`, `node` and
//! `server`. The constants here are those of `node`, a single host daemon.
//! A ceiling that a wire format commits to does not depend on the profile and
//! stands with that format instead.
use vstd::prelude::*;

verus! {

/// The name of the profile that the constants below belong to.
pub const PROFILE: &'static str = "node";

/// Whether this is one of the two small profiles.
pub const CONSTRAINED: bool = false;

/// Whether this is the smallest profile.
pub const MINIMAL: bool = false;

/// Whether this is the widest profile.
pub const SERVER: bool = false;

/// Whether the namespace keeps compacted snapshots on disk and evicts from its arena.
pub const SNAPSHOT_TIER: bool = !MINIMAL;

/// Longest accepted namespace root.
pub const MAX_ROOT: usize = 64;

/// Longest accepted object id.
pub const MAX_OBJECT_ID: usize = 96;

/// Longest accepted path within a root.
pub const MAX_PATH: usize = 1024;

/// Longest accepted key component: the widest of the three above.
pub const MAX_KEY_STRING: usize = 1024;

/// Binding slots per namespace.
pub const NAMESPACE_SLOTS: usize = 8192;

/// Descriptor slots per object index.
pub const OBJECT_SLOTS: usize = 8192;

/// Volume slots per block allocator.
pub const BLOCK_SLOTS: usize = 1024;

/// Index slots per body store.
pub const BODY_SLOTS: usize = 8192;

/// Concurrent streamed writes per body store.
pub const WRITE_SESSIONS: usize = 8;

/// Proposals in flight per proposer.
pub const PROPOSER_PENDING: usize = 256;

/// Outstanding upstream requests per body router.
pub const ROUTER_PENDING: usize = 64;

/// Fan-out join records per body router.
pub const ROUTER_JOINS: usize = 32;

/// Operations in flight per admin router.
pub const ADMIN_PENDING: usize = 64;

/// Composed writes in flight per admin router.
pub const ADMIN_PUTFILE: usize = 16;

/// Streamed composed writes in flight per admin router.
pub const ADMIN_STREAMED_PUTFILE: usize = 4;

/// Operations that one step handles before it yields.
pub const OPS_PER_STEP: u32 = 4;

/// Why a key was refused.
#[derive(Debug, Clone, Copy, PartialEq, Eq, Structural)]
pub struct KeyTooLong {
    pub len: usize,
    pub max: usize,
}

/// The verdict on a key with components of these lengths: the first that is
/// over its ceiling, in the order root, path, object id.
pub open spec fn key_verdict(root: nat, path: nat, object_id: nat) -> Result<(), KeyTooLong> {
    if root > MAX_ROOT {
        Err(KeyTooLong { len: root as usize, max: MAX_ROOT })
    } else if path > MAX_PATH {
        Err(KeyTooLong { len: path as usize, max: MAX_PATH })
    } else if object_id > MAX_OBJECT_ID {
        Err(KeyTooLong { len: object_id as usize, max: MAX_OBJECT_ID })
    } else {
        Ok(())
    }
}

/// Refuse a key whose components exceed their ceilings. An operation that does
/// not carry a component passes an empty one.
pub fn check_key(namespace_root: &[u8], path: &[u8], object_id: &[u8]) -> (r: Result<(), KeyTooLong>)
    ensures
        r == key_verdict(namespace_root@.len(), path@.len(), object_id@.len()),
{
    check_lengths(namespace_root.len(), path.len(), object_id.len())
}

/// Refuse a key by the lengths of its components.
pub fn check_lengths(namespace_root: usize, path: usize, object_id: usize) -> (r: Result<(), KeyTooLong>)
    ensures
        r == key_verdict(namespace_root as nat, path as nat, object_id as nat),
{
    if namespace_root > MAX_ROOT {
        return Err(KeyTooLong { len: namespace_root, max: MAX_ROOT });
    }
    if path > MAX_PATH {
        return Err(KeyTooLong { len: path, max: MAX_PATH });
    }
    if object_id > MAX_OBJECT_ID {
        return Err(KeyTooLong { len: object_id, max: MAX_OBJECT_ID });
    }
    Ok(())
}

} // verus!
