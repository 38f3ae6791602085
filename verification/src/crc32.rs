//! The CRC-32 of IEEE 802.3.
use vstd::prelude::*;

verus! {

/// One bit of the division by the (reflected) polynomial.
pub open spec fn shifted(c: u32) -> u32 {
    if c & 1 != 0 {
        0xEDB8_8320u32 ^ (c >> 1)
    } else {
        c >> 1
    }
}

/// Eight bits of the division.
pub open spec fn shifted_byte(c: u32) -> u32 {
    shifted(shifted(shifted(shifted(shifted(shifted(shifted(shifted(c))))))))
}

/// The register after these bytes.
pub open spec fn register(bytes: Seq<u8>) -> u32
    decreases bytes.len(),
{
    if bytes.len() == 0 {
        0xFFFF_FFFFu32
    } else {
        shifted_byte(register(bytes.drop_last()) ^ (bytes.last() as u32))
    }
}

/// The checksum of a byte string.
pub open spec fn checksum(bytes: Seq<u8>) -> u32 {
    register(bytes) ^ 0xFFFF_FFFFu32
}

fn shift(c: u32) -> (r: u32)
    ensures
        r == shifted(c),
{
    if c & 1 != 0 {
        0xEDB8_8320u32 ^ (c >> 1u32)
    } else {
        c >> 1u32
    }
}

fn shift_byte(c: u32) -> (r: u32)
    ensures
        r == shifted_byte(c),
{
    shift(shift(shift(shift(shift(shift(shift(shift(c))))))))
}

/// The table of the division of every single byte.
pub fn build_crc32_table() -> (r: [u32; 256])
    ensures
        forall|i: int| 0 <= i < 256 ==> #[trigger] r@[i] == shifted_byte(i as u32),
{
    let mut table: [u32; 256] = [0u32; 256];
    let mut i: usize = 0;
    while i < 256
        invariant
            i <= 256,
            forall|j: int| 0 <= j < i ==> #[trigger] table@[j] == shifted_byte(j as u32),
        decreases 256 - i,
    {
        table[i] = shift_byte(i as u32);
        i += 1;
    }
    table
}

/// A byte can be divided by looking up its own division.
proof fn lemma_table_step(c: u32)
    ensures
        shifted_byte(c) == (c >> 8u32) ^ shifted_byte(c & 0xFFu32),
{
    assert(shifted_byte(c) == (c >> 8u32) ^ shifted_byte(c & 0xFFu32)) by (bit_vector);
}

/// The checksum of a byte string, by a table of the division of every byte.
pub fn crc32_with(table: &[u32; 256], bytes: &[u8]) -> (r: u32)
    requires
        forall|i: int| 0 <= i < 256 ==> #[trigger] table@[i] == shifted_byte(i as u32),
    ensures
        r == checksum(bytes@),
{
    let mut crc: u32 = 0xFFFF_FFFF;
    let mut i: usize = 0;
    while i < bytes.len()
        invariant
            i <= bytes.len(),
            crc == register(bytes@.take(i as int)),
            forall|i: int| 0 <= i < 256 ==> #[trigger] table@[i] == shifted_byte(i as u32),
        decreases bytes.len() - i,
    {
        let x: u32 = crc ^ (bytes[i] as u32);
        let idx: u32 = x & 0xFFu32;
        assert(idx < 256) by (bit_vector)
            requires
                idx == x & 0xFFu32,
        ;
        assert(crc >> 8u32 == x >> 8u32) by {
            let b: u8 = bytes@[i as int];
            assert((crc ^ (b as u32)) >> 8u32 == crc >> 8u32) by (bit_vector);
        }
        proof {
            lemma_table_step(x);
        }
        assert(bytes@.take(i + 1).drop_last() =~= bytes@.take(i as int));
        crc = (crc >> 8u32) ^ table[idx as usize];
        i += 1;
    }
    assert(bytes@.take(i as int) =~= bytes@);
    crc ^ 0xFFFF_FFFF
}

/// The checksum of a byte string.
pub fn crc32(bytes: &[u8]) -> (r: u32)
    ensures
        r == checksum(bytes@),
{
    let table: [u32; 256] = build_crc32_table();
    crc32_with(&table, bytes)
}

} // verus!
