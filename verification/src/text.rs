//! Lines of text with numbers in hex.
use crate::bytes;
use crate::loam_hash;
use vstd::prelude::*;

verus! {

/// The bytes of an ASCII text.
pub open spec fn ascii(s: &str) -> Seq<u8> {
    Seq::new(s@.len(), |i: int| s@[i] as u8)
}

/// The last `width` hex digits of a number.
pub open spec fn hex(value: u32, width: nat) -> Seq<u8>
    decreases width,
{
    if width == 0 {
        Seq::empty()
    } else {
        hex(value / 16, (width - 1) as nat).push(loam_hash::hex_digit(value as int % 16))
    }
}

/// The eight hex digits of a number.
pub open spec fn hex8(value: u32) -> Seq<u8> {
    hex(value, 8)
}

/// There are as many digits as were asked for.
pub proof fn lemma_hex_len(value: u32, width: nat)
    ensures
        hex(value, width).len() == width,
    decreases width,
{
    if width > 0 {
        lemma_hex_len(value / 16, (width - 1) as nat);
    }
}

/// What a number is, of which these are the last hex digits, up to the higher ones.
pub open spec fn hex_weight(width: nat) -> nat
    decreases width,
{
    if width == 0 {
        1
    } else {
        16 * hex_weight((width - 1) as nat)
    }
}

/// Numbers that differ have different digits, if there are enough digits for both.
pub proof fn lemma_hex_differs(a: u32, b: u32, width: nat)
    requires
        a != b,
        a < hex_weight(width),
        b < hex_weight(width),
    ensures
        hex(a, width) != hex(b, width),
    decreases width,
{
    if width > 0 {
        let below = (width - 1) as nat;
        let ha = hex(a, width);
        let hb = hex(b, width);
        assert(ha.drop_last() =~= hex(a / 16, below));
        assert(hb.drop_last() =~= hex(b / 16, below));
        if a / 16 != b / 16 {
            lemma_hex_differs(a / 16, b / 16, below);
        } else {
            assert(ha.last() == loam_hash::hex_digit(a as int % 16));
            assert(hb.last() == loam_hash::hex_digit(b as int % 16));
        }
    }
}

/// The bytes of an ASCII text.
pub fn bytes_of(s: &str) -> (r: &[u8])
    requires
        s.is_ascii(),
    ensures
        r@ == ascii(s),
{
    let r: &[u8] = s.as_bytes();
    proof {
        vstd::string::is_ascii_spec_bytes(s);
        assert(r@ =~= ascii(s));
    }
    r
}

/// Add a text to a line.
pub fn push_tag(line: &mut Vec<u8>, tag: &str)
    requires
        tag.is_ascii(),
    ensures
        final(line)@ == old(line)@ + ascii(tag),
{
    bytes::append(line, bytes_of(tag));
}

/// Add the last hex digits of a number to a line.
pub fn push_hex(line: &mut Vec<u8>, value: u32, width: usize)
    requires
        width <= 8,
    ensures
        final(line)@ == old(line)@ + hex(value, width as nat),
{
    let mut digits: [u8; 8] = [0u8; 8];
    write_hex(&mut digits, width, width, value);
    proof {
        lemma_hex_len(value, width as nat);
    }
    assert(digits@.take(width as int) =~= hex(value, width as nat));
    let front: Vec<u8> = bytes::front(digits.as_slice(), width);
    bytes::append(line, front.as_slice());
}

/// Copy as much of a tag as there is room for. Returns how much that is.
pub fn copy_tag(dst: &mut [u8], tag: &[u8]) -> (r: usize)
    ensures
        r == if tag@.len() <= old(dst)@.len() {
            tag@.len()
        } else {
            old(dst)@.len()
        },
        final(dst)@ == tag@.take(r as int) + old(dst)@.skip(r as int),
{
    let mut i: usize = 0;
    assert(tag@.take(0) + dst@.skip(0) =~= dst@);
    while i < tag.len() && i < dst.len()
        invariant
            i <= tag.len() && i <= dst.len(),
            dst@.len() == old(dst)@.len(),
            dst@ == tag@.take(i as int) + old(dst)@.skip(i as int),
        decreases tag.len() - i,
    {
        dst[i] = tag[i];
        i += 1;
        assert(dst@ =~= tag@.take(i as int) + old(dst)@.skip(i as int));
    }
    i
}

/// Write the last `width` hex digits of a number so that they end at `end`.
pub fn write_hex(dst: &mut [u8], end: usize, width: usize, value: u32)
    requires
        width <= end <= old(dst)@.len(),
    ensures
        final(dst)@ == old(dst)@.take(end - width) + hex(value, width as nat) + old(dst)@.skip(end as int),
{
    let mut n: u32 = value;
    let mut i: usize = end;
    let mut w: usize = 0;
    let ghost all = hex(value, width as nat);
    let ghost mut tail: Seq<u8> = Seq::empty();
    proof {
        lemma_hex_len(value, width as nat);
    }
    assert(all =~= hex(n, (width - w) as nat) + tail);
    assert(dst@ =~= old(dst)@.take(i as int) + tail + old(dst)@.skip(end as int));
    while w < width
        invariant
            w <= width <= end <= old(dst)@.len(),
            i == end - w,
            dst@.len() == old(dst)@.len(),
            tail.len() == w,
            all == hex(n, (width - w) as nat) + tail,
            dst@ == old(dst)@.take(i as int) + tail + old(dst)@.skip(end as int),
        decreases width - w,
    {
        i -= 1;
        let d: u8 = loam_hash::hex_char((n % 16) as u8);
        let ghost before = tail;
        let ghost low = loam_hash::hex_digit(n as int % 16);
        proof {
            assert(hex(n, (width - w) as nat) == hex(n / 16, (width - w - 1) as nat).push(low));
            tail = seq![low] + before;
            assert(all =~= hex(n / 16, (width - w - 1) as nat) + tail);
        }
        dst[i] = d;
        assert(dst@ =~= old(dst)@.take(i as int) + tail + old(dst)@.skip(end as int));
        n = n / 16;
        w += 1;
    }
    assert(all =~= tail);
}

/// Write the eight hex digits of a number to the start of a buffer. Returns how many were
/// written: none where there is no room.
pub fn write_hex_u32(dst: &mut [u8], value: u32) -> (r: usize)
    ensures
        r == if old(dst)@.len() < 8 {
            0int
        } else {
            8
        },
        final(dst)@ == if old(dst)@.len() < 8 {
            old(dst)@
        } else {
            hex8(value) + old(dst)@.skip(8)
        },
{
    if dst.len() < 8 {
        return 0;
    }
    write_hex(dst, 8, 8, value);
    assert(dst@ =~= hex8(value) + old(dst)@.skip(8));
    8
}

} // verus!
