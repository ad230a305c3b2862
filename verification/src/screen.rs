//! The primary screen's work area as X11 reports it.
use vstd::prelude::*;

verus! {

/// Calls `u32::from_ne_bytes`, which reads four bytes in the machine's byte
/// order; the contract says only that this is little- or big-endian.
#[verifier::external_body]
fn u32_from_ne_bytes(bytes: [u8; 4]) -> (r: u32)
    ensures
        r == le_u32(bytes@) || r == be_u32(bytes@),
{
    u32::from_ne_bytes(bytes)
}

pub open spec fn le_u32(b: Seq<u8>) -> u32 {
    (b[0] as nat + b[1] as nat * 0x100 + b[2] as nat * 0x1_0000 + b[3] as nat * 0x100_0000) as u32
}

pub open spec fn be_u32(b: Seq<u8>) -> u32 {
    (b[3] as nat + b[2] as nat * 0x100 + b[1] as nat * 0x1_0000 + b[0] as nat * 0x100_0000) as u32
}

/// Whether the four bytes at `offset` hold a value read in either byte order.
pub open spec fn field_at(bytes: Seq<u8>, offset: int, v: u32) -> bool {
    v == le_u32(bytes.subrange(offset, offset + 4)) || v == be_u32(bytes.subrange(offset, offset + 4))
}

/// Whether one of the four bytes at `offset` is not zero.
pub open spec fn nonzero_at(bytes: Seq<u8>, offset: int) -> bool {
    bytes[offset] != 0 || bytes[offset + 1] != 0 || bytes[offset + 2] != 0 || bytes[offset + 3] != 0
}

proof fn lemma_zero_iff(b: Seq<u8>)
    requires
        b.len() == 4,
    ensures
        (le_u32(b) == 0) == (b[0] == 0 && b[1] == 0 && b[2] == 0 && b[3] == 0),
        (be_u32(b) == 0) == (b[0] == 0 && b[1] == 0 && b[2] == 0 && b[3] == 0),
{
}

fn field(bytes: &[u8], offset: usize) -> (r: u32)
    requires
        offset + 4 <= bytes@.len(),
    ensures
        field_at(bytes@, offset as int, r),
        (r == 0) == !nonzero_at(bytes@, offset as int),
{
    let raw: [u8; 4] = [bytes[offset], bytes[offset + 1], bytes[offset + 2], bytes[offset + 3]];
    assert(raw@ =~= bytes@.subrange(offset as int, offset + 4));
    proof {
        lemma_zero_iff(raw@);
    }
    u32_from_ne_bytes(raw)
}

/// Reads `_NET_WORKAREA` (a CARDINAL array): x, y, width and height of the
/// first desktop at byte offsets 0, 4, 8 and 12, in the machine's byte
/// order. `None` when fewer than 16 bytes are given or the width or height
/// is zero.
pub fn parse_workarea(bytes: &[u8]) -> (r: Option<(u32, u32, u32, u32)>)
    ensures
        r is Some <==> bytes@.len() >= 16 && nonzero_at(bytes@, 8) && nonzero_at(bytes@, 12),
        r matches Some((x, y, w, h)) ==> field_at(bytes@, 0, x) && field_at(bytes@, 4, y)
            && field_at(bytes@, 8, w) && field_at(bytes@, 12, h),
{
    if bytes.len() < 16 {
        return None;
    }
    let x = field(bytes, 0);
    let y = field(bytes, 4);
    let w = field(bytes, 8);
    let h = field(bytes, 12);
    if w > 0 && h > 0 {
        Some((x, y, w, h))
    } else {
        None
    }
}

} // verus!
