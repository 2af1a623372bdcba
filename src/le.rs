//! Little-endian unsigned integers read from byte buffers, one byte at a
//! time, whatever the host's byte order.
use vstd::prelude::*;

verus! {

/// Whether `n` bytes starting at `at` lie inside `s`.
pub open spec fn fits(s: Seq<u8>, at: int, n: int) -> bool {
    0 <= at && at + n <= s.len()
}

/// The little-endian 16-bit number at `at`.
pub open spec fn le16(s: Seq<u8>, at: int) -> int {
    s[at] + 256 * s[at + 1]
}

/// The little-endian 32-bit number at `at`.
pub open spec fn le32(s: Seq<u8>, at: int) -> int {
    le16(s, at) + 0x1_0000 * le16(s, at + 2)
}

/// The little-endian 64-bit number at `at`.
pub open spec fn le64(s: Seq<u8>, at: int) -> int {
    le32(s, at) + 0x1_0000_0000 * le32(s, at + 4)
}

/// Whether `n` bytes from `at` lie inside `b`, with no overflow on the way.
fn has_room(b: &[u8], at: usize, n: usize) -> (r: bool)
    ensures
        r == fits(b@, at as int, n as int),
{
    at <= b.len() && b.len() - at >= n
}

/// The byte at `at`, if there is one.
pub fn read_u8(b: &[u8], at: usize) -> (r: Option<u8>)
    ensures
        r == if fits(b@, at as int, 1) {
            Some(b@[at as int])
        } else {
            None
        },
{
    if has_room(b, at, 1) {
        Some(b[at])
    } else {
        None
    }
}

/// The little-endian 16-bit number at `at`, if it fits.
pub fn read_u16(b: &[u8], at: usize) -> (r: Option<u16>)
    ensures
        r == if fits(b@, at as int, 2) {
            Some(le16(b@, at as int) as u16)
        } else {
            None
        },
{
    if has_room(b, at, 2) {
        Some(b[at] as u16 + (b[at + 1] as u16) * 256)
    } else {
        None
    }
}

/// The little-endian 32-bit number at `at`, if it fits.
pub fn read_u32(b: &[u8], at: usize) -> (r: Option<u32>)
    ensures
        r == if fits(b@, at as int, 4) {
            Some(le32(b@, at as int) as u32)
        } else {
            None
        },
{
    if has_room(b, at, 4) {
        let lo = b[at] as u32 + (b[at + 1] as u32) * 256;
        let hi = b[at + 2] as u32 + (b[at + 3] as u32) * 256;
        Some(lo + hi * 0x1_0000)
    } else {
        None
    }
}

/// The little-endian 64-bit number at `at`, if it fits.
pub fn read_u64(b: &[u8], at: usize) -> (r: Option<u64>)
    ensures
        r == if fits(b@, at as int, 8) {
            Some(le64(b@, at as int) as u64)
        } else {
            None
        },
{
    if has_room(b, at, 8) {
        let len = b.len();
        assert(at + 8 <= len);
        let lo = read_u32(b, at).unwrap() as u64;
        let hi = read_u32(b, at + 4).unwrap() as u64;
        Some(lo + hi * 0x1_0000_0000)
    } else {
        None
    }
}

} // verus!
