//! Bounds-checked decoding of raw reparse-point buffers.
//!
//! A reparse buffer starts with a 32-bit tag. For the two redirecting kinds
//! (symbolic link and mount point) a header follows with the byte offset and
//! byte length of the substitute name inside the trailing name region, and,
//! for a symbolic link, a flag word whose lowest bit marks a relative target.
//! Anything else is an unrecognized kind. Truncated or out-of-bounds buffers
//! are malformed: the query that produced them cannot be trusted.

use vstd::prelude::*;

verus! {

/// The reparse tag of a symbolic link.
pub const TAG_SYMLINK: u32 = 0xA000000C;

/// The reparse tag of a mount point (junction).
pub const TAG_MOUNT_POINT: u32 = 0xA0000003;

/// A decoding failure: the buffer is truncated or its name region lies
/// outside the buffer.
#[derive(PartialEq, Eq, Structural, Debug, Clone, Copy)]
pub enum DecodeError {
    Malformed,
}

/// A decoded reparse buffer.
pub enum ReparseTarget {
    /// A symbolic link; `relative` tells whether the target is relative to
    /// the link's parent directory.
    Symlink { target: Vec<u16>, relative: bool },
    /// A mount point; the target is always absolute.
    MountPoint { target: Vec<u16> },
    /// A reparse point of a kind this library does not follow.
    Unrecognized,
}

/// The specification-level shape of a decoded reparse buffer.
pub enum ReparseShape {
    Symlink { target: Seq<u16>, relative: bool },
    MountPoint { target: Seq<u16> },
    Unrecognized,
}

impl DeepView for ReparseTarget {
    type V = ReparseShape;

    open spec fn deep_view(&self) -> ReparseShape {
        match self {
            ReparseTarget::Symlink { target, relative } => ReparseShape::Symlink {
                target: target@,
                relative: *relative,
            },
            ReparseTarget::MountPoint { target } => ReparseShape::MountPoint { target: target@ },
            ReparseTarget::Unrecognized => ReparseShape::Unrecognized,
        }
    }
}

/// The little-endian 16-bit value at byte offset `o`.
pub open spec fn spec_u16_at(b: Seq<u8>, o: int) -> int {
    b[o] + 256 * b[o + 1]
}

/// The little-endian 32-bit value at byte offset `o`.
pub open spec fn spec_u32_at(b: Seq<u8>, o: int) -> int {
    b[o] + 256 * b[o + 1] + 65536 * b[o + 2] + 16777216 * b[o + 3]
}

/// The `count` 16-bit units starting at byte offset `start`.
pub open spec fn spec_units_at(b: Seq<u8>, start: int, count: int) -> Seq<u16> {
    Seq::new(count as nat, |k: int| spec_u16_at(b, start + 2 * k) as u16)
}

/// What decoding a reparse buffer yields; `None` means malformed.
pub open spec fn spec_decode_reparse(b: Seq<u8>) -> Option<ReparseShape> {
    if b.len() < 4 {
        None
    } else {
        let tag = spec_u32_at(b, 0);
        if tag == TAG_SYMLINK {
            if b.len() < 20 {
                None
            } else {
                let off = spec_u16_at(b, 8);
                let nlen = spec_u16_at(b, 10);
                let start = 20 + off;
                if nlen % 2 != 0 || start + nlen > b.len() {
                    None
                } else {
                    Some(
                        ReparseShape::Symlink {
                            target: spec_units_at(b, start, nlen / 2),
                            relative: spec_u32_at(b, 16) % 2 == 1,
                        },
                    )
                }
            }
        } else if tag == TAG_MOUNT_POINT {
            if b.len() < 16 {
                None
            } else {
                let off = spec_u16_at(b, 8);
                let nlen = spec_u16_at(b, 10);
                let start = 16 + off;
                if nlen % 2 != 0 || start + nlen > b.len() {
                    None
                } else {
                    Some(ReparseShape::MountPoint { target: spec_units_at(b, start, nlen / 2) })
                }
            }
        } else {
            Some(ReparseShape::Unrecognized)
        }
    }
}

/// Read the little-endian 16-bit value at byte offset `o`.
pub fn u16_at(b: &Vec<u8>, o: usize) -> (r: u16)
    requires
        o + 2 <= b@.len(),
    ensures
        r as int == spec_u16_at(b@, o as int),
{
    let _n = b.len();
    b[o] as u16 + 256 * (b[o + 1] as u16)
}

/// Read the little-endian 32-bit value at byte offset `o`.
pub fn u32_at(b: &Vec<u8>, o: usize) -> (r: u32)
    requires
        o + 4 <= b@.len(),
    ensures
        r as int == spec_u32_at(b@, o as int),
{
    let _n = b.len();
    b[o] as u32 + 256 * (b[o + 1] as u32) + 65536 * (b[o + 2] as u32) + 16777216 * (b[o
        + 3] as u32)
}

/// Read `count` 16-bit units starting at byte offset `start`.
pub fn units_at(b: &Vec<u8>, start: usize, count: usize) -> (r: Vec<u16>)
    requires
        start + 2 * count <= b@.len(),
    ensures
        r@ == spec_units_at(b@, start as int, count as int),
{
    let n = b.len();
    let mut r: Vec<u16> = Vec::new();
    let mut k: usize = 0;
    while k < count
        invariant
            k <= count,
            n == b@.len(),
            start + 2 * count <= b@.len(),
            r@ =~= spec_units_at(b@, start as int, count as int).take(k as int),
        decreases count - k,
    {
        r.push(u16_at(b, start + 2 * k));
        proof {
            assert(r@ =~= spec_units_at(b@, start as int, count as int).take(k + 1 as int));
        }
        k = k + 1;
    }
    proof {
        let all = spec_units_at(b@, start as int, count as int);
        assert(all.take(count as int) =~= all);
    }
    r
}

/// Decode a raw reparse buffer into its tagged shape.
///
/// Returns `Err` exactly on the buffers the specification-level decoding
/// calls malformed.
pub fn decode_reparse(b: &Vec<u8>) -> (r: Result<ReparseTarget, DecodeError>)
    ensures
        match r {
            Ok(t) => spec_decode_reparse(b@) == Some(t.deep_view()),
            Err(_) => spec_decode_reparse(b@) is None,
        },
{
    if b.len() < 4 {
        return Err(DecodeError::Malformed);
    }
    let tag = u32_at(b, 0);
    if tag == TAG_SYMLINK {
        if b.len() < 20 {
            return Err(DecodeError::Malformed);
        }
        let off = u16_at(b, 8) as usize;
        let nlen = u16_at(b, 10) as usize;
        let start = 20 + off;
        if nlen % 2 != 0 || start + nlen > b.len() {
            return Err(DecodeError::Malformed);
        }
        let flags = u32_at(b, 16);
        let target = units_at(b, start, nlen / 2);
        Ok(ReparseTarget::Symlink { target, relative: flags % 2 == 1 })
    } else if tag == TAG_MOUNT_POINT {
        if b.len() < 16 {
            return Err(DecodeError::Malformed);
        }
        let off = u16_at(b, 8) as usize;
        let nlen = u16_at(b, 10) as usize;
        let start = 16 + off;
        if nlen % 2 != 0 || start + nlen > b.len() {
            return Err(DecodeError::Malformed);
        }
        let target = units_at(b, start, nlen / 2);
        Ok(ReparseTarget::MountPoint { target })
    } else {
        Ok(ReparseTarget::Unrecognized)
    }
}

} // verus!
