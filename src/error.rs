//! The ways in which decoding a Mach-O image or its DWARF data can fail.
use crate::dwarf::AttrForm;
use vstd::prelude::*;

verus! {

/// A decode failure. Every decoder of this crate reports one of these instead
/// of panicking; none is recovered from locally.
#[derive(PartialEq, Eq, Debug, Clone, Copy, Structural)]
pub enum ParseError {
    /// A read ran off the end of a buffer, or a record is shorter than its
    /// fixed part.
    Truncated,
    /// A LEB128 number has no final byte.
    TruncatedLEB,
    /// The magic number does not agree with the 64-bit flag of the CPU type.
    MagicMismatch,
    /// The CPU family (low byte of the CPU type) is not known.
    BadCpuType(u32),
    /// The CPU subtype is not known for an x86 or ARM CPU.
    BadCpuSubtype(u32),
    /// The file type is not known.
    BadFileType(u32),
    /// A segment or section name is not UTF-8.
    BadSegmentName,
    /// The load commands' sizes do not add up to the header's total.
    LoadsSizeMismatch,
    /// A build-version command's size disagrees with its tool count.
    BadBuildCommandSize,
    /// `__debug_info` is present but `__debug_abbrev` is not.
    MissingAbbrevTable,
    /// A DIE refers to an abbreviation code that the table lacks.
    UnknownAbbrevCode(u64),
    /// An abbreviation declares a tag that is not known.
    BadDieTag(u64),
    /// An abbreviation's children flag is neither 0 nor 1.
    BadChildrenFlag(u8),
    /// An attribute has a form whose length this decoder cannot tell.
    UnsupportedAttrForm(AttrForm),
    /// A line-number program header has a version whose layout this decoder
    /// does not read (it reads versions 2 to 4).
    UnsupportedLineVersion(u16),
}


} // verus!
