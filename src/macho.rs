//! The Mach-O container: the file header, the load commands, and the
//! segments with their sections. Only 64-bit little-endian images are
//! decoded.
use crate::error::ParseError;
use crate::le::{fits, le32, le64, read_u32, read_u64};
use vstd::prelude::*;
use vstd::slice::slice_subrange;
use vstd::utf8::{decode_utf8, valid_utf8};

verus! {

/// The magic number of a 32-bit Mach-O image.
pub const MAGIC_32: u32 = 0xfeed_face;

/// The magic number of a 64-bit Mach-O image.
pub const MAGIC_64: u32 = 0xfeed_facf;

/// The bit of the CPU type that marks a 64-bit architecture.
pub const CPU_ARCH_64: u32 = 0x0100_0000;

/// The size of the file header.
pub const HEADER_SIZE: usize = 32;

/// Load command: symbol table.
pub const LC_SYMTAB: u32 = 0x02;

/// Load command: 64-bit segment.
pub const LC_SEGMENT_64: u32 = 0x19;

/// Load command: UUID.
pub const LC_UUID: u32 = 0x1b;

/// Load command: build version.
pub const LC_BUILD_VERSION: u32 = 0x32;

/// The size of the fixed part of a 64-bit segment command, after the tag and
/// size words.
pub const SEGMENT64_SIZE: usize = 64;

/// The stride of the section records of a segment: 76 bytes of fields,
/// rounded up to a word.
pub const SECTION64_SIZE: usize = 80;

/// The bytes that the fields of a section record span.
pub const SECTION64_FIELDS_SIZE: usize = 76;

/// The size of the fixed part of a build-version command, tag and size words
/// included.
pub const BUILD_VERSION_SIZE: u32 = 0x18;

/// The size of one tool record of a build-version command.
pub const BUILD_TOOL_SIZE: u32 = 8;

/// The CPU subtype of an x86 CPU.
#[derive(Clone, Copy, Debug, PartialEq, Eq, Structural)]
pub enum X86Subtype {
    AllX86,
    I486OrNewer,
    I486SXOrNewer,
    PentiumM5OrNewer,
    CeleronOrNewer,
    CeleronMobileOrNewer,
    Pentium3OrNewer,
    Pentium3MOrNewer,
    Pentium3XEONOrNewer,
    Pentium4OrNewer,
    ItaniumOrNewer,
    Itanium2OrNewer,
    XEONOrNewer,
    XEONMPOrNewer,
}

impl X86Subtype {
    /// The number that stands for this value on disk.
    pub open spec fn code(self) -> u32 {
        match self {
            X86Subtype::AllX86 => 0x03,
            X86Subtype::I486OrNewer => 0x04,
            X86Subtype::I486SXOrNewer => 0x84,
            X86Subtype::PentiumM5OrNewer => 0x56,
            X86Subtype::CeleronOrNewer => 0x67,
            X86Subtype::CeleronMobileOrNewer => 0x77,
            X86Subtype::Pentium3OrNewer => 0x08,
            X86Subtype::Pentium3MOrNewer => 0x18,
            X86Subtype::Pentium3XEONOrNewer => 0x28,
            X86Subtype::Pentium4OrNewer => 0x0a,
            X86Subtype::ItaniumOrNewer => 0x0b,
            X86Subtype::Itanium2OrNewer => 0x1b,
            X86Subtype::XEONOrNewer => 0x0c,
            X86Subtype::XEONMPOrNewer => 0x1c,
        }
    }

    /// The x86 subtype whose number is `word`, if there is one.
    pub fn from(word: u32) -> (r: Option<X86Subtype>)
        ensures
            match r {
                Some(t) => t.code() == word,
                None => forall|t: X86Subtype| #[trigger] t.code() != word,
            },
    {
        match word {
            0x03 => Some(X86Subtype::AllX86),
            0x04 => Some(X86Subtype::I486OrNewer),
            0x84 => Some(X86Subtype::I486SXOrNewer),
            0x56 => Some(X86Subtype::PentiumM5OrNewer),
            0x67 => Some(X86Subtype::CeleronOrNewer),
            0x77 => Some(X86Subtype::CeleronMobileOrNewer),
            0x08 => Some(X86Subtype::Pentium3OrNewer),
            0x18 => Some(X86Subtype::Pentium3MOrNewer),
            0x28 => Some(X86Subtype::Pentium3XEONOrNewer),
            0x0a => Some(X86Subtype::Pentium4OrNewer),
            0x0b => Some(X86Subtype::ItaniumOrNewer),
            0x1b => Some(X86Subtype::Itanium2OrNewer),
            0x0c => Some(X86Subtype::XEONOrNewer),
            0x1c => Some(X86Subtype::XEONMPOrNewer),
            _ => None,
        }
    }
}

/// The CPU subtype of an ARM CPU.
#[derive(Clone, Copy, Debug, PartialEq, Eq, Structural)]
pub enum ArmSubtype {
    AllArm,
    ArmA500ARCHOrNewer,
    ArmA500OrNewer,
    ArmA440OrNewer,
    ArmM4OrNewer,
    ArmV4TOrNewer,
    ArmV6OrNewer,
    ArmV5TEJOrNewer,
    ArmXSCALEOrNewer,
    ArmV7OrNewer,
    ArmV7FOrNewer,
    ArmV7SOrNewer,
    ArmV7KOrNewer,
    ArmV8OrNewer,
    ArmV6MOrNewer,
    ArmV7MOrNewer,
    ArmV7EMOrNewer,
}

impl ArmSubtype {
    /// The number that stands for this value on disk.
    pub open spec fn code(self) -> u32 {
        match self {
            ArmSubtype::AllArm => 0x00,
            ArmSubtype::ArmA500ARCHOrNewer => 0x01,
            ArmSubtype::ArmA500OrNewer => 0x02,
            ArmSubtype::ArmA440OrNewer => 0x03,
            ArmSubtype::ArmM4OrNewer => 0x04,
            ArmSubtype::ArmV4TOrNewer => 0x05,
            ArmSubtype::ArmV6OrNewer => 0x06,
            ArmSubtype::ArmV5TEJOrNewer => 0x07,
            ArmSubtype::ArmXSCALEOrNewer => 0x08,
            ArmSubtype::ArmV7OrNewer => 0x09,
            ArmSubtype::ArmV7FOrNewer => 0x0a,
            ArmSubtype::ArmV7SOrNewer => 0x0b,
            ArmSubtype::ArmV7KOrNewer => 0x0c,
            ArmSubtype::ArmV8OrNewer => 0x0d,
            ArmSubtype::ArmV6MOrNewer => 0x0e,
            ArmSubtype::ArmV7MOrNewer => 0x0f,
            ArmSubtype::ArmV7EMOrNewer => 0x10,
        }
    }

    /// The ARM subtype whose number is `word`, if there is one.
    pub fn from(word: u32) -> (r: Option<ArmSubtype>)
        ensures
            match r {
                Some(t) => t.code() == word,
                None => forall|t: ArmSubtype| #[trigger] t.code() != word,
            },
    {
        match word {
            0x00 => Some(ArmSubtype::AllArm),
            0x01 => Some(ArmSubtype::ArmA500ARCHOrNewer),
            0x02 => Some(ArmSubtype::ArmA500OrNewer),
            0x03 => Some(ArmSubtype::ArmA440OrNewer),
            0x04 => Some(ArmSubtype::ArmM4OrNewer),
            0x05 => Some(ArmSubtype::ArmV4TOrNewer),
            0x06 => Some(ArmSubtype::ArmV6OrNewer),
            0x07 => Some(ArmSubtype::ArmV5TEJOrNewer),
            0x08 => Some(ArmSubtype::ArmXSCALEOrNewer),
            0x09 => Some(ArmSubtype::ArmV7OrNewer),
            0x0a => Some(ArmSubtype::ArmV7FOrNewer),
            0x0b => Some(ArmSubtype::ArmV7SOrNewer),
            0x0c => Some(ArmSubtype::ArmV7KOrNewer),
            0x0d => Some(ArmSubtype::ArmV8OrNewer),
            0x0e => Some(ArmSubtype::ArmV6MOrNewer),
            0x0f => Some(ArmSubtype::ArmV7MOrNewer),
            0x10 => Some(ArmSubtype::ArmV7EMOrNewer),
            _ => None,
        }
    }
}

/// What kind of Mach-O file an image is.
#[derive(Clone, Copy, Debug, PartialEq, Eq, Structural)]
pub enum FileType {
    RelocatableObj,
    DemandPagedExe,
    FixedVmSharedLib,
    Core,
    PreloadedExe,
    DynamicallyBoundSharedLib,
    DynamicLinkEditor,
    DynamicallyBoundBundle,
    SharedLibraryStub,
    CompanionDebugOnly,
    X8664Kexts,
    CompositeMacho,
}

impl FileType {
    /// The number that stands for this value on disk.
    pub open spec fn code(self) -> u32 {
        match self {
            FileType::RelocatableObj => 0x01,
            FileType::DemandPagedExe => 0x02,
            FileType::FixedVmSharedLib => 0x03,
            FileType::Core => 0x04,
            FileType::PreloadedExe => 0x05,
            FileType::DynamicallyBoundSharedLib => 0x06,
            FileType::DynamicLinkEditor => 0x07,
            FileType::DynamicallyBoundBundle => 0x08,
            FileType::SharedLibraryStub => 0x09,
            FileType::CompanionDebugOnly => 0x0a,
            FileType::X8664Kexts => 0x0b,
            FileType::CompositeMacho => 0x0c,
        }
    }

    /// The file type whose number is `word`, if there is one.
    pub fn from(word: u32) -> (r: Option<FileType>)
        ensures
            match r {
                Some(t) => t.code() == word,
                None => forall|t: FileType| #[trigger] t.code() != word,
            },
    {
        match word {
            0x01 => Some(FileType::RelocatableObj),
            0x02 => Some(FileType::DemandPagedExe),
            0x03 => Some(FileType::FixedVmSharedLib),
            0x04 => Some(FileType::Core),
            0x05 => Some(FileType::PreloadedExe),
            0x06 => Some(FileType::DynamicallyBoundSharedLib),
            0x07 => Some(FileType::DynamicLinkEditor),
            0x08 => Some(FileType::DynamicallyBoundBundle),
            0x09 => Some(FileType::SharedLibraryStub),
            0x0a => Some(FileType::CompanionDebugOnly),
            0x0b => Some(FileType::X8664Kexts),
            0x0c => Some(FileType::CompositeMacho),
            _ => None,
        }
    }
}

/// A decoded Mach-O file: its header and its load commands, in file order.
#[derive(Debug)]
pub struct File {
    pub header: Header,
    pub load_commands: Vec<LoadCommand>,
}

/// The sum of the declared sizes of `cmds`.
pub open spec fn total_size(cmds: Seq<LoadCommand>) -> int
    decreases cmds.len(),
{
    if cmds.len() == 0 {
        0
    } else {
        total_size(cmds.drop_last()) + cmds.last().size
    }
}

/// How reading `count` load commands from `pos` on ends: at the position
/// after the last one, or with the first command's failure.
pub open spec fn loads_outcome(s: Seq<u8>, pos: int, count: nat) -> Result<int, ParseError>
    decreases count,
{
    if count == 0 {
        Ok(pos)
    } else {
        let rest = s.subrange(pos, s.len() as int);
        match LoadCommand::error_of(rest) {
            Some(e) => Err(e),
            None => loads_outcome(s, pos + le32(rest, 4), (count - 1) as nat),
        }
    }
}

impl File {
    /// What is wrong with the image `s`, if anything: its header, one of its
    /// load commands, or the sum of their sizes.
    pub open spec fn error_of(s: Seq<u8>) -> Option<ParseError> {
        let raw = RawHeader::spec_from(s);
        if s.len() < HEADER_SIZE {
            Some(ParseError::Truncated)
        } else if Header::error_of(raw) is Some {
            Header::error_of(raw)
        } else {
            match loads_outcome(s, HEADER_SIZE as int, raw.loads_count as nat) {
                Err(e) => Some(e),
                Ok(end) => if end - HEADER_SIZE != raw.loads_size {
                    Some(ParseError::LoadsSizeMismatch)
                } else {
                    None
                },
            }
        }
    }

    /// Whether this file is the decoding of the image `s`: load command `k`
    /// starts where the sizes of the ones before it lead.
    pub open spec fn parsed_from(self, s: Seq<u8>) -> bool {
        let cmds = self.load_commands@;
        &&& self.header.describes(RawHeader::spec_from(s))
        &&& cmds.len() == self.header.loads_count
        &&& forall|k: int|
            0 <= k < cmds.len() ==> (#[trigger] cmds[k]).parsed_from(
                s.subrange(HEADER_SIZE + total_size(cmds.subrange(0, k)), s.len() as int),
            )
    }

    /// Decodes a Mach-O image. The declared sizes of the load commands must
    /// add up to the total that the header gives.
    pub fn from(bytes: &[u8]) -> (r: Result<File, ParseError>)
        ensures
            match r {
                Ok(f) => {
                    &&& Self::error_of(bytes@) is None
                    &&& f.parsed_from(bytes@)
                    &&& total_size(f.load_commands@) == f.header.loads_size
                },
                Err(e) => Self::error_of(bytes@) == Some(e),
            },
    {
        let header = match Header::from_bytes(bytes) {
            Ok(h) => h,
            Err(e) => return Err(e),
        };
        let len = bytes.len();
        let ghost s = bytes@;
        let ghost count = header.loads_count as nat;
        let mut pos: usize = HEADER_SIZE;
        let mut load_commands: Vec<LoadCommand> = Vec::new();
        let mut k: u32 = 0;
        while k < header.loads_count
            invariant
                len == s.len(),
                s == bytes@,
                s.len() >= HEADER_SIZE,
                Header::error_of(RawHeader::spec_from(s)) is None,
                header.describes(RawHeader::spec_from(s)),
                k <= header.loads_count,
                count == header.loads_count,
                load_commands@.len() == k,
                HEADER_SIZE <= pos <= len,
                pos == HEADER_SIZE + total_size(load_commands@),
                loads_outcome(s, HEADER_SIZE as int, count) == loads_outcome(
                    s,
                    pos as int,
                    (count - k) as nat,
                ),
                forall|j: int|
                    0 <= j < k ==> (#[trigger] load_commands@[j]).parsed_from(
                        s.subrange(
                            HEADER_SIZE + total_size(load_commands@.subrange(0, j)),
                            s.len() as int,
                        ),
                    ),
            decreases header.loads_count - k,
        {
            let rest = slice_subrange(bytes, pos, len);
            let (cmd, n) = match LoadCommand::from(rest) {
                Ok(x) => x,
                Err(e) => {
                    assert(rest@ == s.subrange(pos as int, s.len() as int));
                    assert(loads_outcome(s, pos as int, (count - k) as nat) == Err::<int, ParseError>(e));
                    return Err(e);
                },
            };
            proof {
                assert(load_commands@.push(cmd).drop_last() =~= load_commands@);
                assert(load_commands@.push(cmd).subrange(0, k as int) =~= load_commands@);
                assert forall|j: int| 0 <= j < k implies load_commands@.push(cmd).subrange(0, j)
                    =~= load_commands@.subrange(0, j) by {}
            }
            load_commands.push(cmd);
            pos = pos + n;
            k = k + 1;
        }
        if pos - HEADER_SIZE != header.loads_size as usize {
            return Err(ParseError::LoadsSizeMismatch);
        }
        assert(load_commands@.subrange(0, load_commands@.len() as int) =~= load_commands@);
        Ok(File { header, load_commands })
    }
}

/// Whether `name` is the same text as `wanted`.
pub(crate) fn is_named(name: &str, wanted: &str) -> (r: bool)
    ensures
        r == (name@ == wanted@),
{
    name.to_owned() == wanted.to_owned()
}

/// Whether load command `c` is a segment named `name`.
pub open spec fn is_segment_named(c: LoadCommand, name: Seq<char>) -> bool {
    c.details matches LoadCommandDetails::Segment64(seg) && seg.segname@ == name
}

/// The index of the first load command that is a segment named `name`, or -1.
pub open spec fn segment_index(cmds: Seq<LoadCommand>, name: Seq<char>) -> int
    decreases cmds.len(),
{
    if cmds.len() == 0 {
        -1
    } else if is_segment_named(cmds[0], name) {
        0
    } else if segment_index(cmds.drop_first(), name) < 0 {
        -1
    } else {
        segment_index(cmds.drop_first(), name) + 1
    }
}

impl File {
    /// Takes out the first segment named `name`, if there is one.
    pub fn take_segment(self, name: &str) -> (r: Option<Segment64>)
        ensures
            ({
                let k = segment_index(self.load_commands@, name@);
                match r {
                    Some(seg) => 0 <= k < self.load_commands@.len()
                        && self.load_commands@[k].details == LoadCommandDetails::Segment64(seg),
                    None => k < 0,
                }
            }),
    {
        let ghost cmds0 = self.load_commands@;
        let mut cmds = self.load_commands;
        let mut i: usize = 0;
        assert(cmds0.subrange(0, cmds0.len() as int) =~= cmds0);
        while i < cmds.len()
            invariant
                cmds@ == cmds0,
                cmds0 == self.load_commands@,
                i <= cmds0.len(),
                segment_index(cmds0, name@) == if segment_index(
                    cmds0.subrange(i as int, cmds0.len() as int),
                    name@,
                ) < 0 {
                    -1
                } else {
                    i + segment_index(cmds0.subrange(i as int, cmds0.len() as int), name@)
                },
            decreases cmds0.len() - i,
        {
            assert(cmds0.subrange(i as int, cmds0.len() as int).drop_first() =~= cmds0.subrange(
                i + 1,
                cmds0.len() as int,
            ));
            let found = match &cmds[i].details {
                LoadCommandDetails::Segment64(seg) => is_named(seg.segname.as_str(), name),
                _ => false,
            };
            if found {
                assert(cmds0.subrange(i as int, cmds0.len() as int)[0] == cmds0[i as int]);
                assert(segment_index(cmds0.subrange(i as int, cmds0.len() as int), name@) == 0);
                let cmd = cmds.remove(i);
                assert(cmd == cmds0[i as int]);
                match cmd.details {
                    LoadCommandDetails::Segment64(seg) => {
                        assert(cmds0[i as int].details == LoadCommandDetails::Segment64(seg));
                        assert(segment_index(cmds0, name@) == i);
                        assert(i < cmds0.len());

                        return Some(seg);
                    },
                    _ => return None,
                }
            }
            i = i + 1;
        }
        assert(cmds0.subrange(i as int, cmds0.len() as int).len() == 0);
        None
    }
}

/// The CPU an image is built for: the family, and for x86 and ARM the subtype.
#[derive(Clone, Copy, Debug, PartialEq, Eq, Structural)]
pub enum CpuType {
    Vax,
    Romp,
    Ns32032,
    NS32332,
    MC680x0,
    X86(X86Subtype),
    Mips,
    Ns32352,
    Mc98000,
    Hppa,
    Arm(ArmSubtype),
    Mc88000,
    Sparc,
    I860BigEndian,
    I860LittleEndian,
    Rs6000,
    PowerPC,
}

impl CpuType {
    /// The number of the CPU family: the low byte of the CPU type word.
    pub open spec fn family(self) -> u32 {
        match self {
            CpuType::Vax => 0x01,
            CpuType::Romp => 0x02,
            CpuType::Ns32032 => 0x04,
            CpuType::NS32332 => 0x05,
            CpuType::MC680x0 => 0x06,
            CpuType::X86(_) => 0x07,
            CpuType::Mips => 0x08,
            CpuType::Ns32352 => 0x09,
            CpuType::Mc98000 => 0x0a,
            CpuType::Hppa => 0x0b,
            CpuType::Arm(_) => 0x0c,
            CpuType::Mc88000 => 0x0d,
            CpuType::Sparc => 0x0e,
            CpuType::I860BigEndian => 0x0f,
            CpuType::I860LittleEndian => 0x10,
            CpuType::Rs6000 => 0x11,
            CpuType::PowerPC => 0x12,
        }
    }

    /// Whether this value agrees with the subtype word `sub`: for x86 and ARM
    /// the subtype is decoded from it, the other families ignore it.
    pub open spec fn accepts_subtype(self, sub: u32) -> bool {
        match self {
            CpuType::X86(s) => s.code() == sub,
            CpuType::Arm(s) => s.code() == sub,
            _ => true,
        }
    }

    /// What is wrong with the pair of words, if anything: an unknown family,
    /// or a subtype that its family does not know.
    pub open spec fn error_of(cpu_type: u32, cpu_subtype: u32) -> Option<ParseError> {
        if !exists|c: CpuType| #[trigger] c.family() == cpu_type & 0xff {
            Some(ParseError::BadCpuType(cpu_type))
        } else if !exists|c: CpuType|
            #[trigger] c.family() == cpu_type & 0xff && c.accepts_subtype(cpu_subtype) {
            Some(ParseError::BadCpuSubtype(cpu_subtype))
        } else {
            None
        }
    }

    /// The CPU that the type and subtype words of a header name.
    pub fn from(cpu_type: u32, cpu_subtype: u32) -> (r: Result<CpuType, ParseError>)
        ensures
            match r {
                Ok(c) => Self::error_of(cpu_type, cpu_subtype) is None && c.family() == cpu_type
                    & 0xff && c.accepts_subtype(cpu_subtype),
                Err(e) => Self::error_of(cpu_type, cpu_subtype) == Some(e),
            },
    {
        let family = cpu_type & 0xff;
        let r = match family {
            0x01 => Ok(CpuType::Vax),
            0x02 => Ok(CpuType::Romp),
            0x04 => Ok(CpuType::Ns32032),
            0x05 => Ok(CpuType::NS32332),
            0x06 => Ok(CpuType::MC680x0),
            0x07 => match X86Subtype::from(cpu_subtype) {
                Some(s) => Ok(CpuType::X86(s)),
                None => {
                    assert(CpuType::X86(X86Subtype::AllX86).family() == family);
                    Err(ParseError::BadCpuSubtype(cpu_subtype))
                },
            },
            0x08 => Ok(CpuType::Mips),
            0x09 => Ok(CpuType::Ns32352),
            0x0a => Ok(CpuType::Mc98000),
            0x0b => Ok(CpuType::Hppa),
            0x0c => match ArmSubtype::from(cpu_subtype) {
                Some(s) => Ok(CpuType::Arm(s)),
                None => {
                    assert(CpuType::Arm(ArmSubtype::AllArm).family() == family);
                    Err(ParseError::BadCpuSubtype(cpu_subtype))
                },
            },
            0x0d => Ok(CpuType::Mc88000),
            0x0e => Ok(CpuType::Sparc),
            0x0f => Ok(CpuType::I860BigEndian),
            0x10 => Ok(CpuType::I860LittleEndian),
            0x11 => Ok(CpuType::Rs6000),
            0x12 => Ok(CpuType::PowerPC),
            _ => Err(ParseError::BadCpuType(cpu_type)),
        };
        proof {
            if let Ok(c) = r {
                assert(c.family() == family && c.accepts_subtype(cpu_subtype));
            }
        }
        r
    }
}

/// The eight words of a Mach-O header, as they stand in the file.
#[derive(Clone, Copy, Debug, PartialEq, Eq, Structural)]
pub struct RawHeader {
    pub magic: u32,
    pub cpu_type: u32,
    pub cpu_subtype: u32,
    pub file_type: u32,
    pub loads_count: u32,
    pub loads_size: u32,
    pub flags: u32,
    pub reserved: u32,
}

impl RawHeader {
    /// The words at the start of `s`, read little-endian.
    pub open spec fn spec_from(s: Seq<u8>) -> RawHeader {
        RawHeader {
            magic: le32(s, 0) as u32,
            cpu_type: le32(s, 4) as u32,
            cpu_subtype: le32(s, 8) as u32,
            file_type: le32(s, 12) as u32,
            loads_count: le32(s, 16) as u32,
            loads_size: le32(s, 20) as u32,
            flags: le32(s, 24) as u32,
            reserved: le32(s, 28) as u32,
        }
    }

    /// Reads the header words from the first 32 bytes, one field at a time.
    pub fn from(bytes: &[u8]) -> (r: Result<RawHeader, ParseError>)
        ensures
            r == if bytes@.len() >= HEADER_SIZE {
                Ok(Self::spec_from(bytes@))
            } else {
                Err(ParseError::Truncated)
            },
    {
        if bytes.len() < HEADER_SIZE {
            return Err(ParseError::Truncated);
        }
        Ok(RawHeader {
            magic: read_u32(bytes, 0).unwrap(),
            cpu_type: read_u32(bytes, 4).unwrap(),
            cpu_subtype: read_u32(bytes, 8).unwrap(),
            file_type: read_u32(bytes, 12).unwrap(),
            loads_count: read_u32(bytes, 16).unwrap(),
            loads_size: read_u32(bytes, 20).unwrap(),
            flags: read_u32(bytes, 24).unwrap(),
            reserved: read_u32(bytes, 28).unwrap(),
        })
    }
}

/// The decoded file header.
#[derive(Clone, Copy, Debug, PartialEq, Eq, Structural)]
pub struct Header {
    pub cpu_type: CpuType,
    pub is_64_bit: bool,
    pub file_type: FileType,
    pub loads_count: u32,
    pub loads_size: u32,
}

/// The magic number that an image of the given width must carry.
pub open spec fn expected_magic(is_64_bit: bool) -> u32 {
    if is_64_bit {
        MAGIC_64
    } else {
        MAGIC_32
    }
}

impl Header {
    /// What is wrong with the raw header, if anything, in the order checked:
    /// the magic number, the CPU, the file type.
    pub open spec fn error_of(raw: RawHeader) -> Option<ParseError> {
        if raw.magic != expected_magic(raw.cpu_type & CPU_ARCH_64 != 0) {
            Some(ParseError::MagicMismatch)
        } else if CpuType::error_of(raw.cpu_type, raw.cpu_subtype) is Some {
            CpuType::error_of(raw.cpu_type, raw.cpu_subtype)
        } else if !exists|t: FileType| #[trigger] t.code() == raw.file_type {
            Some(ParseError::BadFileType(raw.file_type))
        } else {
            None
        }
    }

    /// Whether this header is the decoding of `raw`.
    pub open spec fn describes(self, raw: RawHeader) -> bool {
        &&& self.is_64_bit == (raw.cpu_type & CPU_ARCH_64 != 0)
        &&& self.cpu_type.family() == raw.cpu_type & 0xff
        &&& self.cpu_type.accepts_subtype(raw.cpu_subtype)
        &&& self.file_type.code() == raw.file_type
        &&& self.loads_count == raw.loads_count
        &&& self.loads_size == raw.loads_size
    }

    /// Decodes the header at the start of `bytes`.
    pub fn from_bytes(bytes: &[u8]) -> (r: Result<Header, ParseError>)
        ensures
            match r {
                Ok(h) => bytes@.len() >= HEADER_SIZE && Self::error_of(
                    RawHeader::spec_from(bytes@),
                ) is None && h.describes(RawHeader::spec_from(bytes@)),
                Err(e) => if bytes@.len() < HEADER_SIZE {
                    e == ParseError::Truncated
                } else {
                    Self::error_of(RawHeader::spec_from(bytes@)) == Some(e)
                },
            },
    {
        match RawHeader::from(bytes) {
            Ok(raw) => Self::from_header(raw),
            Err(e) => Err(e),
        }
    }

    /// Checks the raw header words and decodes them.
    pub fn from_header(raw: RawHeader) -> (r: Result<Header, ParseError>)
        ensures
            match r {
                Ok(h) => Self::error_of(raw) is None && h.describes(raw),
                Err(e) => Self::error_of(raw) == Some(e),
            },
    {
        let is_64_bit = raw.cpu_type & CPU_ARCH_64 != 0;
        let magic = if is_64_bit {
            MAGIC_64
        } else {
            MAGIC_32
        };
        if raw.magic != magic {
            return Err(ParseError::MagicMismatch);
        }
        let cpu_type = match CpuType::from(raw.cpu_type, raw.cpu_subtype) {
            Ok(c) => c,
            Err(e) => return Err(e),
        };
        let file_type = match FileType::from(raw.file_type) {
            Some(t) => t,
            None => return Err(ParseError::BadFileType(raw.file_type)),
        };
        Ok(Header {
            cpu_type,
            is_64_bit,
            file_type,
            loads_count: raw.loads_count,
            loads_size: raw.loads_size,
        })
    }
}

/// A 32-bit magic number with the 64-bit CPU flag, or the other way round,
/// fails with `MagicMismatch`, whatever the other words hold.
pub proof fn lemma_magic_must_match_width(raw: RawHeader)
    requires
        (raw.magic == MAGIC_32 && raw.cpu_type & CPU_ARCH_64 != 0) || (raw.magic == MAGIC_64
            && raw.cpu_type & CPU_ARCH_64 == 0),
    ensures
        Header::error_of(raw) == Some(ParseError::MagicMismatch),
{
}

/// `s` without its leading NUL bytes.
pub open spec fn trim_leading_nuls(s: Seq<u8>) -> Seq<u8>
    decreases s.len(),
{
    if s.len() > 0 && s[0] == 0 {
        trim_leading_nuls(s.drop_first())
    } else {
        s
    }
}

/// `s` without its trailing NUL bytes.
pub open spec fn trim_trailing_nuls(s: Seq<u8>) -> Seq<u8>
    decreases s.len(),
{
    if s.len() > 0 && s.last() == 0 {
        trim_trailing_nuls(s.drop_last())
    } else {
        s
    }
}

/// The bytes of the 16-byte name field at `at`, NUL bytes trimmed from both
/// ends. A NUL byte stands for no other character than NUL in UTF-8, so this
/// is the encoding of the decoded field with its NUL characters trimmed.
pub open spec fn name_bytes(s: Seq<u8>, at: int) -> Seq<u8> {
    trim_trailing_nuls(trim_leading_nuls(s.subrange(at, at + 16)))
}

/// Whether the name field at `at` is valid UTF-8.
pub open spec fn name_ok(s: Seq<u8>, at: int) -> bool {
    valid_utf8(name_bytes(s, at))
}

/// The text of the name field at `at`.
pub open spec fn name_text(s: Seq<u8>, at: int) -> Seq<char> {
    decode_utf8(name_bytes(s, at))
}

proof fn lemma_trim_leading(s: Seq<u8>, k: int)
    requires
        0 <= k <= s.len(),
        forall|j: int| 0 <= j < k ==> s[j] == 0,
        k == s.len() || s[k] != 0,
    ensures
        trim_leading_nuls(s) == s.subrange(k, s.len() as int),
    decreases k,
{
    if k == 0 {
        assert(s.subrange(0, s.len() as int) =~= s);
    } else {
        lemma_trim_leading(s.drop_first(), k - 1);
        assert(s.drop_first().subrange(k - 1, s.len() - 1) =~= s.subrange(k, s.len() as int));
    }
}

proof fn lemma_trim_trailing(s: Seq<u8>, h: int)
    requires
        0 <= h <= s.len(),
        forall|j: int| h <= j < s.len() ==> s[j] == 0,
        h == 0 || s[h - 1] != 0,
    ensures
        trim_trailing_nuls(s) == s.subrange(0, h),
    decreases s.len() - h,
{
    if h == s.len() {
        assert(s.subrange(0, h) =~= s);
    } else {
        lemma_trim_trailing(s.drop_last(), h);
        assert(s.drop_last().subrange(0, h) =~= s.subrange(0, h));
    }
}

/// Relies on `String::from_utf8`: it succeeds exactly on valid UTF-8, and
/// then holds the characters that the bytes encode.
#[verifier::external_body]
fn string_from_utf8(bytes: Vec<u8>) -> (r: Option<String>)
    ensures
        match r {
            Some(s) => valid_utf8(bytes@) && s@ == decode_utf8(bytes@),
            None => !valid_utf8(bytes@),
        },
{
    String::from_utf8(bytes).ok()
}

/// Decodes the 16-byte name field at `at`: NUL bytes trimmed from both ends,
/// the rest read as UTF-8.
fn read_name(b: &[u8], at: usize) -> (r: Result<String, ParseError>)
    requires
        fits(b@, at as int, 16),
    ensures
        match r {
            Ok(n) => name_ok(b@, at as int) && n@ == name_text(b@, at as int),
            Err(e) => !name_ok(b@, at as int) && e == ParseError::BadSegmentName,
        },
{
    let len = b.len();
    let end = at + 16;
    let mut lo = at;
    while lo < end && b[lo] == 0
        invariant
            at <= lo <= end,
            end == at + 16,
            end <= b@.len(),
            forall|j: int| at <= j < lo ==> b@[j] == 0,
        decreases end - lo,
    {
        lo = lo + 1;
    }
    let mut hi = end;
    while hi > lo && b[hi - 1] == 0
        invariant
            lo <= hi <= end,
            end <= b@.len(),
            forall|j: int| hi <= j < end ==> b@[j] == 0,
        decreases hi - lo,
    {
        hi = hi - 1;
    }
    let mut kept: Vec<u8> = Vec::new();
    let mut i = lo;
    while i < hi
        invariant
            lo <= i <= hi,
            hi <= b@.len(),
            kept@ == b@.subrange(lo as int, i as int),
        decreases hi - i,
    {
        kept.push(b[i]);
        i = i + 1;
        assert(kept@ =~= b@.subrange(lo as int, i as int));
    }
    proof {
        let field = b@.subrange(at as int, end as int);
        lemma_trim_leading(field, lo - at);
        let rest = field.subrange(lo - at, 16);
        lemma_trim_trailing(rest, hi - lo);
        assert(rest.subrange(0, hi - lo) =~= b@.subrange(lo as int, hi as int));
    }
    match string_from_utf8(kept) {
        Some(n) => Ok(n),
        None => Err(ParseError::BadSegmentName),
    }
}

/// One section of a segment.
#[derive(Debug)]
pub struct Section64 {
    pub sectname: String,
    pub segname: String,
    pub addr: u64,
    pub size: u64,
    pub offset: u32,
    pub align: u32,
    pub reloff: u32,
    pub nreloc: u32,
    pub flags: u32,
    pub reserved1: u32,
    pub reserved2: u32,
}

impl Section64 {
    /// Whether a section record can be decoded from `s`.
    pub open spec fn spec_ok(s: Seq<u8>) -> bool {
        s.len() >= SECTION64_FIELDS_SIZE && name_ok(s, 0) && name_ok(s, 16)
    }

    /// Whether this section is the decoding of the record at the start of `s`.
    pub open spec fn parsed_from(self, s: Seq<u8>) -> bool {
        &&& self.sectname@ == name_text(s, 0)
        &&& self.segname@ == name_text(s, 16)
        &&& self.addr == le64(s, 32)
        &&& self.size == le64(s, 40)
        &&& self.offset == le32(s, 48)
        &&& self.align == le32(s, 52)
        &&& self.reloff == le32(s, 56)
        &&& self.nreloc == le32(s, 60)
        &&& self.flags == le32(s, 64)
        &&& self.reserved1 == le32(s, 68)
        &&& self.reserved2 == le32(s, 72)
    }

    /// Decodes the section record at the start of `bytes`.
    pub fn from(bytes: &[u8]) -> (r: Result<Section64, ParseError>)
        ensures
            match r {
                Ok(sec) => Self::spec_ok(bytes@) && sec.parsed_from(bytes@),
                Err(e) => !Self::spec_ok(bytes@) && e == if bytes@.len() < SECTION64_FIELDS_SIZE {
                    ParseError::Truncated
                } else {
                    ParseError::BadSegmentName
                },
            },
    {
        if bytes.len() < SECTION64_FIELDS_SIZE {
            return Err(ParseError::Truncated);
        }
        let sectname = match read_name(bytes, 0) {
            Ok(n) => n,
            Err(e) => return Err(e),
        };
        let segname = match read_name(bytes, 16) {
            Ok(n) => n,
            Err(e) => return Err(e),
        };
        Ok(Section64 {
            sectname,
            segname,
            addr: read_u64(bytes, 32).unwrap(),
            size: read_u64(bytes, 40).unwrap(),
            offset: read_u32(bytes, 48).unwrap(),
            align: read_u32(bytes, 52).unwrap(),
            reloff: read_u32(bytes, 56).unwrap(),
            nreloc: read_u32(bytes, 60).unwrap(),
            flags: read_u32(bytes, 64).unwrap(),
            reserved1: read_u32(bytes, 68).unwrap(),
            reserved2: read_u32(bytes, 72).unwrap(),
        })
    }
}

/// A 64-bit segment: a range of the file mapped into memory, with its
/// sections.
#[derive(Debug)]
pub struct Segment64 {
    pub segname: String,
    /// The memory address of the segment.
    pub vmaddr: u64,
    /// The memory size of the segment.
    pub vmsize: u64,
    /// The file offset of the segment.
    pub fileoff: u64,
    /// How much to map from the file.
    pub filesize: u64,
    /// The maximum VM protection.
    pub maxprot: u32,
    /// The initial VM protection.
    pub initprot: u32,
    /// The number of sections in the segment.
    pub nsects: u32,
    pub flags: u32,
    pub sections: Vec<Section64>,
}

impl Segment64 {
    /// The record of section `i` in the segment command's payload `p`.
    pub open spec fn section_bytes(p: Seq<u8>, i: int) -> Seq<u8> {
        p.subrange(
            SEGMENT64_SIZE + SECTION64_SIZE * i,
            SEGMENT64_SIZE + SECTION64_SIZE * i + SECTION64_SIZE,
        )
    }

    /// What is wrong with the payload `p` of a segment command, if anything.
    pub open spec fn error_of(p: Seq<u8>) -> Option<ParseError> {
        if p.len() < SEGMENT64_SIZE || p.len() < SEGMENT64_SIZE + SECTION64_SIZE * le32(p, 56) {
            Some(ParseError::Truncated)
        } else if !name_ok(p, 0) || exists|i: int|
            0 <= i < le32(p, 56) && !#[trigger] Section64::spec_ok(Self::section_bytes(p, i)) {
            Some(ParseError::BadSegmentName)
        } else {
            None
        }
    }

    /// Whether this segment is the decoding of the segment command payload `p`.
    pub open spec fn parsed_from(self, p: Seq<u8>) -> bool {
        &&& self.segname@ == name_text(p, 0)
        &&& self.vmaddr == le64(p, 16)
        &&& self.vmsize == le64(p, 24)
        &&& self.fileoff == le64(p, 32)
        &&& self.filesize == le64(p, 40)
        &&& self.maxprot == le32(p, 48)
        &&& self.initprot == le32(p, 52)
        &&& self.nsects == le32(p, 56)
        &&& self.flags == le32(p, 60)
        &&& self.sections@.len() == self.nsects
        &&& forall|i: int|
            0 <= i < self.nsects ==> #[trigger] self.sections@[i].parsed_from(
                Self::section_bytes(p, i),
            )
    }

    /// Decodes a segment command from its payload: what follows its tag and
    /// size words.
    fn from_payload(p: &[u8]) -> (r: Result<Segment64, ParseError>)
        ensures
            match r {
                Ok(seg) => Self::error_of(p@) is None && seg.parsed_from(p@),
                Err(e) => Self::error_of(p@) == Some(e),
            },
    {
        if p.len() < SEGMENT64_SIZE {
            return Err(ParseError::Truncated);
        }
        let nsects = read_u32(p, 56).unwrap();
        if (p.len() as u64) < SEGMENT64_SIZE as u64 + SECTION64_SIZE as u64 * nsects as u64 {
            return Err(ParseError::Truncated);
        }
        let segname = match read_name(p, 0) {
            Ok(n) => n,
            Err(e) => return Err(e),
        };
        let plen = p.len();
        let mut sections: Vec<Section64> = Vec::new();
        let mut i: u32 = 0;
        while i < nsects
            invariant
                i <= nsects,
                nsects == le32(p@, 56),
                p@.len() >= SEGMENT64_SIZE + SECTION64_SIZE * nsects,
                p@.len() <= usize::MAX,
                sections@.len() == i,
                forall|j: int|
                    0 <= j < i ==> #[trigger] sections@[j].parsed_from(Self::section_bytes(p@, j)),
                forall|j: int| 0 <= j < i ==> #[trigger] Section64::spec_ok(Self::section_bytes(p@, j)),
            decreases nsects - i,
        {
            let start = SEGMENT64_SIZE + SECTION64_SIZE * (i as usize);
            let record = slice_subrange(p, start, start + SECTION64_SIZE);
            match Section64::from(record) {
                Ok(sec) => sections.push(sec),
                Err(e) => {
                    assert(!Section64::spec_ok(Self::section_bytes(p@, i as int)));
                    return Err(e);
                },
            }
            i = i + 1;
        }
        Ok(Segment64 {
            segname,
            vmaddr: read_u64(p, 16).unwrap(),
            vmsize: read_u64(p, 24).unwrap(),
            fileoff: read_u64(p, 32).unwrap(),
            filesize: read_u64(p, 40).unwrap(),
            maxprot: read_u32(p, 48).unwrap(),
            initprot: read_u32(p, 52).unwrap(),
            nsects,
            flags: read_u32(p, 60).unwrap(),
            sections,
        })
    }
}

/// The platform that a build-version command names.
#[derive(Clone, Copy, Debug, PartialEq, Eq, Structural)]
pub enum BuildPlatform {
    MacOS,
    IOS,
    TVOS,
    WatchOS,
    Other(u32),
}

impl BuildPlatform {
    /// The number that stands for this value on disk.
    pub open spec fn code(self) -> u32 {
        match self {
            BuildPlatform::MacOS => 1,
            BuildPlatform::IOS => 2,
            BuildPlatform::TVOS => 3,
            BuildPlatform::WatchOS => 4,
            BuildPlatform::Other(v) => v,
        }
    }

    /// Whether this value is the one that its number decodes to.
    pub open spec fn wf(self) -> bool {
        match self {
            BuildPlatform::Other(v) => !(1 <= v <= 4),
            _ => true,
        }
    }

    /// The platform whose number is `word`; other numbers are kept as
    /// `Other(word)`.
    pub fn from(word: u32) -> (r: BuildPlatform)
        ensures
            r.wf(),
            r.code() == word,
    {
        match word {
            1 => BuildPlatform::MacOS,
            2 => BuildPlatform::IOS,
            3 => BuildPlatform::TVOS,
            4 => BuildPlatform::WatchOS,
            _ => BuildPlatform::Other(word),
        }
    }
}

/// A tool that took part in the build, and its version.
#[derive(Clone, Copy, Debug, PartialEq, Eq, Structural)]
pub struct BuildToolVersion {
    pub tool: u32,
    pub version: u32,
}

/// What a load command holds, by its tag.
#[derive(Debug)]
pub enum LoadCommandDetails {
    SymbolTable {
        /// The symbol table's offset.
        symoff: u32,
        /// The number of symbol table entries.
        nsyms: u32,
        /// The string table's offset.
        stroff: u32,
        /// The string table's size in bytes.
        strsize: u32,
    },
    Segment64(Segment64),
    Uuid([u8; 16]),
    BuildVersion { platform: BuildPlatform, minos: u32, sdk: u32, tools: Vec<BuildToolVersion> },
    /// A command that this decoder does not decode, by its tag.
    UnrecognizedLoad(u32),
}

/// A load command: its declared size, prefix included, and what it holds.
#[derive(Debug)]
pub struct LoadCommand {
    pub size: u32,
    pub details: LoadCommandDetails,
}

impl LoadCommand {
    /// The payload of the command at the start of `s`: what follows its tag
    /// and size words, up to its declared size.
    pub open spec fn payload(s: Seq<u8>) -> Seq<u8> {
        s.subrange(8, le32(s, 4))
    }

    /// What is wrong with the load command at the start of `s`, if anything.
    pub open spec fn error_of(s: Seq<u8>) -> Option<ParseError> {
        if s.len() < 8 || le32(s, 4) < 8 || le32(s, 4) > s.len() {
            Some(ParseError::Truncated)
        } else {
            let tag = le32(s, 0);
            let p = Self::payload(s);
            if tag == LC_SYMTAB || tag == LC_UUID {
                if p.len() < 16 {
                    Some(ParseError::Truncated)
                } else {
                    None
                }
            } else if tag == LC_SEGMENT_64 {
                Segment64::error_of(p)
            } else if tag == LC_BUILD_VERSION {
                if p.len() < 16 {
                    Some(ParseError::Truncated)
                } else if le32(s, 4) != BUILD_VERSION_SIZE + BUILD_TOOL_SIZE * le32(p, 12) {
                    Some(ParseError::BadBuildCommandSize)
                } else {
                    None
                }
            } else {
                None
            }
        }
    }

    /// Whether this command is the decoding of the one at the start of `s`.
    pub open spec fn parsed_from(self, s: Seq<u8>) -> bool {
        let tag = le32(s, 0);
        let p = Self::payload(s);
        &&& self.size == le32(s, 4)
        &&& match self.details {
            LoadCommandDetails::SymbolTable { symoff, nsyms, stroff, strsize } => {
                &&& tag == LC_SYMTAB
                &&& symoff == le32(p, 0)
                &&& nsyms == le32(p, 4)
                &&& stroff == le32(p, 8)
                &&& strsize == le32(p, 12)
            },
            LoadCommandDetails::Segment64(seg) => tag == LC_SEGMENT_64 && seg.parsed_from(p),
            LoadCommandDetails::Uuid(u) => tag == LC_UUID && u@ == p.subrange(0, 16),
            LoadCommandDetails::BuildVersion { platform, minos, sdk, tools } => {
                &&& tag == LC_BUILD_VERSION
                &&& platform.wf()
                &&& platform.code() == le32(p, 0)
                &&& minos == le32(p, 4)
                &&& sdk == le32(p, 8)
                &&& tools@.len() == le32(p, 12)
                &&& forall|i: int|
                    0 <= i < tools@.len() ==> (#[trigger] tools@[i]).tool == le32(p, 16 + 8 * i)
                        && tools@[i].version == le32(p, 20 + 8 * i)
            },
            LoadCommandDetails::UnrecognizedLoad(t) => {
                &&& t == tag
                &&& tag != LC_SYMTAB && tag != LC_SEGMENT_64 && tag != LC_UUID && tag
                    != LC_BUILD_VERSION
            },
        }
    }

    /// Decodes the load command at the start of `bytes`, and says how many
    /// bytes it spans: its declared size.
    pub fn from(bytes: &[u8]) -> (r: Result<(LoadCommand, usize), ParseError>)
        ensures
            match r {
                Ok((cmd, n)) => Self::error_of(bytes@) is None && cmd.parsed_from(bytes@) && n
                    == cmd.size,
                Err(e) => Self::error_of(bytes@) == Some(e),
            },
    {
        if bytes.len() < 8 {
            return Err(ParseError::Truncated);
        }
        let tag = read_u32(bytes, 0).unwrap();
        let size = read_u32(bytes, 4).unwrap();
        if size < 8 || bytes.len() < size as usize {
            return Err(ParseError::Truncated);
        }
        let p = slice_subrange(bytes, 8, size as usize);
        let details = if tag == LC_SYMTAB {
            if p.len() < 16 {
                return Err(ParseError::Truncated);
            }
            LoadCommandDetails::SymbolTable {
                symoff: read_u32(p, 0).unwrap(),
                nsyms: read_u32(p, 4).unwrap(),
                stroff: read_u32(p, 8).unwrap(),
                strsize: read_u32(p, 12).unwrap(),
            }
        } else if tag == LC_SEGMENT_64 {
            match Segment64::from_payload(p) {
                Ok(seg) => LoadCommandDetails::Segment64(seg),
                Err(e) => return Err(e),
            }
        } else if tag == LC_UUID {
            if p.len() < 16 {
                return Err(ParseError::Truncated);
            }
            let mut uuid = [0u8; 16];
            let mut i: usize = 0;
            while i < 16
                invariant
                    i <= 16,
                    p@.len() >= 16,
                    forall|j: int| 0 <= j < i ==> uuid@[j] == p@[j],
                decreases 16 - i,
            {
                uuid[i] = p[i];
                i = i + 1;
            }
            assert(uuid@ =~= p@.subrange(0, 16));
            LoadCommandDetails::Uuid(uuid)
        } else if tag == LC_BUILD_VERSION {
            if p.len() < 16 {
                return Err(ParseError::Truncated);
            }
            let platform = BuildPlatform::from(read_u32(p, 0).unwrap());
            let minos = read_u32(p, 4).unwrap();
            let sdk = read_u32(p, 8).unwrap();
            let ntools = read_u32(p, 12).unwrap();
            if size as u64 != BUILD_VERSION_SIZE as u64 + BUILD_TOOL_SIZE as u64 * ntools as u64 {
                return Err(ParseError::BadBuildCommandSize);
            }
            let plen = p.len();
            let mut tools: Vec<BuildToolVersion> = Vec::new();
            let mut i: u32 = 0;
            while i < ntools
                invariant
                    i <= ntools,
                    ntools == le32(p@, 12),
                    p@.len() == 16 + 8 * ntools,
                    p@.len() <= usize::MAX,
                    tools@.len() == i,
                    forall|j: int|
                        0 <= j < i ==> (#[trigger] tools@[j]).tool == le32(p@, 16 + 8 * j)
                            && tools@[j].version == le32(p@, 20 + 8 * j),
                decreases ntools - i,
            {
                let at = 16 + 8 * (i as usize);
                tools.push(
                    BuildToolVersion {
                        tool: read_u32(p, at).unwrap(),
                        version: read_u32(p, at + 4).unwrap(),
                    },
                );
                i = i + 1;
            }
            LoadCommandDetails::BuildVersion { platform, minos, sdk, tools }
        } else {
            LoadCommandDetails::UnrecognizedLoad(tag)
        };
        Ok((LoadCommand { size, details }, size as usize))
    }
}

/// Distinct x86 subtypes have distinct numbers.
pub proof fn lemma_x86_code_injective(a: X86Subtype, b: X86Subtype)
    requires
        a.code() == b.code(),
    ensures
        a == b,
{
}

/// Distinct ARM subtypes have distinct numbers.
pub proof fn lemma_arm_code_injective(a: ArmSubtype, b: ArmSubtype)
    requires
        a.code() == b.code(),
    ensures
        a == b,
{
}

/// Distinct file types have distinct numbers.
pub proof fn lemma_file_type_code_injective(a: FileType, b: FileType)
    requires
        a.code() == b.code(),
    ensures
        a == b,
{
}

/// Distinct platforms have distinct numbers.
pub proof fn lemma_platform_code_injective(a: BuildPlatform, b: BuildPlatform)
    requires
        a.wf(),
        b.wf(),
        a.code() == b.code(),
    ensures
        a == b,
{
}

/// The CPU type and subtype words name at most one CPU.
pub proof fn lemma_cpu_unique(a: CpuType, b: CpuType, sub: u32)
    requires
        a.family() == b.family(),
        a.accepts_subtype(sub),
        b.accepts_subtype(sub),
    ensures
        a == b,
{
    if let CpuType::X86(x) = a {
        if let CpuType::X86(y) = b {
            lemma_x86_code_injective(x, y);
        }
    }
    if let CpuType::Arm(x) = a {
        if let CpuType::Arm(y) = b {
            lemma_arm_code_injective(x, y);
        }
    }
}

/// The loads must add up: when the header and every load command decode, the
/// image is refused with `LoadsSizeMismatch` exactly when the commands' sizes
/// do not add up to the header's total.
pub proof fn lemma_loads_size_accounting(s: Seq<u8>)
    requires
        s.len() >= HEADER_SIZE,
        Header::error_of(RawHeader::spec_from(s)) is None,
        loads_outcome(s, HEADER_SIZE as int, RawHeader::spec_from(s).loads_count as nat) is Ok,
    ensures
        ({
            let end = loads_outcome(
                s,
                HEADER_SIZE as int,
                RawHeader::spec_from(s).loads_count as nat,
            )->Ok_0;
            &&& end - HEADER_SIZE != RawHeader::spec_from(s).loads_size ==> File::error_of(s) == Some(
                ParseError::LoadsSizeMismatch,
            )
            &&& end - HEADER_SIZE == RawHeader::spec_from(s).loads_size ==> File::error_of(s) is None
        }),
{
}

/// Looking a segment up by name: `segment_index` (what `take_segment` goes
/// by) finds a segment exactly when one of the load commands is a segment with
/// that name, and then it finds the first of them.
pub proof fn lemma_segment_lookup(cmds: Seq<LoadCommand>, name: Seq<char>)
    ensures
        segment_index(cmds, name) < cmds.len(),
        segment_index(cmds, name) >= 0 <==> exists|i: int|
            0 <= i < cmds.len() && #[trigger] is_segment_named(cmds[i], name),
        segment_index(cmds, name) >= 0 ==> is_segment_named(cmds[segment_index(cmds, name)], name),
        forall|j: int|
            0 <= j < cmds.len() && (segment_index(cmds, name) < 0 || j < segment_index(cmds, name))
                ==> !#[trigger] is_segment_named(cmds[j], name),
    decreases cmds.len(),
{
    if cmds.len() > 0 {
        let rest = cmds.drop_first();
        lemma_segment_lookup(rest, name);
        assert forall|j: int|
            0 <= j < cmds.len() && (segment_index(cmds, name) < 0 || j < segment_index(cmds, name))
                implies !#[trigger] is_segment_named(cmds[j], name) by {
            if j > 0 {
                assert(cmds[j] == rest[j - 1]);
            }
        }
        if exists|i: int| 0 <= i < cmds.len() && #[trigger] is_segment_named(cmds[i], name) {
            let i = choose|i: int| 0 <= i < cmds.len() && #[trigger] is_segment_named(cmds[i], name);
            if i > 0 {
                assert(is_segment_named(rest[i - 1], name));
            }
        }
        if segment_index(cmds, name) > 0 {
            assert(cmds[segment_index(cmds, name)] == rest[segment_index(rest, name)]);
        }
    }
}

} // verus!
