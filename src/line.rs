//! The header of a line-number program (`__debug_line`, DWARF versions 2 to
//! 4, 32-bit format). The program that follows the header is not decoded.
use crate::dwarf::{cstr_len, read_uleb, uleb_at};
use crate::error::ParseError;
use crate::le::{le16, le32, read_u16, read_u32};
use vstd::prelude::*;
use vstd::slice::{slice_subrange, slice_to_vec};

verus! {

/// One entry of the file table: a source file of the unit.
#[derive(Debug)]
pub struct DebugLineFileEntry {
    /// The path, without its terminating NUL.
    pub path: Vec<u8>,
    /// The index of its directory in the include directories; 0 for the
    /// compilation directory.
    pub directory_index: u64,
    /// The time of last modification, or 0.
    pub modification_time: u64,
    /// The length in bytes, or 0.
    pub length: u64,
}

/// The header of a line-number program.
#[derive(Debug)]
pub struct LineHeader {
    /// The size of the unit's line information, not counting this field.
    pub unit_length: u32,
    pub version: u16,
    /// The number of bytes from after this field to the program itself.
    pub header_length: u32,
    pub minimum_instruction_length: u8,
    /// Stated from version 4 on; 1 before.
    pub maximum_operations_per_instruction: u8,
    pub default_is_stmt: u8,
    pub line_base: i8,
    pub line_range: u8,
    pub opcode_base: u8,
    /// The number of LEB128 operands of each standard opcode, from opcode 1
    /// on.
    pub standard_opcode_lengths: Vec<u8>,
    /// The include directories, each without its terminating NUL.
    pub include_directories: Vec<Vec<u8>>,
    pub file_names: Vec<DebugLineFileEntry>,
}

/// The length of the NUL-terminated string at `pos`, terminator excluded.
pub open spec fn cstr_at(s: Seq<u8>, pos: int) -> int {
    cstr_len(s.subrange(pos, s.len() as int)) as int
}

/// Where the list of include directories that starts at `pos` ends: after
/// its empty string.
pub open spec fn dirs_end(s: Seq<u8>, pos: int) -> Result<int, ParseError>
    decreases s.len() - pos,
{
    if pos < 0 || pos > s.len() || pos + cstr_at(s, pos) >= s.len() {
        Err(ParseError::Truncated)
    } else if cstr_at(s, pos) == 0 {
        Ok(pos + 1)
    } else {
        dirs_end(s, pos + cstr_at(s, pos) + 1)
    }
}

/// Where string `k` of the list that starts at `start` begins.
pub open spec fn dir_pos(s: Seq<u8>, start: int, k: nat) -> int
    decreases k,
{
    if k == 0 {
        start
    } else {
        let p = dir_pos(s, start, (k - 1) as nat);
        p + cstr_at(s, p) + 1
    }
}

/// How many bytes the file entry at `pos` spans, or why it cannot be read.
pub open spec fn entry_len(s: Seq<u8>, pos: int) -> Result<int, ParseError> {
    let n = cstr_at(s, pos);
    if pos + n >= s.len() {
        Err(ParseError::Truncated)
    } else {
        let p = pos + n + 1;
        match uleb_at(s, p) {
            Err(e) => Err(e),
            Ok((_, a)) => match uleb_at(s, p + a) {
                Err(e) => Err(e),
                Ok((_, b)) => match uleb_at(s, p + a + b) {
                    Err(e) => Err(e),
                    Ok((_, c)) => Ok(n + 1 + a + b + c),
                },
            },
        }
    }
}

/// Where the file table that starts at `pos` ends: after its zero byte.
pub open spec fn files_end(s: Seq<u8>, pos: int) -> Result<int, ParseError>
    decreases s.len() - pos,
{
    if pos < 0 || pos >= s.len() {
        Err(ParseError::Truncated)
    } else if s[pos] == 0 {
        Ok(pos + 1)
    } else {
        match entry_len(s, pos) {
            Err(e) => Err(e),
            Ok(m) => if 0 < m && pos + m <= s.len() {
                files_end(s, pos + m)
            } else {
                Err(ParseError::Truncated)
            },
        }
    }
}

/// Where entry `k` of the file table that starts at `start` begins.
pub open spec fn file_pos(s: Seq<u8>, start: int, k: nat) -> int
    decreases k,
{
    if k == 0 {
        start
    } else {
        let p = file_pos(s, start, (k - 1) as nat);
        p + entry_len(s, p)->Ok_0
    }
}

/// Whether string `k` of the list at `start` is not the final empty one, and
/// `d` holds its bytes.
pub open spec fn dir_decoded(s: Seq<u8>, start: int, k: nat, d: Seq<u8>) -> bool {
    let p = dir_pos(s, start, k);
    cstr_at(s, p) != 0 && d == s.subrange(p, p + cstr_at(s, p))
}

/// Whether entry `k` of the file table at `start` is not its final zero byte,
/// and `e` is its decoding.
pub open spec fn entry_decoded(s: Seq<u8>, start: int, k: nat, e: DebugLineFileEntry) -> bool {
    let pos = file_pos(s, start, k);
    let n = cstr_at(s, pos);
    let p = pos + n + 1;
    let (d, a) = uleb_at(s, p)->Ok_0;
    let (t, b) = uleb_at(s, p + a)->Ok_0;
    let (l, _) = uleb_at(s, p + a + b)->Ok_0;
    &&& s[pos] != 0
    &&& e.path@ == s.subrange(pos, pos + n)
    &&& e.directory_index == d
    &&& e.modification_time == t
    &&& e.length == l
}

/// The size of the fixed fields of a header of the given version.
pub open spec fn fixed_len(version: int) -> int {
    if version >= 4 {
        16
    } else {
        15
    }
}

/// The signed reading of a byte.
pub open spec fn signed_byte(b: u8) -> int {
    if b >= 128 {
        b - 256
    } else {
        b as int
    }
}

/// The version field of the header in `s`.
pub open spec fn version_of(s: Seq<u8>) -> int {
    le16(s, 4)
}

/// Where the opcode lengths end and the include directories begin.
pub open spec fn dirs_start(s: Seq<u8>) -> int {
    let f = fixed_len(version_of(s));
    if s[f - 1] == 0 {
        f
    } else {
        f + s[f - 1] - 1
    }
}

impl LineHeader {
    /// Whether `s` is long enough to hold a version field, and the version is
    /// one whose header layout this decoder reads.
    pub open spec fn decodes_version(s: Seq<u8>) -> bool {
        s.len() >= 6 && 2 <= version_of(s) <= 4
    }

    /// What is wrong with the header in `s`, if anything: too short to hold
    /// its version, a version whose layout this decoder does not read, or too
    /// short for its fields and tables.
    pub open spec fn error_of(s: Seq<u8>) -> Option<ParseError> {
        if s.len() < 6 {
            Some(ParseError::Truncated)
        } else if !Self::decodes_version(s) {
            Some(ParseError::UnsupportedLineVersion(version_of(s) as u16))
        } else if s.len() < fixed_len(version_of(s)) || s.len() < dirs_start(s) {
            Some(ParseError::Truncated)
        } else {
            match dirs_end(s, dirs_start(s)) {
                Err(e) => Some(e),
                Ok(p) => match files_end(s, p) {
                    Err(e) => Some(e),
                    Ok(_) => None,
                },
            }
        }
    }

    /// Whether this header is the decoding of the one at the start of `s`.
    pub open spec fn parsed_from(self, s: Seq<u8>) -> bool {
        let v = version_of(s);
        let o = fixed_len(v) - 4;
        let dirs = self.include_directories@;
        let files = self.file_names@;
        let fstart = dirs_end(s, dirs_start(s))->Ok_0;
        &&& self.unit_length == le32(s, 0)
        &&& self.version == v
        &&& self.header_length == le32(s, 6)
        &&& self.minimum_instruction_length == s[10]
        &&& self.maximum_operations_per_instruction == if v >= 4 {
            s[11]
        } else {
            1
        }
        &&& self.default_is_stmt == s[o]
        &&& self.line_base == signed_byte(s[o + 1])
        &&& self.line_range == s[o + 2]
        &&& self.opcode_base == s[o + 3]
        &&& self.standard_opcode_lengths@ == s.subrange(fixed_len(v), dirs_start(s))
        &&& forall|k: int| 0 <= k < dirs.len() ==> dir_decoded(s, dirs_start(s), k as nat, (#[trigger] dirs[k])@)
        &&& cstr_at(s, dir_pos(s, dirs_start(s), dirs.len())) == 0
        &&& forall|k: int| 0 <= k < files.len() ==> entry_decoded(s, fstart, k as nat, #[trigger] files[k])
        &&& s[file_pos(s, fstart, files.len())] == 0
    }

    /// Decodes the header of the line-number program at the start of `bytes`.
    pub fn from(bytes: &[u8]) -> (r: Result<LineHeader, ParseError>)
        ensures
            match r {
                Ok(h) => Self::error_of(bytes@) is None && h.parsed_from(bytes@),
                Err(e) => Self::error_of(bytes@) == Some(e),
            },
    {
        let ghost s = bytes@;
        let len = bytes.len();
        let version = match read_u16(bytes, 4) {
            Some(v) => v,
            None => return Err(ParseError::Truncated),
        };
        if version < 2 || version > 4 {
            return Err(ParseError::UnsupportedLineVersion(version));
        }
        let fixed: usize = if version >= 4 {
            16
        } else {
            15
        };
        if len < fixed {
            return Err(ParseError::Truncated);
        }
        let o = fixed - 4;
        let opcode_base = bytes[o + 3];
        let start: usize = if opcode_base == 0 {
            fixed
        } else {
            fixed + opcode_base as usize - 1
        };
        if len < start {
            return Err(ParseError::Truncated);
        }
        let standard_opcode_lengths = slice_to_vec(slice_subrange(bytes, fixed, start));
        let line_base_byte = bytes[o + 1];
        let line_base: i8 = if line_base_byte >= 128 {
            (line_base_byte - 128) as i8 - 127 - 1
        } else {
            line_base_byte as i8
        };
        let (include_directories, fstart) = match read_dirs(bytes, start) {
            Ok(x) => x,
            Err(e) => return Err(e),
        };
        let file_names = match read_files(bytes, fstart) {
            Ok(x) => x,
            Err(e) => return Err(e),
        };
        Ok(LineHeader {
            unit_length: read_u32(bytes, 0).unwrap(),
            version,
            header_length: read_u32(bytes, 6).unwrap(),
            minimum_instruction_length: bytes[10],
            maximum_operations_per_instruction: if version >= 4 {
                bytes[11]
            } else {
                1
            },
            default_is_stmt: bytes[o],
            line_base,
            line_range: bytes[o + 2],
            opcode_base,
            standard_opcode_lengths,
            include_directories,
            file_names,
        })
    }
}

proof fn lemma_cstr_len_at(s: Seq<u8>, pos: int, i: int)
    requires
        0 <= pos <= i <= s.len(),
        forall|j: int| pos <= j < i ==> s[j] != 0,
        i == s.len() || s[i] == 0,
    ensures
        cstr_at(s, pos) == i - pos,
{
    crate::dwarf::lemma_cstr_len(s.subrange(pos, s.len() as int), i - pos);
}

/// Reads the NUL-terminated string at `pos`.
fn read_cstr(b: &[u8], pos: usize) -> (r: Result<(Vec<u8>, usize), ParseError>)
    requires
        pos <= b@.len(),
    ensures
        match r {
            Ok((v, n)) => {
                &&& n == cstr_at(b@, pos as int)
                &&& pos + n < b@.len()
                &&& v@ == b@.subrange(pos as int, pos + n)
            },
            Err(e) => e == ParseError::Truncated && pos + cstr_at(b@, pos as int) >= b@.len(),
        },
{
    let mut i = pos;
    while i < b.len() && b[i] != 0
        invariant
            pos <= i <= b@.len(),
            forall|j: int| pos <= j < i ==> b@[j] != 0,
        decreases b@.len() - i,
    {
        i = i + 1;
    }
    proof {
        lemma_cstr_len_at(b@, pos as int, i as int);
    }
    if i == b.len() {
        return Err(ParseError::Truncated);
    }
    Ok((slice_to_vec(slice_subrange(b, pos, i)), i - pos))
}

/// Reads the include directories from `start`; says where they end.
fn read_dirs(b: &[u8], start: usize) -> (r: Result<(Vec<Vec<u8>>, usize), ParseError>)
    requires
        start <= b@.len(),
    ensures
        match r {
            Ok((dirs, end)) => {
                &&& dirs_end(b@, start as int) == Ok::<int, ParseError>(end as int)
                &&& end <= b@.len()
                &&& forall|k: int|
                    0 <= k < dirs@.len() ==> dir_decoded(b@, start as int, k as nat, (#[trigger] dirs@[k])@)
                &&& cstr_at(b@, dir_pos(b@, start as int, dirs@.len())) == 0
            },
            Err(e) => dirs_end(b@, start as int) == Err::<int, ParseError>(e),
        },
{
    let ghost s = b@;
    let len = b.len();
    let mut dirs: Vec<Vec<u8>> = Vec::new();
    let mut pos = start;
    loop
        invariant
            s == b@,
            len == s.len(),
            start <= pos <= s.len(),
            dirs_end(s, start as int) == dirs_end(s, pos as int),
            pos == dir_pos(s, start as int, dirs@.len()),
            forall|k: int|
                0 <= k < dirs@.len() ==> dir_decoded(s, start as int, k as nat, (#[trigger] dirs@[k])@),
        decreases s.len() - pos,
    {
        let (d, n) = match read_cstr(b, pos) {
            Ok(x) => x,
            Err(e) => return Err(e),
        };
        if n == 0 {
            return Ok((dirs, pos + 1));
        }
        let ghost old = dirs@;
        let ghost old_pos = pos;
        dirs.push(d);
        pos = pos + n + 1;
        proof {
            assert forall|k: int| 0 <= k < dirs@.len() implies dir_decoded(
                s,
                start as int,
                k as nat,
                (#[trigger] dirs@[k])@,
            ) by {
                if k < old.len() {
                    assert(dirs@[k] == old[k]);
                } else {
                    assert(dir_pos(s, start as int, k as nat) == old_pos);
                }
            }
        }
    }
}

/// Reads the file table from `start`.
fn read_files(b: &[u8], start: usize) -> (r: Result<Vec<DebugLineFileEntry>, ParseError>)
    requires
        start <= b@.len(),
    ensures
        match r {
            Ok(files) => {
                &&& files_end(b@, start as int) is Ok
                &&& forall|k: int|
                    0 <= k < files@.len() ==> entry_decoded(b@, start as int, k as nat, #[trigger] files@[k])
                &&& b@[file_pos(b@, start as int, files@.len())] == 0
            },
            Err(e) => files_end(b@, start as int) == Err::<int, ParseError>(e),
        },
{
    let ghost s = b@;
    let len = b.len();
    let mut files: Vec<DebugLineFileEntry> = Vec::new();
    let mut pos = start;
    loop
        invariant
            s == b@,
            len == s.len(),
            start <= pos <= len,
            files_end(s, start as int) == files_end(s, pos as int),
            pos == file_pos(s, start as int, files@.len()),
            forall|k: int|
                0 <= k < files@.len() ==> entry_decoded(s, start as int, k as nat, #[trigger] files@[k]),
        decreases len - pos,
    {
        if pos >= len {
            return Err(ParseError::Truncated);
        }
        if b[pos] == 0 {
            return Ok(files);
        }
        let (path, n) = match read_cstr(b, pos) {
            Ok(x) => x,
            Err(e) => return Err(e),
        };
        let p = pos + n + 1;
        let (directory_index, a) = match read_uleb(b, p) {
            Ok(x) => x,
            Err(e) => return Err(e),
        };
        let (modification_time, c1) = match read_uleb(b, p + a) {
            Ok(x) => x,
            Err(e) => return Err(e),
        };
        let (length, c2) = match read_uleb(b, p + a + c1) {
            Ok(x) => x,
            Err(e) => return Err(e),
        };
        let ghost old = files@;
        let ghost old_pos = pos;
        files.push(DebugLineFileEntry { path, directory_index, modification_time, length });
        pos = p + a + c1 + c2;
        proof {
            assert(entry_len(s, old_pos as int) == Ok::<int, ParseError>(pos - old_pos));
            assert forall|k: int| 0 <= k < files@.len() implies entry_decoded(
                s,
                start as int,
                k as nat,
                #[trigger] files@[k],
            ) by {
                if k < old.len() {
                    assert(files@[k] == old[k]);
                } else {
                    assert(file_pos(s, start as int, k as nat) == old_pos);
                }
            }
        }
    }
}

} // verus!
