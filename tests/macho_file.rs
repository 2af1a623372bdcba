use macho_dwarf::error::ParseError;
use macho_dwarf::macho::{
    ArmSubtype, BuildPlatform, CpuType, File, FileType, Header, LoadCommand, LoadCommandDetails,
    RawHeader, Section64, X86Subtype,
};

fn put32(v: &mut Vec<u8>, x: u32) {
    v.extend_from_slice(&x.to_le_bytes());
}

fn put64(v: &mut Vec<u8>, x: u64) {
    v.extend_from_slice(&x.to_le_bytes());
}

fn name16(v: &mut Vec<u8>, s: &[u8]) {
    let mut field = [0u8; 16];
    field[..s.len()].copy_from_slice(s);
    v.extend_from_slice(&field);
}

fn header(magic: u32, cpu: u32, sub: u32, ftype: u32, ncmds: u32, sizeofcmds: u32) -> Vec<u8> {
    let mut v = vec![];
    for w in [magic, cpu, sub, ftype, ncmds, sizeofcmds, 0, 0] {
        put32(&mut v, w);
    }
    v
}

fn section_record(sect: &[u8], seg: &[u8], offset: u32, size: u64) -> Vec<u8> {
    let mut v = vec![];
    name16(&mut v, sect);
    name16(&mut v, seg);
    put64(&mut v, 0x1000);
    put64(&mut v, size);
    put32(&mut v, offset);
    for w in [3u32, 0, 0, 0x0200_0000, 7, 9, 0] {
        put32(&mut v, w);
    }
    v
}

fn segment_command(name: &[u8], sections: &[Vec<u8>]) -> Vec<u8> {
    let mut v = vec![];
    put32(&mut v, 0x19);
    put32(&mut v, (72 + 80 * sections.len()) as u32);
    name16(&mut v, name);
    put64(&mut v, 0x10);
    put64(&mut v, 0x20);
    put64(&mut v, 0x30);
    put64(&mut v, 0x40);
    put32(&mut v, 7);
    put32(&mut v, 5);
    put32(&mut v, sections.len() as u32);
    put32(&mut v, 0);
    for s in sections {
        v.extend_from_slice(s);
    }
    v
}

fn image(commands: &[Vec<u8>]) -> Vec<u8> {
    let total: usize = commands.iter().map(|c| c.len()).sum();
    let mut v = header(0xfeedfacf, 0x0100_0007, 3, 2, commands.len() as u32, total as u32);
    for c in commands {
        v.extend_from_slice(c);
    }
    v
}

#[test]
fn header_only_image_parses() {
    let bytes: [u8; 32] = [
        0xCF, 0xFA, 0xED, 0xFE, 0x07, 0x00, 0x00, 0x01, 0x03, 0x00, 0x00, 0x00, 0x02, 0x00, 0x00,
        0x00, 0x00, 0x00, 0x00, 0x00, 0x00, 0x00, 0x00, 0x00, 0x00, 0x00, 0x00, 0x00, 0x00, 0x00,
        0x00, 0x00,
    ];
    let f = File::from(&bytes).unwrap();
    assert_eq!(f.header.cpu_type, CpuType::X86(X86Subtype::AllX86));
    assert!(f.header.is_64_bit);
    assert_eq!(f.header.file_type, FileType::DemandPagedExe);
    assert_eq!(f.header.loads_count, 0);
    assert_eq!(f.header.loads_size, 0);
    assert!(f.load_commands.is_empty());
}

#[test]
fn raw_header_reads_little_endian_words() {
    let bytes = header(0xfeedfacf, 0x0100_000c, 0x0d, 6, 4, 0x1234);
    let raw = RawHeader::from(&bytes).unwrap();
    assert_eq!(raw.magic, 0xfeedfacf);
    assert_eq!(raw.cpu_type, 0x0100_000c);
    assert_eq!(raw.cpu_subtype, 0x0d);
    assert_eq!(raw.file_type, 6);
    assert_eq!(raw.loads_count, 4);
    assert_eq!(raw.loads_size, 0x1234);
    let h = Header::from_header(raw).unwrap();
    assert_eq!(h.cpu_type, CpuType::Arm(ArmSubtype::ArmV8OrNewer));
    assert_eq!(h.file_type, FileType::DynamicallyBoundSharedLib);
}

#[test]
fn short_header_is_truncated() {
    assert_eq!(RawHeader::from(&[0u8; 31]).err(), Some(ParseError::Truncated));
    assert_eq!(Header::from_bytes(&[0u8; 10]).err(), Some(ParseError::Truncated));
    assert_eq!(File::from(&[]).err(), Some(ParseError::Truncated));
}

#[test]
fn thirty_two_bit_magic_with_sixty_four_bit_cpu_is_a_mismatch() {
    let bytes = header(0xfeedface, 0x0100_0007, 3, 2, 0, 0);
    assert_eq!(File::from(&bytes).err(), Some(ParseError::MagicMismatch));
    let bytes = header(0xfeedfacf, 0x0000_0007, 3, 2, 0, 0);
    assert_eq!(Header::from_bytes(&bytes).err(), Some(ParseError::MagicMismatch));
}

#[test]
fn thirty_two_bit_header_decodes() {
    let bytes = header(0xfeedface, 0x12, 0, 1, 0, 0);
    let h = Header::from_bytes(&bytes).unwrap();
    assert!(!h.is_64_bit);
    assert_eq!(h.cpu_type, CpuType::PowerPC);
    assert_eq!(h.file_type, FileType::RelocatableObj);
}

#[test]
fn bad_cpu_words_and_file_type_are_reported() {
    assert_eq!(CpuType::from(0x0100_0003, 0), Err(ParseError::BadCpuType(0x0100_0003)));
    assert_eq!(CpuType::from(0x0100_0007, 0x99), Err(ParseError::BadCpuSubtype(0x99)));
    assert_eq!(CpuType::from(0x0c, 0x11), Err(ParseError::BadCpuSubtype(0x11)));
    assert_eq!(CpuType::from(0x0100_0006, 0x99), Ok(CpuType::MC680x0));
    let bytes = header(0xfeedfacf, 0x0100_0007, 3, 0x0d, 0, 0);
    assert_eq!(File::from(&bytes).err(), Some(ParseError::BadFileType(0x0d)));
}

#[test]
fn subtype_and_file_type_tables() {
    assert_eq!(X86Subtype::from(0x84), Some(X86Subtype::I486SXOrNewer));
    assert_eq!(X86Subtype::from(0x05), None);
    assert_eq!(ArmSubtype::from(0x10), Some(ArmSubtype::ArmV7EMOrNewer));
    assert_eq!(ArmSubtype::from(0x11), None);
    assert_eq!(FileType::from(0x0c), Some(FileType::CompositeMacho));
    assert_eq!(FileType::from(0), None);
    assert_eq!(BuildPlatform::from(3), BuildPlatform::TVOS);
    assert_eq!(BuildPlatform::from(9), BuildPlatform::Other(9));
}

#[test]
fn load_sizes_must_add_up() {
    let mut cmd = vec![];
    put32(&mut cmd, 0x1b);
    put32(&mut cmd, 24);
    cmd.extend_from_slice(&[7u8; 16]);
    let mut bytes = header(0xfeedfacf, 0x0100_0007, 3, 2, 1, 32);
    bytes.extend_from_slice(&cmd);
    assert_eq!(File::from(&bytes).err(), Some(ParseError::LoadsSizeMismatch));
    let bytes = image(&[cmd]);
    let f = File::from(&bytes).unwrap();
    let total: u32 = f.load_commands.iter().map(|c| c.size).sum();
    assert_eq!(total, f.header.loads_size);
    assert!(matches!(f.load_commands[0].details, LoadCommandDetails::Uuid(u) if u == [7u8; 16]));
}

#[test]
fn symbol_table_and_unknown_commands() {
    let mut sym = vec![];
    for w in [0x02u32, 24, 100, 3, 200, 48] {
        put32(&mut sym, w);
    }
    let mut other = vec![];
    for w in [0x26u32, 16, 1, 2] {
        put32(&mut other, w);
    }
    let bytes = image(&[sym, other]);
    let f = File::from(&bytes).unwrap();
    assert_eq!(f.load_commands.len(), 2);
    match &f.load_commands[0].details {
        LoadCommandDetails::SymbolTable { symoff, nsyms, stroff, strsize } => {
            assert_eq!((*symoff, *nsyms, *stroff, *strsize), (100, 3, 200, 48));
        }
        other => panic!("unexpected {:?}", other),
    }
    assert_eq!(f.load_commands[1].size, 16);
    assert!(matches!(f.load_commands[1].details, LoadCommandDetails::UnrecognizedLoad(0x26)));
}

#[test]
fn build_version_command() {
    let mut cmd = vec![];
    for w in [0x32u32, 0x18 + 16, 1, 0x000b_0000, 0x000c_0100, 2, 3, 0x0400, 4, 0x0500] {
        put32(&mut cmd, w);
    }
    let (c, n) = LoadCommand::from(&cmd).unwrap();
    assert_eq!(n, 40);
    match c.details {
        LoadCommandDetails::BuildVersion { platform, minos, sdk, tools } => {
            assert_eq!(platform, BuildPlatform::MacOS);
            assert_eq!((minos, sdk), (0x000b_0000, 0x000c_0100));
            assert_eq!(tools.len(), 2);
            assert_eq!((tools[0].tool, tools[0].version), (3, 0x0400));
            assert_eq!((tools[1].tool, tools[1].version), (4, 0x0500));
        }
        other => panic!("unexpected {:?}", other),
    }
    let mut bad = vec![];
    for w in [0x32u32, 0x18 + 8, 1, 0, 0, 2, 3, 4] {
        put32(&mut bad, w);
    }
    assert_eq!(LoadCommand::from(&bad).err(), Some(ParseError::BadBuildCommandSize));
}

#[test]
fn load_command_bounds() {
    assert_eq!(LoadCommand::from(&[0u8; 7]).err(), Some(ParseError::Truncated));
    let mut cmd = vec![];
    put32(&mut cmd, 0x1b);
    put32(&mut cmd, 40);
    cmd.extend_from_slice(&[0u8; 16]);
    assert_eq!(LoadCommand::from(&cmd).err(), Some(ParseError::Truncated));
    let mut tiny = vec![];
    put32(&mut tiny, 0x26);
    put32(&mut tiny, 4);
    assert_eq!(LoadCommand::from(&tiny).err(), Some(ParseError::Truncated));
}

#[test]
fn segment_with_sections() {
    let sec = section_record(b"__debug_info", b"__DWARF", 0x2000, 0x40);
    let cmd = segment_command(b"__DWARF", &[sec]);
    let bytes = image(&[cmd]);
    let f = File::from(&bytes).unwrap();
    match &f.load_commands[0].details {
        LoadCommandDetails::Segment64(seg) => {
            assert_eq!(seg.segname, "__DWARF");
            assert_eq!((seg.vmaddr, seg.vmsize, seg.fileoff, seg.filesize), (0x10, 0x20, 0x30, 0x40));
            assert_eq!((seg.maxprot, seg.initprot, seg.nsects), (7, 5, 1));
            let s = &seg.sections[0];
            assert_eq!(s.sectname, "__debug_info");
            assert_eq!(s.segname, "__DWARF");
            assert_eq!((s.addr, s.size, s.offset, s.align), (0x1000, 0x40, 0x2000, 3));
            assert_eq!((s.flags, s.reserved1, s.reserved2), (0x0200_0000, 7, 9));
        }
        other => panic!("unexpected {:?}", other),
    }
}

#[test]
fn section_names_are_trimmed_and_checked() {
    let mut rec = section_record(b"__text", b"__TEXT", 0, 0);
    rec[0] = 0;
    rec[1] = 0;
    rec[2] = b'a';
    let s = Section64::from(&rec).unwrap();
    assert_eq!(s.sectname, "aext");
    let mut bad = section_record(b"__text", b"__TEXT", 0, 0);
    bad[3] = 0xff;
    assert_eq!(Section64::from(&bad).err(), Some(ParseError::BadSegmentName));
    assert_eq!(Section64::from(&bad[..60]).err(), Some(ParseError::Truncated));
    assert_eq!(Section64::from(&bad[..75]).err(), Some(ParseError::Truncated));
    let short = section_record(b"__text", b"__TEXT", 0x40, 0x10);
    let s = Section64::from(&short[..76]).unwrap();
    assert_eq!((s.sectname.as_str(), s.offset, s.size, s.reserved2), ("__text", 0x40, 0x10, 9));
    let cmd = segment_command(b"__DATA", &[bad]);
    assert_eq!(LoadCommand::from(&cmd).err(), Some(ParseError::BadSegmentName));
}

#[test]
fn segment_lookup_by_name() {
    let dwarf = segment_command(b"__DWARF", &[]);
    let text = segment_command(b"__TEXT", &[]);
    let bytes = image(&[text, dwarf]);
    let f = File::from(&bytes).unwrap();
    let seg = f.take_segment("__DWARF").unwrap();
    assert_eq!(seg.segname, "__DWARF");
    let f = File::from(&bytes).unwrap();
    assert!(f.take_segment("__LINKEDIT").is_none());
}
