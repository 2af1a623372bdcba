use macho_dwarf::dwarf::Section;
use macho_dwarf::error::ParseError;
use macho_dwarf::line::LineHeader;

fn v4_header() -> Vec<u8> {
    let mut v = vec![];
    v.extend_from_slice(&0x40u32.to_le_bytes());
    v.extend_from_slice(&4u16.to_le_bytes());
    v.extend_from_slice(&0x20u32.to_le_bytes());
    v.extend_from_slice(&[1, 1, 1, 0xfb, 14, 13]);
    v.extend_from_slice(&[0, 1, 1, 1, 1, 0, 0, 0, 1, 0, 0, 1]);
    v.extend_from_slice(b"inc\0\0");
    v.extend_from_slice(b"a.c\0");
    v.extend_from_slice(&[1, 0, 0]);
    v.extend_from_slice(b"b.h\0");
    v.extend_from_slice(&[0, 0x81, 0x01, 5]);
    v.push(0);
    v.extend_from_slice(&[0x05, 0x0a, 0x00]);
    v
}

#[test]
fn version_four_line_header() {
    let bytes = v4_header();
    let h = LineHeader::from(&bytes).unwrap();
    assert_eq!((h.unit_length, h.version, h.header_length), (0x40, 4, 0x20));
    assert_eq!(h.minimum_instruction_length, 1);
    assert_eq!(h.maximum_operations_per_instruction, 1);
    assert_eq!(h.default_is_stmt, 1);
    assert_eq!(h.line_base, -5);
    assert_eq!((h.line_range, h.opcode_base), (14, 13));
    assert_eq!(h.standard_opcode_lengths, vec![0, 1, 1, 1, 1, 0, 0, 0, 1, 0, 0, 1]);
    assert_eq!(h.include_directories, vec![b"inc".to_vec()]);
    assert_eq!(h.file_names.len(), 2);
    assert_eq!(h.file_names[0].path, b"a.c".to_vec());
    assert_eq!(h.file_names[0].directory_index, 1);
    assert_eq!(h.file_names[1].path, b"b.h".to_vec());
    assert_eq!(
        (h.file_names[1].directory_index, h.file_names[1].modification_time, h.file_names[1].length),
        (0, 129, 5)
    );
}

#[test]
fn version_three_has_no_operations_field() {
    let mut bytes = vec![];
    bytes.extend_from_slice(&0x10u32.to_le_bytes());
    bytes.extend_from_slice(&3u16.to_le_bytes());
    bytes.extend_from_slice(&0x08u32.to_le_bytes());
    bytes.extend_from_slice(&[4, 0, 0x0a, 0x11, 2, 7]);
    bytes.extend_from_slice(&[0, 0]);
    let h = LineHeader::from(&bytes).unwrap();
    assert_eq!(h.maximum_operations_per_instruction, 1);
    assert_eq!((h.minimum_instruction_length, h.default_is_stmt, h.line_base), (4, 0, 10));
    assert_eq!((h.line_range, h.opcode_base), (0x11, 2));
    assert_eq!(h.standard_opcode_lengths, vec![7]);
    assert!(h.include_directories.is_empty());
    assert!(h.file_names.is_empty());
}

#[test]
fn line_header_truncations() {
    let bytes = v4_header();
    assert_eq!(LineHeader::from(&bytes[..20]).err(), Some(ParseError::Truncated));
    assert_eq!(LineHeader::from(&bytes[..30]).err(), Some(ParseError::Truncated));
    assert_eq!(LineHeader::from(&bytes[..36]).err(), Some(ParseError::Truncated));
    assert_eq!(LineHeader::from(&bytes[..39]).err(), Some(ParseError::TruncatedLEB));
    assert_eq!(LineHeader::from(&bytes[..40]).err(), Some(ParseError::Truncated));
    assert!(LineHeader::from(&bytes[..49]).is_ok());
}

#[test]
fn other_line_versions_are_refused_by_the_header_decoder() {
    let mut bytes = v4_header();
    bytes[4] = 5;
    assert_eq!(LineHeader::from(&bytes).err(), Some(ParseError::UnsupportedLineVersion(5)));
    assert_eq!(LineHeader::from(&bytes[..5]).err(), Some(ParseError::Truncated));
}

#[test]
fn line_sections_stay_raw_in_the_segment() {
    for bytes in [v4_header(), v4_header()[..30].to_vec()] {
        match Section::from("__debug_line", &bytes, &vec![]).unwrap() {
            Section::Unrecognized { name, contents } => {
                assert_eq!(name, "__debug_line");
                assert_eq!(contents, bytes);
            }
            other => panic!("unexpected {:?}", other),
        }
    }
}
