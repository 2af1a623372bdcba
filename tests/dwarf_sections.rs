use macho_dwarf::dwarf::{
    AbbrevDecl, AttrForm, AttrName, AttrValue, CUHeader, DIETag, File, Section, DIE,
};
use macho_dwarf::error::ParseError;
use macho_dwarf::macho;

const ABBREV_MINIMAL: [u8; 8] = [0x01, 0x11, 0x01, 0x03, 0x08, 0x00, 0x00, 0x00];

fn cu_header(address_size: u8) -> Vec<u8> {
    let mut v = vec![];
    v.extend_from_slice(&0x20u32.to_le_bytes());
    v.extend_from_slice(&4u16.to_le_bytes());
    v.extend_from_slice(&0u32.to_le_bytes());
    v.push(address_size);
    v
}

fn put32(v: &mut Vec<u8>, x: u32) {
    v.extend_from_slice(&x.to_le_bytes());
}

fn put64(v: &mut Vec<u8>, x: u64) {
    v.extend_from_slice(&x.to_le_bytes());
}

fn name16(v: &mut Vec<u8>, s: &[u8]) {
    let mut field = [0u8; 16];
    field[..s.len()].copy_from_slice(s);
    v.extend_from_slice(&field);
}

/// A Mach-O image with one `__DWARF` segment whose sections hold `contents`,
/// laid out after the load commands.
fn dwarf_image(contents: &[(&[u8], Vec<u8>)]) -> Vec<u8> {
    let cmd_size = 72 + 80 * contents.len();
    let mut data_off = 32 + cmd_size;
    let mut cmd = vec![];
    put32(&mut cmd, 0x19);
    put32(&mut cmd, cmd_size as u32);
    name16(&mut cmd, b"__DWARF");
    for x in [0u64, 0, 0, 0] {
        put64(&mut cmd, x);
    }
    for w in [0u32, 0, contents.len() as u32, 0] {
        put32(&mut cmd, w);
    }
    for (name, data) in contents {
        name16(&mut cmd, name);
        name16(&mut cmd, b"__DWARF");
        put64(&mut cmd, 0);
        put64(&mut cmd, data.len() as u64);
        put32(&mut cmd, data_off as u32);
        for _ in 0..7 {
            put32(&mut cmd, 0);
        }
        data_off += data.len();
    }
    let mut v = vec![];
    for w in [0xfeedfacfu32, 0x0100_0007, 3, 1, 1, cmd_size as u32, 0, 0] {
        put32(&mut v, w);
    }
    v.extend_from_slice(&cmd);
    for (_, data) in contents {
        v.extend_from_slice(data);
    }
    v
}

fn dwarf_segment(image: &[u8]) -> macho::Segment64 {
    macho::File::from(image).unwrap().take_segment("__DWARF").unwrap()
}

fn info_hi() -> Vec<u8> {
    let mut info = cu_header(8);
    info.extend_from_slice(&[0x01, b'h', b'i', 0x00, 0x00]);
    info
}

#[test]
fn minimal_abbreviation_table() {
    let table = AbbrevDecl::parse_table(&ABBREV_MINIMAL).unwrap();
    assert_eq!(table.len(), 1);
    let d = &table[0];
    assert_eq!(d.abbrev_code, 1);
    assert_eq!(d.tag, DIETag::CompileUnit);
    assert!(d.has_children);
    assert_eq!(d.attr_specs.len(), 1);
    assert_eq!(d.attr_specs[0].name, AttrName::Name);
    assert_eq!(d.attr_specs[0].form, AttrForm::Stringg);
    let (_, n) = AbbrevDecl::from(&ABBREV_MINIMAL).unwrap();
    assert_eq!(n, 7);
}

#[test]
fn die_with_one_string_attribute() {
    let table = AbbrevDecl::parse_table(&ABBREV_MINIMAL).unwrap();
    let info = info_hi();
    let (die, n) = DIE::from(&info[11..], &table, 8).unwrap();
    assert_eq!(n, 5);
    assert_eq!(die.tag, DIETag::CompileUnit);
    assert_eq!(die.attrs.len(), 1);
    assert_eq!(die.attrs[0].name, AttrName::Name);
    assert!(matches!(&die.attrs[0].value, AttrValue::Str(s) if s.as_slice() == b"hi"));
    assert!(die.children.is_empty());
}

#[test]
fn sibling_sequence_consumes_its_zero_code() {
    let abbrev = [0x01, 0x2e, 0x00, 0x3a, 0x0b, 0x00, 0x00, 0x00];
    let table = AbbrevDecl::parse_table(&abbrev).unwrap();
    let seq = [0x01, 0x07, 0x01, 0x09, 0x00, 0xaa];
    let (dies, n) = DIE::nfrom(&seq, &table, 8).unwrap();
    assert_eq!(n, 5);
    assert_eq!(dies.len(), 2);
    assert_eq!(dies[0].tag, DIETag::Subprogram);
    assert!(matches!(dies[1].attrs[0].value, AttrValue::Constant(9)));
    assert_eq!(DIE::nfrom(&[0x00], &table, 8).unwrap().1, 1);
    assert_eq!(DIE::nfrom(&[0x01, 0x07], &table, 8).err(), Some(ParseError::TruncatedLEB));
}

#[test]
fn nested_children() {
    // 1: compile unit with children and a data2 language; 2: variable, no children.
    let abbrev = [0x01, 0x11, 0x01, 0x13, 0x05, 0x00, 0x00, 0x02, 0x34, 0x00, 0x49, 0x13, 0x00, 0x00, 0x00];
    let table = AbbrevDecl::parse_table(&abbrev).unwrap();
    assert_eq!(table.len(), 2);
    let die_bytes = [0x01, 0x0c, 0x00, 0x02, 0x10, 0x00, 0x00, 0x00, 0x02, 0x20, 0x00, 0x00, 0x00, 0x00];
    let (die, n) = DIE::from(&die_bytes, &table, 8).unwrap();
    assert_eq!(n, die_bytes.len());
    assert!(matches!(die.attrs[0].value, AttrValue::Constant(0x0c)));
    assert_eq!(die.children.len(), 2);
    assert_eq!(die.children[1].tag, DIETag::Variable);
    assert!(matches!(die.children[1].attrs[0].value, AttrValue::OffsetReference(0x20)));
}

#[test]
fn attribute_forms() {
    let b = [0x01, 0x02, 0x03, 0x04, 0x05, 0x06, 0x07, 0x08, 0x09];
    assert!(matches!(AttrValue::from(&b, AttrForm::Addr, 8), Ok((AttrValue::Address(0x0807060504030201), 8))));
    assert!(matches!(AttrValue::from(&b, AttrForm::Addr, 4), Ok((AttrValue::Address(0x04030201), 4))));
    assert!(matches!(AttrValue::from(&b, AttrForm::Data1, 8), Ok((AttrValue::Constant(1), 1))));
    assert!(matches!(AttrValue::from(&b, AttrForm::Data2, 8), Ok((AttrValue::Constant(0x0201), 2))));
    assert!(matches!(AttrValue::from(&b, AttrForm::Data8, 8), Ok((AttrValue::Constant(0x0807060504030201), 8))));
    assert!(matches!(AttrValue::from(&b, AttrForm::Ref8, 8), Ok((AttrValue::OffsetReference(0x0807060504030201), 8))));
    assert!(matches!(AttrValue::from(&b, AttrForm::SecOffset, 8), Ok((AttrValue::SectionOffset(0x04030201), 4))));
    assert!(matches!(AttrValue::from(&b, AttrForm::StrP, 8), Ok((AttrValue::StrP(0x04030201), 4))));
    assert!(matches!(AttrValue::from(&[0], AttrForm::Flag, 8), Ok((AttrValue::Flag(false), 1))));
    assert!(matches!(AttrValue::from(&[], AttrForm::FlagPresent, 8), Ok((AttrValue::Flag(true), 0))));
    match AttrValue::from(&[0x02, 0x91, 0x7f, 0x33], AttrForm::ExprLoc, 8) {
        Ok((AttrValue::ExprLoc(v), 3)) => assert_eq!(v, vec![0x91, 0x7f]),
        other => panic!("unexpected {:?}", other),
    }
}

#[test]
fn attribute_form_failures() {
    assert_eq!(AttrValue::from(&[1, 2], AttrForm::Data4, 8).err(), Some(ParseError::Truncated));
    assert_eq!(AttrValue::from(&[5, 1], AttrForm::ExprLoc, 8).err(), Some(ParseError::Truncated));
    assert_eq!(AttrValue::from(&[0x80], AttrForm::ExprLoc, 8).err(), Some(ParseError::TruncatedLEB));
    assert_eq!(AttrValue::from(b"abc", AttrForm::Stringg, 8).err(), Some(ParseError::Truncated));
    assert_eq!(
        AttrValue::from(&[1, 2, 3], AttrForm::Addr, 3).err(),
        Some(ParseError::UnsupportedAttrForm(AttrForm::Addr))
    );
    assert_eq!(
        AttrValue::from(&[1, 2, 3], AttrForm::Udata, 8).err(),
        Some(ParseError::UnsupportedAttrForm(AttrForm::Udata))
    );
}

#[test]
fn enum_tables() {
    assert_eq!(DIETag::from(0x11), Ok(DIETag::CompileUnit));
    assert_eq!(DIETag::from(0x4090), Ok(DIETag::User(0x4090)));
    assert_eq!(DIETag::from(0x06), Err(ParseError::BadDieTag(0x06)));
    assert_eq!(DIETag::from(0x10000), Err(ParseError::BadDieTag(0x10000)));
    assert_eq!(AttrName::from(0x6e), AttrName::LinkageName);
    assert_eq!(AttrName::from(0x2000), AttrName::LoUser);
    assert_eq!(AttrName::from(0x3fff), AttrName::HiUser);
    assert_eq!(AttrName::from(0x2001), AttrName::Unrecognized(0x2001));
    assert_eq!(AttrName::from(0x70), AttrName::Unrecognized(0x70));
    assert_eq!(AttrName::from(0x04), AttrName::Unrecognized(0x04));
    assert_eq!(AttrForm::from(0x20), AttrForm::RefSig8);
    assert_eq!(AttrForm::from(0x1f), AttrForm::Unrecognized(0x1f));
}

#[test]
fn unknown_attribute_name_is_kept() {
    let abbrev = [0x01, 0x24, 0x00, 0x7f, 0x0b, 0x00, 0x00, 0x00];
    let table = AbbrevDecl::parse_table(&abbrev).unwrap();
    assert_eq!(table[0].attr_specs[0].name, AttrName::Unrecognized(0x7f));
    let (die, _) = DIE::from(&[0x01, 0x05], &table, 8).unwrap();
    assert_eq!(die.attrs[0].name, AttrName::Unrecognized(0x7f));
}

#[test]
fn abbreviation_failures() {
    assert_eq!(AbbrevDecl::from(&[0x01, 0x06, 0x00, 0x00, 0x00]).err(), Some(ParseError::BadDieTag(6)));
    assert_eq!(AbbrevDecl::from(&[0x01, 0x11, 0x02, 0x00, 0x00]).err(), Some(ParseError::BadChildrenFlag(2)));
    assert_eq!(AbbrevDecl::from(&[0x01, 0x11]).err(), Some(ParseError::Truncated));
    assert_eq!(AbbrevDecl::from(&[0x01, 0x11, 0x00, 0x03]).err(), Some(ParseError::TruncatedLEB));
    assert_eq!(AbbrevDecl::parse_table(&[0x01, 0x11, 0x00, 0x00, 0x00]).err(), Some(ParseError::TruncatedLEB));
}

#[test]
fn unknown_abbreviation_code() {
    let table = AbbrevDecl::parse_table(&ABBREV_MINIMAL).unwrap();
    assert_eq!(DIE::from(&[0x02, 0x00], &table, 8).err(), Some(ParseError::UnknownAbbrevCode(2)));
}

#[test]
fn unsupported_form_inside_a_die_fails() {
    let abbrev = [0x01, 0x11, 0x00, 0x03, 0x0f, 0x00, 0x00, 0x00];
    let table = AbbrevDecl::parse_table(&abbrev).unwrap();
    assert_eq!(
        DIE::from(&[0x01, 0x05], &table, 8).err(),
        Some(ParseError::UnsupportedAttrForm(AttrForm::Udata))
    );
}

#[test]
fn compile_unit_header() {
    let h = CUHeader::from(&cu_header(8)).unwrap();
    assert_eq!((h.unit_length, h.version, h.debug_abbrev_offset, h.address_size), (0x20, 4, 0, 8));
    assert_eq!(CUHeader::from(&[0u8; 10]).err(), Some(ParseError::Truncated));
}

#[test]
fn sections_decode_by_name() {
    let table_sec = Section::from("__debug_abbrev", &ABBREV_MINIMAL, &vec![]).unwrap();
    let others = vec![table_sec];
    match Section::from("__debug_info", &info_hi(), &others).unwrap() {
        Section::DebugInfo { header, dies } => {
            assert_eq!(header.address_size, 8);
            assert_eq!(dies.len(), 1);
            assert_eq!(dies[0].tag, DIETag::CompileUnit);
        }
        other => panic!("unexpected {:?}", other),
    }
    match Section::from("__debug_str", b"xyz", &others).unwrap() {
        Section::Unrecognized { name, contents } => {
            assert_eq!(name, "__debug_str");
            assert_eq!(contents, b"xyz".to_vec());
        }
        other => panic!("unexpected {:?}", other),
    }
    assert_eq!(Section::from("__debug_info", &info_hi(), &vec![]).err(), Some(ParseError::MissingAbbrevTable));
}

#[test]
fn info_before_abbrev_in_segment_order() {
    let image = dwarf_image(&[
        (b"__debug_info", info_hi()),
        (b"__debug_str", b"hello\0".to_vec()),
        (b"__debug_abbrev", ABBREV_MINIMAL.to_vec()),
    ]);
    let f = File::from(dwarf_segment(&image), &image).unwrap();
    assert_eq!(f.sections.len(), 3);
    match &f.sections[0] {
        Section::DebugInfo { dies, .. } => {
            assert_eq!(dies[0].tag, DIETag::CompileUnit);
            assert!(matches!(&dies[0].attrs[0].value, AttrValue::Str(s) if s.as_slice() == b"hi"));
        }
        other => panic!("unexpected {:?}", other),
    }
    assert!(matches!(&f.sections[1], Section::Unrecognized { name, contents } if name == "__debug_str" && contents.len() == 6));
    assert!(matches!(&f.sections[2], Section::DebugAbbrev { abbrevs } if abbrevs.len() == 1));
}

#[test]
fn info_without_abbrev_section_fails() {
    let image = dwarf_image(&[(b"__debug_info", info_hi())]);
    assert_eq!(File::from(dwarf_segment(&image), &image).err(), Some(ParseError::MissingAbbrevTable));
    let image = dwarf_image(&[(b"__debug_str", b"x\0".to_vec())]);
    let f = File::from(dwarf_segment(&image), &image).unwrap();
    assert_eq!(f.sections.len(), 1);
}

#[test]
fn section_outside_the_image_is_truncated() {
    let mut image = dwarf_image(&[(b"__debug_abbrev", ABBREV_MINIMAL.to_vec())]);
    image.truncate(image.len() - 2);
    assert_eq!(File::from(dwarf_segment(&image), &image).err(), Some(ParseError::Truncated));
}

#[test]
fn a_malformed_line_section_does_not_fail_the_segment() {
    let image = dwarf_image(&[
        (b"__debug_line", vec![0xff, 0xff, 0x04, 0x00, 0x04]),
        (b"__debug_abbrev", ABBREV_MINIMAL.to_vec()),
        (b"__debug_info", info_hi()),
    ]);
    let f = File::from(dwarf_segment(&image), &image).unwrap();
    assert!(matches!(&f.sections[0], Section::Unrecognized { name, contents } if name == "__debug_line" && contents.len() == 5));
    assert!(matches!(&f.sections[2], Section::DebugInfo { .. }));
}
