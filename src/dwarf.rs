//! DWARF v4 debugging data: the abbreviation table, the DIE tree of a
//! compile unit, and the typed sections of a Mach-O `__DWARF` segment.
use crate::error::ParseError;
use crate::le::{le16, le32, le64, read_u16, read_u32, read_u64, read_u8};
use crate::leb::{uleb128_decode, uleb_decoded};
use crate::macho::{is_named, Section64, Segment64};
use vstd::prelude::*;
use vstd::slice::{slice_subrange, slice_to_vec};

verus! {

/// The tag of a DIE: what kind of program entity it describes (DWARF v4, section 7.5.4).
#[derive(Clone, Copy, Debug, PartialEq, Eq, Structural)]
pub enum DIETag {
    ArrayType,
    ClassType,
    EntryPoint,
    EnumerationType,
    FormalParameter,
    ImportedDeclaration,
    Label,
    LexicalBlock,
    Member,
    PointerType,
    ReferenceType,
    CompileUnit,
    StringType,
    StructureType,
    SubroutineType,
    Typedef,
    UnionType,
    UnspecifiedParameters,
    Variant,
    CommonBlock,
    CommonInclusion,
    Inheritance,
    InlinedSubroutine,
    Module,
    PtrToMemberType,
    SetType,
    SubrangeType,
    WithStmt,
    AccessDeclaration,
    BaseType,
    CatchBlock,
    ConstType,
    Constant,
    Enumerator,
    FileType,
    Friend,
    Namelist,
    NamelistItem,
    PackedType,
    Subprogram,
    TemplateTypeParameter,
    TemplateValueParameter,
    ThrownType,
    TryBlock,
    VariantPart,
    Variable,
    VolatileType,
    DwarfProcedure,
    RestrictType,
    InterfaceType,
    Namespace,
    ImportedModule,
    UnspecifiedType,
    PartialUnit,
    ImportedUnit,
    Condition,
    SharedType,
    TypeUnit,
    RvalueReferenceType,
    TemplateAlias,
    /// A vendor-defined tag, in the range 0x4080 to 0xffff.
    User(u64),
}

impl DIETag {
    /// The number that stands for this value on disk.
    pub open spec fn code(self) -> u64 {
        match self {
            DIETag::ArrayType => 0x01,
            DIETag::ClassType => 0x02,
            DIETag::EntryPoint => 0x03,
            DIETag::EnumerationType => 0x04,
            DIETag::FormalParameter => 0x05,
            DIETag::ImportedDeclaration => 0x08,
            DIETag::Label => 0x0a,
            DIETag::LexicalBlock => 0x0b,
            DIETag::Member => 0x0d,
            DIETag::PointerType => 0x0f,
            DIETag::ReferenceType => 0x10,
            DIETag::CompileUnit => 0x11,
            DIETag::StringType => 0x12,
            DIETag::StructureType => 0x13,
            DIETag::SubroutineType => 0x15,
            DIETag::Typedef => 0x16,
            DIETag::UnionType => 0x17,
            DIETag::UnspecifiedParameters => 0x18,
            DIETag::Variant => 0x19,
            DIETag::CommonBlock => 0x1a,
            DIETag::CommonInclusion => 0x1b,
            DIETag::Inheritance => 0x1c,
            DIETag::InlinedSubroutine => 0x1d,
            DIETag::Module => 0x1e,
            DIETag::PtrToMemberType => 0x1f,
            DIETag::SetType => 0x20,
            DIETag::SubrangeType => 0x21,
            DIETag::WithStmt => 0x22,
            DIETag::AccessDeclaration => 0x23,
            DIETag::BaseType => 0x24,
            DIETag::CatchBlock => 0x25,
            DIETag::ConstType => 0x26,
            DIETag::Constant => 0x27,
            DIETag::Enumerator => 0x28,
            DIETag::FileType => 0x29,
            DIETag::Friend => 0x2a,
            DIETag::Namelist => 0x2b,
            DIETag::NamelistItem => 0x2c,
            DIETag::PackedType => 0x2d,
            DIETag::Subprogram => 0x2e,
            DIETag::TemplateTypeParameter => 0x2f,
            DIETag::TemplateValueParameter => 0x30,
            DIETag::ThrownType => 0x31,
            DIETag::TryBlock => 0x32,
            DIETag::VariantPart => 0x33,
            DIETag::Variable => 0x34,
            DIETag::VolatileType => 0x35,
            DIETag::DwarfProcedure => 0x36,
            DIETag::RestrictType => 0x37,
            DIETag::InterfaceType => 0x38,
            DIETag::Namespace => 0x39,
            DIETag::ImportedModule => 0x3a,
            DIETag::UnspecifiedType => 0x3b,
            DIETag::PartialUnit => 0x3c,
            DIETag::ImportedUnit => 0x3d,
            DIETag::Condition => 0x3f,
            DIETag::SharedType => 0x40,
            DIETag::TypeUnit => 0x41,
            DIETag::RvalueReferenceType => 0x42,
            DIETag::TemplateAlias => 0x43,
            DIETag::User(v) => v,
        }
    }

    /// Whether this value is a tag at all: a vendor tag lies in its range.
    pub open spec fn wf(self) -> bool {
        match self {
            DIETag::User(v) => 0x4080 <= v <= 0xffff,
            _ => true,
        }
    }

    /// The tag whose number is `value`.
    pub fn from(value: u64) -> (r: Result<DIETag, ParseError>)
        ensures
            match r {
                Ok(t) => t.wf() && t.code() == value,
                Err(e) => e == ParseError::BadDieTag(value) && forall|t: DIETag|
                    #[trigger] t.wf() ==> t.code() != value,
            },
    {
        match value {
            0x01 => Ok(DIETag::ArrayType),
            0x02 => Ok(DIETag::ClassType),
            0x03 => Ok(DIETag::EntryPoint),
            0x04 => Ok(DIETag::EnumerationType),
            0x05 => Ok(DIETag::FormalParameter),
            0x08 => Ok(DIETag::ImportedDeclaration),
            0x0a => Ok(DIETag::Label),
            0x0b => Ok(DIETag::LexicalBlock),
            0x0d => Ok(DIETag::Member),
            0x0f => Ok(DIETag::PointerType),
            0x10 => Ok(DIETag::ReferenceType),
            0x11 => Ok(DIETag::CompileUnit),
            0x12 => Ok(DIETag::StringType),
            0x13 => Ok(DIETag::StructureType),
            0x15 => Ok(DIETag::SubroutineType),
            0x16 => Ok(DIETag::Typedef),
            0x17 => Ok(DIETag::UnionType),
            0x18 => Ok(DIETag::UnspecifiedParameters),
            0x19 => Ok(DIETag::Variant),
            0x1a => Ok(DIETag::CommonBlock),
            0x1b => Ok(DIETag::CommonInclusion),
            0x1c => Ok(DIETag::Inheritance),
            0x1d => Ok(DIETag::InlinedSubroutine),
            0x1e => Ok(DIETag::Module),
            0x1f => Ok(DIETag::PtrToMemberType),
            0x20 => Ok(DIETag::SetType),
            0x21 => Ok(DIETag::SubrangeType),
            0x22 => Ok(DIETag::WithStmt),
            0x23 => Ok(DIETag::AccessDeclaration),
            0x24 => Ok(DIETag::BaseType),
            0x25 => Ok(DIETag::CatchBlock),
            0x26 => Ok(DIETag::ConstType),
            0x27 => Ok(DIETag::Constant),
            0x28 => Ok(DIETag::Enumerator),
            0x29 => Ok(DIETag::FileType),
            0x2a => Ok(DIETag::Friend),
            0x2b => Ok(DIETag::Namelist),
            0x2c => Ok(DIETag::NamelistItem),
            0x2d => Ok(DIETag::PackedType),
            0x2e => Ok(DIETag::Subprogram),
            0x2f => Ok(DIETag::TemplateTypeParameter),
            0x30 => Ok(DIETag::TemplateValueParameter),
            0x31 => Ok(DIETag::ThrownType),
            0x32 => Ok(DIETag::TryBlock),
            0x33 => Ok(DIETag::VariantPart),
            0x34 => Ok(DIETag::Variable),
            0x35 => Ok(DIETag::VolatileType),
            0x36 => Ok(DIETag::DwarfProcedure),
            0x37 => Ok(DIETag::RestrictType),
            0x38 => Ok(DIETag::InterfaceType),
            0x39 => Ok(DIETag::Namespace),
            0x3a => Ok(DIETag::ImportedModule),
            0x3b => Ok(DIETag::UnspecifiedType),
            0x3c => Ok(DIETag::PartialUnit),
            0x3d => Ok(DIETag::ImportedUnit),
            0x3f => Ok(DIETag::Condition),
            0x40 => Ok(DIETag::SharedType),
            0x41 => Ok(DIETag::TypeUnit),
            0x42 => Ok(DIETag::RvalueReferenceType),
            0x43 => Ok(DIETag::TemplateAlias),
            _ => {
                if 0x4080 <= value && value <= 0xffff {
                    Ok(DIETag::User(value))
                } else {
                    Err(ParseError::BadDieTag(value))
                }
            },
        }
    }
}

/// The name of an attribute: what property of a DIE it gives (DWARF v4, section 7.5.4).
#[derive(Clone, Copy, Debug, PartialEq, Eq, Structural)]
pub enum AttrName {
    Sibling,
    Location,
    Name,
    Ordering,
    ByteSize,
    BitOffset,
    BitSize,
    StmtList,
    LowPc,
    HighPc,
    Language,
    Discr,
    DiscrValue,
    Visibility,
    Import,
    StringLength,
    CommonReference,
    CompDir,
    ConstValue,
    ContainingType,
    DefaultValue,
    Inline,
    IsOptional,
    LowerBound,
    Producer,
    Prototyped,
    ReturnAddr,
    StartScope,
    BitStride,
    UpperBound,
    AbstractOrigin,
    Accessibility,
    AddressClass,
    Artificial,
    BaseTypes,
    CallingConvention,
    Count,
    DataMemberLocation,
    DeclColumn,
    DeclFile,
    DeclLine,
    Declaration,
    DiscrList,
    Encoding,
    External,
    FrameBase,
    Friend,
    IdentifierCase,
    MacroInfo,
    NamelistItem,
    Priority,
    Segment,
    Specification,
    StaticLink,
    Type,
    UseLocation,
    VariableParameter,
    Virtuality,
    VtableElemLocation,
    Allocated,
    Associated,
    DataLocation,
    ByteStride,
    EntryPc,
    UseUTF8,
    Extension,
    Ranges,
    Trampoline,
    CallColumn,
    CallFile,
    CallLine,
    Description,
    BinaryScale,
    DecimalScale,
    Small,
    DecimalSign,
    DigitCount,
    PictureString,
    Mutable,
    ThreadsScaled,
    Explicit,
    ObjectPointer,
    Endianity,
    Elemental,
    Pure,
    Recursive,
    Signature,
    MainSubprogram,
    DataBitOffset,
    ConstExpr,
    EnumClass,
    LinkageName,
    /// The lowest number of the vendor-defined names.
    LoUser,
    /// The highest number of the vendor-defined names.
    HiUser,
    /// A name that this decoder does not know, kept as it was read.
    Unrecognized(u64),
}

impl AttrName {
    /// The number that stands for this value on disk.
    pub open spec fn code(self) -> u64 {
        match self {
            AttrName::Sibling => 0x01,
            AttrName::Location => 0x02,
            AttrName::Name => 0x03,
            AttrName::Ordering => 0x09,
            AttrName::ByteSize => 0x0b,
            AttrName::BitOffset => 0x0c,
            AttrName::BitSize => 0x0d,
            AttrName::StmtList => 0x10,
            AttrName::LowPc => 0x11,
            AttrName::HighPc => 0x12,
            AttrName::Language => 0x13,
            AttrName::Discr => 0x15,
            AttrName::DiscrValue => 0x16,
            AttrName::Visibility => 0x17,
            AttrName::Import => 0x18,
            AttrName::StringLength => 0x19,
            AttrName::CommonReference => 0x1a,
            AttrName::CompDir => 0x1b,
            AttrName::ConstValue => 0x1c,
            AttrName::ContainingType => 0x1d,
            AttrName::DefaultValue => 0x1e,
            AttrName::Inline => 0x20,
            AttrName::IsOptional => 0x21,
            AttrName::LowerBound => 0x22,
            AttrName::Producer => 0x25,
            AttrName::Prototyped => 0x27,
            AttrName::ReturnAddr => 0x2a,
            AttrName::StartScope => 0x2c,
            AttrName::BitStride => 0x2e,
            AttrName::UpperBound => 0x2f,
            AttrName::AbstractOrigin => 0x31,
            AttrName::Accessibility => 0x32,
            AttrName::AddressClass => 0x33,
            AttrName::Artificial => 0x34,
            AttrName::BaseTypes => 0x35,
            AttrName::CallingConvention => 0x36,
            AttrName::Count => 0x37,
            AttrName::DataMemberLocation => 0x38,
            AttrName::DeclColumn => 0x39,
            AttrName::DeclFile => 0x3a,
            AttrName::DeclLine => 0x3b,
            AttrName::Declaration => 0x3c,
            AttrName::DiscrList => 0x3d,
            AttrName::Encoding => 0x3e,
            AttrName::External => 0x3f,
            AttrName::FrameBase => 0x40,
            AttrName::Friend => 0x41,
            AttrName::IdentifierCase => 0x42,
            AttrName::MacroInfo => 0x43,
            AttrName::NamelistItem => 0x44,
            AttrName::Priority => 0x45,
            AttrName::Segment => 0x46,
            AttrName::Specification => 0x47,
            AttrName::StaticLink => 0x48,
            AttrName::Type => 0x49,
            AttrName::UseLocation => 0x4a,
            AttrName::VariableParameter => 0x4b,
            AttrName::Virtuality => 0x4c,
            AttrName::VtableElemLocation => 0x4d,
            AttrName::Allocated => 0x4e,
            AttrName::Associated => 0x4f,
            AttrName::DataLocation => 0x50,
            AttrName::ByteStride => 0x51,
            AttrName::EntryPc => 0x52,
            AttrName::UseUTF8 => 0x53,
            AttrName::Extension => 0x54,
            AttrName::Ranges => 0x55,
            AttrName::Trampoline => 0x56,
            AttrName::CallColumn => 0x57,
            AttrName::CallFile => 0x58,
            AttrName::CallLine => 0x59,
            AttrName::Description => 0x5a,
            AttrName::BinaryScale => 0x5b,
            AttrName::DecimalScale => 0x5c,
            AttrName::Small => 0x5d,
            AttrName::DecimalSign => 0x5e,
            AttrName::DigitCount => 0x5f,
            AttrName::PictureString => 0x60,
            AttrName::Mutable => 0x61,
            AttrName::ThreadsScaled => 0x62,
            AttrName::Explicit => 0x63,
            AttrName::ObjectPointer => 0x64,
            AttrName::Endianity => 0x65,
            AttrName::Elemental => 0x66,
            AttrName::Pure => 0x67,
            AttrName::Recursive => 0x68,
            AttrName::Signature => 0x69,
            AttrName::MainSubprogram => 0x6a,
            AttrName::DataBitOffset => 0x6b,
            AttrName::ConstExpr => 0x6c,
            AttrName::EnumClass => 0x6d,
            AttrName::LinkageName => 0x6e,
            AttrName::LoUser => 0x2000,
            AttrName::HiUser => 0x3fff,
            AttrName::Unrecognized(v) => v,
        }
    }

    /// Whether this value is the one that its number decodes to: an
    /// unrecognized name is no other name's number.
    pub open spec fn wf(self) -> bool {
        match self {
            AttrName::Unrecognized(v) => forall|a: AttrName| #[trigger] a.code() == v ==> a is Unrecognized,
            _ => true,
        }
    }

    /// The name whose number is `n`; an unknown number is kept as
    /// `Unrecognized(n)`.
    pub fn from(n: u64) -> (r: AttrName)
        ensures
            r.wf(),
            r.code() == n,
    {
        match n {
            0x01 => AttrName::Sibling,
            0x02 => AttrName::Location,
            0x03 => AttrName::Name,
            0x09 => AttrName::Ordering,
            0x0b => AttrName::ByteSize,
            0x0c => AttrName::BitOffset,
            0x0d => AttrName::BitSize,
            0x10 => AttrName::StmtList,
            0x11 => AttrName::LowPc,
            0x12 => AttrName::HighPc,
            0x13 => AttrName::Language,
            0x15 => AttrName::Discr,
            0x16 => AttrName::DiscrValue,
            0x17 => AttrName::Visibility,
            0x18 => AttrName::Import,
            0x19 => AttrName::StringLength,
            0x1a => AttrName::CommonReference,
            0x1b => AttrName::CompDir,
            0x1c => AttrName::ConstValue,
            0x1d => AttrName::ContainingType,
            0x1e => AttrName::DefaultValue,
            0x20 => AttrName::Inline,
            0x21 => AttrName::IsOptional,
            0x22 => AttrName::LowerBound,
            0x25 => AttrName::Producer,
            0x27 => AttrName::Prototyped,
            0x2a => AttrName::ReturnAddr,
            0x2c => AttrName::StartScope,
            0x2e => AttrName::BitStride,
            0x2f => AttrName::UpperBound,
            0x31 => AttrName::AbstractOrigin,
            0x32 => AttrName::Accessibility,
            0x33 => AttrName::AddressClass,
            0x34 => AttrName::Artificial,
            0x35 => AttrName::BaseTypes,
            0x36 => AttrName::CallingConvention,
            0x37 => AttrName::Count,
            0x38 => AttrName::DataMemberLocation,
            0x39 => AttrName::DeclColumn,
            0x3a => AttrName::DeclFile,
            0x3b => AttrName::DeclLine,
            0x3c => AttrName::Declaration,
            0x3d => AttrName::DiscrList,
            0x3e => AttrName::Encoding,
            0x3f => AttrName::External,
            0x40 => AttrName::FrameBase,
            0x41 => AttrName::Friend,
            0x42 => AttrName::IdentifierCase,
            0x43 => AttrName::MacroInfo,
            0x44 => AttrName::NamelistItem,
            0x45 => AttrName::Priority,
            0x46 => AttrName::Segment,
            0x47 => AttrName::Specification,
            0x48 => AttrName::StaticLink,
            0x49 => AttrName::Type,
            0x4a => AttrName::UseLocation,
            0x4b => AttrName::VariableParameter,
            0x4c => AttrName::Virtuality,
            0x4d => AttrName::VtableElemLocation,
            0x4e => AttrName::Allocated,
            0x4f => AttrName::Associated,
            0x50 => AttrName::DataLocation,
            0x51 => AttrName::ByteStride,
            0x52 => AttrName::EntryPc,
            0x53 => AttrName::UseUTF8,
            0x54 => AttrName::Extension,
            0x55 => AttrName::Ranges,
            0x56 => AttrName::Trampoline,
            0x57 => AttrName::CallColumn,
            0x58 => AttrName::CallFile,
            0x59 => AttrName::CallLine,
            0x5a => AttrName::Description,
            0x5b => AttrName::BinaryScale,
            0x5c => AttrName::DecimalScale,
            0x5d => AttrName::Small,
            0x5e => AttrName::DecimalSign,
            0x5f => AttrName::DigitCount,
            0x60 => AttrName::PictureString,
            0x61 => AttrName::Mutable,
            0x62 => AttrName::ThreadsScaled,
            0x63 => AttrName::Explicit,
            0x64 => AttrName::ObjectPointer,
            0x65 => AttrName::Endianity,
            0x66 => AttrName::Elemental,
            0x67 => AttrName::Pure,
            0x68 => AttrName::Recursive,
            0x69 => AttrName::Signature,
            0x6a => AttrName::MainSubprogram,
            0x6b => AttrName::DataBitOffset,
            0x6c => AttrName::ConstExpr,
            0x6d => AttrName::EnumClass,
            0x6e => AttrName::LinkageName,
            0x2000 => AttrName::LoUser,
            0x3fff => AttrName::HiUser,
            _ => AttrName::Unrecognized(n),
        }
    }
}

/// The form of an attribute: how its value is laid out (DWARF v4, section 7.5.4).
#[derive(Clone, Copy, Debug, PartialEq, Eq, Structural)]
pub enum AttrForm {
    Addr,
    Block2,
    Block4,
    Data2,
    Data4,
    Data8,
    Stringg,
    Block,
    Block1,
    Data1,
    Flag,
    SData,
    StrP,
    Udata,
    RefAddr,
    Ref1,
    Ref2,
    Ref4,
    Ref8,
    RefUdata,
    Indirect,
    SecOffset,
    ExprLoc,
    FlagPresent,
    RefSig8,
    /// A form that this decoder does not know, kept as it was read.
    Unrecognized(u64),
}

impl AttrForm {
    /// The number that stands for this value on disk.
    pub open spec fn code(self) -> u64 {
        match self {
            AttrForm::Addr => 0x01,
            AttrForm::Block2 => 0x03,
            AttrForm::Block4 => 0x04,
            AttrForm::Data2 => 0x05,
            AttrForm::Data4 => 0x06,
            AttrForm::Data8 => 0x07,
            AttrForm::Stringg => 0x08,
            AttrForm::Block => 0x09,
            AttrForm::Block1 => 0x0a,
            AttrForm::Data1 => 0x0b,
            AttrForm::Flag => 0x0c,
            AttrForm::SData => 0x0d,
            AttrForm::StrP => 0x0e,
            AttrForm::Udata => 0x0f,
            AttrForm::RefAddr => 0x10,
            AttrForm::Ref1 => 0x11,
            AttrForm::Ref2 => 0x12,
            AttrForm::Ref4 => 0x13,
            AttrForm::Ref8 => 0x14,
            AttrForm::RefUdata => 0x15,
            AttrForm::Indirect => 0x16,
            AttrForm::SecOffset => 0x17,
            AttrForm::ExprLoc => 0x18,
            AttrForm::FlagPresent => 0x19,
            AttrForm::RefSig8 => 0x20,
            AttrForm::Unrecognized(v) => v,
        }
    }

    /// Whether this value is the one that its number decodes to: an
    /// unrecognized form is no other form's number.
    pub open spec fn wf(self) -> bool {
        match self {
            AttrForm::Unrecognized(v) => forall|f: AttrForm| #[trigger] f.code() == v ==> f is Unrecognized,
            _ => true,
        }
    }

    /// The form whose number is `n`; an unknown number is kept as
    /// `Unrecognized(n)`.
    pub fn from(n: u64) -> (r: AttrForm)
        ensures
            r.wf(),
            r.code() == n,
    {
        match n {
            0x01 => AttrForm::Addr,
            0x03 => AttrForm::Block2,
            0x04 => AttrForm::Block4,
            0x05 => AttrForm::Data2,
            0x06 => AttrForm::Data4,
            0x07 => AttrForm::Data8,
            0x08 => AttrForm::Stringg,
            0x09 => AttrForm::Block,
            0x0a => AttrForm::Block1,
            0x0b => AttrForm::Data1,
            0x0c => AttrForm::Flag,
            0x0d => AttrForm::SData,
            0x0e => AttrForm::StrP,
            0x0f => AttrForm::Udata,
            0x10 => AttrForm::RefAddr,
            0x11 => AttrForm::Ref1,
            0x12 => AttrForm::Ref2,
            0x13 => AttrForm::Ref4,
            0x14 => AttrForm::Ref8,
            0x15 => AttrForm::RefUdata,
            0x16 => AttrForm::Indirect,
            0x17 => AttrForm::SecOffset,
            0x18 => AttrForm::ExprLoc,
            0x19 => AttrForm::FlagPresent,
            0x20 => AttrForm::RefSig8,
            _ => AttrForm::Unrecognized(n),
        }
    }
}

/// The unsigned LEB128 number at `pos`, and its length, as a decoder of this
/// module sees it.
#[verifier::opaque]
pub open spec fn uleb_at(s: Seq<u8>, pos: int) -> Result<(u64, usize), ParseError> {
    match uleb_decoded(s.subrange(pos, s.len() as int)) {
        Ok(x) => Ok(x),
        Err(_) => Err(ParseError::TruncatedLEB),
    }
}

/// Reads the unsigned LEB128 number at `pos`.
pub(crate) fn read_uleb(b: &[u8], pos: usize) -> (r: Result<(u64, usize), ParseError>)
    requires
        pos <= b@.len(),
    ensures
        r == uleb_at(b@, pos as int),
        r matches Ok((_, n)) ==> 0 < n <= b@.len() - pos,
        b@.len() <= usize::MAX,
{
    reveal(uleb_at);
    let rest = slice_subrange(b, pos, b.len());
    match uleb128_decode(rest) {
        Ok(x) => {
            proof {
                crate::leb::lemma_leb_len_bound(rest@);
            }
            Ok(x)
        },
        Err(_) => Err(ParseError::TruncatedLEB),
    }
}

/// The number of bytes before the first NUL byte of `s` (all of them when
/// there is none).
pub open spec fn cstr_len(s: Seq<u8>) -> nat
    decreases s.len(),
{
    if s.len() == 0 || s[0] == 0 {
        0
    } else {
        1 + cstr_len(s.drop_first())
    }
}

pub(crate) proof fn lemma_cstr_len(s: Seq<u8>, i: int)
    requires
        0 <= i <= s.len(),
        forall|j: int| 0 <= j < i ==> s[j] != 0,
        i == s.len() || s[i] == 0,
    ensures
        cstr_len(s) == i,
    decreases i,
{
    if i > 0 {
        lemma_cstr_len(s.drop_first(), i - 1);
    }
}

/// One attribute of an abbreviation: its name and the form of its value.
#[derive(Clone, Copy, Debug, PartialEq, Eq, Structural)]
pub struct AttrSpec {
    pub name: AttrName,
    pub form: AttrForm,
}

/// The value of an attribute, by the kind of its form.
#[derive(Debug)]
pub enum AttrValue {
    /// A target address (`addr`).
    Address(u64),
    /// An unsigned constant (`data1`, `data2`, `data4`, `data8`).
    Constant(u64),
    /// An expression or location description (`exprloc`).
    ExprLoc(Vec<u8>),
    /// A flag (`flag`, `flag_present`).
    Flag(bool),
    /// An offset into another debugging section (`sec_offset`).
    SectionOffset(u64),
    /// A reference to a DIE, as an offset in its unit (`ref1` to `ref8`).
    OffsetReference(u64),
    /// An offset into the string table (`strp`).
    StrP(u64),
    /// An inline string, without its terminating NUL (`string`).
    Str(Vec<u8>),
}

/// The size in bytes of the fixed-size numeric forms, for an address size of
/// `asz`; 0 for any other form.
pub open spec fn fixed_width(form: AttrForm, asz: u8) -> int {
    match form {
        AttrForm::Addr => asz as int,
        AttrForm::Data1 | AttrForm::Ref1 | AttrForm::Flag => 1,
        AttrForm::Data2 | AttrForm::Ref2 => 2,
        AttrForm::Data4 | AttrForm::Ref4 | AttrForm::SecOffset | AttrForm::StrP => 4,
        AttrForm::Data8 | AttrForm::Ref8 => 8,
        _ => 0,
    }
}

/// The unsigned little-endian number of `width` bytes (1, 2, 4 or 8) at the
/// start of `s`.
pub open spec fn le_width(s: Seq<u8>, width: int) -> int {
    if width == 1 {
        s[0] as int
    } else if width == 2 {
        le16(s, 0)
    } else if width == 4 {
        le32(s, 0)
    } else {
        le64(s, 0)
    }
}

/// Whether an address size is one that `addr` can be read with.
pub open spec fn address_size_ok(asz: u8) -> bool {
    asz == 1 || asz == 2 || asz == 4 || asz == 8
}

impl AttrValue {
    /// How many bytes a value of `form` at the start of `s` spans, or why it
    /// cannot be read. A form whose length this decoder cannot tell is a
    /// failure, so that no later attribute is read from the wrong place.
    pub open spec fn len_of(s: Seq<u8>, form: AttrForm, asz: u8) -> Result<int, ParseError> {
        match form {
            AttrForm::Addr | AttrForm::Data1 | AttrForm::Data2 | AttrForm::Data4
            | AttrForm::Data8 | AttrForm::Flag | AttrForm::Ref1 | AttrForm::Ref2
            | AttrForm::Ref4 | AttrForm::Ref8 | AttrForm::SecOffset | AttrForm::StrP => {
                if form == AttrForm::Addr && !address_size_ok(asz) {
                    Err(ParseError::UnsupportedAttrForm(form))
                } else if s.len() < fixed_width(form, asz) {
                    Err(ParseError::Truncated)
                } else {
                    Ok(fixed_width(form, asz))
                }
            },
            AttrForm::FlagPresent => Ok(0),
            AttrForm::ExprLoc => match uleb_at(s, 0) {
                Err(e) => Err(e),
                Ok((len, n)) => if n + len > s.len() {
                    Err(ParseError::Truncated)
                } else {
                    Ok(n + len as int)
                },
            },
            AttrForm::Stringg => if cstr_len(s) == s.len() {
                Err(ParseError::Truncated)
            } else {
                Ok(cstr_len(s) + 1int)
            },
            _ => Err(ParseError::UnsupportedAttrForm(form)),
        }
    }

    /// Whether this value is the decoding of a value of `form` at the start
    /// of `s`.
    pub open spec fn parsed_from(self, s: Seq<u8>, form: AttrForm, asz: u8) -> bool {
        let w = fixed_width(form, asz);
        match self {
            AttrValue::Address(x) => form == AttrForm::Addr && x == le_width(s, w),
            AttrValue::Constant(x) => (form == AttrForm::Data1 || form == AttrForm::Data2 || form
                == AttrForm::Data4 || form == AttrForm::Data8) && x == le_width(s, w),
            AttrValue::Flag(f) => (form == AttrForm::Flag && f == (s[0] != 0)) || (form
                == AttrForm::FlagPresent && f),
            AttrValue::SectionOffset(x) => form == AttrForm::SecOffset && x == le32(s, 0),
            AttrValue::OffsetReference(x) => (form == AttrForm::Ref1 || form == AttrForm::Ref2
                || form == AttrForm::Ref4 || form == AttrForm::Ref8) && x == le_width(s, w),
            AttrValue::StrP(x) => form == AttrForm::StrP && x == le32(s, 0),
            AttrValue::ExprLoc(v) => {
                &&& form == AttrForm::ExprLoc
                &&& uleb_at(s, 0) matches Ok((len, n))
                &&& v@ == s.subrange(n as int, n + len)
            },
            AttrValue::Str(v) => form == AttrForm::Stringg && v@ == s.subrange(0, cstr_len(s) as int),
        }
    }

    /// Reads an unsigned number of `width` bytes (1, 2, 4 or 8).
    fn read_width(bytes: &[u8], width: u8) -> (r: u64)
        requires
            width == 1 || width == 2 || width == 4 || width == 8,
            bytes@.len() >= width,
        ensures
            r == le_width(bytes@, width as int),
    {
        if width == 1 {
            read_u8(bytes, 0).unwrap() as u64
        } else if width == 2 {
            read_u16(bytes, 0).unwrap() as u64
        } else if width == 4 {
            read_u32(bytes, 0).unwrap() as u64
        } else {
            read_u64(bytes, 0).unwrap()
        }
    }

    /// Reads a value of `form` at the start of `bytes`, with addresses of
    /// `address_size` bytes, and says how many bytes it spans.
    pub fn from(bytes: &[u8], form: AttrForm, address_size: u8) -> (r: Result<
        (AttrValue, usize),
        ParseError,
    >)
        ensures
            match r {
                Ok((v, n)) => Self::len_of(bytes@, form, address_size) == Ok::<int, ParseError>(
                    n as int,
                ) && v.parsed_from(bytes@, form, address_size) && n <= bytes@.len(),
                Err(e) => Self::len_of(bytes@, form, address_size) == Err::<int, ParseError>(e),
            },
    {
        let width: u8 = match form {
            AttrForm::Addr => {
                if !(address_size == 1 || address_size == 2 || address_size == 4 || address_size
                    == 8) {
                    return Err(ParseError::UnsupportedAttrForm(form));
                }
                address_size
            },
            AttrForm::Data1 | AttrForm::Ref1 | AttrForm::Flag => 1,
            AttrForm::Data2 | AttrForm::Ref2 => 2,
            AttrForm::Data4 | AttrForm::Ref4 | AttrForm::SecOffset | AttrForm::StrP => 4,
            AttrForm::Data8 | AttrForm::Ref8 => 8,
            AttrForm::FlagPresent => return Ok((AttrValue::Flag(true), 0)),
            AttrForm::ExprLoc => {
                let (len, n) = match read_uleb(bytes, 0) {
                    Ok(x) => x,
                    Err(e) => return Err(e),
                };
                if len > (bytes.len() - n) as u64 {
                    return Err(ParseError::Truncated);
                }
                let end = n + len as usize;
                let block = slice_to_vec(slice_subrange(bytes, n, end));
                return Ok((AttrValue::ExprLoc(block), end));
            },
            AttrForm::Stringg => {
                let mut i: usize = 0;
                while i < bytes.len() && bytes[i] != 0
                    invariant
                        i <= bytes@.len(),
                        forall|j: int| 0 <= j < i ==> bytes@[j] != 0,
                    decreases bytes@.len() - i,
                {
                    i = i + 1;
                }
                proof {
                    lemma_cstr_len(bytes@, i as int);
                }
                if i == bytes.len() {
                    return Err(ParseError::Truncated);
                }
                let text = slice_to_vec(slice_subrange(bytes, 0, i));
                return Ok((AttrValue::Str(text), i + 1));
            },
            _ => return Err(ParseError::UnsupportedAttrForm(form)),
        };
        if bytes.len() < width as usize {
            return Err(ParseError::Truncated);
        }
        let x = Self::read_width(bytes, width);
        let v = match form {
            AttrForm::Addr => AttrValue::Address(x),
            AttrForm::Data1 | AttrForm::Data2 | AttrForm::Data4 | AttrForm::Data8 => AttrValue::Constant(x),
            AttrForm::Flag => AttrValue::Flag(x != 0),
            AttrForm::SecOffset => AttrValue::SectionOffset(x),
            AttrForm::StrP => AttrValue::StrP(x),
            _ => AttrValue::OffsetReference(x),
        };
        Ok((v, width as usize))
    }
}

/// The (name, form) pair at `pos` of an abbreviation declaration: the two
/// numbers and the bytes they span.
pub open spec fn pair_at(s: Seq<u8>, pos: int) -> Result<(u64, u64, int), ParseError> {
    match uleb_at(s, pos) {
        Err(e) => Err(e),
        Ok((name, n1)) => match uleb_at(s, pos + n1) {
            Err(e) => Err(e),
            Ok((form, n2)) => Ok((name, form, n1 + n2)),
        },
    }
}

/// Where the list of attribute pairs that starts at `pos` ends: after its
/// (0, 0) pair.
pub open spec fn pairs_end(s: Seq<u8>, pos: int) -> Result<int, ParseError>
    decreases s.len() - pos,
{
    match pair_at(s, pos) {
        Err(e) => Err(e),
        Ok((name, form, n)) => if name == 0 && form == 0 {
            Ok(pos + n)
        } else if 0 < n && pos + n <= s.len() {
            pairs_end(s, pos + n)
        } else {
            Err(ParseError::Truncated)
        },
    }
}

/// Where pair `k` of the list that starts at `start` begins.
pub open spec fn pair_pos(s: Seq<u8>, start: int, k: nat) -> int
    decreases k,
{
    if k == 0 {
        start
    } else {
        let p = pair_pos(s, start, (k - 1) as nat);
        p + pair_at(s, p)->Ok_0.2
    }
}

/// Whether pair `k` of the list that starts at `start` is not the final
/// (0, 0) pair, and `a` is its decoding.
pub open spec fn pair_decoded(s: Seq<u8>, start: int, k: nat, a: AttrSpec) -> bool {
    let (name, form, _) = pair_at(s, pair_pos(s, start, k))->Ok_0;
    !(name == 0 && form == 0) && a.decodes(name, form)
}

impl AttrSpec {
    /// Whether this specification is the decoding of the pair of numbers.
    pub open spec fn decodes(self, name: u64, form: u64) -> bool {
        &&& self.name.wf() && self.name.code() == name
        &&& self.form.wf() && self.form.code() == form
    }
}

/// An abbreviation declaration: the schema of the DIEs that name its code.
#[derive(Debug)]
pub struct AbbrevDecl {
    pub abbrev_code: u64,
    pub tag: DIETag,
    pub has_children: bool,
    pub attr_specs: Vec<AttrSpec>,
}

impl AbbrevDecl {
    /// How many bytes the declaration at the start of `s` spans, or why it
    /// cannot be read.
    #[verifier::opaque]
    pub open spec fn len_of(s: Seq<u8>) -> Result<int, ParseError> {
        match uleb_at(s, 0) {
            Err(e) => Err(e),
            Ok((code, n1)) => match uleb_at(s, n1 as int) {
                Err(e) => Err(e),
                Ok((tag, n2)) => if !exists|t: DIETag| #[trigger] t.wf() && t.code() == tag {
                    Err(ParseError::BadDieTag(tag))
                } else if n1 + n2 >= s.len() {
                    Err(ParseError::Truncated)
                } else if s[n1 + n2] > 1 {
                    Err(ParseError::BadChildrenFlag(s[n1 + n2]))
                } else {
                    pairs_end(s, n1 + n2 + 1)
                },
            },
        }
    }

    /// Whether this declaration is the decoding of the one at the start of `s`.
    #[verifier::opaque]
    pub open spec fn parsed_from(self, s: Seq<u8>) -> bool {
        let (code, n1) = uleb_at(s, 0)->Ok_0;
        let (tag, n2) = uleb_at(s, n1 as int)->Ok_0;
        let start = n1 + n2 + 1;
        let specs = self.attr_specs@;
        &&& self.abbrev_code == code
        &&& self.tag.wf() && self.tag.code() == tag
        &&& self.has_children == (s[n1 + n2] == 1)
        &&& forall|k: int|
            0 <= k < specs.len() ==> pair_decoded(s, start, k as nat, #[trigger] specs[k])
        &&& pair_at(s, pair_pos(s, start, specs.len())) matches Ok((0, 0, _))
    }

    /// Decodes the declaration at the start of `bytes`, and says how many
    /// bytes it spans.
    pub fn from(bytes: &[u8]) -> (r: Result<(AbbrevDecl, usize), ParseError>)
        ensures
            match r {
                Ok((d, n)) => Self::len_of(bytes@) == Ok::<int, ParseError>(n as int)
                    && d.parsed_from(bytes@) && 0 < n <= bytes@.len(),
                Err(e) => Self::len_of(bytes@) == Err::<int, ParseError>(e),
            },
    {
        reveal(AbbrevDecl::len_of);
        reveal(AbbrevDecl::parsed_from);
        let ghost s = bytes@;
        let (abbrev_code, n1) = match read_uleb(bytes, 0) {
            Ok(x) => x,
            Err(e) => return Err(e),
        };
        let (tag_code, n2) = match read_uleb(bytes, n1) {
            Ok(x) => x,
            Err(e) => return Err(e),
        };
        let tag = match DIETag::from(tag_code) {
            Ok(t) => t,
            Err(e) => return Err(e),
        };
        let flag_at = n1 + n2;
        if flag_at >= bytes.len() {
            return Err(ParseError::Truncated);
        }
        let has_children = match bytes[flag_at] {
            0 => false,
            1 => true,
            x => return Err(ParseError::BadChildrenFlag(x)),
        };
        let start = flag_at + 1;
        let mut offset = start;
        let mut attr_specs: Vec<AttrSpec> = Vec::new();
        loop
            invariant
                s == bytes@,
                start <= offset <= s.len(),
                start == n1 + n2 + 1,
                uleb_at(s, 0) == Ok::<(u64, usize), ParseError>((abbrev_code, n1)),
                uleb_at(s, n1 as int) == Ok::<(u64, usize), ParseError>((tag_code, n2)),
                tag.wf() && tag.code() == tag_code,
                has_children == (s[n1 + n2] == 1),
                s[n1 + n2] <= 1,
                Self::len_of(s) == pairs_end(s, offset as int),
                offset == pair_pos(s, start as int, attr_specs@.len()),
                forall|k: int|
                    0 <= k < attr_specs@.len() ==> pair_decoded(
                        s,
                        start as int,
                        k as nat,
                        #[trigger] attr_specs@[k],
                    ),
            decreases s.len() - offset,
        {
            let (name, l1) = match read_uleb(bytes, offset) {
                Ok(x) => x,
                Err(e) => return Err(e),
            };
            let (form, l2) = match read_uleb(bytes, offset + l1) {
                Ok(x) => x,
                Err(e) => return Err(e),
            };
            let ghost old_specs = attr_specs@;
            let ghost old_offset = offset;
            assert(pair_at(s, offset as int) == Ok::<(u64, u64, int), ParseError>(
                (name, form, l1 + l2),
            ));
            if name == 0 && form == 0 {
                let d = AbbrevDecl { abbrev_code, tag, has_children, attr_specs };
                assert(pairs_end(s, offset as int) == Ok::<int, ParseError>(offset + l1 + l2));
                proof {
                    reveal(AbbrevDecl::len_of);
                    reveal(AbbrevDecl::parsed_from);
                }
                assert(d.parsed_from(s));
                return Ok((d, offset + l1 + l2));
            }
            attr_specs.push(AttrSpec { name: AttrName::from(name), form: AttrForm::from(form) });
            offset = offset + l1 + l2;
            proof {
                assert forall|k: int| 0 <= k < attr_specs@.len() implies pair_decoded(
                    s,
                    start as int,
                    k as nat,
                    #[trigger] attr_specs@[k],
                ) by {
                    if k < old_specs.len() {
                        assert(attr_specs@[k] == old_specs[k]);
                    } else {
                        assert(pair_pos(s, start as int, k as nat) == old_offset);
                    }
                }
            }
        }
    }
}

/// Where the abbreviation table that starts at `pos` ends: after its zero
/// code.
pub open spec fn table_end(s: Seq<u8>, pos: int) -> Result<int, ParseError>
    decreases s.len() - pos,
{
    match uleb_at(s, pos) {
        Err(e) => Err(e),
        Ok((code, n)) => if code == 0 {
            Ok(pos + n)
        } else {
            match AbbrevDecl::len_of(s.subrange(pos, s.len() as int)) {
                Err(e) => Err(e),
                Ok(m) => if 0 < m && pos + m <= s.len() {
                    table_end(s, pos + m)
                } else {
                    Err(ParseError::Truncated)
                },
            }
        },
    }
}

/// Where declaration `k` of the table in `s` starts.
pub open spec fn decl_pos(s: Seq<u8>, k: nat) -> int
    decreases k,
{
    if k == 0 {
        0
    } else {
        let p = decl_pos(s, (k - 1) as nat);
        p + AbbrevDecl::len_of(s.subrange(p, s.len() as int))->Ok_0
    }
}

/// Whether declaration `k` of the table in `s` has a nonzero code, and `d` is
/// its decoding.
pub open spec fn decl_decoded(s: Seq<u8>, k: nat, d: AbbrevDecl) -> bool {
    let p = decl_pos(s, k);
    uleb_at(s, p)->Ok_0.0 != 0 && d.parsed_from(s.subrange(p, s.len() as int))
}

/// Whether `t` is the decoding of the abbreviation table `s`: one declaration
/// for each nonzero code before the zero one.
pub open spec fn table_parsed(t: Seq<AbbrevDecl>, s: Seq<u8>) -> bool {
    &&& forall|k: int| 0 <= k < t.len() ==> decl_decoded(s, k as nat, #[trigger] t[k])
    &&& uleb_at(s, decl_pos(s, t.len())) matches Ok((0, _))
}

impl AbbrevDecl {
    /// Decodes an abbreviation table: declarations up to a zero code.
    pub fn parse_table(bytes: &[u8]) -> (r: Result<Vec<AbbrevDecl>, ParseError>)
        ensures
            match r {
                Ok(t) => table_end(bytes@, 0) is Ok && table_parsed(t@, bytes@),
                Err(e) => table_end(bytes@, 0) == Err::<int, ParseError>(e),
            },
    {
        let ghost s = bytes@;
        let len = bytes.len();
        let mut abbrevs: Vec<AbbrevDecl> = Vec::new();
        let mut offset: usize = 0;
        loop
            invariant
                s == bytes@,
                len == s.len(),
                offset <= len,
                table_end(s, 0) == table_end(s, offset as int),
                offset == decl_pos(s, abbrevs@.len()),
                forall|k: int|
                    0 <= k < abbrevs@.len() ==> decl_decoded(s, k as nat, #[trigger] abbrevs@[k]),
            decreases len - offset,
        {
            let (code, n) = match read_uleb(bytes, offset) {
                Ok(x) => x,
                Err(e) => return Err(e),
            };
            if code == 0 {
                assert(table_end(s, offset as int) == Ok::<int, ParseError>(offset + n));
                assert(uleb_at(s, decl_pos(s, abbrevs@.len())) matches Ok((0, _)));
                assert(table_parsed(abbrevs@, s));
                return Ok(abbrevs);
            }
            let rest = slice_subrange(bytes, offset, len);
            let (decl, size) = match AbbrevDecl::from(rest) {
                Ok(x) => x,
                Err(e) => return Err(e),
            };
            let ghost old = abbrevs@;
            let ghost old_offset = offset;
            abbrevs.push(decl);
            offset = offset + size;
            proof {
                assert forall|k: int| 0 <= k < abbrevs@.len() implies decl_decoded(
                    s,
                    k as nat,
                    #[trigger] abbrevs@[k],
                ) by {
                    if k < old.len() {
                        assert(abbrevs@[k] == old[k]);
                    } else {
                        assert(decl_pos(s, k as nat) == old_offset);
                        assert(uleb_at(s, old_offset as int)->Ok_0.0 != 0);
                        assert(rest@ == s.subrange(old_offset as int, s.len() as int));
                        assert(abbrevs@[k].parsed_from(rest@));
                    }
                }
            }
        }
    }
}

/// One attribute of a DIE: its name and its value.
#[derive(Debug)]
pub struct DIEAttribute {
    pub name: AttrName,
    pub value: AttrValue,
}

/// A debugging information entry: its tag, its attributes in the order that
/// its abbreviation lists them, and the entries it owns.
#[derive(Debug)]
pub struct DIE {
    pub tag: DIETag,
    pub attrs: Vec<DIEAttribute>,
    pub children: Vec<DIE>,
}

/// The index of the first declaration in `ab` with the given code, or -1.
pub open spec fn find_abbrev(ab: Seq<AbbrevDecl>, code: u64) -> int
    decreases ab.len(),
{
    if ab.len() == 0 {
        -1
    } else if ab[0].abbrev_code == code {
        0
    } else if find_abbrev(ab.drop_first(), code) < 0 {
        -1
    } else {
        find_abbrev(ab.drop_first(), code) + 1
    }
}

/// Where the first `k` attributes, laid out by `specs` from `start` on, end;
/// or why one of them cannot be read.
pub open spec fn attrs_end(
    s: Seq<u8>,
    start: int,
    specs: Seq<AttrSpec>,
    asz: u8,
    k: nat,
) -> Result<int, ParseError>
    decreases k,
{
    if k == 0 {
        Ok(start)
    } else {
        match attrs_end(s, start, specs, asz, (k - 1) as nat) {
            Err(e) => Err(e),
            Ok(p) => match AttrValue::len_of(s.subrange(p, s.len() as int), specs[k - 1].form, asz) {
                Err(e) => Err(e),
                Ok(n) => Ok(p + n),
            },
        }
    }
}

/// Whether `a` is the decoding of attribute `k` of those laid out by `specs`
/// from `start` on.
pub open spec fn attr_decoded(
    s: Seq<u8>,
    start: int,
    specs: Seq<AttrSpec>,
    asz: u8,
    k: int,
    a: DIEAttribute,
) -> bool {
    let p = attrs_end(s, start, specs, asz, k as nat)->Ok_0;
    a.name == specs[k].name && a.value.parsed_from(s.subrange(p, s.len() as int), specs[k].form, asz)
}

/// How many bytes the DIE at the start of `s` spans, its children included,
/// or why it cannot be read.
pub open spec fn die_len(s: Seq<u8>, ab: Seq<AbbrevDecl>, asz: u8) -> Result<int, ParseError>
    decreases s.len(), 0int,
{
    match uleb_at(s, 0) {
        Err(e) => Err(e),
        Ok((code, n)) => {
            let i = find_abbrev(ab, code);
            if i < 0 {
                Err(ParseError::UnknownAbbrevCode(code))
            } else {
                let specs = ab[i].attr_specs@;
                match attrs_end(s, n as int, specs, asz, specs.len()) {
                    Err(e) => Err(e),
                    Ok(p) => if !ab[i].has_children {
                        Ok(p)
                    } else if 0 < p <= s.len() {
                        match siblings_len(s.subrange(p, s.len() as int), ab, asz) {
                            Err(e) => Err(e),
                            Ok(m) => Ok(p + m),
                        }
                    } else {
                        Err(ParseError::Truncated)
                    },
                }
            }
        },
    }
}

/// How many bytes the sibling sequence at the start of `s` spans, its
/// terminating zero code included, or why it cannot be read.
pub open spec fn siblings_len(s: Seq<u8>, ab: Seq<AbbrevDecl>, asz: u8) -> Result<int, ParseError>
    decreases s.len(), 1int,
{
    match uleb_at(s, 0) {
        Err(e) => Err(e),
        Ok((code, n)) => if code == 0 {
            Ok(n as int)
        } else {
            match die_len(s, ab, asz) {
                Err(e) => Err(e),
                Ok(p) => if 0 < p <= s.len() {
                    match siblings_len(s.subrange(p, s.len() as int), ab, asz) {
                        Err(e) => Err(e),
                        Ok(m) => Ok(p + m),
                    }
                } else {
                    Err(ParseError::Truncated)
                },
            }
        },
    }
}

/// Where sibling `j` of the sequence at the start of `s` begins.
pub open spec fn sibling_off(s: Seq<u8>, ab: Seq<AbbrevDecl>, asz: u8, j: nat) -> int
    decreases j,
{
    if j == 0 {
        0
    } else {
        let p = sibling_off(s, ab, asz, (j - 1) as nat);
        p + die_len(s.subrange(p, s.len() as int), ab, asz)->Ok_0
    }
}

/// Whether `d` is the decoding of the DIE at the start of `s`.
pub open spec fn die_parsed(d: DIE, s: Seq<u8>, ab: Seq<AbbrevDecl>, asz: u8) -> bool
    decreases d, 0int,
{
    let (code, n) = uleb_at(s, 0)->Ok_0;
    let decl = ab[find_abbrev(ab, code)];
    let specs = decl.attr_specs@;
    &&& d.tag == decl.tag
    &&& d.attrs@.len() == specs.len()
    &&& forall|k: int|
        0 <= k < specs.len() ==> attr_decoded(s, n as int, specs, asz, k, #[trigger] d.attrs@[k])
    &&& if decl.has_children {
        let p = attrs_end(s, n as int, specs, asz, specs.len())->Ok_0;
        children_parsed(d.children@, s.subrange(p, s.len() as int), ab, asz)
    } else {
        d.children@.len() == 0
    }
}

/// Whether sibling `j` of the sequence at the start of `s` has a nonzero
/// code, and `d` is its decoding.
pub open spec fn sibling_decoded(s: Seq<u8>, ab: Seq<AbbrevDecl>, asz: u8, j: nat, d: DIE) -> bool
    decreases d, 1int,
{
    let p = sibling_off(s, ab, asz, j);
    &&& uleb_at(s, p)->Ok_0.0 != 0
    &&& die_parsed(d, s.subrange(p, s.len() as int), ab, asz)
}

/// Whether `cs` is the decoding of the sibling sequence at the start of `s`:
/// one DIE for each nonzero code before the zero one.
pub open spec fn children_parsed(cs: Seq<DIE>, s: Seq<u8>, ab: Seq<AbbrevDecl>, asz: u8) -> bool
    decreases cs, 2int,
{
    &&& forall|j: int| 0 <= j < cs.len() ==> sibling_decoded(s, ab, asz, j as nat, #[trigger] cs[j])
    &&& uleb_at(s, sibling_off(s, ab, asz, cs.len())) matches Ok((0, _))
}

/// The result `r`, with `k` added to the length it gives.
pub open spec fn shifted(r: Result<int, ParseError>, k: int) -> Result<int, ParseError> {
    match r {
        Ok(m) => Ok(m + k),
        Err(e) => Err(e),
    }
}

/// Finds the first declaration with the given code.
fn lookup_abbrev(ab: &Vec<AbbrevDecl>, code: u64) -> (r: Option<usize>)
    ensures
        match r {
            Some(i) => i == find_abbrev(ab@, code) && i < ab@.len(),
            None => find_abbrev(ab@, code) < 0,
        },
{
    let mut i: usize = 0;
    assert(ab@.subrange(0, ab@.len() as int) =~= ab@);
    while i < ab.len()
        invariant
            i <= ab@.len(),
            find_abbrev(ab@, code) == if find_abbrev(ab@.subrange(i as int, ab@.len() as int), code)
                < 0 {
                -1
            } else {
                i + find_abbrev(ab@.subrange(i as int, ab@.len() as int), code)
            },
        decreases ab@.len() - i,
    {
        let ghost rest = ab@.subrange(i as int, ab@.len() as int);
        assert(rest.drop_first() =~= ab@.subrange(i + 1, ab@.len() as int));
        if ab[i].abbrev_code == code {
            return Some(i);
        }
        i = i + 1;
    }
    assert(ab@.subrange(i as int, ab@.len() as int).len() == 0);
    None
}

impl DIE {
    /// Decodes the DIE at the start of `bytes`, with its children, against
    /// the abbreviation table `abbrev_decls` and with addresses of
    /// `address_size` bytes; says how many bytes it spans.
    pub fn from(bytes: &[u8], abbrev_decls: &Vec<AbbrevDecl>, address_size: u8) -> (r: Result<
        (DIE, usize),
        ParseError,
    >)
        ensures
            match r {
                Ok((d, n)) => {
                    &&& die_len(bytes@, abbrev_decls@, address_size) == Ok::<int, ParseError>(n as int)
                    &&& die_parsed(d, bytes@, abbrev_decls@, address_size)
                    &&& 0 < n <= bytes@.len()
                },
                Err(e) => die_len(bytes@, abbrev_decls@, address_size) == Err::<int, ParseError>(e),
            },
        decreases bytes@.len(), 0int,
    {
        let ghost s = bytes@;
        let ghost ab = abbrev_decls@;
        let len = bytes.len();
        let (code, n) = match read_uleb(bytes, 0) {
            Ok(x) => x,
            Err(e) => return Err(e),
        };
        let i = match lookup_abbrev(abbrev_decls, code) {
            Some(i) => i,
            None => return Err(ParseError::UnknownAbbrevCode(code)),
        };
        let decl = &abbrev_decls[i];
        let ghost specs = decl.attr_specs@;
        let mut offset = n;
        let mut attrs: Vec<DIEAttribute> = Vec::new();
        let mut k: usize = 0;
        while k < decl.attr_specs.len()
            invariant
                s == bytes@,
                ab == abbrev_decls@,
                len == s.len(),
                uleb_at(s, 0) == Ok::<(u64, usize), ParseError>((code, n)),
                find_abbrev(ab, code) == i,
                i < ab.len(),
                *decl == ab[i as int],
                specs == decl.attr_specs@,
                k <= specs.len(),
                0 < offset <= len,
                attrs_end(s, n as int, specs, address_size, k as nat) == Ok::<int, ParseError>(
                    offset as int,
                ),
                attrs@.len() == k,
                forall|j: int|
                    0 <= j < k ==> attr_decoded(s, n as int, specs, address_size, j, #[trigger] attrs@[j]),
            decreases specs.len() - k,
        {
            let spec = decl.attr_specs[k];
            let rest = slice_subrange(bytes, offset, len);
            let (value, size) = match AttrValue::from(rest, spec.form, address_size) {
                Ok(x) => x,
                Err(e) => {
                    assert(attrs_end(s, n as int, specs, address_size, specs.len()) == Err::<
                        int,
                        ParseError,
                    >(e)) by {
                        lemma_attrs_end_err(s, n as int, specs, address_size, (k + 1) as nat, specs.len());
                    }
                    return Err(e);
                },
            };
            let ghost old = attrs@;
            attrs.push(DIEAttribute { name: spec.name, value });
            proof {
                assert forall|j: int| 0 <= j < k + 1 implies attr_decoded(
                    s,
                    n as int,
                    specs,
                    address_size,
                    j,
                    #[trigger] attrs@[j],
                ) by {
                    if j < k {
                        assert(attrs@[j] == old[j]);
                    }
                }
            }
            offset = offset + size;
            k = k + 1;
        }
        let children = if decl.has_children {
            let rest = slice_subrange(bytes, offset, len);
            match DIE::nfrom(rest, abbrev_decls, address_size) {
                Ok((cs, size)) => {
                    offset = offset + size;
                    cs
                },
                Err(e) => return Err(e),
            }
        } else {
            Vec::new()
        };
        Ok((DIE { tag: decl.tag, attrs, children }, offset))
    }

    /// Decodes the sibling sequence at the start of `bytes`, up to and
    /// including its zero code; says how many bytes it spans.
    pub fn nfrom(bytes: &[u8], abbrev_decls: &Vec<AbbrevDecl>, address_size: u8) -> (r: Result<
        (Vec<DIE>, usize),
        ParseError,
    >)
        ensures
            match r {
                Ok((cs, n)) => {
                    &&& siblings_len(bytes@, abbrev_decls@, address_size) == Ok::<int, ParseError>(
                        n as int,
                    )
                    &&& children_parsed(cs@, bytes@, abbrev_decls@, address_size)
                    &&& 0 < n <= bytes@.len()
                    &&& n == sibling_off(bytes@, abbrev_decls@, address_size, cs@.len()) + uleb_at(
                        bytes@,
                        sibling_off(bytes@, abbrev_decls@, address_size, cs@.len()),
                    )->Ok_0.1
                },
                Err(e) => siblings_len(bytes@, abbrev_decls@, address_size) == Err::<int, ParseError>(
                    e,
                ),
            },
        decreases bytes@.len(), 1int,
    {
        let ghost s = bytes@;
        let ghost ab = abbrev_decls@;
        let len = bytes.len();
        let mut dies: Vec<DIE> = Vec::new();
        let mut offset: usize = 0;
        assert(s.subrange(0, len as int) =~= s);
        loop
            invariant
                s == bytes@,
                ab == abbrev_decls@,
                len == s.len(),
                offset <= len,
                offset == sibling_off(s, ab, address_size, dies@.len()),
                siblings_len(s, ab, address_size) == shifted(
                    siblings_len(s.subrange(offset as int, len as int), ab, address_size),
                    offset as int,
                ),
                forall|j: int|
                    0 <= j < dies@.len() ==> sibling_decoded(
                        s,
                        ab,
                        address_size,
                        j as nat,
                        #[trigger] dies@[j],
                    ),
            decreases len - offset,
        {
            let rest = slice_subrange(bytes, offset, len);
            proof {
                lemma_uleb_at_suffix(s, offset as int);
            }
            let (code, size) = match read_uleb(rest, 0) {
                Ok(x) => x,
                Err(e) => return Err(e),
            };
            if code == 0 {
                return Ok((dies, offset + size));
            }
            let (die, size) = match DIE::from(rest, abbrev_decls, address_size) {
                Ok(x) => x,
                Err(e) => return Err(e),
            };
            let ghost old = dies@;
            let ghost old_offset = offset;
            dies.push(die);
            offset = offset + size;
            proof {
                assert(rest@.subrange(size as int, rest@.len() as int) =~= s.subrange(
                    offset as int,
                    len as int,
                ));
                assert forall|j: int| 0 <= j < dies@.len() implies sibling_decoded(
                    s,
                    ab,
                    address_size,
                    j as nat,
                    #[trigger] dies@[j],
                ) by {
                    if j < old.len() {
                        assert(dies@[j] == old[j]);
                    } else {
                        assert(sibling_off(s, ab, address_size, j as nat) == old_offset);
                    }
                }
            }
        }
    }
}

/// The LEB128 number at `pos` of `s` is the one at the start of the suffix
/// from `pos` on.
proof fn lemma_uleb_at_suffix(s: Seq<u8>, pos: int)
    requires
        0 <= pos <= s.len(),
    ensures
        uleb_at(s.subrange(pos, s.len() as int), 0) == uleb_at(s, pos),
{
    reveal(uleb_at);
    let t = s.subrange(pos, s.len() as int);
    assert(t.subrange(0, t.len() as int) =~= t);
}

/// Once the attributes fail at some point, they fail there for good.
proof fn lemma_attrs_end_err(
    s: Seq<u8>,
    start: int,
    specs: Seq<AttrSpec>,
    asz: u8,
    k: nat,
    m: nat,
)
    requires
        k <= m,
        attrs_end(s, start, specs, asz, k) is Err,
    ensures
        attrs_end(s, start, specs, asz, m) == attrs_end(s, start, specs, asz, k),
    decreases m - k,
{
    if k < m {
        lemma_attrs_end_err(s, start, specs, asz, k, (m - 1) as nat);
    }
}

/// The size of a compile-unit header in the 32-bit DWARF format.
pub const CU_HEADER_SIZE: usize = 11;

/// The header of a compile unit (DWARF v4, 32-bit format).
#[derive(Clone, Copy, Debug, PartialEq, Eq, Structural)]
pub struct CUHeader {
    /// The length of the unit's contribution, not counting this field.
    pub unit_length: u32,
    /// The DWARF version of the unit.
    pub version: u16,
    /// The offset of the unit's abbreviations in `__debug_abbrev`.
    pub debug_abbrev_offset: u32,
    /// The size in bytes of a target address.
    pub address_size: u8,
}

impl CUHeader {
    /// The header fields at the start of `s`.
    pub open spec fn spec_from(s: Seq<u8>) -> CUHeader {
        CUHeader {
            unit_length: le32(s, 0) as u32,
            version: le16(s, 4) as u16,
            debug_abbrev_offset: le32(s, 6) as u32,
            address_size: s[10],
        }
    }

    /// Decodes the 11-byte header at the start of `bytes`.
    pub fn from(bytes: &[u8]) -> (r: Result<CUHeader, ParseError>)
        ensures
            r == if bytes@.len() >= CU_HEADER_SIZE {
                Ok(Self::spec_from(bytes@))
            } else {
                Err(ParseError::Truncated)
            },
    {
        if bytes.len() < CU_HEADER_SIZE {
            return Err(ParseError::Truncated);
        }
        Ok(CUHeader {
            unit_length: read_u32(bytes, 0).unwrap(),
            version: read_u16(bytes, 4).unwrap(),
            debug_abbrev_offset: read_u32(bytes, 6).unwrap(),
            address_size: bytes[10],
        })
    }
}

/// A decoded section of the `__DWARF` segment.
#[derive(Debug)]
pub enum Section {
    /// `__debug_info`: the header of its first compile unit and the DIE tree
    /// that follows it. Only that one unit is decoded.
    DebugInfo { header: CUHeader, dies: Vec<DIE> },
    /// `__debug_abbrev`: the abbreviation table.
    DebugAbbrev { abbrevs: Vec<AbbrevDecl> },
    /// Any other section: its name and its raw bytes. (The header of a
    /// `__debug_line` section can be read from them with
    /// `line::LineHeader::from`.)
    Unrecognized { name: String, contents: Vec<u8> },
}

/// The name of the section that holds the DIE trees.
pub open spec fn info_name() -> Seq<char> {
    "__debug_info"@
}

/// The name of the section that holds the abbreviation tables.
pub open spec fn abbrev_name() -> Seq<char> {
    "__debug_abbrev"@
}

/// The abbreviation table of the first decoded `__debug_abbrev` section
/// among `others`, if there is one.
pub open spec fn abbrev_table_in(others: Seq<Section>) -> Option<Seq<AbbrevDecl>>
    decreases others.len(),
{
    if others.len() == 0 {
        None
    } else if let Section::DebugAbbrev { abbrevs } = others[0] {
        Some(abbrevs@)
    } else {
        abbrev_table_in(others.drop_first())
    }
}

/// When `k` is the first decoded abbreviation table among `others`, it is
/// the one that `__debug_info` is read against.
pub proof fn lemma_abbrev_table_at(others: Seq<Section>, k: int)
    requires
        0 <= k < others.len(),
        others[k] is DebugAbbrev,
        forall|j: int| 0 <= j < k ==> !(#[trigger] others[j] is DebugAbbrev),
    ensures
        abbrev_table_in(others) == Some(others[k]->abbrevs@),
    decreases k,
{
    if k > 0 {
        lemma_abbrev_table_at(others.drop_first(), k - 1);
    }
}

/// Without a decoded abbreviation table among `others`, there is none to
/// read `__debug_info` against.
pub proof fn lemma_abbrev_table_none(others: Seq<Section>)
    requires
        forall|j: int| 0 <= j < others.len() ==> !(#[trigger] others[j] is DebugAbbrev),
    ensures
        abbrev_table_in(others) is None,
    decreases others.len(),
{
    if others.len() > 0 {
        lemma_abbrev_table_none(others.drop_first());
    }
}

/// Finds the first decoded abbreviation table among `others`.
fn find_abbrev_table(others: &Vec<Section>) -> (r: Option<&Vec<AbbrevDecl>>)
    ensures
        match r {
            Some(t) => abbrev_table_in(others@) == Some(t@),
            None => abbrev_table_in(others@) is None,
        },
{
    let mut i: usize = 0;
    assert(others@.subrange(0, others@.len() as int) =~= others@);
    while i < others.len()
        invariant
            i <= others@.len(),
            abbrev_table_in(others@) == abbrev_table_in(others@.subrange(i as int, others@.len() as int)),
        decreases others@.len() - i,
    {
        assert(others@.subrange(i as int, others@.len() as int).drop_first() =~= others@.subrange(
            i + 1,
            others@.len() as int,
        ));
        if let Section::DebugAbbrev { abbrevs } = &others[i] {
            return Some(abbrevs);
        }
        i = i + 1;
    }
    None
}

impl Section {
    /// What is wrong with section `name` holding `s`, if anything, when
    /// `table` is the abbreviation table decoded so far.
    pub open spec fn error_of(name: Seq<char>, s: Seq<u8>, table: Option<Seq<AbbrevDecl>>) -> Option<
        ParseError,
    > {
        if name == info_name() {
            if s.len() < CU_HEADER_SIZE {
                Some(ParseError::Truncated)
            } else if table is None {
                Some(ParseError::MissingAbbrevTable)
            } else {
                match die_len(
                    s.subrange(CU_HEADER_SIZE as int, s.len() as int),
                    table->Some_0,
                    s[10],
                ) {
                    Err(e) => Some(e),
                    Ok(_) => None,
                }
            }
        } else if name == abbrev_name() {
            match table_end(s, 0) {
                Err(e) => Some(e),
                Ok(_) => None,
            }
        } else {
            None
        }
    }

    /// Whether this section is the decoding of section `name` holding `s`,
    /// read against `table`.
    pub open spec fn parsed_from(self, name: Seq<char>, s: Seq<u8>, table: Option<Seq<AbbrevDecl>>) -> bool {
        match self {
            Section::DebugInfo { header, dies } => {
                &&& name == info_name()
                &&& header == CUHeader::spec_from(s)
                &&& dies@.len() == 1
                &&& die_parsed(
                    dies@[0],
                    s.subrange(CU_HEADER_SIZE as int, s.len() as int),
                    table->Some_0,
                    header.address_size,
                )
            },
            Section::DebugAbbrev { abbrevs } => name == abbrev_name() && table_parsed(abbrevs@, s),
            Section::Unrecognized { name: n, contents } => {
                &&& name != info_name() && name != abbrev_name()
                &&& n@ == name
                &&& contents@ == s
            },
        }
    }

    /// Decodes section `name` holding `bytes`. `__debug_info` is read against
    /// the first abbreviation table among `others`, which must be there;
    /// every section but these two is kept as its name and raw bytes.
    pub fn from(name: &str, bytes: &[u8], others: &Vec<Section>) -> (r: Result<Section, ParseError>)
        ensures
            match r {
                Ok(sec) => Self::error_of(name@, bytes@, abbrev_table_in(others@)) is None
                    && sec.parsed_from(name@, bytes@, abbrev_table_in(others@)),
                Err(e) => Self::error_of(name@, bytes@, abbrev_table_in(others@)) == Some(e),
            },
    {
        if is_named(name, "__debug_info") {
            let header = match CUHeader::from(bytes) {
                Ok(h) => h,
                Err(e) => return Err(e),
            };
            let abbrevs = match find_abbrev_table(others) {
                Some(t) => t,
                None => return Err(ParseError::MissingAbbrevTable),
            };
            let rest = slice_subrange(bytes, CU_HEADER_SIZE, bytes.len());
            let (die, _) = match DIE::from(rest, abbrevs, header.address_size) {
                Ok(x) => x,
                Err(e) => return Err(e),
            };
            let mut dies: Vec<DIE> = Vec::new();
            dies.push(die);
            Ok(Section::DebugInfo { header, dies })
        } else if is_named(name, "__debug_abbrev") {
            match AbbrevDecl::parse_table(bytes) {
                Ok(abbrevs) => Ok(Section::DebugAbbrev { abbrevs }),
                Err(e) => Err(e),
            }
        } else {
            Ok(Section::Unrecognized { name: name.to_owned(), contents: slice_to_vec(bytes) })
        }
    }
}

/// The typed sections of a `__DWARF` segment, one for each of its sections
/// and in the same order.
#[derive(Debug)]
pub struct File {
    pub sections: Vec<Section>,
}

/// The bytes of the image `s` that section `sec` covers, if they lie inside it.
pub open spec fn data_of(s: Seq<u8>, sec: Section64) -> Option<Seq<u8>> {
    if sec.offset + sec.size <= s.len() {
        Some(s.subrange(sec.offset as int, sec.offset + sec.size))
    } else {
        None
    }
}

/// The index of the first section named `__debug_abbrev`, or -1.
pub open spec fn abbrev_index(secs: Seq<Section64>) -> int
    decreases secs.len(),
{
    if secs.len() == 0 {
        -1
    } else if secs[0].sectname@ == abbrev_name() {
        0
    } else if abbrev_index(secs.drop_first()) < 0 {
        -1
    } else {
        abbrev_index(secs.drop_first()) + 1
    }
}

/// `abbrev_index` finds the first section named `__debug_abbrev`.
proof fn lemma_abbrev_index(secs: Seq<Section64>)
    ensures
        abbrev_index(secs) < secs.len(),
        abbrev_index(secs) >= 0 ==> secs[abbrev_index(secs)].sectname@ == abbrev_name(),
        forall|j: int|
            0 <= j < secs.len() && (abbrev_index(secs) < 0 || j < abbrev_index(secs))
                ==> (#[trigger] secs[j]).sectname@ != abbrev_name(),
    decreases secs.len(),
{
    if secs.len() > 0 {
        lemma_abbrev_index(secs.drop_first());
        assert forall|j: int|
            0 <= j < secs.len() && (abbrev_index(secs) < 0 || j < abbrev_index(secs)) implies (
            #[trigger] secs[j]).sectname@ != abbrev_name() by {
            if j > 0 {
                assert(secs[j] == secs.drop_first()[j - 1]);
            }
        }
    }
}

/// What is wrong with section `sec` of the image `s`, if anything, read
/// against `table`.
pub open spec fn section_error(s: Seq<u8>, sec: Section64, table: Option<Seq<AbbrevDecl>>) -> Option<
    ParseError,
> {
    match data_of(s, sec) {
        None => Some(ParseError::Truncated),
        Some(d) => Section::error_of(sec.sectname@, d, table),
    }
}

/// The failure of the first section from `i` on, other than `skip`, that
/// cannot be decoded against `table`.
pub open spec fn first_section_error(
    s: Seq<u8>,
    secs: Seq<Section64>,
    skip: int,
    table: Option<Seq<AbbrevDecl>>,
    i: nat,
) -> Option<ParseError>
    decreases secs.len() - i,
{
    if i >= secs.len() {
        None
    } else if i != skip && section_error(s, secs[i as int], table) is Some {
        section_error(s, secs[i as int], table)
    } else {
        first_section_error(s, secs, skip, table, i + 1)
    }
}

/// Whether `out` is the decoding of section `sec` of the image `s`, read
/// against `table`.
pub open spec fn section_decoded(
    s: Seq<u8>,
    sec: Section64,
    table: Option<Seq<AbbrevDecl>>,
    out: Section,
) -> bool {
    &&& data_of(s, sec) is Some
    &&& Section::error_of(sec.sectname@, data_of(s, sec)->Some_0, table) is None
    &&& out.parsed_from(sec.sectname@, data_of(s, sec)->Some_0, table)
}

/// Whether some section is named `__debug_info`.
pub open spec fn has_info(secs: Seq<Section64>) -> bool {
    exists|j: int| 0 <= j < secs.len() && (#[trigger] secs[j]).sectname@ == info_name()
}

/// The bytes that section `sec` covers, if they lie inside `bytes`.
fn section_data<'a>(bytes: &'a [u8], sec: &Section64) -> (r: Option<&'a [u8]>)
    ensures
        match r {
            Some(d) => data_of(bytes@, *sec) == Some(d@),
            None => data_of(bytes@, *sec) is None,
        },
{
    let len = bytes.len() as u64;
    let off = sec.offset as u64;
    if off > len || sec.size > len - off {
        None
    } else {
        Some(slice_subrange(bytes, off as usize, (off + sec.size) as usize))
    }
}

/// Finds the first section named `__debug_abbrev`.
fn find_abbrev_section(secs: &Vec<Section64>) -> (r: Option<usize>)
    ensures
        match r {
            Some(i) => i == abbrev_index(secs@) && i < secs@.len(),
            None => abbrev_index(secs@) < 0,
        },
{
    let mut i: usize = 0;
    assert(secs@.subrange(0, secs@.len() as int) =~= secs@);
    while i < secs.len()
        invariant
            i <= secs@.len(),
            abbrev_index(secs@) == if abbrev_index(secs@.subrange(i as int, secs@.len() as int)) < 0 {
                -1
            } else {
                i + abbrev_index(secs@.subrange(i as int, secs@.len() as int))
            },
        decreases secs@.len() - i,
    {
        assert(secs@.subrange(i as int, secs@.len() as int).drop_first() =~= secs@.subrange(
            i + 1,
            secs@.len() as int,
        ));
        if is_named(secs[i].sectname.as_str(), "__debug_abbrev") {
            return Some(i);
        }
        i = i + 1;
    }
    assert(secs@.subrange(i as int, secs@.len() as int).len() == 0);
    None
}

/// Whether some section is named `__debug_info`.
fn find_info_section(secs: &Vec<Section64>) -> (r: bool)
    ensures
        r == has_info(secs@),
{
    let mut i: usize = 0;
    while i < secs.len()
        invariant
            i <= secs@.len(),
            forall|j: int| 0 <= j < i ==> (#[trigger] secs@[j]).sectname@ != info_name(),
        decreases secs@.len() - i,
    {
        if is_named(secs[i].sectname.as_str(), "__debug_info") {
            return true;
        }
        i = i + 1;
    }
    false
}

impl File {
    /// Decodes the sections of a `__DWARF` segment from the image `bytes`.
    ///
    /// `__debug_abbrev` is decoded first, wherever it stands, and every
    /// section is then decoded in segment order against its table; the result
    /// holds one section for each of the segment's, in the same order. A
    /// failure is that of the abbreviation section, or else that of the first
    /// other section in segment order, read against the table that the
    /// abbreviation section decodes to.
    pub fn from(segment: Segment64, bytes: &[u8]) -> (r: Result<File, ParseError>)
        ensures
            ({
                let secs = segment.sections@;
                let ai = abbrev_index(secs);
                match r {
                    Ok(f) => {
                        let table = if ai >= 0 {
                            Some(f.sections@[ai]->abbrevs@)
                        } else {
                            None::<Seq<AbbrevDecl>>
                        };
                        &&& f.sections@.len() == secs.len()
                        &&& ai >= 0 ==> f.sections@[ai] is DebugAbbrev
                        &&& ai < 0 ==> !has_info(secs)
                        &&& forall|k: int|
                            0 <= k < secs.len() ==> section_decoded(
                                bytes@,
                                secs[k],
                                table,
                                #[trigger] f.sections@[k],
                            )
                    },
                    Err(e) => if ai < 0 {
                        if has_info(secs) {
                            e == ParseError::MissingAbbrevTable
                        } else {
                            first_section_error(bytes@, secs, -1, None, 0) == Some(e)
                        }
                    } else if section_error(bytes@, secs[ai], None) is Some {
                        section_error(bytes@, secs[ai], None) == Some(e)
                    } else {
                        exists|t: Seq<AbbrevDecl>|
                            table_parsed(t, data_of(bytes@, secs[ai])->Some_0)
                                && #[trigger] first_section_error(bytes@, secs, ai, Some(t), 0)
                                == Some(e)
                    },
                }
            }),
    {
        proof {
            reveal_strlit("__debug_info");
            reveal_strlit("__debug_abbrev");
        }
        let ghost s = bytes@;
        let secs = &segment.sections;
        let n = secs.len();
        let mut sections: Vec<Section> = Vec::new();
        let mut k: usize = 0;
        while k < n
            invariant
                n == secs@.len(),
                k <= n,
                sections@.len() == k,
                forall|j: int| 0 <= j < k ==> (#[trigger] sections@[j]) is Unrecognized,
            decreases n - k,
        {
            sections.push(
                Section::Unrecognized { name: secs[k].sectname.clone(), contents: Vec::new() },
            );
            k = k + 1;
        }
        let ai = find_abbrev_section(secs);
        proof {
            lemma_abbrev_index(secs@);
            lemma_abbrev_table_none(sections@);
            assert(abbrev_name() != info_name()) by {
                assert(abbrev_name().len() != info_name().len());
            }
        }
        let ghost table: Option<Seq<AbbrevDecl>> = None;
        let ghost skip: int = -1;
        match ai {
            Some(a) => {
                let data = match section_data(bytes, &secs[a]) {
                    Some(d) => d,
                    None => return Err(ParseError::Truncated),
                };
                let parsed = match Section::from(secs[a].sectname.as_str(), data, &sections) {
                    Ok(x) => x,
                    Err(e) => return Err(e),
                };
                proof {
                    table = Some(parsed->abbrevs@);
                    skip = a as int;
                }
                sections.set(a, parsed);
            },
            None => {
                if find_info_section(secs) {
                    return Err(ParseError::MissingAbbrevTable);
                }
            },
        }
        let mut i: usize = 0;
        while i < n
            invariant
                s == bytes@,
                n == secs@.len(),
                *secs == segment.sections,
                i <= n,
                sections@.len() == n,
                skip == abbrev_index(secs@),
                match ai {
                    Some(a) => skip == a,
                    None => skip == -1,
                },
                skip < 0 ==> !has_info(secs@) && table is None,
                skip >= 0 ==> {
                    &&& skip < n
                    &&& sections@[skip] is DebugAbbrev
                    &&& table == Some(sections@[skip]->abbrevs@)
                    &&& section_decoded(s, secs@[skip], table, sections@[skip])
                    &&& section_error(s, secs@[skip], None) is None
                    &&& table_parsed(table->Some_0, data_of(s, secs@[skip])->Some_0)
                },
                abbrev_name() != info_name(),
                forall|j: int|
                    0 <= j < n && j != skip && !(0 <= j < i) ==> (#[trigger] sections@[j]) is Unrecognized,
                forall|j: int|
                    0 <= j < n && j != skip ==> (#[trigger] secs@[j]).sectname@ != abbrev_name() || (
                    skip >= 0 && j > skip),
                forall|j: int| 0 <= j < skip ==> !(#[trigger] sections@[j] is DebugAbbrev),
                forall|j: int|
                    0 <= j < i && j != skip ==> section_decoded(s, secs@[j], table, #[trigger] sections@[j]),
                first_section_error(s, secs@, skip, table, 0) == first_section_error(
                    s,
                    secs@,
                    skip,
                    table,
                    i as nat,
                ),
            decreases n - i,
        {
            let is_table = match ai {
                Some(a) => a == i,
                None => false,
            };
            if !is_table {
                proof {
                    if skip >= 0 {
                        lemma_abbrev_table_at(sections@, skip);
                    } else {
                        lemma_abbrev_table_none(sections@);
                    }
                }
                let data = match section_data(bytes, &secs[i]) {
                    Some(d) => d,
                    None => {
                        assert(first_section_error(s, secs@, skip, table, i as nat) == Some(
                            ParseError::Truncated,
                        ));
                        return Err(ParseError::Truncated);
                    },
                };
                let parsed = match Section::from(secs[i].sectname.as_str(), data, &sections) {
                    Ok(x) => x,
                    Err(e) => {
                        assert(first_section_error(s, secs@, skip, table, i as nat) == Some(e));
                        return Err(e);
                    },
                };
                let ghost old = sections@;
                sections.set(i, parsed);
                proof {
                    assert forall|j: int| 0 <= j < i + 1 && j != skip implies section_decoded(
                        s,
                        secs@[j],
                        table,
                        #[trigger] sections@[j],
                    ) by {
                        if j < i {
                            assert(sections@[j] == old[j]);
                        }
                    }
                }
            }
            i = i + 1;
        }
        Ok(File { sections })
    }
}

/// `find_abbrev` gives an index of `ab`, or -1.
proof fn lemma_find_abbrev_bound(ab: Seq<AbbrevDecl>, code: u64)
    ensures
        find_abbrev(ab, code) < ab.len(),
    decreases ab.len(),
{
    if ab.len() > 0 {
        lemma_find_abbrev_bound(ab.drop_first(), code);
    }
}

/// A found index holds a declaration with the code looked for.
proof fn lemma_find_abbrev_found(ab: Seq<AbbrevDecl>, code: u64)
    ensures
        find_abbrev(ab, code) >= 0 ==> ab[find_abbrev(ab, code)].abbrev_code == code,
    decreases ab.len(),
{
    if ab.len() > 0 && ab[0].abbrev_code != code {
        let rest = ab.drop_first();
        lemma_find_abbrev_found(rest, code);
        lemma_find_abbrev_bound(rest, code);
        if find_abbrev(rest, code) >= 0 {
            assert(ab[find_abbrev(ab, code)] == rest[find_abbrev(rest, code)]);
        }
    }
}

/// A decoded DIE has exactly one attribute for each specification of the
/// abbreviation that its code names.
pub proof fn lemma_die_attrs_complete(d: DIE, s: Seq<u8>, ab: Seq<AbbrevDecl>, asz: u8)
    requires
        die_len(s, ab, asz) is Ok,
        die_parsed(d, s, ab, asz),
    ensures
        ({
            let i = find_abbrev(ab, uleb_at(s, 0)->Ok_0.0);
            &&& 0 <= i < ab.len()
            &&& d.attrs@.len() == ab[i].attr_specs@.len()
        }),
{
    lemma_find_abbrev_bound(ab, uleb_at(s, 0)->Ok_0.0);
}

/// An attribute number that no named attribute has is kept as
/// `Unrecognized` with that number: it is the one value that `AttrName::from`
/// may return for it. Reading it does not fail, since the length of a
/// declaration does not depend on its names.
pub proof fn lemma_unknown_name_kept(a: AttrName, n: u64)
    requires
        a.wf(),
        a.code() == n,
        forall|b: AttrName| #[trigger] b.code() == n ==> b is Unrecognized,
    ensures
        a == AttrName::Unrecognized(n),
{
}

/// Distinct tags have distinct numbers: `DIETag::from` names one tag.
pub proof fn lemma_tag_code_injective(a: DIETag, b: DIETag)
    requires
        a.wf(),
        b.wf(),
        a.code() == b.code(),
    ensures
        a == b,
{
}

/// Distinct names have distinct numbers: `AttrName::from` names one value.
pub proof fn lemma_name_code_injective(a: AttrName, b: AttrName)
    requires
        a.wf(),
        b.wf(),
        a.code() == b.code(),
    ensures
        a == b,
{
}

/// Distinct forms have distinct numbers: `AttrForm::from` names one value.
pub proof fn lemma_form_code_injective(a: AttrForm, b: AttrForm)
    requires
        a.wf(),
        b.wf(),
        a.code() == b.code(),
    ensures
        a == b,
{
}

/// When a sibling sequence decodes, the part of it from sibling `j` on does
/// too, provided the codes of the siblings before `j` are nonzero: the
/// sequence's length is the offset of sibling `j` plus the length of the rest.
pub proof fn lemma_sibling_suffix(s: Seq<u8>, ab: Seq<AbbrevDecl>, asz: u8, j: nat)
    requires
        siblings_len(s, ab, asz) is Ok,
        forall|i: int| 0 <= i < j ==> uleb_at(s, #[trigger] sibling_off(s, ab, asz, i as nat))->Ok_0.0 != 0,
    ensures
        0 <= sibling_off(s, ab, asz, j) <= s.len(),
        siblings_len(s, ab, asz) == shifted(
            siblings_len(s.subrange(sibling_off(s, ab, asz, j), s.len() as int), ab, asz),
            sibling_off(s, ab, asz, j),
        ),
    decreases j,
{
    if j == 0 {
        assert(s.subrange(0, s.len() as int) =~= s);
    } else {
        let k = (j - 1) as nat;
        lemma_sibling_suffix(s, ab, asz, k);
        let p = sibling_off(s, ab, asz, k);
        let t = s.subrange(p, s.len() as int);
        lemma_uleb_at_suffix(s, p);
        assert(uleb_at(s, sibling_off(s, ab, asz, k))->Ok_0.0 != 0);
        let q = die_len(t, ab, asz)->Ok_0;
        assert(t.subrange(q, t.len() as int) =~= s.subrange(p + q, s.len() as int));
    }
}

/// A decoded sibling sequence ends exactly at its first zero code, which it
/// consumes: sibling `j` is a DIE whose decoding spans the bytes up to sibling
/// `j + 1`, and the sequence's length is the offset of the zero code plus the
/// code's own length.
pub proof fn lemma_siblings_structure(cs: Seq<DIE>, s: Seq<u8>, ab: Seq<AbbrevDecl>, asz: u8)
    requires
        siblings_len(s, ab, asz) is Ok,
        children_parsed(cs, s, ab, asz),
    ensures
        forall|j: int|
            0 <= j < cs.len() ==> {
                let o = #[trigger] sibling_off(s, ab, asz, j as nat);
                let o2 = sibling_off(s, ab, asz, (j + 1) as nat);
                &&& o < o2
                &&& die_len(s.subrange(o, s.len() as int), ab, asz) == Ok::<int, ParseError>(o2 - o)
                &&& uleb_at(s, o)->Ok_0.0 != 0
                &&& die_parsed(cs[j], s.subrange(o, s.len() as int), ab, asz)
            },
        uleb_at(s, sibling_off(s, ab, asz, cs.len())) matches Ok((0, _)),
        siblings_len(s, ab, asz) == Ok::<int, ParseError>(
            sibling_off(s, ab, asz, cs.len()) + uleb_at(s, sibling_off(s, ab, asz, cs.len()))->Ok_0.1,
        ),
{
    assert forall|i: int| 0 <= i < cs.len() implies uleb_at(
        s,
        #[trigger] sibling_off(s, ab, asz, i as nat),
    )->Ok_0.0 != 0 by {
        assert(sibling_decoded(s, ab, asz, i as nat, cs[i]));
    }
    assert forall|j: int| 0 <= j < cs.len() implies {
        let o = #[trigger] sibling_off(s, ab, asz, j as nat);
        let o2 = sibling_off(s, ab, asz, (j + 1) as nat);
        &&& o < o2
        &&& die_len(s.subrange(o, s.len() as int), ab, asz) == Ok::<int, ParseError>(o2 - o)
        &&& uleb_at(s, o)->Ok_0.0 != 0
        &&& die_parsed(cs[j], s.subrange(o, s.len() as int), ab, asz)
    } by {
        assert(sibling_decoded(s, ab, asz, j as nat, cs[j]));
        lemma_sibling_suffix(s, ab, asz, j as nat);
        let o = sibling_off(s, ab, asz, j as nat);
        lemma_uleb_at_suffix(s, o);
        assert(uleb_at(s, sibling_off(s, ab, asz, j as nat))->Ok_0.0 != 0);
    }
    let n = sibling_off(s, ab, asz, cs.len());
    lemma_sibling_suffix(s, ab, asz, cs.len());
    lemma_uleb_at_suffix(s, n);
}

/// Whether `d` has the tag of `decl`, one attribute for each of its
/// specifications, with the same names in the same order, and no children
/// unless `decl` allows them.
pub open spec fn decl_matches(d: DIE, decl: AbbrevDecl) -> bool {
    &&& d.tag == decl.tag
    &&& d.attrs@.len() == decl.attr_specs@.len()
    &&& forall|k: int|
        0 <= k < d.attrs@.len() ==> (#[trigger] d.attrs@[k]).name == decl.attr_specs@[k].name
    &&& !decl.has_children ==> d.children@.len() == 0
}

/// Whether `d` and every DIE below it match a declaration of `ab` that is
/// the first one with its code.
pub open spec fn die_tree_complete(d: DIE, ab: Seq<AbbrevDecl>) -> bool
    decreases d,
{
    &&& exists|i: int|
        0 <= i < ab.len() && i == find_abbrev(ab, ab[i].abbrev_code) && #[trigger] decl_matches(
            d,
            ab[i],
        )
    &&& forall|j: int| 0 <= j < d.children@.len() ==> die_tree_complete(#[trigger] d.children@[j], ab)
}

/// Every DIE of a decoded tree, the root and all below it, has the tag of the
/// first declaration with its code and one attribute for each of that
/// declaration's specifications, named as they are.
pub proof fn lemma_die_tree_complete(d: DIE, s: Seq<u8>, ab: Seq<AbbrevDecl>, asz: u8)
    requires
        die_len(s, ab, asz) is Ok,
        die_parsed(d, s, ab, asz),
    ensures
        die_tree_complete(d, ab),
    decreases d,
{
    let (code, n) = uleb_at(s, 0)->Ok_0;
    let i = find_abbrev(ab, code);
    lemma_find_abbrev_bound(ab, code);
    let decl = ab[i];
    let specs = decl.attr_specs@;
    lemma_find_abbrev_found(ab, code);
    assert forall|k: int| 0 <= k < d.attrs@.len() implies (#[trigger] d.attrs@[k]).name
        == decl.attr_specs@[k].name by {
        assert(attr_decoded(s, n as int, specs, asz, k, d.attrs@[k]));
    }
    assert(decl_matches(d, ab[i]));
    if decl.has_children {
        let p = attrs_end(s, n as int, specs, asz, specs.len())->Ok_0;
        let c = s.subrange(p, s.len() as int);
        let cs = d.children@;
        assert(children_parsed(cs, c, ab, asz));
        lemma_siblings_structure(cs, c, ab, asz);
        assert forall|j: int| 0 <= j < cs.len() implies die_tree_complete(#[trigger] cs[j], ab) by {
            let o = sibling_off(c, ab, asz, j as nat);
            assert(sibling_decoded(c, ab, asz, j as nat, cs[j]));
            assert(die_len(c.subrange(o, c.len() as int), ab, asz) is Ok);
            lemma_die_tree_complete(cs[j], c.subrange(o, c.len() as int), ab, asz);
        }
    }
}

} // verus!
