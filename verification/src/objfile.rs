//! Executable files as `goblin` parses them: the kind of object, a PE
//! file's section table, entry point, import count and TLS directory, and
//! its .NET (CLR) header; the errors the analyses give for bytes that are no
//! executable or no PE file.
use vstd::prelude::*;
use goblin::Object;
use sha2::Digest;
use crate::binfmt::{clr_lines, clr_report, imphash, imphash_part, imphash_part_spec, imphash_spec, ClrFacts};
use crate::peres::{leaves_view, resource_leaves, resource_leaves_spec, LeafView, ResourceLeaf};
use crate::classic::join;
use crate::error::CoreError;
use crate::binfmt::{holds_rva, section_of, SectionSpan};
use crate::packer::{packer_hints, packer_report_spec, PackerReport, SectionFacts};
use crate::peres::{hex_lower, push_hex_lower};
use crate::text::{chars_of, decimal, push_decimal, push_str, string_from_chars};
use crate::ziplist::{pad_left, pad_right, push_padded_right, push_spaces, spaces};
use crate::binfmt::{
    elf_type, elf_type_spec, mach_arch, mach_arch_spec, pe_machine, pe_machine_spec, pe_perms, pe_perms_spec,
    pe_subsystem, pe_subsystem_spec,
};
use vstd::string::StringExecFns;

verus! {

/// What kind of object `goblin::Object::parse` finds in bytes.
pub enum ObjectKind {
    /// The parse failed, with the error's text.
    Failed(String),
    /// No known format; the magic number read.
    Unknown(u64),
    Pe,
    Elf,
    Mach,
    /// A Unix (`ar`) archive.
    Archive,
    /// Another format (COFF, TE).
    Other,
}

/// The view of an object kind: a tag (0 failed, 1 unknown, 2 PE, 3 ELF,
/// 4 Mach-O, 5 archive, 6 other), the error's text and the magic number.
pub open spec fn kind_view(k: ObjectKind) -> (u8, Seq<char>, u64) {
    match k {
        ObjectKind::Failed(s) => (0, s@, 0),
        ObjectKind::Unknown(m) => (1, Seq::empty(), m),
        ObjectKind::Pe => (2, Seq::empty(), 0),
        ObjectKind::Elf => (3, Seq::empty(), 0),
        ObjectKind::Mach => (4, Seq::empty(), 0),
        ObjectKind::Archive => (5, Seq::empty(), 0),
        ObjectKind::Other => (6, Seq::empty(), 0),
    }
}

/// What `goblin::Object::parse` finds in the bytes (see `kind_view`).
pub uninterp spec fn goblin_kind(d: Seq<u8>) -> (u8, Seq<char>, u64);

/// `goblin::Object::parse`, reduced to the kind of object found; a
/// function of the bytes alone.
#[verifier::external_body]
pub(crate) fn object_kind(data: &[u8]) -> (r: ObjectKind)
    ensures
        kind_view(r) == goblin_kind(data@),
{
    match Object::parse(data) {
        Err(e) => ObjectKind::Failed(e.to_string()),
        Ok(Object::Unknown(m)) => ObjectKind::Unknown(m),
        Ok(Object::PE(_)) => ObjectKind::Pe,
        Ok(Object::Elf(_)) => ObjectKind::Elf,
        Ok(Object::Mach(_)) => ObjectKind::Mach,
        Ok(Object::Archive(_)) => ObjectKind::Archive,
        Ok(_) => ObjectKind::Other,
    }
}

/// A PE section header as goblin reads it.
pub struct SectionRow {
    /// The section's name, where it reads as UTF-8.
    pub name: Option<String>,
    pub characteristics: u32,
    pub pointer_to_raw_data: u32,
    pub size_of_raw_data: u32,
    pub virtual_size: u32,
    pub virtual_address: u32,
}

/// The view of a section header.
pub type SectionRowView = (Option<Seq<char>>, u32, u32, u32, u32, u32);

pub open spec fn row_view(r: SectionRow) -> SectionRowView {
    (
        match r.name {
            Some(n) => Some(n@),
            None => None,
        },
        r.characteristics,
        r.pointer_to_raw_data,
        r.size_of_raw_data,
        r.virtual_size,
        r.virtual_address,
    )
}

pub open spec fn rows_view(v: Seq<SectionRow>) -> Seq<SectionRowView> {
    v.map_values(|r: SectionRow| row_view(r))
}

/// The section table of the PE file in the bytes, as goblin reads it.
pub uninterp spec fn goblin_pe_sections(d: Seq<u8>) -> Seq<SectionRowView>;

/// The section headers of a PE file (`PE::sections`); a PE header counts
/// its sections in 16 bits.
#[verifier::external_body]
fn pe_section_rows(data: &[u8]) -> (r: Vec<SectionRow>)
    requires
        goblin_kind(data@).0 == 2,
    ensures
        rows_view(r@) == goblin_pe_sections(data@),
        r@.len() <= 0xffff,
{
    let Ok(Object::PE(pe)) = Object::parse(data) else { return Vec::new() };
    pe.sections.iter().map(|s| SectionRow {
        name: s.name().ok().map(|n| n.to_string()),
        characteristics: s.characteristics,
        pointer_to_raw_data: s.pointer_to_raw_data,
        size_of_raw_data: s.size_of_raw_data,
        virtual_size: s.virtual_size,
        virtual_address: s.virtual_address,
    }).collect()
}

/// The entry point, the number of imports and whether there is a TLS
/// directory, of the PE file in the bytes, as goblin reads them.
pub uninterp spec fn goblin_pe_misc(d: Seq<u8>) -> (u32, nat, bool);

/// `PE::entry`, the length of `PE::imports`, and whether `PE::tls_data` is
/// there.
#[verifier::external_body]
fn pe_misc(data: &[u8]) -> (r: (u32, usize, bool))
    requires
        goblin_kind(data@).0 == 2,
    ensures
        (r.0, r.1 as nat, r.2) == goblin_pe_misc(data@),
{
    match Object::parse(data) {
        Ok(Object::PE(pe)) => (pe.entry, pe.imports.len(), pe.tls_data.is_some()),
        _ => (0, 0, false),
    }
}

/// The CLR header of the PE file in the bytes, as goblin reads it: runtime
/// version, flags, entry point, metadata version, signature validity.
pub uninterp spec fn goblin_clr_header(d: Seq<u8>) -> Option<(u16, u16, u32, u32, Seq<char>, bool)>;

/// The view of a CLR header.
pub open spec fn clr_header_view(h: Option<(u16, u16, u32, u32, String, bool)>) -> Option<
    (u16, u16, u32, u32, Seq<char>, bool),
> {
    match h {
        Some(x) => Some((x.0, x.1, x.2, x.3, x.4@, x.5)),
        None => None,
    }
}

/// `PE::clr_data`: the COR20 header's runtime version, flags and entry
/// point, the metadata version and `is_valid`; `None` for a file without
/// one.
#[verifier::external_body]
fn pe_clr_header(data: &[u8]) -> (r: Option<(u16, u16, u32, u32, String, bool)>)
    requires
        goblin_kind(data@).0 == 2,
    ensures
        clr_header_view(r) == goblin_clr_header(data@),
{
    let Ok(Object::PE(pe)) = Object::parse(data) else { return None };
    pe.clr_data.as_ref().map(|c| {
        let h = &c.cor20_header;
        (h.major_runtime_version, h.minor_runtime_version, h.flags, h.entry_point_token_or_rva,
            c.metadata_header.version.to_string(), c.is_valid())
    })
}

/// The metadata streams (each its name, or the text of the error reading
/// it) and the MVID of the CLR data of the PE file in the bytes.
pub uninterp spec fn goblin_clr_streams(d: Seq<u8>) -> (Seq<Result<Seq<char>, Seq<char>>>, Option<Seq<u8>>);

/// The view of the streams and MVID.
pub open spec fn streams_view(r: (Vec<Result<String, String>>, Option<Vec<u8>>)) -> (
    Seq<Result<Seq<char>, Seq<char>>>,
    Option<Seq<u8>>,
) {
    (
        r.0@.map_values(
            |x: Result<String, String>|
                match x {
                    Ok(s) => Ok(s@),
                    Err(s) => Err(s@),
                },
        ),
        match r.1 {
            Some(m) => Some(m@),
            None => None,
        },
    )
}

/// `ClrData::sections` (each stream's name, or its error's text) and
/// `ClrData::mvid` (`None` where it is missing or cannot be read).
#[verifier::external_body]
fn pe_clr_streams(data: &[u8]) -> (r: (Vec<Result<String, String>>, Option<Vec<u8>>))
    requires
        goblin_kind(data@).0 == 2,
    ensures
        streams_view(r) == goblin_clr_streams(data@),
{
    let Ok(Object::PE(pe)) = Object::parse(data) else { return (Vec::new(), None) };
    let Some(c) = pe.clr_data.as_ref() else { return (Vec::new(), None) };
    (
        c.sections().map(|s| s.map(|x| x.name.to_string()).map_err(|e| e.to_string())).collect(),
        c.mvid().ok().flatten().map(|m| m.to_vec()),
    )
}

/// The error of an analysis that needs a PE file, for bytes of kind `k`:
/// whether it is `Unsupported` (else `Parse`) and its message; none for a
/// PE file.
pub open spec fn pe_kind_error(k: (u8, Seq<char>, u64)) -> Option<(bool, Seq<char>)> {
    if k.0 == 0 {
        Some((false, "无法解析为可执行文件: "@ + k.1))
    } else if k.0 == 1 {
        Some((true, "未知格式（幻数 0x"@ + hex_lower(k.2 as nat) + "）——不是 ELF / PE / Mach-O"@))
    } else if k.0 == 2 {
        None
    } else {
        Some((true, "该节点仅支持 PE 文件"@))
    }
}

/// Whether an error is the one that `pe_kind_error` describes.
pub open spec fn is_kind_error(e: CoreError, x: (bool, Seq<char>)) -> bool {
    if x.0 {
        e matches CoreError::Unsupported(m) && m@ == x.1
    } else {
        e.is_parse_with(x.1)
    }
}

/// The error for bytes that hold no PE file.
pub(crate) fn kind_error(k: &ObjectKind) -> (e: CoreError)
    requires
        !(k is Pe),
    ensures
        pe_kind_error(kind_view(*k)) matches Some(x) && is_kind_error(e, x),
{
    match k {
        ObjectKind::Failed(m) => {
            let mut s = String::new();
            push_str(&mut s, "无法解析为可执行文件: ");
            push_str(&mut s, m.as_str());
            CoreError::Parse(s)
        },
        ObjectKind::Unknown(magic) => {
            let mut s = String::new();
            push_str(&mut s, "未知格式（幻数 0x");
            push_hex_lower(&mut s, *magic);
            push_str(&mut s, "）——不是 ELF / PE / Mach-O");
            CoreError::Unsupported(s)
        },
        _ => CoreError::Unsupported(String::from_str("该节点仅支持 PE 文件")),
    }
}

/// `s` without trailing NUL characters.
pub open spec fn trim_nul_end(s: Seq<char>) -> Seq<char>
    decreases s.len(),
{
    if s.len() > 0 && s.last() == '\0' {
        trim_nul_end(s.drop_last())
    } else {
        s
    }
}

/// A section's name: the name goblin reads (none where it is no UTF-8)
/// without trailing NULs.
pub open spec fn section_name(n: Option<Seq<char>>) -> Seq<char> {
    match n {
        Some(x) => trim_nul_end(x),
        None => Seq::empty(),
    }
}

/// A PE section as the analyses use it.
pub struct PeSection {
    pub name: String,
    pub characteristics: u32,
    pub pointer_to_raw_data: u32,
    pub size_of_raw_data: u32,
    pub virtual_size: u32,
    pub virtual_address: u32,
}

/// Whether a section is the one a section header describes.
pub open spec fn section_from_row(s: PeSection, r: SectionRowView) -> bool {
    &&& s.name@ == section_name(r.0)
    &&& s.characteristics == r.1
    &&& s.pointer_to_raw_data == r.2
    &&& s.size_of_raw_data == r.3
    &&& s.virtual_size == r.4
    &&& s.virtual_address == r.5
}

/// The layout of a PE file: its sections, entry point, number of imports
/// and whether it has a TLS directory.
pub struct PeLayout {
    pub sections: Vec<PeSection>,
    pub entry: u32,
    pub import_count: usize,
    pub has_tls: bool,
}

/// Whether a layout is the one goblin reads from the bytes.
pub open spec fn layout_of(l: PeLayout, d: Seq<u8>) -> bool {
    let rows = goblin_pe_sections(d);
    &&& l.sections@.len() == rows.len()
    &&& forall|j: int| 0 <= j < rows.len() ==> section_from_row(#[trigger] l.sections@[j], rows[j])
    &&& (l.entry, l.import_count as nat, l.has_tls) == goblin_pe_misc(d)
}

fn trimmed_name(n: &Option<String>) -> (s: String)
    ensures
        s@ == section_name(match n {
            Some(x) => Some(x@),
            None => None,
        }),
{
    match n {
        Some(x) => {
            let mut cs = chars_of(x.as_str());
            let mut k = cs.len();
            assert(cs@.take(k as int) =~= cs@);
            while k > 0 && cs[k - 1] == '\0'
                invariant
                    k <= cs.len(),
                    trim_nul_end(cs@.take(k as int)) == trim_nul_end(x@),
                    cs@ == x@,
                decreases k,
            {
                assert(cs@.take(k as int).drop_last() =~= cs@.take(k - 1));
                k -= 1;
            }
            cs.truncate(k);
            assert(trim_nul_end(cs@) == cs@);
            string_from_chars(&cs)
        },
        None => String::new(),
    }
}

/// The layout of the PE file in `data`; bytes that are no executable, or
/// no PE file, give the error `pe_kind_error` describes.
pub fn pe_layout(data: &[u8]) -> (r: Result<PeLayout, CoreError>)
    ensures
        match (r, pe_kind_error(goblin_kind(data@))) {
            (Ok(l), None) => layout_of(l, data@),
            (Err(e), Some(x)) => is_kind_error(e, x),
            _ => false,
        },
        r matches Ok(l) ==> l.sections@.len() <= 0xffff,
{
    let k = object_kind(data);
    if !matches!(k, ObjectKind::Pe) {
        return Err(kind_error(&k));
    }
    let rows = pe_section_rows(data);
    let (entry, import_count, has_tls) = pe_misc(data);
    let mut sections: Vec<PeSection> = Vec::new();
    let mut i: usize = 0;
    while i < rows.len()
        invariant
            i <= rows.len() <= 0xffff,
            rows_view(rows@) == goblin_pe_sections(data@),
            sections@.len() == i,
            forall|j: int| 0 <= j < i ==> section_from_row(#[trigger] sections@[j], rows_view(rows@)[j]),
        decreases rows.len() - i,
    {
        let r = &rows[i];
        let s = PeSection {
            name: trimmed_name(&r.name),
            characteristics: r.characteristics,
            pointer_to_raw_data: r.pointer_to_raw_data,
            size_of_raw_data: r.size_of_raw_data,
            virtual_size: r.virtual_size,
            virtual_address: r.virtual_address,
        };
        sections.push(s);
        i += 1;
    }
    Ok(PeLayout { sections, entry, import_count, has_tls })
}

/// The placements of a layout's sections.
pub open spec fn spans_of(s: Seq<PeSection>) -> Seq<SectionSpan> {
    s.map_values(
        |x: PeSection|
            SectionSpan {
                virtual_address: x.virtual_address,
                virtual_size: x.virtual_size,
                size_of_raw_data: x.size_of_raw_data,
                pointer_to_raw_data: x.pointer_to_raw_data,
            },
    )
}

/// The placements of a layout's sections.
pub fn section_spans(s: &Vec<PeSection>) -> (r: Vec<SectionSpan>)
    ensures
        r@ == spans_of(s@),
{
    let mut r: Vec<SectionSpan> = Vec::new();
    let mut i: usize = 0;
    while i < s.len()
        invariant
            i <= s.len(),
            r@ == spans_of(s@.take(i as int)),
        decreases s.len() - i,
    {
        let x = &s[i];
        r.push(SectionSpan {
            virtual_address: x.virtual_address,
            virtual_size: x.virtual_size,
            size_of_raw_data: x.size_of_raw_data,
            pointer_to_raw_data: x.pointer_to_raw_data,
        });
        assert(spans_of(s@.take(i + 1)) =~= spans_of(s@.take(i as int)).push(r@[i as int]));
        i += 1;
    }
    assert(s@.take(s.len() as int) =~= s@);
    r
}

/// The packer heuristics of a PE layout, with the entropy of each section
/// written where it is high (measured by the caller). Gives the facts of
/// the sections, the section that holds the entry point, and the report.
pub fn pe_packer_report(l: &PeLayout, file_len: usize, high_entropy: &Vec<Option<String>>) -> (r: (
    Vec<SectionFacts>,
    Option<usize>,
    PackerReport,
))
    requires
        high_entropy@.len() == l.sections@.len(),
        l.sections@.len() <= 0xffff,
    ensures
        r.0@.len() == l.sections@.len(),
        forall|j: int|
            0 <= j < r.0@.len() ==> {
                let f = #[trigger] r.0@[j];
                let s = l.sections@[j];
                &&& f.name@ == s.name@
                &&& f.characteristics == s.characteristics
                &&& f.pointer_to_raw_data == s.pointer_to_raw_data
                &&& f.size_of_raw_data == s.size_of_raw_data
                &&& f.virtual_size == s.virtual_size
                &&& f.high_entropy == high_entropy@[j]
            },
        match r.1 {
            Some(i) => i < l.sections@.len() && holds_rva(spans_of(l.sections@)[i as int], l.entry) && forall|k: int|
                0 <= k < i ==> !holds_rva(#[trigger] spans_of(l.sections@)[k], l.entry),
            None => forall|k: int| 0 <= k < l.sections@.len() ==> !holds_rva(#[trigger] spans_of(l.sections@)[k], l.entry),
        },
        packer_report_spec(r.0@, r.1, l.import_count as nat, l.has_tls, file_len as int, r.2),
{
    let mut facts: Vec<SectionFacts> = Vec::new();
    let mut i: usize = 0;
    while i < l.sections.len()
        invariant
            i <= l.sections@.len(),
            high_entropy@.len() == l.sections@.len(),
            facts@.len() == i,
            forall|j: int|
                0 <= j < i ==> {
                    let f = #[trigger] facts@[j];
                    let s = l.sections@[j];
                    &&& f.name@ == s.name@
                    &&& f.characteristics == s.characteristics
                    &&& f.pointer_to_raw_data == s.pointer_to_raw_data
                    &&& f.size_of_raw_data == s.size_of_raw_data
                    &&& f.virtual_size == s.virtual_size
                    &&& f.high_entropy == high_entropy@[j]
                },
        decreases l.sections.len() - i,
    {
        let s = &l.sections[i];
        let f = SectionFacts {
            name: s.name.clone(),
            characteristics: s.characteristics,
            pointer_to_raw_data: s.pointer_to_raw_data,
            size_of_raw_data: s.size_of_raw_data,
            virtual_size: s.virtual_size,
            high_entropy: high_entropy[i].clone(),
        };
        facts.push(f);
        i += 1;
    }
    let spans = section_spans(&l.sections);
    let entry = section_of(spans.as_slice(), l.entry);
    let report = packer_hints(facts.as_slice(), entry, l.import_count, l.has_tls, file_len);
    (facts, entry, report)
}

/// The names of the streams that could be read.
pub open spec fn ok_names(s: Seq<Result<Seq<char>, Seq<char>>>) -> Seq<Seq<char>>
    decreases s.len(),
{
    if s.len() == 0 {
        Seq::empty()
    } else {
        match s.last() {
            Ok(n) => ok_names(s.drop_last()).push(n),
            Err(_) => ok_names(s.drop_last()),
        }
    }
}

/// Whether CLR facts are what goblin reads from the bytes.
pub open spec fn clr_facts_of(f: ClrFacts, d: Seq<u8>) -> bool {
    match goblin_clr_header(d) {
        Some(h) => {
            &&& f.runtime_major == h.0
            &&& f.runtime_minor == h.1
            &&& f.flags == h.2
            &&& f.entry_point == h.3
            &&& f.metadata_version@ == h.4
            &&& f.signature_valid == h.5
            &&& f.streams@.map_values(|s: String| s@) == ok_names(goblin_clr_streams(d).0)
            &&& match (f.mvid, goblin_clr_streams(d).1) {
                (Some(a), Some(b)) => a@ == b,
                (None, None) => true,
                _ => false,
            }
        },
        None => false,
    }
}

/// The .NET metadata of the PE file in `data`: `None` for a file without a
/// CLR header; else its facts, the report on them (`clr_report`) and the
/// MVID in hex. Bytes that are no executable, or no PE file, give the error
/// `pe_kind_error` describes.
pub fn dotnet_metadata(data: &[u8]) -> (r: Result<Option<(ClrFacts, String, Option<String>)>, CoreError>)
    ensures
        match (r, pe_kind_error(goblin_kind(data@))) {
            (Ok(None), None) => goblin_clr_header(data@) is None,
            (Ok(Some((f, text, mvid))), None) => {
                &&& clr_facts_of(f, data@)
                &&& text@ == join(clr_lines(f), "\n"@)
                &&& match (mvid, f.mvid) {
                    (Some(h), Some(m)) => h@ == crate::hexcodec::hex_text(m@),
                    (None, None) => true,
                    _ => false,
                }
            },
            (Err(e), Some(x)) => is_kind_error(e, x),
            _ => false,
        },
{
    let k = object_kind(data);
    if !matches!(k, ObjectKind::Pe) {
        return Err(kind_error(&k));
    }
    let header = match pe_clr_header(data) {
        Some(h) => h,
        None => {
            return Ok(None);
        },
    };
    let (raw_streams, mvid) = pe_clr_streams(data);
    let ghost sv = streams_view((raw_streams, mvid)).0;
    let mut streams: Vec<String> = Vec::new();
    let mut i: usize = 0;
    assert(sv.take(0) =~= Seq::<Result<Seq<char>, Seq<char>>>::empty());
    while i < raw_streams.len()
        invariant
            i <= raw_streams.len(),
            sv == raw_streams@.map_values(
                |x: Result<String, String>|
                    match x {
                        Ok(s) => Ok(s@),
                        Err(s) => Err(s@),
                    },
            ),
            streams@.map_values(|s: String| s@) == ok_names(sv.take(i as int)),
        decreases raw_streams.len() - i,
    {
        assert(sv.take(i + 1).drop_last() =~= sv.take(i as int));
        match &raw_streams[i] {
            Ok(n) => {
                let ghost before = streams@;
                streams.push(n.clone());
                assert(streams@.map_values(|s: String| s@) =~= before.map_values(|s: String| s@).push(n@));
            },
            Err(_) => {},
        }
        i += 1;
    }
    assert(sv.take(raw_streams.len() as int) =~= sv);
    let facts = ClrFacts {
        runtime_major: header.0,
        runtime_minor: header.1,
        metadata_version: header.4,
        signature_valid: header.5,
        flags: header.2,
        entry_point: header.3,
        mvid,
        streams,
    };
    let (text, hex) = clr_report(&facts);
    Ok(Some((facts, text, hex)))
}


/// The imports of the PE file in the bytes, as goblin reads them: DLL,
/// function name and ordinal of each.
pub uninterp spec fn goblin_pe_imports(d: Seq<u8>) -> Seq<(Seq<char>, Seq<char>, u16)>;

/// `PE::imports`, each import's DLL, name and ordinal.
#[verifier::external_body]
pub(crate) fn pe_imports(data: &[u8]) -> (r: Vec<(String, String, u16)>)
    requires
        goblin_kind(data@).0 == 2,
    ensures
        r@.map_values(|x: (String, String, u16)| (x.0@, x.1@, x.2)) == goblin_pe_imports(data@),
{
    let Ok(Object::PE(pe)) = Object::parse(data) else { return Vec::new() };
    pe.imports.iter().map(|im| (im.dll.to_string(), im.name.to_string(), im.ordinal)).collect()
}

/// The resource table entry (RVA and size) of the PE file in the bytes, as
/// goblin reads it; none where there is no optional header or no entry.
pub uninterp spec fn goblin_pe_resource_table(d: Seq<u8>) -> Option<(u32, u32)>;

/// The resource table of the optional header's data directories.
#[verifier::external_body]
fn pe_resource_table(data: &[u8]) -> (r: Option<(u32, u32)>)
    requires
        goblin_kind(data@).0 == 2,
    ensures
        r == goblin_pe_resource_table(data@),
{
    let Ok(Object::PE(pe)) = Object::parse(data) else { return None };
    let o = pe.header.optional_header.as_ref()?;
    o.data_directories.get_resource_table().map(|d| (d.virtual_address, d.size))
}

/// The import-hash entries of imports.
pub open spec fn import_parts(v: Seq<(Seq<char>, Seq<char>, u16)>) -> Seq<Seq<char>> {
    v.map_values(|x: (Seq<char>, Seq<char>, u16)| imphash_part_spec(x.0, x.1, x.2))
}

/// The import hash of the PE file in `data`: its import entries, the hash
/// and the report (`imphash`). Bytes that are no executable, or no PE file,
/// give the error `pe_kind_error` describes.
pub fn pe_import_hash(data: &[u8]) -> (r: Result<(Vec<String>, String, String), CoreError>)
    ensures
        match (r, pe_kind_error(goblin_kind(data@))) {
            (Ok((parts, hash, text)), None) => {
                &&& parts@.map_values(|p: String| p@) == import_parts(goblin_pe_imports(data@))
                &&& hash@ == imphash_spec(import_parts(goblin_pe_imports(data@))).0
                &&& text@ == imphash_spec(import_parts(goblin_pe_imports(data@))).1
            },
            (Err(e), Some(x)) => is_kind_error(e, x),
            _ => false,
        },
{
    let k = object_kind(data);
    if !matches!(k, ObjectKind::Pe) {
        return Err(kind_error(&k));
    }
    let imports = pe_imports(data);
    let ghost iv = imports@.map_values(|x: (String, String, u16)| (x.0@, x.1@, x.2));
    let mut parts: Vec<String> = Vec::new();
    let mut i: usize = 0;
    while i < imports.len()
        invariant
            i <= imports.len(),
            iv == imports@.map_values(|x: (String, String, u16)| (x.0@, x.1@, x.2)),
            parts@.map_values(|p: String| p@) == import_parts(iv.take(i as int)),
        decreases imports.len() - i,
    {
        let im = &imports[i];
        let part = imphash_part(im.0.as_str(), im.1.as_str(), im.2);
        let ghost before = parts@;
        parts.push(part);
        assert(iv[i as int] == (im.0@, im.1@, im.2));
        assert(parts@ == before.push(part));
        assert(parts@.map_values(|p: String| p@) =~= before.map_values(|p: String| p@).push(part@));
        assert(import_parts(iv.take(i + 1)) =~= import_parts(iv.take(i as int)).push(imphash_part_spec(im.0@, im.1@, im.2)));
        assert(parts@.map_values(|p: String| p@) =~= import_parts(iv.take(i + 1)));
        i += 1;
    }
    assert(iv.take(imports.len() as int) =~= iv);
    let (hash, text) = imphash(parts.as_slice());
    Ok((parts, hash, text))
}

/// The placements of section headers.
pub open spec fn row_spans(r: Seq<SectionRowView>) -> Seq<SectionSpan> {
    r.map_values(
        |x: SectionRowView|
            SectionSpan { virtual_address: x.5, virtual_size: x.4, size_of_raw_data: x.3, pointer_to_raw_data: x.2 },
    )
}

/// The leaves of the resource tree of the PE file in `data` (none without a
/// resource table). Bytes that are no executable, or no PE file, give the
/// error `pe_kind_error` describes; a table that no section maps gives the
/// error of `resource_leaves`.
pub fn pe_resources(data: &[u8]) -> (r: Result<Vec<ResourceLeaf>, CoreError>)
    ensures
        match pe_kind_error(goblin_kind(data@)) {
            Some(x) => r matches Err(e) && is_kind_error(e, x),
            None => match goblin_pe_resource_table(data@) {
                None => r matches Ok(v) && v@.len() == 0,
                Some((rva, size)) => match (r, resource_leaves_spec(data@, row_spans(goblin_pe_sections(data@)), rva, size)) {
                    (Ok(v), Ok(w)) => leaves_view(v@) == w,
                    (Err(e), Err(m)) => e.is_parse_with(m),
                    _ => false,
                },
            },
        },
{
    let layout = match pe_layout(data) {
        Ok(l) => l,
        Err(e) => {
            return Err(e);
        },
    };
    let (rva, size) = match pe_resource_table(data) {
        Some(t) => t,
        None => {
            return Ok(Vec::new());
        },
    };
    let spans = section_spans(&layout.sections);
    proof {
        assert(spans@ =~= row_spans(goblin_pe_sections(data@))) by {
            assert forall|j: int| 0 <= j < spans@.len() implies spans@[j] == row_spans(goblin_pe_sections(data@))[j] by {
                assert(section_from_row(layout.sections@[j], goblin_pe_sections(data@)[j]));
            }
        }
    }
    resource_leaves(data, spans.as_slice(), rva, size)
}


/// The section headers of the ELF file in the bytes, as goblin reads them:
/// the name (where the string table has one), type, file offset, size,
/// address and flags of each.
pub uninterp spec fn goblin_elf_sections(d: Seq<u8>) -> Seq<(Option<Seq<char>>, u32, u64, u64, u64, u64)>;

/// The view of ELF section headers.
pub open spec fn elf_rows_view(v: Seq<(Option<String>, u32, u64, u64, u64, u64)>) -> Seq<
    (Option<Seq<char>>, u32, u64, u64, u64, u64),
> {
    v.map_values(
        |x: (Option<String>, u32, u64, u64, u64, u64)|
            (
                match x.0 {
                    Some(n) => Some(n@),
                    None => None,
                },
                x.1,
                x.2,
                x.3,
                x.4,
                x.5,
            ),
    )
}

/// `Elf::section_headers`, each header's name (`shdr_strtab.get_at`),
/// type, offset, size, address and flags.
#[verifier::external_body]
fn elf_section_rows(data: &[u8]) -> (r: Vec<(Option<String>, u32, u64, u64, u64, u64)>)
    requires
        goblin_kind(data@).0 == 3,
    ensures
        elf_rows_view(r@) == goblin_elf_sections(data@),
{
    let Ok(Object::Elf(e)) = Object::parse(data) else { return Vec::new() };
    e.section_headers.iter().map(|sh| (e.shdr_strtab.get_at(sh.sh_name).map(|n| n.to_string()), sh.sh_type,
        sh.sh_offset, sh.sh_size, sh.sh_addr, sh.sh_flags)).collect()
}

/// Where the file data of the sections ends: the largest end (offset plus
/// size, wrapping as machine words do) over the ELF sections that take
/// file space (not of type NOBITS), or over the PE sections' raw data; 0
/// for none.
pub open spec fn elf_data_end(v: Seq<(Option<Seq<char>>, u32, u64, u64, u64, u64)>) -> int
    decreases v.len(),
{
    if v.len() == 0 {
        0
    } else {
        let m = elf_data_end(v.drop_last());
        let x = v.last();
        let e = if x.2 + x.3 > u64::MAX {
            x.2 + x.3 - 0x1_0000_0000_0000_0000
        } else {
            x.2 + x.3
        };
        if x.1 != 8 && e > m {
            e
        } else {
            m
        }
    }
}

pub open spec fn pe_data_end(v: Seq<SectionRowView>) -> int
    decreases v.len(),
{
    if v.len() == 0 {
        0
    } else {
        let m = pe_data_end(v.drop_last());
        let x = v.last();
        let e = if x.2 + x.3 > u32::MAX {
            x.2 + x.3 - 0x1_0000_0000
        } else {
            x.2 + x.3
        };
        if e > m {
            e
        } else {
            m
        }
    }
}

/// The error of an analysis of ELF and PE files, for bytes of kind `k`:
/// whether it is `Unsupported` (else `Parse`) and its message; none for an
/// ELF or PE file.
pub open spec fn elf_pe_kind_error(k: (u8, Seq<char>, u64)) -> Option<(bool, Seq<char>)> {
    if k.0 == 2 || k.0 == 3 {
        None
    } else if k.0 >= 4 {
        Some((true, "仅支持 ELF/PE 的 overlay 检测"@))
    } else {
        pe_kind_error(k)
    }
}

/// What `overlay` gives: the offset where the sections' file data ends (at
/// most the file's length), and the bytes after it.
pub open spec fn overlay_spec(d: Seq<u8>) -> Result<(int, Seq<u8>), (bool, Seq<char>)> {
    match elf_pe_kind_error(goblin_kind(d)) {
        Some(x) => Err(x),
        None => {
            let end = if goblin_kind(d).0 == 3 {
                elf_data_end(goblin_elf_sections(d))
            } else {
                pe_data_end(goblin_pe_sections(d))
            };
            let e = if end < d.len() {
                end
            } else {
                d.len() as int
            };
            Ok((e, d.skip(e)))
        },
    }
}

/// The data appended after an ELF or PE file's sections (the overlay), and
/// where it starts.
pub fn overlay(data: &[u8]) -> (r: Result<(usize, Vec<u8>), CoreError>)
    ensures
        match (r, overlay_spec(data@)) {
            (Ok((o, v)), Ok((e, w))) => o == e && v@ == w,
            (Err(err), Err(x)) => is_kind_error(err, x),
            _ => false,
        },
{
    let k = object_kind(data);
    let mut end: u64 = 0;
    match k {
        ObjectKind::Elf => {
            let rows = elf_section_rows(data);
            let ghost rv = elf_rows_view(rows@);
            let mut i: usize = 0;
            assert(rv.take(0) =~= Seq::<(Option<Seq<char>>, u32, u64, u64, u64, u64)>::empty());
            while i < rows.len()
                invariant
                    i <= rows.len(),
                    rv == elf_rows_view(rows@),
                    end as int == elf_data_end(rv.take(i as int)),
                decreases rows.len() - i,
            {
                let r = &rows[i];
                let e = r.2.wrapping_add(r.3);
                assert(rv.take(i + 1).drop_last() =~= rv.take(i as int));
                assert(rv[i as int].1 == r.1 && rv[i as int].2 == r.2 && rv[i as int].3 == r.3);
                if r.1 != 8 && e > end {
                    end = e;
                }
                i += 1;
            }
            assert(rv.take(rows.len() as int) =~= rv);
        },
        ObjectKind::Pe => {
            let rows = pe_section_rows(data);
            let ghost rv = rows_view(rows@);
            let mut i: usize = 0;
            assert(rv.take(0) =~= Seq::<SectionRowView>::empty());
            while i < rows.len()
                invariant
                    i <= rows.len(),
                    rv == rows_view(rows@),
                    end as int == pe_data_end(rv.take(i as int)),
                    end <= 0xffff_ffff,
                decreases rows.len() - i,
            {
                let r = &rows[i];
                let e = r.pointer_to_raw_data.wrapping_add(r.size_of_raw_data) as u64;
                assert(rv.take(i + 1).drop_last() =~= rv.take(i as int));
                assert(rv[i as int].2 == r.pointer_to_raw_data && rv[i as int].3 == r.size_of_raw_data);
                if e > end {
                    end = e;
                }
                i += 1;
            }
            assert(rv.take(rows.len() as int) =~= rv);
        },
        ObjectKind::Other | ObjectKind::Mach | ObjectKind::Archive => {
            return Err(CoreError::Unsupported(String::from_str("仅支持 ELF/PE 的 overlay 检测")));
        },
        _ => {
            return Err(kind_error(&k));
        },
    }
    let start: usize = if end < data.len() as u64 {
        end as usize
    } else {
        data.len()
    };
    let mut out: Vec<u8> = Vec::new();
    let mut j = start;
    while j < data.len()
        invariant
            start <= j <= data@.len(),
            out@ == data@.subrange(start as int, j as int),
        decreases data.len() - j,
    {
        out.push(data[j]);
        assert(data@.subrange(start as int, j + 1) =~= data@.subrange(start as int, j as int).push(data@[j as int]));
        j += 1;
    }
    assert(data@.subrange(start as int, data@.len() as int) =~= data@.skip(start as int));
    Ok((start, out))
}


/// The section tables of ELF and PE files.
pub enum ObjectSections {
    Pe(PeLayout),
    /// Each ELF section's name (empty where the string table has none),
    /// type, file offset and size.
    Elf(Vec<(String, u32, u64, u64)>),
}

/// The name of an ELF section header: empty where the string table has
/// none.
pub open spec fn elf_name(n: Option<Seq<char>>) -> Seq<char> {
    match n {
        Some(x) => x,
        None => Seq::empty(),
    }
}

/// The section table of the ELF or PE file in `data`; other bytes give the
/// error `pe_kind_error` describes, another format `Unsupported`.
pub fn object_sections(data: &[u8]) -> (r: Result<ObjectSections, CoreError>)
    ensures
        match r {
            Ok(ObjectSections::Pe(l)) => goblin_kind(data@).0 == 2 && layout_of(l, data@),
            Ok(ObjectSections::Elf(v)) => goblin_kind(data@).0 == 3 && v@.len() == goblin_elf_sections(data@).len()
                && forall|j: int|
                0 <= j < v@.len() ==> {
                    let x = #[trigger] v@[j];
                    let g = goblin_elf_sections(data@)[j];
                    &&& x.0@ == elf_name(g.0)
                    &&& x.1 == g.1
                    &&& x.2 == g.2
                    &&& x.3 == g.3
                },
            Err(e) => if goblin_kind(data@).0 >= 4 {
                e matches CoreError::Unsupported(m) && m@ == "节区熵目前支持 PE/ELF"@
            } else {
                &&& goblin_kind(data@).0 != 2
                &&& goblin_kind(data@).0 != 3
                &&& (pe_kind_error(goblin_kind(data@)) matches Some(x) && is_kind_error(e, x))
            },
        },
{
    let k = object_kind(data);
    match k {
        ObjectKind::Pe => {
            let l = match pe_layout(data) {
                Ok(l) => l,
                Err(e) => {
                    return Err(e);
                },
            };
            Ok(ObjectSections::Pe(l))
        },
        ObjectKind::Elf => {
            let rows = elf_section_rows(data);
            let ghost rv = elf_rows_view(rows@);
            let mut v: Vec<(String, u32, u64, u64)> = Vec::new();
            let mut i: usize = 0;
            while i < rows.len()
                invariant
                    i <= rows.len(),
                    rv == elf_rows_view(rows@),
                    rv == goblin_elf_sections(data@),
                    v@.len() == i,
                    forall|j: int|
                        0 <= j < i ==> {
                            let x = #[trigger] v@[j];
                            let g = rv[j];
                            &&& x.0@ == elf_name(g.0)
                            &&& x.1 == g.1
                            &&& x.2 == g.2
                            &&& x.3 == g.3
                        },
                decreases rows.len() - i,
            {
                let r = &rows[i];
                let name = match &r.0 {
                    Some(n) => n.clone(),
                    None => String::new(),
                };
                v.push((name, r.1, r.2, r.3));
                i += 1;
            }
            Ok(ObjectSections::Elf(v))
        },
        ObjectKind::Other | ObjectKind::Mach | ObjectKind::Archive => Err(
            CoreError::Unsupported(String::from_str("节区熵目前支持 PE/ELF")),
        ),
        _ => Err(kind_error(&k)),
    }
}


/// One line of a section table.
pub struct SectionLine {
    pub name: String,
    /// The virtual address.
    pub addr: u64,
    /// The (virtual) size.
    pub size: u64,
    /// The file offset.
    pub offset: u64,
    /// A PE section's raw data size.
    pub raw_size: Option<u32>,
    /// `a`/`w`/`x` for ELF (allocated, writable, executable), `r`/`w`/`x`
    /// for PE.
    pub perms: String,
}

/// The view of a section line.
pub type SectionLineView = (Seq<char>, u64, u64, u64, Option<u32>, Seq<char>);

pub open spec fn line_view(l: SectionLine) -> SectionLineView {
    (l.name@, l.addr, l.size, l.offset, l.raw_size, l.perms@)
}

/// The permissions of ELF section flags.
pub open spec fn elf_perms(flags: u64) -> Seq<char> {
    seq![
        if (flags / 2) % 2 == 1 { 'a' } else { '-' },
        if flags % 2 == 1 { 'w' } else { '-' },
        if (flags / 4) % 2 == 1 { 'x' } else { '-' },
    ]
}

/// The lines of the section table of the bytes.
pub open spec fn section_lines(d: Seq<u8>) -> Seq<SectionLineView> {
    let k = goblin_kind(d).0;
    if k == 3 {
        goblin_elf_sections(d).map_values(
            |g: (Option<Seq<char>>, u32, u64, u64, u64, u64)| (elf_name(g.0), g.4, g.3, g.2, None::<u32>, elf_perms(g.5)),
        )
    } else if k == 2 {
        goblin_pe_sections(d).map_values(
            |r: SectionRowView|
                (elf_name(r.0), r.5 as u64, r.4 as u64, r.2 as u64, Some(r.3), pe_perms_spec(r.1)),
        )
    } else {
        Seq::empty()
    }
}

/// `0x` and the lower-case hex digits of `v`.
pub open spec fn hex0x(v: u64) -> Seq<char> {
    "0x"@ + hex_lower(v as nat)
}

/// One line of the table text.
pub open spec fn line_text(l: SectionLineView) -> Seq<char> {
    pad_right(l.0, 16) + pad_left(hex0x(l.1), 12) + pad_left(decimal(l.2 as nat), 12) + pad_left(hex0x(l.3), 12)
        + "  "@ + l.5 + "\n"@
}

/// The heading of the table text.
pub open spec fn table_heading() -> Seq<char> {
    pad_right("名称"@, 16) + pad_left("虚拟地址"@, 12) + pad_left("大小"@, 12) + pad_left("文件偏移"@, 12) + "  权限\n"@
}

/// The lines of the first `n` lines.
pub open spec fn lines_text(v: Seq<SectionLineView>, n: int) -> Seq<char>
    decreases n,
{
    if n <= 0 {
        Seq::empty()
    } else {
        lines_text(v, n - 1) + line_text(v[n - 1])
    }
}

/// The text of a table: the heading and a line per section; or, without
/// sections, a note on why.
pub open spec fn table_text(k: u8, v: Seq<SectionLineView>) -> Seq<char> {
    if v.len() > 0 {
        table_heading() + lines_text(v, v.len() as int)
    } else if k == 4 {
        "Mach-O 节区列举暂未支持（可用 binary_info / strings）"@
    } else if k == 5 {
        "归档(ar) 无节区概念"@
    } else if k == 6 {
        "该格式暂不支持节区列举"@
    } else {
        "（无节区）"@
    }
}

/// Append `t` padded on the left to `w` characters.
fn push_padded_left(s: &mut String, t: &str, w: usize)
    ensures
        final(s)@ == old(s)@ + pad_left(t@, w as int),
{
    let n = chars_of(t).len();
    if n < w {
        push_spaces(s, w - n);
    } else {
        assert(spaces(w - n) =~= Seq::<char>::empty());
    }
    push_str(s, t);
}

fn hex0x_string(v: u64) -> (s: String)
    ensures
        s@ == hex0x(v),
{
    let mut s = String::new();
    push_str(&mut s, "0x");
    push_hex_lower(&mut s, v);
    s
}

fn push_line(s: &mut String, l: &SectionLine)
    ensures
        final(s)@ == old(s)@ + line_text(line_view(*l)),
{
    push_padded_right(s, l.name.as_str(), 16);
    let a = hex0x_string(l.addr);
    push_padded_left(s, a.as_str(), 12);
    let mut z = String::new();
    push_decimal(&mut z, l.size);
    push_padded_left(s, z.as_str(), 12);
    let o = hex0x_string(l.offset);
    push_padded_left(s, o.as_str(), 12);
    push_str(s, "  ");
    push_str(s, l.perms.as_str());
    push_str(s, "\n");
}

fn elf_perms_string(flags: u64) -> (s: String)
    ensures
        s@ == elf_perms(flags),
{
    let mut s = String::new();
    crate::text::push_char(&mut s, if (flags / 2) % 2 == 1 { 'a' } else { '-' });
    crate::text::push_char(&mut s, if flags % 2 == 1 { 'w' } else { '-' });
    crate::text::push_char(&mut s, if (flags / 4) % 2 == 1 { 'x' } else { '-' });
    assert(s@ =~= elf_perms(flags));
    s
}

/// The section table of an ELF or PE file: its lines and the table text.
/// Other objects (Mach-O, archives, other formats) have no lines and a note;
/// bytes that are no executable give the error `pe_kind_error` describes.
pub fn sections_table(data: &[u8]) -> (r: Result<(Vec<SectionLine>, String), CoreError>)
    ensures
        match r {
            Ok((lines, text)) => {
                &&& goblin_kind(data@).0 >= 2
                &&& lines@.map_values(|l: SectionLine| line_view(l)) == section_lines(data@)
                &&& text@ == table_text(goblin_kind(data@).0, section_lines(data@))
            },
            Err(e) => goblin_kind(data@).0 < 2 && (pe_kind_error(goblin_kind(data@)) matches Some(x) && is_kind_error(e, x)),
        },
{
    let k = object_kind(data);
    let ghost kv = kind_view(k);
    let mut lines: Vec<SectionLine> = Vec::new();
    let tag: u8 = match k {
        ObjectKind::Failed(_) | ObjectKind::Unknown(_) => {
            return Err(kind_error(&k));
        },
        ObjectKind::Elf => {
            let rows = elf_section_rows(data);
            let ghost rv = elf_rows_view(rows@);
            let mut i: usize = 0;
            while i < rows.len()
                invariant
                    i <= rows.len(),
                    rv == elf_rows_view(rows@),
                    lines@.map_values(|l: SectionLine| line_view(l)) == rv.take(i as int).map_values(
                        |g: (Option<Seq<char>>, u32, u64, u64, u64, u64)| (elf_name(g.0), g.4, g.3, g.2, None::<u32>, elf_perms(g.5)),
                    ),
                decreases rows.len() - i,
            {
                let r = &rows[i];
                let name = match &r.0 {
                    Some(n) => n.clone(),
                    None => String::new(),
                };
                let l = SectionLine { name, addr: r.4, size: r.3, offset: r.2, raw_size: None, perms: elf_perms_string(r.5) };
                let ghost g = rv[i as int];
                assert(line_view(l) == (elf_name(g.0), g.4, g.3, g.2, None::<u32>, elf_perms(g.5)));
                let ghost before = lines@;
                lines.push(l);
                assert(lines@.map_values(|l: SectionLine| line_view(l)) =~= before.map_values(|l: SectionLine| line_view(l)).push(line_view(l)));
                assert(lines@.map_values(|l: SectionLine| line_view(l)) =~= rv.take(i + 1).map_values(
                    |g: (Option<Seq<char>>, u32, u64, u64, u64, u64)| (elf_name(g.0), g.4, g.3, g.2, None::<u32>, elf_perms(g.5)),
                )) by {
                    assert(before.map_values(|l: SectionLine| line_view(l)).len() == i);
                    assert(rv.take(i + 1) =~= rv.take(i as int).push(rv[i as int]));
                }
                i += 1;
            }
            assert(rv.take(rows.len() as int) =~= rv);
            3
        },
        ObjectKind::Pe => {
            let rows = pe_section_rows(data);
            let ghost rv = rows_view(rows@);
            let mut i: usize = 0;
            while i < rows.len()
                invariant
                    i <= rows.len(),
                    rv == rows_view(rows@),
                    lines@.map_values(|l: SectionLine| line_view(l)) == rv.take(i as int).map_values(
                        |r: SectionRowView| (elf_name(r.0), r.5 as u64, r.4 as u64, r.2 as u64, Some(r.3), pe_perms_spec(r.1)),
                    ),
                decreases rows.len() - i,
            {
                let r = &rows[i];
                let name = match &r.name {
                    Some(n) => n.clone(),
                    None => String::new(),
                };
                let l = SectionLine {
                    name,
                    addr: r.virtual_address as u64,
                    size: r.virtual_size as u64,
                    offset: r.pointer_to_raw_data as u64,
                    raw_size: Some(r.size_of_raw_data),
                    perms: pe_perms(r.characteristics),
                };
                let ghost g = rv[i as int];
                assert(line_view(l) == (elf_name(g.0), g.5 as u64, g.4 as u64, g.2 as u64, Some(g.3), pe_perms_spec(g.1)));
                let ghost before = lines@;
                lines.push(l);
                assert(lines@.map_values(|l: SectionLine| line_view(l)) =~= before.map_values(|l: SectionLine| line_view(l)).push(line_view(l)));
                assert(lines@.map_values(|l: SectionLine| line_view(l)) =~= rv.take(i + 1).map_values(
                    |r: SectionRowView| (elf_name(r.0), r.5 as u64, r.4 as u64, r.2 as u64, Some(r.3), pe_perms_spec(r.1)),
                )) by {
                    assert(before.map_values(|l: SectionLine| line_view(l)).len() == i);
                    assert(rv.take(i + 1) =~= rv.take(i as int).push(rv[i as int]));
                }
                i += 1;
            }
            assert(rv.take(rows.len() as int) =~= rv);
            2
        },
        ObjectKind::Mach => 4,
        ObjectKind::Archive => 5,
        ObjectKind::Other => 6,
    };
    assert(tag == kv.0);
    let ghost lv = lines@.map_values(|l: SectionLine| line_view(l));
    assert(lv == section_lines(data@));
    let mut text = String::new();
    if lines.len() == 0 {
        if tag == 4 {
            push_str(&mut text, "Mach-O 节区列举暂未支持（可用 binary_info / strings）");
        } else if tag == 5 {
            push_str(&mut text, "归档(ar) 无节区概念");
        } else if tag == 6 {
            push_str(&mut text, "该格式暂不支持节区列举");
        } else {
            push_str(&mut text, "（无节区）");
        }
        return Ok((lines, text));
    }
    push_padded_right(&mut text, "名称", 16);
    push_padded_left(&mut text, "虚拟地址", 12);
    push_padded_left(&mut text, "大小", 12);
    push_padded_left(&mut text, "文件偏移", 12);
    push_str(&mut text, "  权限\n");
    let ghost head = text@;
    assert(head == table_heading());
    let mut i: usize = 0;
    while i < lines.len()
        invariant
            i <= lines.len(),
            lv == lines@.map_values(|l: SectionLine| line_view(l)),
            text@ == head + lines_text(lv, i as int),
        decreases lines.len() - i,
    {
        push_line(&mut text, &lines[i]);
        i += 1;
    }
    Ok((lines, text))
}


/// The attribute certificates of the PE file in the bytes, as goblin reads
/// them: the declared length, the certificate data, and the revision and
/// type as `Debug` writes them.
pub uninterp spec fn goblin_pe_certificates(d: Seq<u8>) -> Seq<(u32, Seq<u8>, Seq<char>, Seq<char>)>;

/// `PE::certificates`, each certificate's length, data, revision and type.
#[verifier::external_body]
fn pe_certificates(data: &[u8]) -> (r: Vec<(u32, Vec<u8>, String, String)>)
    requires
        goblin_kind(data@).0 == 2,
    ensures
        r@.map_values(|x: (u32, Vec<u8>, String, String)| (x.0, x.1@, x.2@, x.3@)) == goblin_pe_certificates(data@),
{
    let Ok(Object::PE(pe)) = Object::parse(data) else { return Vec::new() };
    pe.certificates.iter().map(|c| (c.length, c.certificate.to_vec(), format!("{:?}", c.revision),
        format!("{:?}", c.certificate_type))).collect()
}

/// The SHA-256 digest of bytes.
pub uninterp spec fn sha256_digest(d: Seq<u8>) -> Seq<u8>;

/// `sha2::Sha256::digest`: the 32-byte SHA-256 digest of the bytes.
#[verifier::external_body]
fn sha256_of(d: &[u8]) -> (r: Vec<u8>)
    ensures
        r@ == sha256_digest(d@),
        r@.len() == 32,
{
    sha2::Sha256::digest(d).to_vec()
}

/// What is reported of one certificate.
pub struct CertInfo {
    pub length: u32,
    pub data_len: usize,
    pub revision: String,
    pub kind: String,
    /// The SHA-256 of the certificate data, in hex.
    pub sha256: String,
}

/// The line of certificate `idx`.
pub open spec fn cert_line(idx: nat, c: (u32, Seq<u8>, Seq<char>, Seq<char>)) -> Seq<char> {
    "#"@ + decimal(idx) + " len="@ + decimal(c.0 as nat) + " data="@ + decimal(c.1.len()) + " revision="@ + c.2 + " type="@
        + c.3 + " sha256="@ + crate::hexcodec::hex_text(sha256_digest(c.1))
}

/// The report on certificates: a line each; or a note that there are none.
pub open spec fn certs_text(v: Seq<(u32, Seq<u8>, Seq<char>, Seq<char>)>) -> Seq<char> {
    if v.len() == 0 {
        "（无证书表）"@
    } else {
        join(Seq::new(v.len(), |i: int| cert_line(i as nat, v[i])), "\n"@)
    }
}

/// The attribute certificates of the PE file in `data` and the report on
/// them. Bytes that are no executable, or no PE file, give the error
/// `pe_kind_error` describes.
pub fn pe_certificate_report(data: &[u8]) -> (r: Result<(Vec<CertInfo>, String), CoreError>)
    ensures
        match (r, pe_kind_error(goblin_kind(data@))) {
            (Ok((infos, text)), None) => {
                let g = goblin_pe_certificates(data@);
                &&& infos@.len() == g.len()
                &&& forall|i: int|
                    0 <= i < g.len() ==> {
                        let c = #[trigger] infos@[i];
                        &&& c.length == g[i].0
                        &&& c.data_len == g[i].1.len()
                        &&& c.revision@ == g[i].2
                        &&& c.kind@ == g[i].3
                        &&& c.sha256@ == crate::hexcodec::hex_text(sha256_digest(g[i].1))
                    }
                &&& text@ == certs_text(g)
            },
            (Err(e), Some(x)) => is_kind_error(e, x),
            _ => false,
        },
{
    let k = object_kind(data);
    if !matches!(k, ObjectKind::Pe) {
        return Err(kind_error(&k));
    }
    let certs = pe_certificates(data);
    let ghost g = certs@.map_values(|x: (u32, Vec<u8>, String, String)| (x.0, x.1@, x.2@, x.3@));
    let ghost lines = Seq::new(g.len(), |i: int| cert_line(i as nat, g[i]));
    let mut infos: Vec<CertInfo> = Vec::new();
    let mut text = String::new();
    let mut i: usize = 0;
    while i < certs.len()
        invariant
            i <= certs.len(),
            g == certs@.map_values(|x: (u32, Vec<u8>, String, String)| (x.0, x.1@, x.2@, x.3@)),
            lines == Seq::new(g.len(), |i: int| cert_line(i as nat, g[i])),
            infos@.len() == i,
            forall|j: int|
                0 <= j < i ==> {
                    let c = #[trigger] infos@[j];
                    &&& c.length == g[j].0
                    &&& c.data_len == g[j].1.len()
                    &&& c.revision@ == g[j].2
                    &&& c.kind@ == g[j].3
                    &&& c.sha256@ == crate::hexcodec::hex_text(sha256_digest(g[j].1))
                },
            text@ == join(lines.take(i as int), "\n"@),
        decreases certs.len() - i,
    {
        let c = &certs[i];
        let digest = sha256_of(c.1.as_slice());
        let hex = crate::hexcodec::hex_encode(digest.as_slice());
        if i > 0 {
            push_str(&mut text, "\n");
        }
        push_str(&mut text, "#");
        push_decimal(&mut text, i as u64);
        push_str(&mut text, " len=");
        push_decimal(&mut text, c.0 as u64);
        push_str(&mut text, " data=");
        push_decimal(&mut text, c.1.len() as u64);
        push_str(&mut text, " revision=");
        push_str(&mut text, c.2.as_str());
        push_str(&mut text, " type=");
        push_str(&mut text, c.3.as_str());
        push_str(&mut text, " sha256=");
        push_str(&mut text, hex.as_str());
        proof {
            let p2 = lines.take(i + 1);
            assert(p2.drop_last() =~= lines.take(i as int));
            assert(g[i as int] == (c.0, c.1@, c.2@, c.3@));
            if i == 0 {
                assert(p2.len() == 1);
            }
            assert(text@ =~= join(p2, "\n"@));
        }
        infos.push(CertInfo { length: c.0, data_len: c.1.len(), revision: c.2.clone(), kind: c.3.clone(), sha256: hex });
        i += 1;
    }
    assert(lines.take(certs.len() as int) =~= lines);
    if certs.len() == 0 {
        push_str(&mut text, "（无证书表）");
    }
    Ok((infos, text))
}


/// The ELF header facts of the bytes, as goblin reads them: machine, type,
/// 64-bit, little-endian, entry, interpreter, needed libraries, library.
pub uninterp spec fn goblin_elf_header(d: Seq<u8>) -> (u16, u16, bool, bool, u64, Option<Seq<char>>, Seq<Seq<char>>, bool);

/// `Elf`'s header fields, interpreter, libraries and `is_lib`.
#[verifier::external_body]
pub(crate) fn elf_header(data: &[u8]) -> (r: (u16, u16, bool, bool, u64, Option<String>, Vec<String>, bool))
    requires
        goblin_kind(data@).0 == 3,
    ensures
        (r.0, r.1, r.2, r.3, r.4, match r.5 {
            Some(x) => Some(x@),
            None => None,
        }, r.6@.map_values(|x: String| x@), r.7) == goblin_elf_header(data@),
{
    let Ok(Object::Elf(e)) = Object::parse(data) else { return (0, 0, false, false, 0, None, Vec::new(), false) };
    let libs = e.libraries.iter().map(|l| l.to_string()).collect();
    (e.header.e_machine, e.header.e_type, e.is_64, e.little_endian, e.entry, e.interpreter.map(|x| x.to_string()), libs,
        e.is_lib)
}

/// The name of an ELF machine number (`goblin::elf::header::machine_to_str`).
pub uninterp spec fn goblin_elf_machine(m: u16) -> Seq<char>;

/// `goblin::elf::header::machine_to_str`: the architecture name of an ELF
/// machine number; a function of the number alone.
#[verifier::external_body]
fn elf_machine_name(m: u16) -> (r: String)
    ensures
        r@ == goblin_elf_machine(m),
{
    goblin::elf::header::machine_to_str(m).to_string()
}

/// The PE header facts of the bytes, as goblin reads them: machine,
/// 64-bit, subsystem (where there is an optional header), DLL, entry, image
/// base, export name.
pub uninterp spec fn goblin_pe_header(d: Seq<u8>) -> (u16, bool, Option<u16>, bool, u32, u64, Option<Seq<char>>);

/// `PE`'s COFF machine, `is_64`, subsystem, `is_lib`, entry, image base and
/// name.
#[verifier::external_body]
fn pe_header(data: &[u8]) -> (r: (u16, bool, Option<u16>, bool, u32, u64, Option<String>))
    requires
        goblin_kind(data@).0 == 2,
    ensures
        (r.0, r.1, r.2, r.3, r.4, r.5, match r.6 {
            Some(x) => Some(x@),
            None => None,
        }) == goblin_pe_header(data@),
{
    let Ok(Object::PE(p)) = Object::parse(data) else { return (0, false, None, false, 0, 0, None) };
    let sub = p.header.optional_header.map(|o| o.windows_fields.subsystem);
    (p.header.coff_header.machine, p.is_64, sub, p.is_lib, p.entry, p.image_base, p.name.map(|n| n.to_string()))
}

/// The Mach-O header facts of the bytes, as goblin reads them: CPU type,
/// 64-bit, little-endian, entry; none for a fat (universal) file.
pub uninterp spec fn goblin_mach(d: Seq<u8>) -> Option<(u32, bool, bool, u64)>;

/// `Mach::Binary`'s CPU type, `is_64`, `little_endian` and entry; `None`
/// for `Mach::Fat`.
#[verifier::external_body]
fn mach_header(data: &[u8]) -> (r: Option<(u32, bool, bool, u64)>)
    requires
        goblin_kind(data@).0 == 4,
    ensures
        r == goblin_mach(data@),
{
    match Object::parse(data) {
        Ok(Object::Mach(goblin::mach::Mach::Binary(b))) => Some((b.header.cputype, b.is_64, b.little_endian, b.entry)),
        _ => None,
    }
}

/// The number of members of the `ar` archive in the bytes, as goblin reads
/// it.
pub uninterp spec fn goblin_archive_members(d: Seq<u8>) -> nat;

/// The length of `Archive::members`.
#[verifier::external_body]
fn archive_members(data: &[u8]) -> (r: usize)
    requires
        goblin_kind(data@).0 == 5,
    ensures
        r as nat == goblin_archive_members(data@),
{
    match Object::parse(data) {
        Ok(Object::Archive(a)) => a.members().len(),
        _ => 0,
    }
}

/// `64` or `32`.
pub open spec fn bits_text(is_64: bool) -> Seq<char> {
    if is_64 {
        "64"@
    } else {
        "32"@
    }
}

/// The byte order's name.
pub open spec fn endian_text(little: bool) -> Seq<char> {
    if little {
        "小端"@
    } else {
        "大端"@
    }
}

/// The summary of an executable: format, architecture, word size, byte
/// order, type, entry and the rest each header gives.
pub open spec fn info_text(d: Seq<u8>) -> Seq<char> {
    let k = goblin_kind(d).0;
    if k == 3 {
        let h = goblin_elf_header(d);
        "格式：ELF\n架构："@ + goblin_elf_machine(h.0) + "\n位数："@ + bits_text(h.2) + "\n字节序："@ + endian_text(h.3)
            + "\n类型："@ + elf_type_spec(h.1) + "\n入口：0x"@ + hex_lower(h.4 as nat) + "\n"@ + match h.5 {
            Some(i) => "解释器："@ + i + "\n"@,
            None => Seq::empty(),
        } + if h.6.len() > 0 {
            "依赖库："@ + join(h.6, ", "@) + "\n"@
        } else {
            Seq::empty()
        }
    } else if k == 2 {
        let h = goblin_pe_header(d);
        "格式：PE\n架构："@ + pe_machine_spec(h.0) + "\n位数："@ + bits_text(h.1) + "\n类型："@ + (if h.3 {
            "DLL"@
        } else {
            "EXE"@
        }) + "\n子系统："@ + match h.2 {
            Some(v) => pe_subsystem_spec(v),
            None => "?"@,
        } + "\n入口(RVA)：0x"@ + hex_lower(h.4 as nat) + "\n镜像基址：0x"@ + hex_lower(h.5 as nat) + "\n"@ + match h.6 {
            Some(n) => "名称："@ + n + "\n"@,
            None => Seq::empty(),
        }
    } else if k == 4 {
        match goblin_mach(d) {
            Some(m) => "格式：Mach-O\n架构："@ + mach_arch_spec(m.0) + "\n位数："@ + bits_text(m.1) + "\n字节序："@
                + endian_text(m.2) + "\n入口：0x"@ + hex_lower(m.3 as nat) + "\n"@,
            None => "格式：Mach-O Fat/Universal（多架构）\n"@,
        }
    } else {
        "格式：静态库/归档 (ar)\n成员数："@ + decimal(goblin_archive_members(d)) + "\n"@
    }
}

fn push_bits(s: &mut String, is_64: bool)
    ensures
        final(s)@ == old(s)@ + bits_text(is_64),
{
    push_str(s, if is_64 { "64" } else { "32" });
    proof {
        reveal_strlit("64");
        reveal_strlit("32");
    }
}

fn push_endian(s: &mut String, little: bool)
    ensures
        final(s)@ == old(s)@ + endian_text(little),
{
    push_str(s, if little { "小端" } else { "大端" });
}

fn push_joined_names(s: &mut String, parts: &Vec<String>)
    ensures
        final(s)@ == old(s)@ + join(parts@.map_values(|x: String| x@), ", "@),
{
    let ghost all = parts@.map_values(|x: String| x@);
    let ghost head = s@;
    let mut k: usize = 0;
    while k < parts.len()
        invariant
            k <= parts.len(),
            all == parts@.map_values(|x: String| x@),
            s@ == head + join(all.take(k as int), ", "@),
        decreases parts.len() - k,
    {
        if k > 0 {
            push_str(s, ", ");
        }
        push_str(s, parts[k].as_str());
        proof {
            let p2 = all.take(k + 1);
            assert(p2.drop_last() =~= all.take(k as int));
            if k == 0 {
                assert(p2.len() == 1);
            }
            assert(s@ =~= head + join(p2, ", "@));
        }
        k += 1;
    }
    assert(all.take(parts.len() as int) =~= all);
}

/// The header fields `binary_info` reports, per format.
pub enum BinaryFacts {
    Elf {
        arch: String,
        is_64: bool,
        little_endian: bool,
        etype: u16,
        entry: u64,
        interpreter: Option<String>,
        libraries: Vec<String>,
        is_lib: bool,
    },
    Pe { machine: u16, is_64: bool, subsystem: Option<u16>, is_lib: bool, entry: u32, image_base: u64 },
    Mach { cputype: u32, is_64: bool, little_endian: bool, entry: u64 },
    MachFat,
    Archive { members: usize },
}

/// `f` holds what goblin reads from the headers of `d`.
pub open spec fn facts_agree(f: BinaryFacts, d: Seq<u8>) -> bool {
    match f {
        BinaryFacts::Elf { arch, is_64, little_endian, etype, entry, interpreter, libraries, is_lib } => {
            let h = goblin_elf_header(d);
            &&& goblin_kind(d).0 == 3
            &&& arch@ == goblin_elf_machine(h.0)
            &&& (h.1, h.2, h.3, h.4, h.7) == (etype, is_64, little_endian, entry, is_lib)
            &&& h.5 == match interpreter {
                Some(x) => Some(x@),
                None => None,
            }
            &&& h.6 == libraries@.map_values(|x: String| x@)
        },
        BinaryFacts::Pe { machine, is_64, subsystem, is_lib, entry, image_base } => {
            let h = goblin_pe_header(d);
            goblin_kind(d).0 == 2 && (h.0, h.1, h.2, h.3, h.4, h.5) == (machine, is_64, subsystem, is_lib, entry,
                image_base)
        },
        BinaryFacts::Mach { cputype, is_64, little_endian, entry } => goblin_kind(d).0 == 4 && goblin_mach(d) == Some(
            (cputype, is_64, little_endian, entry),
        ),
        BinaryFacts::MachFat => goblin_kind(d).0 == 4 && goblin_mach(d) is None,
        BinaryFacts::Archive { members } => goblin_kind(d).0 == 5 && members as nat == goblin_archive_members(d),
    }
}

/// The summary of the executable in `data` (see `info_text`), with the
/// header fields it was made from. Bytes that are no executable give the
/// error `pe_kind_error` describes; another format is `Unsupported`.
pub fn binary_info(data: &[u8]) -> (r: Result<(String, BinaryFacts), CoreError>)
    ensures
        match r {
            Ok(p) => 2 <= goblin_kind(data@).0 <= 5 && p.0@ == info_text(data@) && facts_agree(p.1, data@),
            Err(e) => if goblin_kind(data@).0 == 6 {
                e matches CoreError::Unsupported(m) && m@ == "暂不支持的可执行格式"@
            } else {
                &&& goblin_kind(data@).0 < 2
                &&& (pe_kind_error(goblin_kind(data@)) matches Some(x) && is_kind_error(e, x))
            },
        },
{
    let k = object_kind(data);
    let mut t = String::new();
    let f = match k {
        ObjectKind::Failed(_) | ObjectKind::Unknown(_) => {
            return Err(kind_error(&k));
        },
        ObjectKind::Other => {
            return Err(CoreError::Unsupported(String::from_str("暂不支持的可执行格式")));
        },
        ObjectKind::Elf => {
            let h = elf_header(data);
            push_str(&mut t, "格式：ELF\n架构：");
            let m = elf_machine_name(h.0);
            push_str(&mut t, m.as_str());
            push_str(&mut t, "\n位数：");
            push_bits(&mut t, h.2);
            push_str(&mut t, "\n字节序：");
            push_endian(&mut t, h.3);
            push_str(&mut t, "\n类型：");
            push_str(&mut t, elf_type(h.1));
            push_str(&mut t, "\n入口：0x");
            push_hex_lower(&mut t, h.4);
            push_str(&mut t, "\n");
            match &h.5 {
                Some(i) => {
                    push_str(&mut t, "解释器：");
                    push_str(&mut t, i.as_str());
                    push_str(&mut t, "\n");
                },
                None => {},
            }
            if h.6.len() > 0 {
                push_str(&mut t, "依赖库：");
                push_joined_names(&mut t, &h.6);
                push_str(&mut t, "\n");
            }
            BinaryFacts::Elf {
                arch: m,
                is_64: h.2,
                little_endian: h.3,
                etype: h.1,
                entry: h.4,
                interpreter: h.5,
                libraries: h.6,
                is_lib: h.7,
            }
        },
        ObjectKind::Pe => {
            let h = pe_header(data);
            push_str(&mut t, "格式：PE\n架构：");
            push_str(&mut t, pe_machine(h.0));
            push_str(&mut t, "\n位数：");
            push_bits(&mut t, h.1);
            push_str(&mut t, "\n类型：");
            push_str(&mut t, if h.3 { "DLL" } else { "EXE" });
            proof {
                reveal_strlit("DLL");
                reveal_strlit("EXE");
            }
            push_str(&mut t, "\n子系统：");
            match h.2 {
                Some(v) => {
                    push_str(&mut t, pe_subsystem(v));
                },
                None => {
                    push_str(&mut t, "?");
                },
            }
            push_str(&mut t, "\n入口(RVA)：0x");
            push_hex_lower(&mut t, h.4 as u64);
            push_str(&mut t, "\n镜像基址：0x");
            push_hex_lower(&mut t, h.5);
            push_str(&mut t, "\n");
            match &h.6 {
                Some(n) => {
                    push_str(&mut t, "名称：");
                    push_str(&mut t, n.as_str());
                    push_str(&mut t, "\n");
                },
                None => {},
            }
            BinaryFacts::Pe { machine: h.0, is_64: h.1, subsystem: h.2, is_lib: h.3, entry: h.4, image_base: h.5 }
        },
        ObjectKind::Mach => {
            match mach_header(data) {
                Some(m) => {
                    push_str(&mut t, "格式：Mach-O\n架构：");
                    push_str(&mut t, mach_arch(m.0));
                    push_str(&mut t, "\n位数：");
                    push_bits(&mut t, m.1);
                    push_str(&mut t, "\n字节序：");
                    push_endian(&mut t, m.2);
                    push_str(&mut t, "\n入口：0x");
                    push_hex_lower(&mut t, m.3);
                    push_str(&mut t, "\n");
                    BinaryFacts::Mach { cputype: m.0, is_64: m.1, little_endian: m.2, entry: m.3 }
                },
                None => {
                    push_str(&mut t, "格式：Mach-O Fat/Universal（多架构）\n");
                    BinaryFacts::MachFat
                },
            }
        },
        ObjectKind::Archive => {
            let n = archive_members(data);
            push_str(&mut t, "格式：静态库/归档 (ar)\n成员数：");
            push_decimal(&mut t, n as u64);
            push_str(&mut t, "\n");
            BinaryFacts::Archive { members: n }
        },
    };
    Ok((t, f))
}

} // verus!
