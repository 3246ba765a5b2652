//! Names and small decodings for executable formats (ELF, PE, Mach-O):
//! machine and file-type names, section permissions, CLR flags, resource
//! types, import names for the import hash, and RVA to file offset.
use vstd::prelude::*;
use md5::Digest;
use crate::classic::join;
use crate::hexcodec::{hex_encode, hex_text};
use crate::text::{chars_of, lower, push_char, push_decimal, push_str, string_from_chars, to_lower, decimal};
use vstd::string::StringSliceAdditionalSpecFns;

verus! {

/// The kind of ELF file that an `e_type` names.
pub open spec fn elf_type_spec(v: u16) -> Seq<char> {
    if v == 1 {
        "可重定位(.o)"@
    } else if v == 2 {
        "可执行"@
    } else if v == 3 {
        "共享库/PIE"@
    } else if v == 4 {
        "core dump"@
    } else {
        "其它"@
    }
}

/// The kind of an ELF file from its `e_type`.
pub fn elf_type(v: u16) -> (s: &'static str)
    ensures
        s@ == elf_type_spec(v),
{
    if v == 1 {
        "可重定位(.o)"
    } else if v == 2 {
        "可执行"
    } else if v == 3 {
        "共享库/PIE"
    } else if v == 4 {
        "core dump"
    } else {
        "其它"
    }
}

/// The architecture that a PE machine value names.
pub open spec fn pe_machine_spec(v: u16) -> Seq<char> {
    if v == 0x8664 {
        "x86-64"@
    } else if v == 0x014c {
        "x86"@
    } else if v == 0xaa64 {
        "ARM64"@
    } else if v == 0x01c0 {
        "ARM"@
    } else if v == 0x01c4 {
        "ARM Thumb-2"@
    } else if v == 0x0200 {
        "IA-64"@
    } else {
        "其它"@
    }
}

/// The architecture of a PE COFF machine value.
pub fn pe_machine(v: u16) -> (s: &'static str)
    ensures
        s@ == pe_machine_spec(v),
{
    if v == 0x8664 {
        "x86-64"
    } else if v == 0x014c {
        "x86"
    } else if v == 0xaa64 {
        "ARM64"
    } else if v == 0x01c0 {
        "ARM"
    } else if v == 0x01c4 {
        "ARM Thumb-2"
    } else if v == 0x0200 {
        "IA-64"
    } else {
        "其它"
    }
}

/// The PE subsystem that a value names.
pub open spec fn pe_subsystem_spec(v: u16) -> Seq<char> {
    if v == 1 {
        "Native"@
    } else if v == 2 {
        "Windows GUI"@
    } else if v == 3 {
        "Windows 控制台"@
    } else if v == 5 {
        "OS/2"@
    } else if v == 7 {
        "POSIX"@
    } else if v == 9 {
        "Windows CE"@
    } else if v == 10 {
        "EFI 应用"@
    } else if v == 11 {
        "EFI 引导驱动"@
    } else if v == 12 {
        "EFI 运行时驱动"@
    } else if v == 13 {
        "EFI ROM"@
    } else if v == 16 {
        "Boot 应用"@
    } else {
        "其它/未知"@
    }
}

/// The name of a PE subsystem.
pub fn pe_subsystem(v: u16) -> (s: &'static str)
    ensures
        s@ == pe_subsystem_spec(v),
{
    if v == 1 {
        "Native"
    } else if v == 2 {
        "Windows GUI"
    } else if v == 3 {
        "Windows 控制台"
    } else if v == 5 {
        "OS/2"
    } else if v == 7 {
        "POSIX"
    } else if v == 9 {
        "Windows CE"
    } else if v == 10 {
        "EFI 应用"
    } else if v == 11 {
        "EFI 引导驱动"
    } else if v == 12 {
        "EFI 运行时驱动"
    } else if v == 13 {
        "EFI ROM"
    } else if v == 16 {
        "Boot 应用"
    } else {
        "其它/未知"
    }
}

/// The architecture that a Mach-O CPU type names.
pub open spec fn mach_arch_spec(v: u32) -> Seq<char> {
    if v == 0x0100_0007 {
        "x86-64"@
    } else if v == 0x0000_0007 {
        "x86"@
    } else if v == 0x0100_000c {
        "ARM64"@
    } else if v == 0x0000_000c {
        "ARM"@
    } else if v == 0x0100_0012 {
        "PowerPC64"@
    } else if v == 0x0000_0012 {
        "PowerPC"@
    } else {
        "其它"@
    }
}

/// The architecture of a Mach-O CPU type.
pub fn mach_arch(v: u32) -> (s: &'static str)
    ensures
        s@ == mach_arch_spec(v),
{
    if v == 0x0100_0007 {
        "x86-64"
    } else if v == 0x0000_0007 {
        "x86"
    } else if v == 0x0100_000c {
        "ARM64"
    } else if v == 0x0000_000c {
        "ARM"
    } else if v == 0x0100_0012 {
        "PowerPC64"
    } else if v == 0x0000_0012 {
        "PowerPC"
    } else {
        "其它"
    }
}

/// The resource type that an id names.
pub open spec fn resource_type_name_spec(v: u16) -> Seq<char> {
    if v == 1 {
        "RT_CURSOR"@
    } else if v == 2 {
        "RT_BITMAP"@
    } else if v == 3 {
        "RT_ICON"@
    } else if v == 4 {
        "RT_MENU"@
    } else if v == 5 {
        "RT_DIALOG"@
    } else if v == 6 {
        "RT_STRING"@
    } else if v == 7 {
        "RT_FONTDIR"@
    } else if v == 8 {
        "RT_FONT"@
    } else if v == 9 {
        "RT_ACCELERATOR"@
    } else if v == 10 {
        "RT_RCDATA"@
    } else if v == 11 {
        "RT_MESSAGETABLE"@
    } else if v == 12 {
        "RT_GROUP_CURSOR"@
    } else if v == 14 {
        "RT_GROUP_ICON"@
    } else if v == 16 {
        "RT_VERSION"@
    } else if v == 17 {
        "RT_DLGINCLUDE"@
    } else if v == 19 {
        "RT_PLUGPLAY"@
    } else if v == 20 {
        "RT_VXD"@
    } else if v == 21 {
        "RT_ANICURSOR"@
    } else if v == 22 {
        "RT_ANIICON"@
    } else if v == 23 {
        "RT_HTML"@
    } else if v == 24 {
        "RT_MANIFEST"@
    } else {
        "RT_UNKNOWN"@
    }
}

/// The name of a PE resource type id.
pub fn resource_type_name(v: u16) -> (s: &'static str)
    ensures
        s@ == resource_type_name_spec(v),
{
    if v == 1 {
        "RT_CURSOR"
    } else if v == 2 {
        "RT_BITMAP"
    } else if v == 3 {
        "RT_ICON"
    } else if v == 4 {
        "RT_MENU"
    } else if v == 5 {
        "RT_DIALOG"
    } else if v == 6 {
        "RT_STRING"
    } else if v == 7 {
        "RT_FONTDIR"
    } else if v == 8 {
        "RT_FONT"
    } else if v == 9 {
        "RT_ACCELERATOR"
    } else if v == 10 {
        "RT_RCDATA"
    } else if v == 11 {
        "RT_MESSAGETABLE"
    } else if v == 12 {
        "RT_GROUP_CURSOR"
    } else if v == 14 {
        "RT_GROUP_ICON"
    } else if v == 16 {
        "RT_VERSION"
    } else if v == 17 {
        "RT_DLGINCLUDE"
    } else if v == 19 {
        "RT_PLUGPLAY"
    } else if v == 20 {
        "RT_VXD"
    } else if v == 21 {
        "RT_ANICURSOR"
    } else if v == 22 {
        "RT_ANIICON"
    } else if v == 23 {
        "RT_HTML"
    } else if v == 24 {
        "RT_MANIFEST"
    } else {
        "RT_UNKNOWN"
    }
}

/// `r`, `w`, `x` for the readable (0x40000000), writable (0x80000000) and
/// executable (0x20000000) section characteristics, `-` where absent.
pub open spec fn pe_perms_spec(ch: u32) -> Seq<char> {
    seq![
        if (ch / 0x4000_0000) % 2 == 1 { 'r' } else { '-' },
        if ch / 0x8000_0000 == 1 { 'w' } else { '-' },
        if (ch / 0x2000_0000) % 2 == 1 { 'x' } else { '-' },
    ]
}

/// The `rwx` permissions of a PE section.
pub fn pe_perms(ch: u32) -> (s: String)
    ensures
        s@ == pe_perms_spec(ch),
{
    let mut s = String::new();
    push_char(&mut s, if (ch / 0x4000_0000) % 2 == 1 { 'r' } else { '-' });
    push_char(&mut s, if ch / 0x8000_0000 == 1 { 'w' } else { '-' });
    push_char(&mut s, if (ch / 0x2000_0000) % 2 == 1 { 'x' } else { '-' });
    assert(s@ =~= pe_perms_spec(ch));
    s
}

/// The CLR runtime flags, in order of their bits.
pub open spec fn clr_flag(k: int) -> (u32, Seq<char>) {
    if k == 0 {
        (0x1, "ILONLY"@)
    } else if k == 1 {
        (0x2, "32BITREQUIRED"@)
    } else if k == 2 {
        (0x4, "IL_LIBRARY"@)
    } else if k == 3 {
        (0x8, "STRONGNAMESIGNED"@)
    } else if k == 4 {
        (0x10, "NATIVE_ENTRYPOINT"@)
    } else if k == 5 {
        (0x1_0000, "TRACKDEBUGDATA"@)
    } else {
        (0x2_0000, "32BITPREFERRED"@)
    }
}

/// Whether bit `b` (a power of two) is set in `flags`.
pub open spec fn has_bit(flags: u32, b: u32) -> bool {
    (flags / b) % 2 == 1
}

/// The names of the set flags among the first `k` known ones.
pub open spec fn clr_flags_upto(flags: u32, k: int) -> Seq<Seq<char>>
    decreases k,
{
    if k <= 0 {
        Seq::empty()
    } else if has_bit(flags, clr_flag(k - 1).0) {
        clr_flags_upto(flags, k - 1).push(clr_flag(k - 1).1)
    } else {
        clr_flags_upto(flags, k - 1)
    }
}

/// The names of the CLR runtime flags set in `flags`.
pub fn clr_flags_text(flags: u32) -> (out: Vec<&'static str>)
    ensures
        out@.map_values(|s: &'static str| s@) == clr_flags_upto(flags, 7),
{
    let bits: [u32; 7] = [0x1, 0x2, 0x4, 0x8, 0x10, 0x1_0000, 0x2_0000];
    let names: [&'static str; 7] = [
        "ILONLY",
        "32BITREQUIRED",
        "IL_LIBRARY",
        "STRONGNAMESIGNED",
        "NATIVE_ENTRYPOINT",
        "TRACKDEBUGDATA",
        "32BITPREFERRED",
    ];
    let mut out: Vec<&'static str> = Vec::new();
    let mut k: usize = 0;
    while k < 7
        invariant
            k <= 7,
            forall|q: int| 0 <= q < 7 ==> bits@[q] == clr_flag(q).0 && names@[q]@ == clr_flag(q).1,
            out@.map_values(|s: &'static str| s@) == clr_flags_upto(flags, k as int),
        decreases 7 - k,
    {
        assert(bits@[k as int] == clr_flag(k as int).0);
        assert(bits@[k as int] > 0);
        if (flags / bits[k]) % 2 == 1 {
            let ghost pre = out@;
            out.push(names[k]);
            assert(out@.map_values(|s: &'static str| s@) =~= pre.map_values(|s: &'static str| s@).push(
                names@[k as int]@,
            ));
        }
        k += 1;
    }
    out
}

/// `s` without the suffix `suf`, where it ends with it.
pub open spec fn strip_suffix(s: Seq<char>, suf: Seq<char>) -> Option<Seq<char>> {
    if s.len() >= suf.len() && s.skip(s.len() - suf.len()) == suf {
        Some(s.take(s.len() - suf.len()))
    } else {
        None
    }
}

/// A DLL name as the import hash uses it: ASCII lower case, without a
/// `.dll`, `.ocx` or `.sys` suffix.
pub open spec fn normalize_dll_spec(dll: Seq<char>) -> Seq<char> {
    let l = dll.map_values(|c: char| lower(c));
    match strip_suffix(l, ".dll"@) {
        Some(t) => t,
        None => match strip_suffix(l, ".ocx"@) {
            Some(t) => t,
            None => match strip_suffix(l, ".sys"@) {
                Some(t) => t,
                None => l,
            },
        },
    }
}

fn lowered(s: &str) -> (v: Vec<char>)
    ensures
        v@ == s@.map_values(|c: char| lower(c)),
{
    let cs = chars_of(s);
    let mut v: Vec<char> = Vec::new();
    let mut i: usize = 0;
    while i < cs.len()
        invariant
            i <= cs.len(),
            cs@ == s@,
            v@ == cs@.take(i as int).map_values(|c: char| lower(c)),
        decreases cs.len() - i,
    {
        let c = to_lower(cs[i]);
        v.push(c);
        assert(cs@.take(i + 1).map_values(|c: char| lower(c)) =~= cs@.take(i as int).map_values(
            |c: char| lower(c),
        ).push(c));
        i += 1;
    }
    assert(cs@.take(cs.len() as int) =~= cs@);
    v
}

fn try_strip(v: &Vec<char>, suf: &str) -> (r: Option<Vec<char>>)
    ensures
        match (r, strip_suffix(v@, suf@)) {
            (Some(a), Some(b)) => a@ == b,
            (None, None) => true,
            _ => false,
        },
{
    let sc = chars_of(suf);
    if v.len() < sc.len() {
        return None;
    }
    let start = v.len() - sc.len();
    let mut i: usize = 0;
    while i < sc.len()
        invariant
            i <= sc.len(),
            sc@ == suf@,
            start + sc.len() == v.len(),
            forall|q: int| 0 <= q < i ==> v@[start + q] == sc@[q],
        decreases sc.len() - i,
    {
        if v[start + i] != sc[i] {
            assert(v@.skip(start as int)[i as int] != sc@[i as int]);
            return None;
        }
        i += 1;
    }
    assert(v@.skip(start as int) =~= sc@);
    let mut t: Vec<char> = Vec::new();
    let mut j: usize = 0;
    while j < start
        invariant
            j <= start,
            start <= v.len(),
            t@ == v@.take(j as int),
        decreases start - j,
    {
        t.push(v[j]);
        assert(v@.take(j + 1) =~= v@.take(j as int).push(v@[j as int]));
        j += 1;
    }
    Some(t)
}

/// Normalise an imported DLL's name for the import hash.
pub fn normalize_import_dll(dll: &str) -> (s: String)
    ensures
        s@ == normalize_dll_spec(dll@),
{
    let l = lowered(dll);
    match try_strip(&l, ".dll") {
        Some(t) => string_from_chars(&t),
        None => match try_strip(&l, ".ocx") {
            Some(t) => string_from_chars(&t),
            None => match try_strip(&l, ".sys") {
                Some(t) => string_from_chars(&t),
                None => string_from_chars(&l),
            },
        },
    }
}

/// One part of the import hash: `dll.name`, the name lower-cased, or
/// `ordinalN` for an import by ordinal.
pub open spec fn imphash_part_spec(dll: Seq<char>, name: Seq<char>, ordinal: u16) -> Seq<char> {
    normalize_dll_spec(dll) + "."@ + if name.len() >= 8 && name.take(8) == "ORDINAL "@ {
        "ordinal"@ + decimal(ordinal as nat)
    } else {
        name.map_values(|c: char| lower(c))
    }
}

/// One part of the import hash of a PE import.
pub fn imphash_part(dll: &str, name: &str, ordinal: u16) -> (s: String)
    ensures
        s@ == imphash_part_spec(dll@, name@, ordinal),
{
    let mut s = normalize_import_dll(dll);
    push_str(&mut s, ".");
    let nc = chars_of(name);
    let prefix = chars_of("ORDINAL ");
    proof {
        reveal_strlit("ORDINAL ");
    }
    let mut by_ordinal = nc.len() >= 8;
    let mut k: usize = 0;
    while by_ordinal && k < 8
        invariant
            k <= 8,
            prefix@ == "ORDINAL "@,
            prefix.len() == 8,
            by_ordinal ==> nc.len() >= 8,
            by_ordinal ==> forall|q: int| 0 <= q < k ==> nc@[q] == prefix@[q],
            !by_ordinal ==> !(nc@.len() >= 8 && nc@.take(8) == "ORDINAL "@),
        decreases 8 - k,
    {
        if nc[k] != prefix[k] {
            assert(nc@.take(8)[k as int] != "ORDINAL "@[k as int]);
            by_ordinal = false;
        }
        k += 1;
    }
    if by_ordinal {
        assert(nc@.take(8) =~= "ORDINAL "@);
        push_str(&mut s, "ordinal");
        push_decimal(&mut s, ordinal as u64);
    } else {
        let l = lowered(name);
        let ls = string_from_chars(&l);
        push_str(&mut s, ls.as_str());
    }
    s
}

/// A PE section header's placement.
#[derive(Debug, Clone, Copy)]
pub struct SectionSpan {
    pub virtual_address: u32,
    pub virtual_size: u32,
    pub size_of_raw_data: u32,
    pub pointer_to_raw_data: u32,
}

/// The RVA range a section covers: from its virtual address, as long as
/// the larger of its virtual and raw sizes.
pub open spec fn span_end(s: SectionSpan) -> int {
    s.virtual_address as int + if s.virtual_size > s.size_of_raw_data {
        s.virtual_size as int
    } else {
        s.size_of_raw_data as int
    }
}

/// The file offset of an RVA: through the first section whose range holds
/// it.
pub open spec fn rva_to_offset_spec(sections: Seq<SectionSpan>, rva: u32) -> Option<int>
    decreases sections.len(),
{
    if sections.len() == 0 {
        None
    } else {
        let s = sections[0];
        if rva >= s.virtual_address && (rva as int) < span_end(s) {
            Some(s.pointer_to_raw_data as int + (rva - s.virtual_address))
        } else {
            rva_to_offset_spec(sections.skip(1), rva)
        }
    }
}

/// The file offset of an RVA.
pub fn rva_to_offset(sections: &[SectionSpan], rva: u32) -> (r: Option<u64>)
    ensures
        match (r, rva_to_offset_spec(sections@, rva)) {
            (Some(a), Some(b)) => a == b,
            (None, None) => true,
            _ => false,
        },
{
    let mut i: usize = 0;
    assert(sections@.skip(0) =~= sections@);
    while i < sections.len()
        invariant
            i <= sections.len(),
            rva_to_offset_spec(sections@, rva) == rva_to_offset_spec(sections@.skip(i as int), rva),
        decreases sections.len() - i,
    {
        let s = sections[i];
        assert(sections@.skip(i as int)[0] == s);
        let size = if s.virtual_size > s.size_of_raw_data {
            s.virtual_size
        } else {
            s.size_of_raw_data
        };
        let start = s.virtual_address as u64;
        if rva as u64 >= start && (rva as u64) < start + size as u64 {
            return Some(s.pointer_to_raw_data as u64 + (rva as u64 - start));
        }
        assert(sections@.skip(i as int).skip(1) =~= sections@.skip(i + 1));
        i += 1;
    }
    None
}

/// Whether a section's RVA range holds `rva`.
pub open spec fn holds_rva(s: SectionSpan, rva: u32) -> bool {
    rva >= s.virtual_address && (rva as int) < span_end(s)
}

/// The index of the first section whose range holds an RVA.
pub fn section_of(sections: &[SectionSpan], rva: u32) -> (r: Option<usize>)
    ensures
        match r {
            Some(i) => i < sections@.len() && holds_rva(sections@[i as int], rva) && forall|k: int|
                0 <= k < i ==> !holds_rva(#[trigger] sections@[k], rva),
            None => forall|k: int| 0 <= k < sections@.len() ==> !holds_rva(#[trigger] sections@[k], rva),
        },
{
    let mut i: usize = 0;
    while i < sections.len()
        invariant
            i <= sections.len(),
            forall|k: int| 0 <= k < i ==> !holds_rva(#[trigger] sections@[k], rva),
        decreases sections.len() - i,
    {
        let s = sections[i];
        let size = if s.virtual_size > s.size_of_raw_data {
            s.virtual_size
        } else {
            s.size_of_raw_data
        };
        let start = s.virtual_address as u64;
        if rva as u64 >= start && (rva as u64) < start + size as u64 {
            return Some(i);
        }
        i += 1;
    }
    None
}

/// The MD5 digest of bytes, as `md5::Md5::digest` computes it.
pub uninterp spec fn md5_digest(d: Seq<u8>) -> Seq<u8>;

/// `md5::Md5::digest`: the 16-byte MD5 digest of the bytes.
#[verifier::external_body]
fn md5_of(d: &[u8]) -> (r: Vec<u8>)
    ensures
        r@ == md5_digest(d@),
        r@.len() == 16,
{
    md5::Md5::digest(d).to_vec()
}

/// The import hash of import entries (`dll.function`, in import order):
/// the MD5 of the entries joined by commas, in hex; and the report that
/// gives the hash, the number of imports and the joined list.
pub open spec fn imphash_spec(parts: Seq<Seq<char>>) -> (Seq<char>, Seq<char>) {
    let joined = join(parts, ","@);
    let hash = hex_text(md5_digest(vstd::utf8::encode_utf8(joined)));
    (hash, "imphash: "@ + hash + "\nimports: "@ + decimal(parts.len()) + "\n"@ + joined)
}

/// The import hash and its report.
pub fn imphash(parts: &[String]) -> (r: (String, String))
    ensures
        r.0@ == imphash_spec(parts@.map_values(|p: String| p@)).0,
        r.1@ == imphash_spec(parts@.map_values(|p: String| p@)).1,
{
    let ghost all = parts@.map_values(|p: String| p@);
    let mut joined = String::new();
    let mut k: usize = 0;
    while k < parts.len()
        invariant
            k <= parts.len(),
            all == parts@.map_values(|p: String| p@),
            joined@ == join(all.take(k as int), ","@),
        decreases parts.len() - k,
    {
        if k > 0 {
            push_str(&mut joined, ",");
        }
        push_str(&mut joined, parts[k].as_str());
        proof {
            let p2 = all.take(k + 1);
            assert(p2.drop_last() =~= all.take(k as int));
            assert(p2.last() == parts@[k as int]@);
            if k == 0 {
                assert(p2.len() == 1);
            }
            assert(joined@ =~= join(p2, ","@));
        }
        k += 1;
    }
    assert(all.take(parts.len() as int) =~= all);
    let digest = md5_of(joined.as_str().as_bytes());
    let hash = hex_encode(digest.as_slice());
    let mut text = String::new();
    push_str(&mut text, "imphash: ");
    push_str(&mut text, hash.as_str());
    push_str(&mut text, "\nimports: ");
    push_decimal(&mut text, parts.len() as u64);
    push_str(&mut text, "\n");
    push_str(&mut text, joined.as_str());
    (hash, text)
}

/// What the CLR header of a .NET file says, as plain values.
pub struct ClrFacts {
    pub runtime_major: u16,
    pub runtime_minor: u16,
    pub metadata_version: String,
    pub signature_valid: bool,
    pub flags: u32,
    pub entry_point: u32,
    /// The module version id, where the metadata gives one.
    pub mvid: Option<Vec<u8>>,
    /// The names of the metadata streams.
    pub streams: Vec<String>,
}

/// `true` or `false`.
pub open spec fn bool_text(b: bool) -> Seq<char> {
    if b {
        "true"@
    } else {
        "false"@
    }
}

/// The lines of the CLR report: runtime version, metadata version,
/// signature, flags (value and names), entry point, the MVID in hex where
/// there is one, and the streams where there are any.
pub open spec fn clr_lines(c: ClrFacts) -> Seq<Seq<char>> {
    seq![
        "CLR runtime: "@ + decimal(c.runtime_major as nat) + "."@ + decimal(c.runtime_minor as nat),
        "metadata version: "@ + c.metadata_version@,
        "signature valid: "@ + bool_text(c.signature_valid),
        "flags: 0x"@ + crate::bkcrack::hex8(c.flags) + " "@ + join(clr_flags_upto(c.flags, 7), "|"@),
        "entry point token/RVA: 0x"@ + crate::bkcrack::hex8(c.entry_point),
    ] + match c.mvid {
        Some(m) => seq!["MVID: "@ + hex_text(m@)],
        None => Seq::empty(),
    } + if c.streams@.len() > 0 {
        seq!["streams: "@ + join(c.streams@.map_values(|s: String| s@), ", "@)]
    } else {
        Seq::empty()
    }
}

/// Append `parts` joined by `sep`.
fn push_joined(out: &mut String, parts: &Vec<String>, sep: &str)
    ensures
        final(out)@ == old(out)@ + join(parts@.map_values(|s: String| s@), sep@),
{
    let ghost all = parts@.map_values(|s: String| s@);
    let ghost head = out@;
    let mut k: usize = 0;
    while k < parts.len()
        invariant
            k <= parts.len(),
            all == parts@.map_values(|s: String| s@),
            out@ == head + join(all.take(k as int), sep@),
        decreases parts.len() - k,
    {
        if k > 0 {
            push_str(out, sep);
        }
        push_str(out, parts[k].as_str());
        proof {
            let p2 = all.take(k + 1);
            assert(p2.drop_last() =~= all.take(k as int));
            if k == 0 {
                assert(p2.len() == 1);
            }
            assert(out@ =~= head + join(p2, sep@));
        }
        k += 1;
    }
    assert(all.take(parts.len() as int) =~= all);
}

/// The report on a .NET file's CLR header, a line each (see `clr_lines`),
/// and the MVID in hex.
pub fn clr_report(c: &ClrFacts) -> (r: (String, Option<String>))
    ensures
        r.0@ == join(clr_lines(*c), "\n"@),
        match (r.1, c.mvid) {
            (Some(h), Some(m)) => h@ == hex_text(m@),
            (None, None) => true,
            _ => false,
        },
{
    let mut lines: Vec<String> = Vec::new();
    let mut l = String::new();
    push_str(&mut l, "CLR runtime: ");
    push_decimal(&mut l, c.runtime_major as u64);
    push_str(&mut l, ".");
    push_decimal(&mut l, c.runtime_minor as u64);
    lines.push(l);
    let mut l = String::new();
    push_str(&mut l, "metadata version: ");
    push_str(&mut l, c.metadata_version.as_str());
    lines.push(l);
    let mut l = String::new();
    push_str(&mut l, "signature valid: ");
    push_str(&mut l, if c.signature_valid { "true" } else { "false" });
    lines.push(l);
    let mut l = String::new();
    push_str(&mut l, "flags: 0x");
    crate::bkcrack::push_hex8(&mut l, c.flags);
    push_str(&mut l, " ");
    let names = clr_flags_text(c.flags);
    let mut owned: Vec<String> = Vec::new();
    let mut k: usize = 0;
    while k < names.len()
        invariant
            k <= names.len(),
            owned@.map_values(|s: String| s@) == names@.take(k as int).map_values(|s: &'static str| s@),
        decreases names.len() - k,
    {
        let ghost before = owned@;
        let piece = string_from_chars(&chars_of(names[k]));
        assert(piece@ == names@[k as int]@);
        owned.push(piece);
        assert(owned@ == before.push(piece));
        assert(owned@.map_values(|s: String| s@) =~= before.map_values(|s: String| s@).push(piece@));
        assert(names@.take(k + 1).map_values(|s: &'static str| s@) =~= names@.take(k as int).map_values(
            |s: &'static str| s@,
        ).push(names@[k as int]@));
        assert(owned@.map_values(|s: String| s@) =~= names@.take(k + 1).map_values(|s: &'static str| s@));
        k += 1;
    }
    assert(names@.take(names.len() as int) =~= names@);
    push_joined(&mut l, &owned, "|");
    lines.push(l);
    let mut l = String::new();
    push_str(&mut l, "entry point token/RVA: 0x");
    crate::bkcrack::push_hex8(&mut l, c.entry_point);
    lines.push(l);
    let mvid = match &c.mvid {
        Some(m) => {
            let h = hex_encode(m.as_slice());
            let mut l = String::new();
            push_str(&mut l, "MVID: ");
            push_str(&mut l, h.as_str());
            lines.push(l);
            Some(h)
        },
        None => None,
    };
    if c.streams.len() > 0 {
        let mut l = String::new();
        push_str(&mut l, "streams: ");
        push_joined(&mut l, &c.streams, ", ");
        lines.push(l);
    }
    proof {
        reveal_strlit("true");
        reveal_strlit("false");
    }
    assert(lines@.map_values(|s: String| s@) =~= clr_lines(*c));
    let mut text = String::new();
    push_joined(&mut text, &lines, "\n");
    (text, mvid)
}

} // verus!
