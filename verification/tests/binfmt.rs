use misclab_core::binfmt::{
    clr_flags_text, clr_report, elf_type, imphash, imphash_part, ClrFacts, mach_arch, normalize_import_dll, pe_machine, pe_perms,
    pe_subsystem, resource_type_name, rva_to_offset, section_of, SectionSpan,
};
use misclab_core::objfile::{object_sections, overlay, ObjectSections};
use misclab_core::packer::{packer_hints, SectionFacts};
use misclab_core::peres::{resource_leaves, resource_path, resources_text};
use misclab_core::viz::byte_color;

#[test]
fn format_names() {
    assert_eq!(elf_type(2), "可执行");
    assert_eq!(elf_type(3), "共享库/PIE");
    assert_eq!(elf_type(99), "其它");
    assert_eq!(pe_machine(0x8664), "x86-64");
    assert_eq!(pe_machine(0x014c), "x86");
    assert_eq!(pe_machine(1), "其它");
    assert_eq!(pe_subsystem(3), "Windows 控制台");
    assert_eq!(pe_subsystem(4), "其它/未知");
    assert_eq!(mach_arch(0x0100_000c), "ARM64");
    assert_eq!(resource_type_name(24), "RT_MANIFEST");
    assert_eq!(resource_type_name(13), "RT_UNKNOWN");
}

#[test]
fn section_permissions_and_flags() {
    assert_eq!(pe_perms(0x6000_0020), "r-x");
    assert_eq!(pe_perms(0xc000_0040), "rw-");
    assert_eq!(pe_perms(0), "---");
    assert_eq!(clr_flags_text(0x0002_0009), vec!["ILONLY", "STRONGNAMESIGNED", "32BITPREFERRED"]);
    assert_eq!(clr_flags_text(0), Vec::<&str>::new());
}

#[test]
fn import_hash_parts() {
    assert_eq!(normalize_import_dll("KERNEL32.DLL"), "kernel32");
    assert_eq!(normalize_import_dll("comctl.OCX"), "comctl");
    assert_eq!(normalize_import_dll("driver.sys"), "driver");
    assert_eq!(normalize_import_dll("weird.exe"), "weird.exe");
    assert_eq!(imphash_part("KERNEL32.dll", "GetProcAddress", 0), "kernel32.getprocaddress");
    assert_eq!(imphash_part("ws2_32.dll", "ORDINAL 23", 23), "ws2_32.ordinal23");
}

#[test]
fn rva_mapping() {
    let sections = [
        SectionSpan { virtual_address: 0x1000, virtual_size: 0x200, size_of_raw_data: 0x400, pointer_to_raw_data: 0x400 },
        SectionSpan { virtual_address: 0x2000, virtual_size: 0x100, size_of_raw_data: 0, pointer_to_raw_data: 0x800 },
    ];
    assert_eq!(rva_to_offset(&sections, 0x1010), Some(0x410));
    assert_eq!(rva_to_offset(&sections, 0x13ff), Some(0x7ff));
    assert_eq!(rva_to_offset(&sections, 0x2050), Some(0x850));
    assert_eq!(rva_to_offset(&sections, 0x3000), None);
}

#[test]
fn byte_colours() {
    assert_eq!(byte_color(0), [40, 42, 54]);
    assert_eq!(byte_color(b'\n'), [90, 200, 210]);
    assert_eq!(byte_color(b'A'), [90, 200, 130]);
    assert_eq!(byte_color(0xff), [200, 130, 220]);
    assert_eq!(byte_color(0x80), [230, 150, 80]);
}

fn section(name: &str, ch: u32, ptr: u32, raw: u32, virt: u32, entropy: Option<&str>) -> SectionFacts {
    SectionFacts {
        name: name.to_string(),
        characteristics: ch,
        pointer_to_raw_data: ptr,
        size_of_raw_data: raw,
        virtual_size: virt,
        high_entropy: entropy.map(|e| e.to_string()),
    }
}

#[test]
fn packed_upx_file_scores_high() {
    let secs = vec![
        section("UPX0", 0xe000_0080, 0x400, 0, 0x10000, None),
        section("UPX1", 0xe000_0040, 0x400, 0x2000, 0x2000, Some("7.91")),
    ];
    let r = packer_hints(&secs, Some(1), 2, false, 0x2400);
    assert_eq!(
        r.hints,
        vec![
            "可疑节区名：UPX0",
            "UPX0 同时可写可执行 (rwx)",
            "UPX0 原始大小为 0 但虚拟大小非 0",
            "可疑节区名：UPX1",
            "UPX1 高熵 7.91",
            "UPX1 同时可写可执行 (rwx)",
            "入口点位于最后一个节区：UPX1",
            "导入函数很少：2",
        ]
    );
    assert_eq!(r.score_halves, 6 + 3 + 2 + 6 + 3 + 3 + 2 + 1);
    assert!(r.packed);
    assert!(r.text.starts_with("score: 13.0\npackedHint: true\n可疑节区名：UPX0\n"), "{}", r.text);
}

#[test]
fn plain_file_has_no_hints() {
    let secs = vec![
        section(".text", 0x6000_0020, 0x400, 0x1000, 0x1000, None),
        section(".data", 0xc000_0040, 0x1400, 0x200, 0x200, None),
    ];
    let r = packer_hints(&secs, Some(0), 40, false, 0x1600);
    assert!(r.hints.is_empty());
    assert_eq!(r.score_halves, 0);
    assert!(!r.packed);
    assert_eq!(r.text, "未发现明显壳特征");
    let r = packer_hints(&secs, Some(0), 40, true, 0x1600 + 5000);
    assert_eq!(r.hints, vec!["存在 TLS 目录，需检查 TLS callback", "存在较大 overlay：5000 bytes"]);
    assert_eq!(r.text, "score: 1.0\npackedHint: false\n存在 TLS 目录，需检查 TLS callback\n存在较大 overlay：5000 bytes");
}

#[test]
fn entry_section_lookup() {
    let spans = vec![
        SectionSpan { virtual_address: 0x1000, virtual_size: 0x800, size_of_raw_data: 0x1000, pointer_to_raw_data: 0x400 },
        SectionSpan { virtual_address: 0x2000, virtual_size: 0x100, size_of_raw_data: 0, pointer_to_raw_data: 0 },
    ];
    assert_eq!(section_of(&spans, 0x1fff), Some(0));
    assert_eq!(section_of(&spans, 0x20ff), Some(1));
    assert_eq!(section_of(&spans, 0x2100), None);
}

fn put_u16(buf: &mut [u8], off: usize, n: u16) {
    buf[off..off + 2].copy_from_slice(&n.to_le_bytes());
}

fn put_u32(buf: &mut [u8], off: usize, n: u32) {
    buf[off..off + 4].copy_from_slice(&n.to_le_bytes());
}

fn make_minimal_pe(upx_names: bool) -> Vec<u8> {
    let mut pe = vec![0u8; 0x600];
    pe[0..2].copy_from_slice(b"MZ");
    put_u32(&mut pe, 0x3c, 0x80);
    pe[0x80..0x84].copy_from_slice(b"PE\0\0");
    let coff = 0x84;
    put_u16(&mut pe, coff, 0x14c);
    put_u16(&mut pe, coff + 2, 2);
    put_u16(&mut pe, coff + 16, 0xe0);
    put_u16(&mut pe, coff + 18, 0x010f);

    let opt = coff + 20;
    put_u16(&mut pe, opt, 0x10b);
    put_u32(&mut pe, opt + 16, 0x2000);
    put_u32(&mut pe, opt + 20, 0x1000);
    put_u32(&mut pe, opt + 24, 0x2000);
    put_u32(&mut pe, opt + 28, 0x400000);
    put_u32(&mut pe, opt + 32, 0x1000);
    put_u32(&mut pe, opt + 36, 0x200);
    put_u32(&mut pe, opt + 56, 0x3000);
    put_u32(&mut pe, opt + 60, 0x200);
    put_u16(&mut pe, opt + 68, 3);
    put_u32(&mut pe, opt + 72, 0x100000);
    put_u32(&mut pe, opt + 76, 0x1000);
    put_u32(&mut pe, opt + 80, 0x100000);
    put_u32(&mut pe, opt + 84, 0x1000);
    put_u32(&mut pe, opt + 92, 16);

    let sec = opt + 0xe0;
    let names = if upx_names {
        (*b"UPX0\0\0\0\0", *b"UPX1\0\0\0\0")
    } else {
        (*b".text\0\0\0", *b".data\0\0\0")
    };
    pe[sec..sec + 8].copy_from_slice(&names.0);
    put_u32(&mut pe, sec + 8, 0x1000);
    put_u32(&mut pe, sec + 12, 0x1000);
    put_u32(&mut pe, sec + 16, 0x200);
    put_u32(&mut pe, sec + 20, 0x200);
    put_u32(&mut pe, sec + 36, 0x60000020);

    let sec2 = sec + 40;
    pe[sec2..sec2 + 8].copy_from_slice(&names.1);
    put_u32(&mut pe, sec2 + 8, 0x1000);
    put_u32(&mut pe, sec2 + 12, 0x2000);
    put_u32(&mut pe, sec2 + 16, 0x200);
    put_u32(&mut pe, sec2 + 20, 0x400);
    put_u32(&mut pe, sec2 + 36, 0xe0000020);

    for i in 0..0x200 {
        pe[0x400 + i] = (i.wrapping_mul(37) & 0xff) as u8;
    }
    pe
}

fn shannon(data: &[u8]) -> f64 {
    let mut freq = [0u32; 256];
    for &b in data {
        freq[b as usize] += 1;
    }
    let len = data.len() as f64;
    freq.iter().filter(|&&c| c > 0).map(|&c| c as f64 / len).map(|p| -p * p.log2()).sum()
}

fn section_spans(pe: &goblin::pe::PE) -> Vec<SectionSpan> {
    pe.sections
        .iter()
        .map(|s| SectionSpan {
            virtual_address: s.virtual_address,
            virtual_size: s.virtual_size,
            size_of_raw_data: s.size_of_raw_data,
            pointer_to_raw_data: s.pointer_to_raw_data,
        })
        .collect()
}

/// The packer heuristics of a PE file, its sections read by goblin.
fn packer_report(data: &[u8]) -> misclab_core::packer::PackerReport {
    let pe = goblin::pe::PE::parse(data).unwrap();
    let facts: Vec<SectionFacts> = pe
        .sections
        .iter()
        .map(|s| {
            let start = s.pointer_to_raw_data as usize;
            let end = (start + s.size_of_raw_data as usize).min(data.len());
            let bytes = data.get(start..end).unwrap_or(&[]);
            let e = shannon(bytes);
            SectionFacts {
                name: s.name().unwrap_or("").trim_end_matches('\0').to_string(),
                characteristics: s.characteristics,
                pointer_to_raw_data: s.pointer_to_raw_data,
                size_of_raw_data: s.size_of_raw_data,
                virtual_size: s.virtual_size,
                high_entropy: (e >= 7.2 && bytes.len() >= 512).then(|| format!("{e:.2}")),
            }
        })
        .collect();
    let entry = section_of(&section_spans(&pe), pe.entry as u32);
    packer_hints(&facts, entry, pe.imports.len(), pe.tls_data.is_some(), data.len())
}

#[test]
fn packer_hints_flags_upx_sections() {
    let r = packer_report(&make_minimal_pe(true));
    assert!(r.packed);
    assert!(r.text.contains("UPX"), "{}", r.text);
}

#[test]
fn pe_empty_tables_are_graceful() {
    let data = make_minimal_pe(false);
    let pe = goblin::pe::PE::parse(&data).unwrap();
    assert_eq!(pe.certificates.len(), 0);
    let (rva, size) = pe
        .header
        .optional_header
        .as_ref()
        .and_then(|o| o.data_directories.get_resource_table().map(|d| (d.virtual_address, d.size)))
        .unwrap_or((0, 0));
    let leaves = resource_leaves(&data, &section_spans(&pe), rva, size).unwrap();
    assert_eq!(leaves.len(), 0);
    assert_eq!(resources_text(&leaves), "（无资源目录或无叶子资源）");
    let parts: Vec<String> = pe.imports.iter().map(|im| imphash_part(im.dll, &im.name, im.ordinal)).collect();
    let (hash, _) = imphash(&parts);
    assert_eq!(hash, "d41d8cd98f00b204e9800998ecf8427e");
}

/// A resource section holding a type directory with one numbered entry, a
/// name directory with one named entry, and a data entry.
fn resource_tree() -> Vec<u8> {
    let mut r = vec![0u8; 0x80];
    // root: one id entry (type 3 = RT_ICON) -> directory at 0x18
    put_u16(&mut r, 14, 1);
    put_u32(&mut r, 16, 3);
    put_u32(&mut r, 20, 0x8000_0018);
    // second level at 0x18: one named entry -> data entry at 0x40
    put_u16(&mut r, 0x18 + 12, 1);
    put_u32(&mut r, 0x18 + 16, 0x8000_0030);
    put_u32(&mut r, 0x18 + 20, 0x40);
    // the name "AB" at 0x30
    put_u16(&mut r, 0x30, 2);
    put_u16(&mut r, 0x32, b'A' as u16);
    put_u16(&mut r, 0x34, b'B' as u16);
    // data entry: rva 0x1010, size 0x20, code page 1252
    put_u32(&mut r, 0x40, 0x1010);
    put_u32(&mut r, 0x44, 0x20);
    put_u32(&mut r, 0x48, 1252);
    r
}

#[test]
fn resource_tree_leaves_and_listing() {
    let mut data = vec![0u8; 0x200];
    data.extend(resource_tree());
    let secs = vec![SectionSpan { virtual_address: 0x1000, virtual_size: 0x80, size_of_raw_data: 0x80, pointer_to_raw_data: 0x200 }];
    let leaves = resource_leaves(&data, &secs, 0x1000, 0x80).unwrap();
    assert_eq!(leaves.len(), 1);
    assert_eq!(leaves[0].path, vec!["RT_ICON(3)".to_string(), "AB".to_string()]);
    assert_eq!(resource_path(&leaves[0]), "RT_ICON(3)/AB");
    assert_eq!((leaves[0].data_rva, leaves[0].offset, leaves[0].size, leaves[0].code_page), (0x1010, Some(0x210), 0x20, 1252));
    assert_eq!(
        resources_text(&leaves),
        format!("{:<42} rva=0x00001010 off=0x00000210 size=32 codepage=1252", "RT_ICON(3)/AB")
    );
    match resource_leaves(&data, &secs, 0x5000, 0x80) {
        Err(misclab_core::error::CoreError::Parse(m)) => assert_eq!(m, "无法映射资源表 RVA 0x5000"),
        _ => panic!("an unmapped table was read"),
    }
}

#[test]
fn resource_walk_stops_at_loops() {
    let mut r = vec![0u8; 0x40];
    // the root lists itself as a subdirectory, twice
    put_u16(&mut r, 14, 2);
    put_u32(&mut r, 16, 1);
    put_u32(&mut r, 20, 0x8000_0000);
    put_u32(&mut r, 24, 2);
    put_u32(&mut r, 28, 0x8000_0000);
    let secs = vec![SectionSpan { virtual_address: 0x1000, virtual_size: 0x40, size_of_raw_data: 0x40, pointer_to_raw_data: 0 }];
    assert!(resource_leaves(&r, &secs, 0x1000, 0x40).unwrap().is_empty());
}

#[test]
fn clr_report_lines() {
    let facts = ClrFacts {
        runtime_major: 2,
        runtime_minor: 5,
        metadata_version: "v4.0.30319".to_string(),
        signature_valid: true,
        flags: 0x9,
        entry_point: 0x0600_0001,
        mvid: Some(vec![0xab, 0x01]),
        streams: vec!["#~".to_string(), "#Strings".to_string()],
    };
    let (text, mvid) = clr_report(&facts);
    assert_eq!(
        text,
        "CLR runtime: 2.5\nmetadata version: v4.0.30319\nsignature valid: true\nflags: 0x00000009 ILONLY|STRONGNAMESIGNED\nentry point token/RVA: 0x06000001\nMVID: ab01\nstreams: #~, #Strings"
    );
    assert_eq!(mvid.as_deref(), Some("ab01"));
    let bare = ClrFacts { mvid: None, streams: Vec::new(), flags: 0, ..facts };
    assert_eq!(
        clr_report(&bare).0,
        "CLR runtime: 2.5\nmetadata version: v4.0.30319\nsignature valid: true\nflags: 0x00000000 \nentry point token/RVA: 0x06000001"
    );
}

#[test]
fn pe_layout_reads_the_section_table() {
    let data = make_minimal_pe(true);
    let l = misclab_core::objfile::pe_layout(&data).unwrap();
    let names: Vec<&str> = l.sections.iter().map(|s| s.name.as_str()).collect();
    assert_eq!(names, vec!["UPX0", "UPX1"]);
    assert_eq!((l.sections[1].virtual_address, l.sections[1].pointer_to_raw_data), (0x2000, 0x400));
    assert_eq!(l.entry, 0x2000);
    let high = vec![None, Some("7.90".to_string())];
    let (facts, entry, r) = misclab_core::objfile::pe_packer_report(&l, data.len(), &high);
    assert_eq!(facts.len(), 2);
    assert_eq!(entry, Some(1));
    assert!(r.packed);
    assert!(r.hints.contains(&"UPX1 高熵 7.90".to_string()));
}

#[test]
fn pe_only_analyses_refuse_other_bytes() {
    match misclab_core::objfile::pe_layout(b"hello, world, not an executable") {
        Err(misclab_core::error::CoreError::Unsupported(m)) => assert!(m.starts_with("未知格式（幻数 0x"), "{m}"),
        Err(misclab_core::error::CoreError::Parse(m)) => assert!(m.starts_with("无法解析为可执行文件: "), "{m}"),
        _ => panic!("text was read as a PE file"),
    }
    assert!(matches!(misclab_core::objfile::dotnet_metadata(&make_minimal_pe(false)), Ok(None)));
}

fn minimal_elf64() -> Vec<u8> {
    let mut e = vec![0u8; 64];
    e[0..4].copy_from_slice(&[0x7f, b'E', b'L', b'F']);
    e[4] = 2;
    e[5] = 1;
    e[6] = 1;
    e[16..18].copy_from_slice(&2u16.to_le_bytes());
    e[18..20].copy_from_slice(&0x3eu16.to_le_bytes());
    e[20..24].copy_from_slice(&1u32.to_le_bytes());
    e[24..32].copy_from_slice(&0x401000u64.to_le_bytes());
    e[52..54].copy_from_slice(&64u16.to_le_bytes());
    e
}

#[test]
fn object_sections_and_overlay() {
    match object_sections(&minimal_elf64()).unwrap() {
        ObjectSections::Elf(v) => assert!(v.is_empty()),
        ObjectSections::Pe(_) => panic!("an ELF file was read as PE"),
    }
    let (end, bytes) = overlay(&minimal_elf64()).unwrap();
    assert_eq!(end, 0);
    assert_eq!(bytes.len(), 64);
    let mut pe = make_minimal_pe(false);
    let (end, bytes) = overlay(&pe).unwrap();
    assert_eq!((end, bytes.len()), (0x600, 0));
    pe.extend_from_slice(b"secret");
    let (end, bytes) = overlay(&pe).unwrap();
    assert_eq!(end, 0x600);
    assert_eq!(bytes, b"secret".to_vec());
    assert!(overlay(b"just some text, not a binary").is_err());
}

#[test]
fn pe_imports_and_resources_of_a_minimal_file() {
    let pe = make_minimal_pe(false);
    let (parts, hash, text) = misclab_core::objfile::pe_import_hash(&pe).unwrap();
    assert!(parts.is_empty());
    assert_eq!(hash, "d41d8cd98f00b204e9800998ecf8427e");
    assert_eq!(text, "imphash: d41d8cd98f00b204e9800998ecf8427e\nimports: 0\n");
    assert!(misclab_core::objfile::pe_resources(&pe).unwrap().is_empty());
    assert!(misclab_core::objfile::pe_import_hash(&minimal_elf64()).is_err());
}

#[test]
fn section_tables() {
    let (lines, text) = misclab_core::objfile::sections_table(&minimal_elf64()).unwrap();
    assert!(lines.is_empty());
    assert_eq!(text, "（无节区）");
    let (lines, text) = misclab_core::objfile::sections_table(&make_minimal_pe(false)).unwrap();
    assert_eq!(lines.len(), 2);
    let expected = format!(
        "{:<16}{:>12}{:>12}{:>12}  权限\n{:<16}{:>#12x}{:>12}{:>#12x}  {}\n{:<16}{:>#12x}{:>12}{:>#12x}  {}\n",
        "名称", "虚拟地址", "大小", "文件偏移",
        lines[0].name, 0x1000u64, 0x1000u64, 0x200u64, "r-x",
        lines[1].name, 0x2000u64, 0x1000u64, 0x400u64, "rwx"
    );
    assert_eq!(text, expected);
    assert_eq!(lines[1].raw_size, Some(0x200));
    assert!(lines[0].name.starts_with(".text"));
}

#[test]
fn binary_info_summarises_headers() {
    let (text, facts) = misclab_core::objfile::binary_info(&minimal_elf64()).unwrap();
    assert!(text.starts_with("格式：ELF\n架构："), "{text}");
    assert!(text.contains("位数：64\n字节序：小端\n类型：可执行\n"), "{text}");
    assert!(text.contains("入口：0x401000\n"), "{text}");
    match facts {
        misclab_core::objfile::BinaryFacts::Elf { is_64, little_endian, etype, entry, .. } => {
            assert!(is_64 && little_endian);
            assert_eq!((etype, entry), (2, 0x401000));
        }
        _ => panic!("an ELF file was read as another format"),
    }
    let (text, facts) = misclab_core::objfile::binary_info(&make_minimal_pe(false)).unwrap();
    assert!(text.starts_with("格式：PE\n"), "{text}");
    assert!(text.contains("类型：EXE\n"), "{text}");
    assert!(matches!(facts, misclab_core::objfile::BinaryFacts::Pe { is_lib: false, .. }));
    assert!(misclab_core::objfile::binary_info(b"plain words, no header").is_err());
}

#[test]
fn symbol_listings() {
    let elf = minimal_elf64();
    let (rows, names, text) = misclab_core::objsyms::binary_symbols(&elf, misclab_core::objsyms::SymbolView::Imports).unwrap();
    assert!(rows.is_empty() && names.is_empty());
    assert_eq!(text, "（无）");
    let (rows, names, text) = misclab_core::objsyms::binary_symbols(&elf, misclab_core::objsyms::SymbolView::Symbols).unwrap();
    assert!(rows.is_empty() && names.is_empty());
    assert_eq!(text, "（无）");
    let pe = make_minimal_pe(false);
    let (rows, _, text) = misclab_core::objsyms::binary_symbols(&pe, misclab_core::objsyms::SymbolView::Exports).unwrap();
    assert!(rows.is_empty());
    assert_eq!(text, "（无）");
    match misclab_core::objsyms::binary_symbols(b"no executable here at all", misclab_core::objsyms::SymbolView::Imports) {
        Err(misclab_core::error::CoreError::Unsupported(m)) => assert!(m.starts_with("未知格式（幻数 0x"), "{m}"),
        Err(misclab_core::error::CoreError::Parse(m)) => assert!(m.starts_with("无法解析为可执行文件: "), "{m}"),
        _ => panic!("text was read as an executable"),
    }
}
