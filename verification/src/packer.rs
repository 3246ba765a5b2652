//! Signs that a PE file is packed: suspicious section names, high entropy,
//! writable and executable sections, sections with no raw data, an entry
//! point in the last section, few imports, a TLS directory, a large
//! overlay. Each sign adds to a score (kept in halves); from 3 on the file
//! is reported as packed.
use vstd::prelude::*;
use crate::archive::contains_seq;
use crate::binfmt::{pe_perms, pe_perms_spec};
use crate::classic::join;
use crate::text::{chars_of, chars_eq, decimal, lower, push_decimal, push_str, to_lower};
use vstd::string::StringExecFns;

verus! {

/// What the heuristics read of one section.
pub struct SectionFacts {
    pub name: String,
    pub characteristics: u32,
    pub pointer_to_raw_data: u32,
    pub size_of_raw_data: u32,
    pub virtual_size: u32,
    /// The section's entropy written with two decimals, where it is high
    /// (at least 7.2 bits per byte over at least 512 bytes).
    pub high_entropy: Option<String>,
}

/// Section names that packers leave behind.
pub open spec fn packer_names() -> Seq<Seq<char>> {
    seq![
        "upx"@,
        "aspack"@,
        "mpress"@,
        "themida"@,
        "vmp"@,
        "vmprotect"@,
        "fsg"@,
        "petite"@,
        "pec2"@,
        "pecompact"@,
        "enigma"@,
    ]
}

/// The ASCII letters of `s` in lower case.
pub open spec fn lower_ascii(s: Seq<char>) -> Seq<char> {
    s.map_values(|c: char| lower(c))
}

/// Whether a section name, in lower case, contains a packer's name.
pub open spec fn suspicious_name(name: Seq<char>) -> bool {
    exists|k: int| 0 <= k < packer_names().len() && contains_seq(lower_ascii(name), #[trigger] packer_names()[k])
}

/// Whether a section is both writable and executable.
pub open spec fn writable_exec(ch: u32) -> bool {
    ch / 0x8000_0000 == 1 && (ch / 0x2000_0000) % 2 == 1
}

/// One hint where `b`, none otherwise.
pub open spec fn hint_if(b: bool, h: Seq<char>) -> Seq<Seq<char>> {
    if b {
        seq![h]
    } else {
        Seq::empty()
    }
}

/// The high-entropy hint of a section, where it has one.
pub open spec fn entropy_hints(name: Seq<char>, e: Option<String>) -> Seq<Seq<char>> {
    match e {
        Some(t) => seq![name + " 高熵 "@ + t@],
        None => Seq::empty(),
    }
}

/// The hints of one section, in order.
pub open spec fn section_hints(s: SectionFacts) -> Seq<Seq<char>> {
    let n = s.name@;
    hint_if(suspicious_name(n), "可疑节区名："@ + n) + entropy_hints(n, s.high_entropy) + hint_if(writable_exec(s.characteristics), n + " 同时可写可执行 ("@ + pe_perms_spec(s.characteristics) + ")"@)
        + hint_if(s.size_of_raw_data == 0 && s.virtual_size > 0, n + " 原始大小为 0 但虚拟大小非 0"@)
}

/// The score of one section, in halves.
pub open spec fn section_score(s: SectionFacts) -> int {
    (if suspicious_name(s.name@) {
        6int
    } else {
        0
    }) + (if s.high_entropy is Some {
        3int
    } else {
        0
    }) + (if writable_exec(s.characteristics) {
        3int
    } else {
        0
    }) + (if s.size_of_raw_data == 0 && s.virtual_size > 0 {
        2int
    } else {
        0
    })
}

/// The hints of the first `n` sections.
pub open spec fn sections_hints(secs: Seq<SectionFacts>, n: int) -> Seq<Seq<char>>
    decreases n,
{
    if n <= 0 {
        Seq::empty()
    } else {
        sections_hints(secs, n - 1) + section_hints(secs[n - 1])
    }
}

/// The score of the first `n` sections, in halves.
pub open spec fn sections_score(secs: Seq<SectionFacts>, n: int) -> int
    decreases n,
{
    if n <= 0 {
        0
    } else {
        sections_score(secs, n - 1) + section_score(secs[n - 1])
    }
}

/// Where the raw data of the sections ends (0 for none).
pub open spec fn raw_end(secs: Seq<SectionFacts>, n: int) -> int
    decreases n,
{
    if n <= 0 {
        0
    } else {
        let e = secs[n - 1].pointer_to_raw_data + secs[n - 1].size_of_raw_data;
        let m = raw_end(secs, n - 1);
        if e > m {
            e
        } else {
            m
        }
    }
}

/// Whether the entry point lies in a section named as the last one (with
/// more than one section).
pub open spec fn entry_in_last(secs: Seq<SectionFacts>, entry: Option<usize>) -> bool {
    match entry {
        Some(i) => secs.len() > 1 && secs[i as int].name@ == secs.last().name@,
        None => false,
    }
}

/// Whether the file extends more than 4096 bytes past the sections' raw
/// data.
pub open spec fn large_overlay(secs: Seq<SectionFacts>, file_len: int) -> bool {
    file_len > raw_end(secs, secs.len() as int) + 4096
}

/// The hints that concern the whole file, in order.
pub open spec fn file_hints(secs: Seq<SectionFacts>, entry: Option<usize>, imports: nat, tls: bool, file_len: int) -> Seq<
    Seq<char>,
> {
    hint_if(entry_in_last(secs, entry), "入口点位于最后一个节区："@ + secs[entry->Some_0 as int].name@) + hint_if(
        imports <= 3,
        "导入函数很少："@ + decimal(imports),
    ) + hint_if(tls, "存在 TLS 目录，需检查 TLS callback"@) + hint_if(
        large_overlay(secs, file_len),
        "存在较大 overlay："@ + decimal((file_len - raw_end(secs, secs.len() as int)) as nat) + " bytes"@,
    )
}

/// The score of the whole-file signs, in halves.
pub open spec fn file_score(secs: Seq<SectionFacts>, entry: Option<usize>, imports: nat, tls: bool, file_len: int) -> int {
    (if entry_in_last(secs, entry) {
        2int
    } else {
        0
    }) + (if imports <= 3 {
        1int
    } else {
        0
    }) + (if tls {
        1int
    } else {
        0
    }) + (if large_overlay(secs, file_len) {
        1int
    } else {
        0
    })
}

/// A score in halves written with one decimal.
pub open spec fn score_text(h: nat) -> Seq<char> {
    decimal(h / 2) + if h % 2 == 0 {
        ".0"@
    } else {
        ".5"@
    }
}

/// The report: the score and verdict, then the hints one per line; or a
/// note that nothing was found.
pub open spec fn report_text(hints: Seq<Seq<char>>, halves: nat) -> Seq<char> {
    if hints.len() == 0 {
        "未发现明显壳特征"@
    } else {
        "score: "@ + score_text(halves) + "\npackedHint: "@ + (if halves >= 6 {
            "true"@
        } else {
            "false"@
        }) + "\n"@ + join(hints, "\n"@)
    }
}

/// What the heuristics find.
pub struct PackerReport {
    /// The hints, section by section, then those of the whole file.
    pub hints: Vec<String>,
    /// The score in halves.
    pub score_halves: u64,
    /// Whether the score is 3 or more.
    pub packed: bool,
    /// The readable report.
    pub text: String,
}

/// What the heuristics report for the sections, the entry point's
/// section, the number of imports, the TLS directory and the file's length:
/// the hints of the sections then of the file, the score in halves, the
/// verdict and the text.
pub open spec fn packer_report_spec(
    secs: Seq<SectionFacts>,
    entry_section: Option<usize>,
    imports: nat,
    has_tls: bool,
    file_len: int,
    r: PackerReport,
) -> bool {
    let hints = sections_hints(secs, secs.len() as int) + file_hints(secs, entry_section, imports, has_tls, file_len);
    let halves = sections_score(secs, secs.len() as int) + file_score(secs, entry_section, imports, has_tls, file_len);
    &&& r.hints@.map_values(|h: String| h@) == hints
    &&& r.score_halves == halves
    &&& r.packed == (halves >= 6)
    &&& r.text@ == report_text(hints, halves as nat)
}

/// Whether lower-case `s` contains one of the packer names.
fn has_packer_name(name: &str) -> (b: bool)
    ensures
        b == suspicious_name(name@),
{
    let raw = chars_of(name);
    let mut low: Vec<char> = Vec::new();
    let mut i: usize = 0;
    while i < raw.len()
        invariant
            i <= raw.len(),
            raw@ == name@,
            low@ == lower_ascii(raw@.take(i as int)),
        decreases raw.len() - i,
    {
        low.push(to_lower(raw[i]));
        assert(lower_ascii(raw@.take(i + 1)) =~= lower_ascii(raw@.take(i as int)).push(lower(raw@[i as int])));
        i += 1;
    }
    assert(raw@.take(raw.len() as int) =~= raw@);
    let names: [&str; 11] = [
        "upx",
        "aspack",
        "mpress",
        "themida",
        "vmp",
        "vmprotect",
        "fsg",
        "petite",
        "pec2",
        "pecompact",
        "enigma",
    ];
    proof {
        reveal_strlit("upx");
        reveal_strlit("aspack");
        reveal_strlit("mpress");
        reveal_strlit("themida");
        reveal_strlit("vmp");
        reveal_strlit("vmprotect");
        reveal_strlit("fsg");
        reveal_strlit("petite");
        reveal_strlit("pec2");
        reveal_strlit("pecompact");
        reveal_strlit("enigma");
    }
    assert(forall|k: int| 0 <= k < 11 ==> (#[trigger] names@[k])@ == packer_names()[k]);
    let mut k: usize = 0;
    while k < 11
        invariant
            k <= 11,
            low@ == lower_ascii(name@),
            forall|q: int| 0 <= q < 11 ==> (#[trigger] names@[q])@ == packer_names()[q],
            forall|q: int| 0 <= q < k ==> !contains_seq(low@, #[trigger] packer_names()[q]),
        decreases 11 - k,
    {
        let pat = chars_of(names[k]);
        if crate::archive::contains_sub(&low, &pat) {
            assert(contains_seq(lower_ascii(name@), packer_names()[k as int]));
            return true;
        }
        k += 1;
    }
    false
}

/// Add one section's hints and score.
fn push_section(s: &SectionFacts, hints: &mut Vec<String>, score: &mut u64)
    requires
        *old(score) <= 14 * 0x1_0000,
    ensures
        final(hints)@.map_values(|h: String| h@) == old(hints)@.map_values(|h: String| h@) + section_hints(*s),
        *final(score) == *old(score) + section_score(*s),
{
    let ghost h0 = hints@.map_values(|h: String| h@);
    let ghost n = s.name@;
    let sus = has_packer_name(s.name.as_str());
    if sus {
        let mut h = String::from_str("可疑节区名：");
        push_str(&mut h, s.name.as_str());
        hints.push(h);
        *score = *score + 6;
    }
    let ghost h1 = h0 + hint_if(sus, "可疑节区名："@ + n);
    assert(hints@.map_values(|h: String| h@) =~= h1);
    match &s.high_entropy {
        Some(e) => {
            let mut h = s.name.clone();
            push_str(&mut h, " 高熵 ");
            push_str(&mut h, e.as_str());
            hints.push(h);
            *score = *score + 3;
        },
        None => {},
    }
    let ghost h2 = h1 + entropy_hints(n, s.high_entropy);
    assert(hints@.map_values(|h: String| h@) =~= h2);
    let ch = s.characteristics;
    let wx = ch / 0x8000_0000 == 1 && (ch / 0x2000_0000) % 2 == 1;
    if wx {
        let mut h = s.name.clone();
        push_str(&mut h, " 同时可写可执行 (");
        let perms = pe_perms(ch);
        push_str(&mut h, perms.as_str());
        push_str(&mut h, ")");
        hints.push(h);
        *score = *score + 3;
    }
    let ghost h3 = h2 + hint_if(writable_exec(ch), n + " 同时可写可执行 ("@ + pe_perms_spec(ch) + ")"@);
    assert(hints@.map_values(|h: String| h@) =~= h3);
    if s.size_of_raw_data == 0 && s.virtual_size > 0 {
        let mut h = s.name.clone();
        push_str(&mut h, " 原始大小为 0 但虚拟大小非 0");
        hints.push(h);
        *score = *score + 2;
    }
    assert(hints@.map_values(|h: String| h@) =~= h0 + section_hints(*s));
}

/// The hints, score and raw-data end of all sections.
fn section_pass(sections: &[SectionFacts]) -> (r: (Vec<String>, u64, u64))
    requires
        sections@.len() <= 0xffff,
    ensures
        r.0@.map_values(|h: String| h@) == sections_hints(sections@, sections@.len() as int),
        r.1 == sections_score(sections@, sections@.len() as int),
        r.1 <= 14 * 0xffff,
        r.2 == raw_end(sections@, sections@.len() as int),
        r.2 <= 0x1_ffff_fffe,
{
    let ghost secs = sections@;
    let mut hints: Vec<String> = Vec::new();
    let mut score: u64 = 0;
    let mut end: u64 = 0;
    let mut i: usize = 0;
    while i < sections.len()
        invariant
            i <= sections.len() <= 0xffff,
            secs == sections@,
            hints@.map_values(|h: String| h@) == sections_hints(secs, i as int),
            score == sections_score(secs, i as int),
            score <= 14 * i,
            end == raw_end(secs, i as int),
            end <= 0x1_ffff_fffe,
        decreases sections.len() - i,
    {
        let s = &sections[i];
        assert(section_score(*s) <= 14);
        push_section(s, &mut hints, &mut score);
        let e = s.pointer_to_raw_data as u64 + s.size_of_raw_data as u64;
        if e > end {
            end = e;
        }
        assert(sections_hints(secs, i + 1) == sections_hints(secs, i as int) + section_hints(secs[i as int]));
        i += 1;
    }
    (hints, score, end)
}

/// Add the whole-file hints and score.
fn push_file_hints(
    sections: &[SectionFacts],
    entry_section: Option<usize>,
    import_count: usize,
    has_tls: bool,
    file_len: usize,
    end: u64,
    hints: &mut Vec<String>,
    score: &mut u64,
)
    requires
        entry_section matches Some(i) ==> i < sections@.len(),
        end == raw_end(sections@, sections@.len() as int),
        end <= 0x1_ffff_fffe,
        *old(score) <= 14 * 0xffff,
    ensures
        final(hints)@.map_values(|h: String| h@) == old(hints)@.map_values(|h: String| h@) + file_hints(
            sections@,
            entry_section,
            import_count as nat,
            has_tls,
            file_len as int,
        ),
        *final(score) == *old(score) + file_score(sections@, entry_section, import_count as nat, has_tls, file_len as int),
{
    let ghost secs = sections@;
    let ghost hs = hints@.map_values(|h: String| h@);
    let n = sections.len();
    match entry_section {
        Some(e) => {
            if n > 1 {
                let a = chars_of(sections[e].name.as_str());
                let b = chars_of(sections[n - 1].name.as_str());
                if chars_eq(&a, &b) {
                    let mut h = String::from_str("入口点位于最后一个节区：");
                    push_str(&mut h, sections[e].name.as_str());
                    hints.push(h);
                    *score = *score + 2;
                }
            }
        },
        None => {},
    }
    let ghost e1 = hs + hint_if(
        entry_in_last(secs, entry_section),
        "入口点位于最后一个节区："@ + secs[entry_section->Some_0 as int].name@,
    );
    assert(hints@.map_values(|h: String| h@) =~= e1);
    if import_count <= 3 {
        let mut h = String::from_str("导入函数很少：");
        push_decimal(&mut h, import_count as u64);
        hints.push(h);
        *score = *score + 1;
    }
    let ghost e2 = e1 + hint_if(import_count <= 3, "导入函数很少："@ + decimal(import_count as nat));
    assert(hints@.map_values(|h: String| h@) =~= e2);
    if has_tls {
        hints.push(String::from_str("存在 TLS 目录，需检查 TLS callback"));
        *score = *score + 1;
    }
    let ghost e3 = e2 + hint_if(has_tls, "存在 TLS 目录，需检查 TLS callback"@);
    assert(hints@.map_values(|h: String| h@) =~= e3);
    if file_len as u64 > end + 4096 {
        let mut h = String::from_str("存在较大 overlay：");
        push_decimal(&mut h, file_len as u64 - end);
        push_str(&mut h, " bytes");
        hints.push(h);
        *score = *score + 1;
    }
    assert(hints@.map_values(|h: String| h@) =~= hs + file_hints(secs, entry_section, import_count as nat, has_tls, file_len as int));
}

/// The report text of hints and a score in halves.
fn report(hints: &Vec<String>, score: u64) -> (text: String)
    ensures
        text@ == report_text(hints@.map_values(|h: String| h@), score as nat),
{
    let ghost all = hints@.map_values(|h: String| h@);
    let mut text = String::new();
    if hints.len() == 0 {
        push_str(&mut text, "未发现明显壳特征");
        return text;
    }
    push_str(&mut text, "score: ");
    push_decimal(&mut text, score / 2);
    if score % 2 == 0 {
        push_str(&mut text, ".0");
    } else {
        push_str(&mut text, ".5");
    }
    push_str(&mut text, "\npackedHint: ");
    if score >= 6 {
        push_str(&mut text, "true");
    } else {
        push_str(&mut text, "false");
    }
    push_str(&mut text, "\n");
    let ghost head = text@;
    let mut k: usize = 0;
    while k < hints.len()
        invariant
            k <= hints.len(),
            all == hints@.map_values(|h: String| h@),
            text@ == head + join(all.take(k as int), "\n"@),
        decreases hints.len() - k,
    {
        if k > 0 {
            push_str(&mut text, "\n");
        }
        push_str(&mut text, hints[k].as_str());
        proof {
            let p2 = all.take(k + 1);
            assert(p2.drop_last() =~= all.take(k as int));
            assert(p2.last() == hints@[k as int]@);
            if k == 0 {
                assert(p2.len() == 1);
            }
            assert(text@ =~= head + join(p2, "\n"@));
        }
        k += 1;
    }
    assert(all.take(hints.len() as int) =~= all);
    text
}

/// The packer heuristics over the sections (in file order), the index of
/// the section that holds the entry point, the number of imports, whether
/// there is a TLS directory, and the file's length.
pub fn packer_hints(sections: &[SectionFacts], entry_section: Option<usize>, import_count: usize, has_tls: bool, file_len: usize) -> (r: PackerReport)
    requires
        sections@.len() <= 0xffff,
        entry_section matches Some(i) ==> i < sections@.len(),
    ensures
        packer_report_spec(sections@, entry_section, import_count as nat, has_tls, file_len as int, r),
{
    let (mut hints, mut score, end) = section_pass(sections);
    push_file_hints(sections, entry_section, import_count, has_tls, file_len, end, &mut hints, &mut score);
    let text = report(&hints, score);
    PackerReport { hints, score_halves: score, packed: score >= 6, text }
}

} // verus!
