//! Symbol, import and export listings of ELF and PE files as goblin reads
//! their tables.
use vstd::prelude::*;
use goblin::Object;
use crate::classic::join;
use crate::error::CoreError;
use crate::objfile::{
    elf_header, goblin_elf_header, goblin_kind, goblin_pe_imports, is_kind_error, kind_error, kind_view, object_kind,
    pe_imports, pe_kind_error, ObjectKind,
};
use crate::peres::{hex_lower, push_hex_lower};
use crate::text::push_str;
use vstd::string::{StrSliceExecFns, StringExecFns};

verus! {

/// Which table a listing shows.
#[derive(Clone, Copy)]
pub enum SymbolView {
    /// The ELF symbol table (for PE, the imports).
    Symbols,
    /// ELF undefined dynamic symbols and needed libraries; PE imports.
    Imports,
    /// Exported functions.
    Exports,
}

/// One entry of a listing.
pub enum SymbolRow {
    /// An ELF dynamic import.
    Import { name: String },
    /// An ELF exported function and its value.
    Export { name: String, value: u64 },
    /// An ELF symbol table entry: its value and whether it is a function.
    Symbol { name: String, value: u64, func: bool },
    /// A PE export and its RVA.
    PeExport { name: String, rva: usize },
    /// A PE import: its DLL, name and ordinal.
    PeImport { dll: String, name: String, ordinal: u16 },
}

/// A row as a tag (in declaration order), name, DLL, number and flag.
pub open spec fn row_view(r: SymbolRow) -> (u8, Seq<char>, Seq<char>, u64, bool) {
    match r {
        SymbolRow::Import { name } => (0, name@, Seq::empty(), 0, false),
        SymbolRow::Export { name, value } => (1, name@, Seq::empty(), value, false),
        SymbolRow::Symbol { name, value, func } => (2, name@, Seq::empty(), value, func),
        SymbolRow::PeExport { name, rva } => (3, name@, Seq::empty(), rva as u64, false),
        SymbolRow::PeImport { dll, name, ordinal } => (4, name@, dll@, ordinal as u64, false),
    }
}

/// The line a row gives in the listing's text.
pub open spec fn row_line(v: (u8, Seq<char>, Seq<char>, u64, bool)) -> Seq<char> {
    if v.0 == 0 {
        v.1
    } else if v.0 == 1 {
        v.1 + "  0x"@ + hex_lower(v.3 as nat)
    } else if v.0 == 2 {
        v.1 + "  0x"@ + hex_lower(v.3 as nat) + if v.4 {
            "  func"@
        } else {
            Seq::empty()
        }
    } else if v.0 == 3 {
        v.1 + "  RVA 0x"@ + hex_lower(v.3 as nat)
    } else {
        v.2 + "!"@ + v.1
    }
}

/// The name a row gives in the list of names (`dll!name` for a PE import).
pub open spec fn row_name(v: (u8, Seq<char>, Seq<char>, u64, bool)) -> Seq<char> {
    if v.0 == 4 {
        v.2 + "!"@ + v.1
    } else {
        v.1
    }
}

/// An optional name, empty where there is none.
pub open spec fn name_or_empty(n: Option<Seq<char>>) -> Seq<char> {
    match n {
        Some(x) => x,
        None => Seq::empty(),
    }
}

/// `Some` of each text's view.
pub open spec fn opt_text(n: Option<String>) -> Option<Seq<char>> {
    match n {
        Some(x) => Some(x@),
        None => None,
    }
}

/// The ELF dynamic symbols of the bytes, as goblin reads them: each one's
/// name in the dynamic string table (none where it has none there), value,
/// whether it is an import and whether it is a function.
pub uninterp spec fn goblin_elf_dynsyms(d: Seq<u8>) -> Seq<(Option<Seq<char>>, u64, bool, bool)>;

/// `Elf::dynsyms` with names from `Elf::dynstrtab`.
#[verifier::external_body]
fn elf_dynsyms(data: &[u8]) -> (r: Vec<(Option<String>, u64, bool, bool)>)
    requires
        goblin_kind(data@).0 == 3,
    ensures
        r@.map_values(|x: (Option<String>, u64, bool, bool)| (opt_text(x.0), x.1, x.2, x.3)) == goblin_elf_dynsyms(
            data@,
        ),
{
    let Ok(Object::Elf(e)) = Object::parse(data) else { return Vec::new() };
    e.dynsyms.iter().map(|s| (e.dynstrtab.get_at(s.st_name).map(|n| n.to_string()), s.st_value, s.is_import(),
        s.is_function())).collect()
}

/// The ELF symbol table of the bytes, as goblin reads it: each symbol's
/// name in the string table (none where it has none there), value,
/// whether it is an import and whether it is a function.
pub uninterp spec fn goblin_elf_syms(d: Seq<u8>) -> Seq<(Option<Seq<char>>, u64, bool, bool)>;

/// `Elf::syms` with names from `Elf::strtab`.
#[verifier::external_body]
fn elf_syms(data: &[u8]) -> (r: Vec<(Option<String>, u64, bool, bool)>)
    requires
        goblin_kind(data@).0 == 3,
    ensures
        r@.map_values(|x: (Option<String>, u64, bool, bool)| (opt_text(x.0), x.1, x.2, x.3)) == goblin_elf_syms(
            data@,
        ),
{
    let Ok(Object::Elf(e)) = Object::parse(data) else { return Vec::new() };
    e.syms.iter().map(|s| (e.strtab.get_at(s.st_name).map(|n| n.to_string()), s.st_value, s.is_import(),
        s.is_function())).collect()
}

/// The exports of the PE file in the bytes, as goblin reads them: each
/// one's name (where it has one) and RVA.
pub uninterp spec fn goblin_pe_exports(d: Seq<u8>) -> Seq<(Option<Seq<char>>, usize)>;

/// `PE::exports`, each export's name and RVA.
#[verifier::external_body]
fn pe_exports(data: &[u8]) -> (r: Vec<(Option<String>, usize)>)
    requires
        goblin_kind(data@).0 == 2,
    ensures
        r@.map_values(|x: (Option<String>, usize)| (opt_text(x.0), x.1)) == goblin_pe_exports(data@),
{
    let Ok(Object::PE(pe)) = Object::parse(data) else { return Vec::new() };
    pe.exports.iter().map(|x| (x.name.map(|n| n.to_string()), x.rva)).collect()
}

/// Whether an ELF symbol enters the listing of `view`: it has a name, and
/// is an import (imports), a defined function (exports), or anything
/// (symbols).
pub open spec fn elf_keeps(s: (Option<Seq<char>>, u64, bool, bool), view: SymbolView) -> bool {
    name_or_empty(s.0).len() > 0 && match view {
        SymbolView::Imports => s.2,
        SymbolView::Exports => !s.2 && s.3,
        SymbolView::Symbols => true,
    }
}

/// The row an ELF symbol gives in the listing of `view`.
pub open spec fn elf_row(s: (Option<Seq<char>>, u64, bool, bool), view: SymbolView) -> (
    u8,
    Seq<char>,
    Seq<char>,
    u64,
    bool,
) {
    match view {
        SymbolView::Imports => (0, name_or_empty(s.0), Seq::empty(), 0, false),
        SymbolView::Exports => (1, name_or_empty(s.0), Seq::empty(), s.1, false),
        SymbolView::Symbols => (2, name_or_empty(s.0), Seq::empty(), s.1, s.3),
    }
}

/// The rows of the ELF symbols that `view` keeps, in table order.
pub open spec fn elf_rows(syms: Seq<(Option<Seq<char>>, u64, bool, bool)>, view: SymbolView) -> Seq<
    (u8, Seq<char>, Seq<char>, u64, bool),
>
    decreases syms.len(),
{
    if syms.len() == 0 {
        Seq::empty()
    } else {
        elf_rows(syms.drop_last(), view) + if elf_keeps(syms.last(), view) {
            seq![elf_row(syms.last(), view)]
        } else {
            Seq::empty()
        }
    }
}

/// The rows of the listing of `view` for the bytes.
pub open spec fn symbol_rows(d: Seq<u8>, view: SymbolView) -> Seq<(u8, Seq<char>, Seq<char>, u64, bool)> {
    let k = goblin_kind(d).0;
    if k == 3 {
        elf_rows(
            if view is Symbols {
                goblin_elf_syms(d)
            } else {
                goblin_elf_dynsyms(d)
            },
            view,
        )
    } else if k == 2 {
        if view is Exports {
            goblin_pe_exports(d).map_values(
                |x: (Option<Seq<char>>, usize)| (3u8, name_or_empty(x.0), Seq::<char>::empty(), x.1 as u64, false),
            )
        } else {
            goblin_pe_imports(d).map_values(
                |x: (Seq<char>, Seq<char>, u16)| (4u8, x.1, x.0, x.2 as u64, false),
            )
        }
    } else {
        Seq::empty()
    }
}

/// The lines of the listing: for ELF imports first one per needed library;
/// a note for a Mach-O file or an archive.
pub open spec fn symbol_lines(d: Seq<u8>, view: SymbolView) -> Seq<Seq<char>> {
    let k = goblin_kind(d).0;
    let rows = symbol_rows(d, view).map_values(|v: (u8, Seq<char>, Seq<char>, u64, bool)| row_line(v));
    if k == 3 && view is Imports {
        goblin_elf_header(d).6.map_values(|l: Seq<char>| "[依赖库] "@ + l) + rows
    } else if k == 4 {
        seq!["Mach-O 符号列举暂未支持"@]
    } else if k == 5 {
        seq!["归档(ar) 无符号表"@]
    } else {
        rows
    }
}

/// The listing's text: its lines, one per line, or `（无）` where there are
/// none.
pub open spec fn symbols_text(d: Seq<u8>, view: SymbolView) -> Seq<char> {
    let lines = symbol_lines(d, view);
    if lines.len() == 0 {
        "（无）"@
    } else {
        join(lines, "\n"@)
    }
}

fn name_of(n: &Option<String>) -> (r: String)
    ensures
        r@ == name_or_empty(opt_text(*n)),
{
    match n {
        Some(x) => x.clone(),
        None => String::new(),
    }
}

/// The rows of the ELF symbols that `view` keeps.
fn elf_listing(syms: &Vec<(Option<String>, u64, bool, bool)>, view: SymbolView) -> (rows: Vec<SymbolRow>)
    ensures
        rows@.map_values(|r: SymbolRow| row_view(r)) == elf_rows(
            syms@.map_values(|x: (Option<String>, u64, bool, bool)| (opt_text(x.0), x.1, x.2, x.3)),
            view,
        ),
{
    let ghost sv = syms@.map_values(|x: (Option<String>, u64, bool, bool)| (opt_text(x.0), x.1, x.2, x.3));
    let mut rows: Vec<SymbolRow> = Vec::new();
    let mut i: usize = 0;
    while i < syms.len()
        invariant
            i <= syms.len(),
            sv == syms@.map_values(|x: (Option<String>, u64, bool, bool)| (opt_text(x.0), x.1, x.2, x.3)),
            rows@.map_values(|r: SymbolRow| row_view(r)) == elf_rows(sv.take(i as int), view),
        decreases syms.len() - i,
    {
        let s = &syms[i];
        let name = name_of(&s.0);
        let keep = name.as_str().unicode_len() > 0 && match view {
            SymbolView::Imports => s.2,
            SymbolView::Exports => !s.2 && s.3,
            SymbolView::Symbols => true,
        };
        let ghost before = rows@;
        proof {
            assert(sv.take(i + 1).drop_last() =~= sv.take(i as int));
            assert(sv.take(i + 1).last() == sv[i as int]);
        }
        if keep {
            let row = match view {
                SymbolView::Imports => SymbolRow::Import { name },
                SymbolView::Exports => SymbolRow::Export { name, value: s.1 },
                SymbolView::Symbols => SymbolRow::Symbol { name, value: s.1, func: s.3 },
            };
            rows.push(row);
            proof {
                assert(rows@ == before.push(row));
                assert(rows@.map_values(|r: SymbolRow| row_view(r)) =~= before.map_values(|r: SymbolRow| row_view(r))
                    + seq![row_view(row)]);
            }
        } else {
            proof {
                assert(elf_rows(sv.take(i + 1), view) =~= elf_rows(sv.take(i as int), view));
            }
        }
        i += 1;
    }
    proof {
        assert(sv.take(syms.len() as int) =~= sv);
    }
    rows
}

/// The rows of the PE exports.
fn pe_export_listing(ex: &Vec<(Option<String>, usize)>) -> (rows: Vec<SymbolRow>)
    ensures
        rows@.map_values(|r: SymbolRow| row_view(r)) == ex@.map_values(
            |x: (Option<String>, usize)| (opt_text(x.0), x.1),
        ).map_values(
            |x: (Option<Seq<char>>, usize)| (3u8, name_or_empty(x.0), Seq::<char>::empty(), x.1 as u64, false),
        ),
{
    let ghost target = ex@.map_values(|x: (Option<String>, usize)| (opt_text(x.0), x.1)).map_values(
        |x: (Option<Seq<char>>, usize)| (3u8, name_or_empty(x.0), Seq::<char>::empty(), x.1 as u64, false),
    );
    let mut rows: Vec<SymbolRow> = Vec::new();
    let mut i: usize = 0;
    while i < ex.len()
        invariant
            i <= ex.len(),
            target == ex@.map_values(|x: (Option<String>, usize)| (opt_text(x.0), x.1)).map_values(
                |x: (Option<Seq<char>>, usize)| (3u8, name_or_empty(x.0), Seq::<char>::empty(), x.1 as u64, false),
            ),
            rows@.map_values(|r: SymbolRow| row_view(r)) == target.take(i as int),
        decreases ex.len() - i,
    {
        let row = SymbolRow::PeExport { name: name_of(&ex[i].0), rva: ex[i].1 };
        let ghost before = rows@;
        rows.push(row);
        proof {
            assert(rows@ == before.push(row));
            assert(row_view(row) == target[i as int]);
            assert(rows@.map_values(|r: SymbolRow| row_view(r)) =~= before.map_values(|r: SymbolRow| row_view(r))
                + seq![row_view(row)]);
            assert(rows@.map_values(|r: SymbolRow| row_view(r)) =~= target.take(i + 1));
        }
        i += 1;
    }
    proof {
        assert(target.take(ex.len() as int) =~= target);
    }
    rows
}

/// The rows of the PE imports.
fn pe_import_listing(im: &Vec<(String, String, u16)>) -> (rows: Vec<SymbolRow>)
    ensures
        rows@.map_values(|r: SymbolRow| row_view(r)) == im@.map_values(
            |x: (String, String, u16)| (x.0@, x.1@, x.2),
        ).map_values(|x: (Seq<char>, Seq<char>, u16)| (4u8, x.1, x.0, x.2 as u64, false)),
{
    let ghost target = im@.map_values(|x: (String, String, u16)| (x.0@, x.1@, x.2)).map_values(
        |x: (Seq<char>, Seq<char>, u16)| (4u8, x.1, x.0, x.2 as u64, false),
    );
    let mut rows: Vec<SymbolRow> = Vec::new();
    let mut i: usize = 0;
    while i < im.len()
        invariant
            i <= im.len(),
            target == im@.map_values(|x: (String, String, u16)| (x.0@, x.1@, x.2)).map_values(
                |x: (Seq<char>, Seq<char>, u16)| (4u8, x.1, x.0, x.2 as u64, false),
            ),
            rows@.map_values(|r: SymbolRow| row_view(r)) == target.take(i as int),
        decreases im.len() - i,
    {
        let row = SymbolRow::PeImport { dll: im[i].0.clone(), name: im[i].1.clone(), ordinal: im[i].2 };
        let ghost before = rows@;
        rows.push(row);
        proof {
            assert(rows@ == before.push(row));
            assert(row_view(row) == target[i as int]);
            assert(rows@.map_values(|r: SymbolRow| row_view(r)) =~= before.map_values(|r: SymbolRow| row_view(r))
                + seq![row_view(row)]);
            assert(rows@.map_values(|r: SymbolRow| row_view(r)) =~= target.take(i + 1));
        }
        i += 1;
    }
    proof {
        assert(target.take(im.len() as int) =~= target);
    }
    rows
}

/// The line of a row.
fn row_text(r: &SymbolRow) -> (s: String)
    ensures
        s@ == row_line(row_view(*r)),
{
    let mut s = String::new();
    match r {
        SymbolRow::Import { name } => {
            push_str(&mut s, name.as_str());
        },
        SymbolRow::Export { name, value } => {
            push_str(&mut s, name.as_str());
            push_str(&mut s, "  0x");
            push_hex_lower(&mut s, *value);
        },
        SymbolRow::Symbol { name, value, func } => {
            push_str(&mut s, name.as_str());
            push_str(&mut s, "  0x");
            push_hex_lower(&mut s, *value);
            if *func {
                push_str(&mut s, "  func");
            }
        },
        SymbolRow::PeExport { name, rva } => {
            push_str(&mut s, name.as_str());
            push_str(&mut s, "  RVA 0x");
            push_hex_lower(&mut s, *rva as u64);
        },
        SymbolRow::PeImport { dll, name, .. } => {
            push_str(&mut s, dll.as_str());
            push_str(&mut s, "!");
            push_str(&mut s, name.as_str());
        },
    }
    proof {
        assert(s@ =~= row_line(row_view(*r)));
    }
    s
}

/// The name of a row in the list of names.
fn row_label(r: &SymbolRow) -> (s: String)
    ensures
        s@ == row_name(row_view(*r)),
{
    match r {
        SymbolRow::PeImport { dll, name, .. } => {
            let mut s = String::new();
            push_str(&mut s, dll.as_str());
            push_str(&mut s, "!");
            push_str(&mut s, name.as_str());
            s
        },
        SymbolRow::Import { name } => name.clone(),
        SymbolRow::Export { name, .. } => name.clone(),
        SymbolRow::Symbol { name, .. } => name.clone(),
        SymbolRow::PeExport { name, .. } => name.clone(),
    }
}

/// Append the line of each row.
fn push_row_lines(lines: &mut Vec<String>, rows: &Vec<SymbolRow>)
    ensures
        final(lines)@.map_values(|x: String| x@) == old(lines)@.map_values(|x: String| x@) + rows@.map_values(
            |r: SymbolRow| row_view(r),
        ).map_values(|v: (u8, Seq<char>, Seq<char>, u64, bool)| row_line(v)),
{
    let ghost head = lines@.map_values(|x: String| x@);
    let ghost all = rows@.map_values(|r: SymbolRow| row_view(r)).map_values(
        |v: (u8, Seq<char>, Seq<char>, u64, bool)| row_line(v),
    );
    let mut i: usize = 0;
    while i < rows.len()
        invariant
            i <= rows.len(),
            all == rows@.map_values(|r: SymbolRow| row_view(r)).map_values(
                |v: (u8, Seq<char>, Seq<char>, u64, bool)| row_line(v),
            ),
            lines@.map_values(|x: String| x@) == head + all.take(i as int),
        decreases rows.len() - i,
    {
        let t = row_text(&rows[i]);
        let ghost before = lines@;
        lines.push(t);
        proof {
            assert(lines@ == before.push(t));
            assert(lines@.map_values(|x: String| x@) =~= before.map_values(|x: String| x@) + seq![t@]);
            assert(lines@.map_values(|x: String| x@) =~= head + all.take(i + 1));
        }
        i += 1;
    }
    proof {
        assert(all.take(rows.len() as int) =~= all);
    }
}

/// The name of each row.
fn row_labels(rows: &Vec<SymbolRow>) -> (names: Vec<String>)
    ensures
        names@.map_values(|x: String| x@) == rows@.map_values(|r: SymbolRow| row_view(r)).map_values(
            |v: (u8, Seq<char>, Seq<char>, u64, bool)| row_name(v),
        ),
{
    let ghost all = rows@.map_values(|r: SymbolRow| row_view(r)).map_values(
        |v: (u8, Seq<char>, Seq<char>, u64, bool)| row_name(v),
    );
    let mut names: Vec<String> = Vec::new();
    let mut i: usize = 0;
    while i < rows.len()
        invariant
            i <= rows.len(),
            all == rows@.map_values(|r: SymbolRow| row_view(r)).map_values(
                |v: (u8, Seq<char>, Seq<char>, u64, bool)| row_name(v),
            ),
            names@.map_values(|x: String| x@) == all.take(i as int),
        decreases rows.len() - i,
    {
        let t = row_label(&rows[i]);
        let ghost before = names@;
        names.push(t);
        proof {
            assert(names@ == before.push(t));
            assert(names@.map_values(|x: String| x@) =~= before.map_values(|x: String| x@) + seq![t@]);
            assert(names@.map_values(|x: String| x@) =~= all.take(i + 1));
        }
        i += 1;
    }
    proof {
        assert(all.take(rows.len() as int) =~= all);
    }
    names
}

/// The lines joined by newlines, or `（无）` where there are none.
fn listing_text(lines: &Vec<String>) -> (s: String)
    ensures
        s@ == if lines@.len() == 0 {
            "（无）"@
        } else {
            join(lines@.map_values(|x: String| x@), "\n"@)
        },
{
    if lines.len() == 0 {
        return String::from_str("（无）");
    }
    let ghost all = lines@.map_values(|x: String| x@);
    let mut s = String::new();
    let mut k: usize = 0;
    while k < lines.len()
        invariant
            k <= lines.len(),
            all == lines@.map_values(|x: String| x@),
            s@ == join(all.take(k as int), "\n"@),
        decreases lines.len() - k,
    {
        if k > 0 {
            push_str(&mut s, "\n");
        }
        push_str(&mut s, lines[k].as_str());
        proof {
            let p2 = all.take(k + 1);
            assert(p2.drop_last() =~= all.take(k as int));
            if k == 0 {
                assert(p2.len() == 1);
                assert(all.take(0) =~= Seq::<Seq<char>>::empty());
            }
            assert(s@ =~= join(p2, "\n"@));
        }
        k += 1;
    }
    assert(all.take(lines.len() as int) =~= all);
    s
}

/// The symbol, import or export listing (`view`) of the executable in
/// `data`: its rows, their names and the text. Bytes that goblin cannot
/// read as an object give the error `pe_kind_error` describes; a format
/// with no listing gives none, or a note for Mach-O and archives.
pub fn binary_symbols(data: &[u8], view: SymbolView) -> (r: Result<(Vec<SymbolRow>, Vec<String>, String), CoreError>)
    ensures
        match r {
            Ok(p) => {
                &&& 2 <= goblin_kind(data@).0
                &&& p.0@.map_values(|r: SymbolRow| row_view(r)) == symbol_rows(data@, view)
                &&& p.1@.map_values(|x: String| x@) == symbol_rows(data@, view).map_values(
                    |v: (u8, Seq<char>, Seq<char>, u64, bool)| row_name(v),
                )
                &&& p.2@ == symbols_text(data@, view)
            },
            Err(e) => goblin_kind(data@).0 < 2 && (pe_kind_error(goblin_kind(data@)) matches Some(x)
                && is_kind_error(e, x)),
        },
{
    let k = object_kind(data);
    let mut lines: Vec<String> = Vec::new();
    let rows = match k {
        ObjectKind::Failed(_) | ObjectKind::Unknown(_) => {
            return Err(kind_error(&k));
        },
        ObjectKind::Elf => {
            match view {
                SymbolView::Imports => {
                    let h = elf_header(data);
                    let ghost libs = h.6@.map_values(|x: String| x@);
                    let mut i: usize = 0;
                    while i < h.6.len()
                        invariant
                            i <= h.6.len(),
                            libs == h.6@.map_values(|x: String| x@),
                            lines@.map_values(|x: String| x@) == libs.take(i as int).map_values(
                                |l: Seq<char>| "[依赖库] "@ + l,
                            ),
                        decreases h.6.len() - i,
                    {
                        let mut t = String::new();
                        push_str(&mut t, "[依赖库] ");
                        push_str(&mut t, h.6[i].as_str());
                        let ghost before = lines@;
                        lines.push(t);
                        proof {
                            assert(lines@ == before.push(t));
                            assert(t@ == "[依赖库] "@ + libs[i as int]);
                            assert(lines@.map_values(|x: String| x@) =~= before.map_values(|x: String| x@) + seq![
                                t@,
                            ]);
                            assert(lines@.map_values(|x: String| x@) =~= libs.take(i + 1).map_values(
                                |l: Seq<char>| "[依赖库] "@ + l,
                            ));
                        }
                        i += 1;
                    }
                    proof {
                        assert(libs.take(h.6.len() as int) =~= libs);
                    }
                    elf_listing(&elf_dynsyms(data), view)
                },
                SymbolView::Exports => elf_listing(&elf_dynsyms(data), view),
                SymbolView::Symbols => elf_listing(&elf_syms(data), view),
            }
        },
        ObjectKind::Pe => {
            if matches!(view, SymbolView::Exports) {
                pe_export_listing(&pe_exports(data))
            } else {
                pe_import_listing(&pe_imports(data))
            }
        },
        ObjectKind::Mach => {
            lines.push(String::from_str("Mach-O 符号列举暂未支持"));
            Vec::new()
        },
        ObjectKind::Archive => {
            lines.push(String::from_str("归档(ar) 无符号表"));
            Vec::new()
        },
        ObjectKind::Other => Vec::new(),
    };
    let ghost pre = lines@.map_values(|x: String| x@);
    push_row_lines(&mut lines, &rows);
    let names = row_labels(&rows);
    let text = listing_text(&lines);
    proof {
        assert(rows@.map_values(|r: SymbolRow| row_view(r)) == symbol_rows(data@, view));
        assert(lines@.map_values(|x: String| x@) =~= symbol_lines(data@, view));
    }
    Ok((rows, names, text))
}

} // verus!
