//! The resource tree of a PE file: directories of named or numbered
//! entries, up to 8 levels deep, whose leaves locate resource data. The
//! walk never visits a directory twice, stops at 4096 leaves, and reads
//! nothing outside the resource section.
use vstd::prelude::*;
use crate::binfmt::{resource_type_name, resource_type_name_spec, rva_to_offset, rva_to_offset_spec, SectionSpan};
use crate::classic::join;
use crate::error::CoreError;
use crate::text::{chars_of, decimal, push_char, push_decimal, push_str};

verus! {

/// The little-endian 16-bit value at `o`, where it lies within `d`.
pub open spec fn rd16(d: Seq<u8>, o: int) -> Option<int> {
    if 0 <= o && o + 2 <= d.len() {
        Some(d[o] + 256 * d[o + 1])
    } else {
        None
    }
}

/// The little-endian 32-bit value at `o`, where it lies within `d`.
pub open spec fn rd32(d: Seq<u8>, o: int) -> Option<int> {
    if 0 <= o && o + 4 <= d.len() {
        Some(d[o] + 256 * d[o + 1] + 65536 * d[o + 2] + 16777216 * d[o + 3])
    } else {
        None
    }
}

/// What `String::from_utf16_lossy` makes of UTF-16 code units.
pub uninterp spec fn utf16_lossy(w: Seq<u16>) -> Seq<char>;

/// `String::from_utf16_lossy`: the text of UTF-16 code units, unpaired
/// surrogates replaced; a function of the units alone.
#[verifier::external_body]
fn string_from_utf16_lossy(w: &[u16]) -> (s: String)
    ensures
        s@ == utf16_lossy(w@),
{
    String::from_utf16_lossy(w)
}

/// The code units of a length-prefixed UTF-16 string at `off`, where all
/// of it lies within `root`.
pub open spec fn res_string(root: Seq<u8>, off: int) -> Option<Seq<u16>> {
    match rd16(root, off) {
        None => None,
        Some(n) => if off + 2 + 2 * n <= root.len() {
            Some(Seq::new(n as nat, |i: int| rd16(root, off + 2 + 2 * i)->Some_0 as u16))
        } else {
            None
        },
    }
}

/// The lower-case hex digits of `v`, without leading zeros.
pub open spec fn hex_lower(v: nat) -> Seq<char>
    decreases v,
{
    if v < 16 {
        seq![crate::hexcodec::hex_digit(v as int)]
    } else {
        hex_lower(v / 16).push(crate::hexcodec::hex_digit((v % 16) as int))
    }
}

/// The name of a directory entry: its string where the high bit marks a
/// name (or where the string cannot be read, its offset); else its number,
/// with the resource type's name at the top level.
pub open spec fn entry_name(root: Seq<u8>, name_or_id: u32, depth: int) -> Seq<char> {
    if name_or_id >= 0x8000_0000 {
        let off = name_or_id - 0x8000_0000;
        match res_string(root, off) {
            Some(w) => utf16_lossy(w),
            None => "name@0x"@ + hex_lower(off as nat),
        }
    } else {
        let id = (name_or_id % 65536) as u16;
        if depth == 0 {
            resource_type_name_spec(id) + "("@ + decimal(id as nat) + ")"@
        } else {
            decimal(id as nat)
        }
    }
}

/// A resource leaf as plain values: its path of entry names, the RVA of
/// its data, the data's file offset (where a section maps it), its size
/// and code page.
pub type LeafView = (Seq<Seq<char>>, u32, Option<int>, u32, u32);

/// The measure of the walk's depth.
pub open spec fn depth_left(depth: int) -> int {
    if depth > 8 {
        0
    } else {
        9 - depth
    }
}

/// Walk the directory at `dir`, found at `depth` under `path`, having
/// visited the directories in `seen` and found the leaves in `out`: the
/// directories visited and the leaves found after it.
pub open spec fn walk_dir(
    root: Seq<u8>,
    secs: Seq<SectionSpan>,
    dir: int,
    depth: int,
    path: Seq<Seq<char>>,
    seen: Seq<int>,
    out: Seq<LeafView>,
) -> (Seq<int>, Seq<LeafView>)
    decreases depth_left(depth), 4097int,
{
    if depth > 8 || seen.contains(dir) {
        (seen, out)
    } else if dir + 16 > root.len() || out.len() >= 4096 {
        (seen.push(dir), out)
    } else {
        let named = rd16(root, dir + 12)->Some_0;
        let ids = rd16(root, dir + 14)->Some_0;
        let count = if named + ids > 4096 {
            4096
        } else {
            named + ids
        };
        walk_entries(root, secs, dir, depth, path, 0, count, seen.push(dir), out)
    }
}

/// Walk entries `idx` onwards of the `count` entries of the directory at
/// `dir`; the walk ends early at an entry that does not fit in `root`.
pub open spec fn walk_entries(
    root: Seq<u8>,
    secs: Seq<SectionSpan>,
    dir: int,
    depth: int,
    path: Seq<Seq<char>>,
    idx: int,
    count: int,
    seen: Seq<int>,
    out: Seq<LeafView>,
) -> (Seq<int>, Seq<LeafView>)
    decreases depth_left(depth), 4096 - idx,
{
    let off = dir + 16 + 8 * idx;
    if depth > 8 || idx < 0 || idx >= count || count > 4096 || off + 8 > root.len() {
        (seen, out)
    } else {
        let name_or_id = rd32(root, off)->Some_0;
        let target = rd32(root, off + 4)->Some_0;
        let p = path.push(entry_name(root, name_or_id as u32, depth));
        let next = if target >= 0x8000_0000 {
            walk_dir(root, secs, target - 0x8000_0000, depth + 1, p, seen, out)
        } else if target + 16 <= root.len() {
            let rva = rd32(root, target)->Some_0 as u32;
            (
                seen,
                out.push(
                    (
                        p,
                        rva,
                        rva_to_offset_spec(secs, rva),
                        rd32(root, target + 4)->Some_0 as u32,
                        rd32(root, target + 8)->Some_0 as u32,
                    ),
                ),
            )
        } else {
            (seen, out)
        };
        walk_entries(root, secs, dir, depth, path, idx + 1, count, next.0, next.1)
    }
}

/// A resource leaf.
pub struct ResourceLeaf {
    /// The names of the entries on the way to it.
    pub path: Vec<String>,
    pub data_rva: u32,
    /// The file offset of the data, where a section maps its RVA.
    pub offset: Option<u64>,
    pub size: u32,
    pub code_page: u32,
}

/// The view of a leaf.
pub open spec fn leaf_view(l: ResourceLeaf) -> LeafView {
    (
        l.path@.map_values(|s: String| s@),
        l.data_rva,
        match l.offset {
            Some(o) => Some(o as int),
            None => None,
        },
        l.size,
        l.code_page,
    )
}

/// The views of leaves.
pub open spec fn leaves_view(v: Seq<ResourceLeaf>) -> Seq<LeafView> {
    v.map_values(|l: ResourceLeaf| leaf_view(l))
}

/// The views of visited directories.
pub open spec fn seen_view(v: Seq<usize>) -> Seq<int> {
    v.map_values(|x: usize| x as int)
}

/// The views of path names.
pub open spec fn path_view(v: Seq<String>) -> Seq<Seq<char>> {
    v.map_values(|s: String| s@)
}

fn read16(d: &[u8], o: usize) -> (r: u32)
    requires
        o + 2 <= d@.len(),
    ensures
        r as int == rd16(d@, o as int)->Some_0,
        r <= 0xffff,
{
    d[o] as u32 + 256 * d[o + 1] as u32
}

fn read32(d: &[u8], o: usize) -> (r: u32)
    requires
        o + 4 <= d@.len(),
    ensures
        r as int == rd32(d@, o as int)->Some_0,
{
    d[o] as u32 + 256 * d[o + 1] as u32 + 65536 * d[o + 2] as u32 + 16777216 * d[o + 3] as u32
}

/// Append the lower-case hex digits of `v`.
pub(crate) fn push_hex_lower(s: &mut String, v: u64)
    ensures
        final(s)@ == old(s)@ + hex_lower(v as nat),
    decreases v,
{
    if v >= 16 {
        push_hex_lower(s, v / 16);
    }
    let d = v % 16;
    let c = if d < 10 {
        (48 + d as u8) as char
    } else {
        (87 + d as u8) as char
    };
    assert(c == crate::hexcodec::hex_digit(d as int));
    push_char(s, c);
    proof {
        if v >= 16 {
            assert(hex_lower(v as nat) == hex_lower((v / 16) as nat).push(c));
        }
    }
}

/// The name of a directory entry.
fn read_entry_name(root: &[u8], name_or_id: u32, depth: usize) -> (s: String)
    ensures
        s@ == entry_name(root@, name_or_id, depth as int),
{
    if name_or_id >= 0x8000_0000 {
        let off = (name_or_id - 0x8000_0000) as usize;
        if off + 2 <= root.len() {
            let n = read16(root, off) as usize;
            if off + 2 + 2 * n <= root.len() {
                let mut words: Vec<u16> = Vec::new();
                let mut i: usize = 0;
                while i < n
                    invariant
                        i <= n,
                        n <= 0xffff,
                        off < 0x8000_0000,
                        off + 2 + 2 * n <= root@.len(),
                        n == rd16(root@, off as int)->Some_0,
                        words@ == Seq::new(i as nat, |k: int| rd16(root@, off + 2 + 2 * k)->Some_0 as u16),
                    decreases n - i,
                {
                    let w = read16(root, off + 2 + 2 * i);
                    words.push(w as u16);
                    assert(words@ =~= Seq::new((i + 1) as nat, |k: int| rd16(root@, off + 2 + 2 * k)->Some_0 as u16));
                    i += 1;
                }
                return string_from_utf16_lossy(words.as_slice());
            }
        }
        let mut s = String::new();
        push_str(&mut s, "name@0x");
        push_hex_lower(&mut s, off as u64);
        s
    } else {
        let id = (name_or_id % 65536) as u16;
        let mut s = String::new();
        if depth == 0 {
            push_str(&mut s, resource_type_name(id));
            push_str(&mut s, "(");
            push_decimal(&mut s, id as u64);
            push_str(&mut s, ")");
        } else {
            push_decimal(&mut s, id as u64);
        }
        s
    }
}

/// A copy of a path.
fn copy_path(path: &Vec<String>) -> (c: Vec<String>)
    ensures
        path_view(c@) == path_view(path@),
{
    let mut c: Vec<String> = Vec::new();
    let mut i: usize = 0;
    while i < path.len()
        invariant
            i <= path.len(),
            path_view(c@) == path_view(path@.take(i as int)),
        decreases path.len() - i,
    {
        let ghost c0 = c@;
        c.push(path[i].clone());
        assert(c@ == c0.push(path@[i as int]));
        assert(path_view(c@) =~= path_view(c0).push(path@[i as int]@));
        assert(path_view(path@.take(i + 1)) =~= path_view(path@.take(i as int)).push(path@[i as int]@));
        i += 1;
    }
    assert(path@.take(path.len() as int) =~= path@);
    c
}

fn contains_usize(v: &Vec<usize>, x: usize) -> (b: bool)
    ensures
        b == seen_view(v@).contains(x as int),
{
    let mut i: usize = 0;
    while i < v.len()
        invariant
            i <= v.len(),
            forall|k: int| 0 <= k < i ==> v@[k] != x,
        decreases v.len() - i,
    {
        if v[i] == x {
            assert(seen_view(v@)[i as int] == x as int);
            return true;
        }
        i += 1;
    }
    proof {
        if seen_view(v@).contains(x as int) {
            let k = choose|k: int| 0 <= k < seen_view(v@).len() && seen_view(v@)[k] == x as int;
            assert(v@[k] == x);
        }
    }
    false
}

/// Walk a directory (see `walk_dir`).
fn collect(
    root: &[u8],
    secs: &[SectionSpan],
    dir: usize,
    depth: usize,
    path: &mut Vec<String>,
    seen: &mut Vec<usize>,
    out: &mut Vec<ResourceLeaf>,
)
    requires
        dir <= 0x8000_0000,
        depth <= 9,
    ensures
        path_view(final(path)@) == path_view(old(path)@),
        (seen_view(final(seen)@), leaves_view(final(out)@)) == walk_dir(
            root@,
            secs@,
            dir as int,
            depth as int,
            path_view(old(path)@),
            seen_view(old(seen)@),
            leaves_view(old(out)@),
        ),
    decreases depth_left(depth as int), 4097int,
{
    if depth > 8 || contains_usize(seen, dir) {
        return;
    }
    let ghost s0 = seen_view(seen@);
    seen.push(dir);
    assert(seen_view(seen@) =~= s0.push(dir as int));
    if dir + 16 > root.len() || out.len() >= 4096 {
        return;
    }
    let named = read16(root, dir + 12);
    let ids = read16(root, dir + 14);
    let count: usize = if named + ids > 4096 {
        4096
    } else {
        (named + ids) as usize
    };
    let ghost p0 = path_view(path@);
    let ghost target = walk_dir(root@, secs@, dir as int, depth as int, p0, s0, leaves_view(out@));
    assert(target == walk_entries(root@, secs@, dir as int, depth as int, p0, 0, count as int, seen_view(seen@), leaves_view(out@)));
    let mut idx: usize = 0;
    while idx < count
        invariant
            idx <= count <= 4096,
            p0 == path_view(old(path)@),
            target == walk_dir(
                root@,
                secs@,
                dir as int,
                depth as int,
                path_view(old(path)@),
                seen_view(old(seen)@),
                leaves_view(old(out)@),
            ),
            dir <= 0x8000_0000,
            depth <= 8,
            path_view(path@) == p0,
            walk_entries(root@, secs@, dir as int, depth as int, p0, idx as int, count as int, seen_view(seen@), leaves_view(out@))
                == target,
        decreases count - idx,
    {
        let off = dir + 16 + 8 * idx;
        if off + 8 > root.len() {
            return;
        }
        let name_or_id = read32(root, off);
        let target_word = read32(root, off + 4);
        let name = read_entry_name(root, name_or_id, depth);
        let ghost nv = name@;
        path.push(name);
        assert(path_view(path@) =~= p0.push(nv));
        if target_word >= 0x8000_0000 {
            collect(root, secs, (target_word - 0x8000_0000) as usize, depth + 1, path, seen, out);
        } else if target_word as usize + 16 <= root.len() {
            let de = target_word as usize;
            let rva = read32(root, de);
            let size = read32(root, de + 4);
            let code_page = read32(root, de + 8);
            let offset = rva_to_offset(secs, rva);
            let leaf = ResourceLeaf { path: copy_path(path), data_rva: rva, offset, size, code_page };
            let ghost o0 = leaves_view(out@);
            out.push(leaf);
            assert(leaves_view(out@) =~= o0.push(leaf_view(leaf)));
        }
        let ghost before_pop = path@;
        assert(path_view(before_pop) == p0.push(nv));
        assert(before_pop.len() == p0.len() + 1);
        path.pop();
        assert(path@ =~= before_pop.drop_last());
        assert(path_view(path@) =~= path_view(before_pop).drop_last());
        assert(path_view(path@) =~= p0);
        idx += 1;
    }
}

/// The leaves of the resource tree whose root directory is at `root_rva`
/// and spans `size` bytes, in the order of the tree; a root that no section
/// maps is an error, an empty table has no leaves.
pub open spec fn resource_leaves_spec(data: Seq<u8>, secs: Seq<SectionSpan>, root_rva: u32, size: u32) -> Result<
    Seq<LeafView>,
    Seq<char>,
> {
    if root_rva == 0 || size == 0 {
        Ok(Seq::empty())
    } else {
        match rva_to_offset_spec(secs, root_rva) {
            None => Err("无法映射资源表 RVA 0x"@ + hex_lower(root_rva as nat)),
            Some(start) => {
                let end = if start + size < data.len() {
                    start + size
                } else {
                    data.len() as int
                };
                if start >= end {
                    Ok(Seq::empty())
                } else {
                    Ok(walk_dir(data.subrange(start, end), secs, 0, 0, Seq::empty(), Seq::empty(), Seq::empty()).1)
                }
            },
        }
    }
}

/// The leaves of a PE file's resource tree, from the RVA and size of the
/// resource table.
pub fn resource_leaves(data: &[u8], secs: &[SectionSpan], root_rva: u32, size: u32) -> (r: Result<Vec<ResourceLeaf>, CoreError>)
    ensures
        match (r, resource_leaves_spec(data@, secs@, root_rva, size)) {
            (Ok(v), Ok(w)) => leaves_view(v@) == w,
            (Err(e), Err(m)) => e.is_parse_with(m),
            _ => false,
        },
{
    if root_rva == 0 || size == 0 {
        let v: Vec<ResourceLeaf> = Vec::new();
        assert(leaves_view(v@) =~= Seq::<LeafView>::empty());
        return Ok(v);
    }
    let start = match rva_to_offset(secs, root_rva) {
        Some(o) => o,
        None => {
            let mut m = String::new();
            push_str(&mut m, "无法映射资源表 RVA 0x");
            push_hex_lower(&mut m, root_rva as u64);
            return Err(CoreError::Parse(m));
        },
    };
    let len = data.len() as u64;
    let mut out: Vec<ResourceLeaf> = Vec::new();
    if start >= len {
        assert(leaves_view(out@) =~= Seq::<LeafView>::empty());
        return Ok(out);
    }
    let end: usize = if (size as u64) < len - start {
        (start + size as u64) as usize
    } else {
        data.len()
    };
    if start as usize >= end {
        assert(leaves_view(out@) =~= Seq::<LeafView>::empty());
        return Ok(out);
    }
    let mut root: Vec<u8> = Vec::new();
    let mut k = start as usize;
    while k < end
        invariant
            start <= k <= end <= data@.len(),
            root@ == data@.subrange(start as int, k as int),
        decreases end - k,
    {
        root.push(data[k]);
        assert(data@.subrange(start as int, k + 1) =~= data@.subrange(start as int, k as int).push(data@[k as int]));
        k += 1;
    }
    let mut path: Vec<String> = Vec::new();
    let mut seen: Vec<usize> = Vec::new();
    assert(path_view(path@) =~= Seq::<Seq<char>>::empty());
    assert(seen_view(seen@) =~= Seq::<int>::empty());
    assert(leaves_view(out@) =~= Seq::<LeafView>::empty());
    collect(root.as_slice(), secs, 0, 0, &mut path, &mut seen, &mut out);
    Ok(out)
}

/// One line of the resource listing: the path, the data's RVA, file offset
/// (or `-`) and size, and the code page.
pub open spec fn leaf_line(l: LeafView) -> Seq<char> {
    let path = join(l.0, "/"@);
    crate::ziplist::pad_right(path, 42) + " rva=0x"@ + crate::bkcrack::hex8(l.1) + " off="@ + match l.2 {
        Some(o) => "0x"@ + hex_padded8(o as nat),
        None => "-"@,
    } + " size="@ + decimal(l.3 as nat) + " codepage="@ + decimal(l.4 as nat)
}

/// The lower-case hex digits of `v`, zero-padded to at least 8.
pub open spec fn hex_padded8(v: nat) -> Seq<char> {
    let h = hex_lower(v);
    Seq::new(if h.len() < 8 { (8 - h.len()) as nat } else { 0 }, |k: int| '0') + h
}

/// The listing of resource leaves, a line each; or a note that there are
/// none.
pub open spec fn resources_text_spec(ls: Seq<LeafView>) -> Seq<char> {
    if ls.len() == 0 {
        "（无资源目录或无叶子资源）"@
    } else {
        join(ls.map_values(|l: LeafView| leaf_line(l)), "\n"@)
    }
}

/// A leaf's path, its entry names joined by `/`.
pub fn resource_path(leaf: &ResourceLeaf) -> (s: String)
    ensures
        s@ == join(path_view(leaf.path@), "/"@),
{
    let ghost all = path_view(leaf.path@);
    let mut s = String::new();
    let mut k: usize = 0;
    while k < leaf.path.len()
        invariant
            k <= leaf.path.len(),
            all == path_view(leaf.path@),
            s@ == join(all.take(k as int), "/"@),
        decreases leaf.path.len() - k,
    {
        if k > 0 {
            push_str(&mut s, "/");
        }
        push_str(&mut s, leaf.path[k].as_str());
        proof {
            let p2 = all.take(k + 1);
            assert(p2.drop_last() =~= all.take(k as int));
            if k == 0 {
                assert(p2.len() == 1);
            }
            assert(s@ =~= join(p2, "/"@));
        }
        k += 1;
    }
    assert(all.take(leaf.path.len() as int) =~= all);
    s
}

/// Append the hex digits of `v`, zero-padded to at least 8.
fn push_hex_padded8(s: &mut String, v: u64)
    ensures
        final(s)@ == old(s)@ + hex_padded8(v as nat),
{
    let mut h = String::new();
    push_hex_lower(&mut h, v);
    let n = chars_of(h.as_str()).len();
    let ghost pre = s@;
    let mut k: usize = n;
    while k < 8
        invariant
            n <= k <= 8 || (n > 8 && k == n),
            n == hex_lower(v as nat).len(),
            s@ == pre + Seq::new((k - n) as nat, |q: int| '0'),
        decreases 8 - k,
    {
        push_char(s, '0');
        assert(s@ =~= pre + Seq::new((k + 1 - n) as nat, |q: int| '0'));
        k += 1;
    }
    push_str(s, h.as_str());
    assert(s@ =~= pre + hex_padded8(v as nat));
}

/// Append one line of the resource listing.
fn push_leaf_line(s: &mut String, leaf: &ResourceLeaf)
    ensures
        final(s)@ == old(s)@ + leaf_line(leaf_view(*leaf)),
{
    let path = resource_path(leaf);
    let n = chars_of(path.as_str()).len();
    push_str(s, path.as_str());
    let ghost pre = s@;
    let mut k: usize = n;
    while k < 42
        invariant
            n <= k <= 42 || (n > 42 && k == n),
            s@ == pre + Seq::new((k - n) as nat, |q: int| ' '),
        decreases 42 - k,
    {
        push_char(s, ' ');
        assert(s@ =~= pre + Seq::new((k + 1 - n) as nat, |q: int| ' '));
        k += 1;
    }
    assert(crate::ziplist::spaces(42 - n) =~= Seq::new((k - n) as nat, |q: int| ' '));
    push_str(s, " rva=0x");
    crate::bkcrack::push_hex8(s, leaf.data_rva);
    push_str(s, " off=");
    match leaf.offset {
        Some(o) => {
            push_str(s, "0x");
            push_hex_padded8(s, o);
        },
        None => {
            push_str(s, "-");
        },
    }
    push_str(s, " size=");
    push_decimal(s, leaf.size as u64);
    push_str(s, " codepage=");
    push_decimal(s, leaf.code_page as u64);
}

/// The listing of resource leaves.
pub fn resources_text(leaves: &[ResourceLeaf]) -> (s: String)
    ensures
        s@ == resources_text_spec(leaves_view(leaves@)),
{
    let mut s = String::new();
    if leaves.len() == 0 {
        push_str(&mut s, "（无资源目录或无叶子资源）");
        return s;
    }
    let ghost lines = leaves_view(leaves@).map_values(|l: LeafView| leaf_line(l));
    let mut k: usize = 0;
    while k < leaves.len()
        invariant
            k <= leaves.len(),
            lines == leaves_view(leaves@).map_values(|l: LeafView| leaf_line(l)),
            s@ == join(lines.take(k as int), "\n"@),
        decreases leaves.len() - k,
    {
        if k > 0 {
            push_str(&mut s, "\n");
        }
        push_leaf_line(&mut s, &leaves[k]);
        proof {
            let p2 = lines.take(k + 1);
            assert(p2.drop_last() =~= lines.take(k as int));
            assert(p2.last() == leaf_line(leaf_view(leaves@[k as int])));
            if k == 0 {
                assert(p2.len() == 1);
            }
            assert(s@ =~= join(p2, "\n"@));
        }
        k += 1;
    }
    assert(lines.take(leaves.len() as int) =~= lines);
    s
}

} // verus!
