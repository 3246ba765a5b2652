//! Archive readers of the `tar` and `zip` crates, each call made on bytes
//! held in memory.
use vstd::prelude::*;
use std::io::Cursor;
use std::io::Read;

verus! {

/// A tar entry as the reader reports it: path (lossy), whether it is a
/// file, whether it is a directory, its header size, and its contents.
pub type TarEntryView = (Seq<char>, bool, bool, u64, Seq<u8>);

/// What `tar::Archive::entries` yields for the bytes, each entry read to
/// its end; or where it stopped (`true` where reading an entry's contents
/// failed, `false` where the listing itself did) and the error's text.
pub uninterp spec fn tar_listing(d: Seq<u8>) -> Result<Seq<TarEntryView>, (bool, Seq<char>)>;

/// The views of tar entries.
pub open spec fn tar_view(v: Seq<(String, bool, bool, u64, Vec<u8>)>) -> Seq<TarEntryView> {
    v.map_values(|e: (String, bool, bool, u64, Vec<u8>)| (e.0@, e.1, e.2, e.3, e.4@))
}

/// `tar::Archive::entries`, each entry read to its end and converted to
/// plain values; where reading stops, which step failed and the error's
/// text.
#[verifier::external_body]
pub(crate) fn read_tar(data: &[u8]) -> (r: Result<Vec<(String, bool, bool, u64, Vec<u8>)>, (bool, String)>)
    ensures
        match (r, tar_listing(data@)) {
            (Ok(v), Ok(w)) => tar_view(v@) == w,
            (Err(s), Err(m)) => s.0 == m.0 && s.1@ == m.1,
            _ => false,
        },
{
    let mut out = Vec::new();
    let mut ar = tar::Archive::new(Cursor::new(data));
    for entry in ar.entries().map_err(|e| (false, e.to_string()))? {
        let mut e = entry.map_err(|e| (false, e.to_string()))?;
        let name = String::from_utf8_lossy(&e.path_bytes()).into_owned();
        let t = e.header().entry_type();
        let size = e.header().size().unwrap_or(0);
        let mut buf = Vec::new();
        e.read_to_end(&mut buf).map_err(|x| (true, x.to_string()))?;
        out.push((name, t.is_file(), t.is_dir(), size, buf));
    }
    Ok(out)
}

/// A ZIP entry as the reader lists it: name, directory flag, size,
/// compressed size, encrypted flag, CRC-32, and the compression method as
/// `Debug` writes it.
pub type ZipEntryView = (Seq<char>, bool, u64, u64, bool, u32, Seq<char>);

/// A listed ZIP entry as plain values.
pub type ZipEntryRow = (String, bool, u64, u64, bool, u32, String);

/// What `zip::ZipArchive` lists for the bytes (`by_index_raw` of each
/// entry), or where it fails (`None` for opening the archive, else the
/// index of the entry) and the text of its error.
pub uninterp spec fn zip_listing(d: Seq<u8>) -> Result<Seq<ZipEntryView>, (Option<nat>, Seq<char>)>;

/// The views of listed ZIP entries.
pub open spec fn zip_view(v: Seq<ZipEntryRow>) -> Seq<ZipEntryView> {
    v.map_values(|e: ZipEntryRow| (e.0@, e.1, e.2, e.3, e.4, e.5, e.6@))
}

/// The view of a listing failure.
pub open spec fn listing_error_view(e: (Option<usize>, String)) -> (Option<nat>, Seq<char>) {
    (
        match e.0 {
            Some(i) => Some(i as nat),
            None => None,
        },
        e.1@,
    )
}

/// `zip::ZipArchive::new` and `by_index_raw` of every entry, converted to
/// plain values; where one fails, which one and the error's text.
#[verifier::external_body]
pub(crate) fn list_zip_entries(data: &[u8]) -> (r: Result<Vec<ZipEntryRow>, (Option<usize>, String)>)
    ensures
        match (r, zip_listing(data@)) {
            (Ok(v), Ok(w)) => zip_view(v@) == w,
            (Err(e), Err(m)) => listing_error_view(e) == m,
            _ => false,
        },
{
    let mut zip = zip::ZipArchive::new(std::io::Cursor::new(data)).map_err(|e| (None, e.to_string()))?;
    let mut out = Vec::new();
    for i in 0..zip.len() {
        let f = zip.by_index_raw(i).map_err(|e| (Some(i), e.to_string()))?;
        let method = format!("{:?}", f.compression());
        out.push((f.name().to_string(), f.is_dir(), f.size(), f.compressed_size(), f.encrypted(), f.crc32(), method));
    }
    Ok(out)
}

/// What reading ZIP entry `i` without a password gives: where opening
/// failed (`false` for the archive, `true` for the entry) and the error's
/// text, or the result of reading it (bytes, or the read error's text).
pub uninterp spec fn zip_plain(d: Seq<u8>, i: int) -> Result<Result<Seq<u8>, Seq<char>>, (bool, Seq<char>)>;

/// What reading ZIP entry `i` with a password gives.
pub uninterp spec fn zip_decrypted(d: Seq<u8>, i: int, pw: Seq<u8>) -> Result<
    Result<Seq<u8>, Seq<char>>,
    (bool, Seq<char>),
>;

/// The views of a two-level read result.
pub open spec fn read_view(r: Result<Result<Vec<u8>, String>, (bool, String)>) -> Result<
    Result<Seq<u8>, Seq<char>>,
    (bool, Seq<char>),
> {
    match r {
        Ok(Ok(v)) => Ok(Ok(v@)),
        Ok(Err(s)) => Ok(Err(s@)),
        Err(s) => Err((s.0, s.1@)),
    }
}

/// `ZipArchive::by_index(i)` read to the end; where opening failed and the
/// error's text as the outer error, the read error's text as the inner one.
#[verifier::external_body]
pub(crate) fn read_zip_entry(data: &[u8], i: usize) -> (r: Result<Result<Vec<u8>, String>, (bool, String)>)
    ensures
        read_view(r) == zip_plain(data@, i as int),
{
    let mut zip = zip::ZipArchive::new(std::io::Cursor::new(data)).map_err(|e| (false, e.to_string()))?;
    let mut f = zip.by_index(i).map_err(|e| (true, e.to_string()))?;
    let mut buf = Vec::new();
    Ok(f.read_to_end(&mut buf).map(|_| buf).map_err(|e| e.to_string()))
}

/// `ZipArchive::by_index_decrypt(i, password)` read to the end; where
/// opening failed and the error's text as the outer error, the read error's
/// text as the inner one.
#[verifier::external_body]
pub(crate) fn read_zip_entry_decrypt(data: &[u8], i: usize, password: &[u8]) -> (r: Result<
    Result<Vec<u8>, String>,
    (bool, String),
>)
    ensures
        read_view(r) == zip_decrypted(data@, i as int, password@),
{
    let mut zip = zip::ZipArchive::new(std::io::Cursor::new(data)).map_err(|e| (false, e.to_string()))?;
    let mut f = zip.by_index_decrypt(i, password).map_err(|e| (true, e.to_string()))?;
    let mut buf = Vec::new();
    Ok(f.read_to_end(&mut buf).map(|_| buf).map_err(|e| e.to_string()))
}

} // verus!
