//! Rewriting the ZIP container of a DOCX file: every entry is read, the
//! main document part gets its run-less paragraphs fixed, and the entries
//! are written again, all deflated, in their original order.
use vstd::prelude::*;
use std::io::Read;
use std::io::Write;
use crate::chars::str_eq;
use crate::error::DocxToImageError;
use crate::xml_fix::{fix_empty_paragraphs_xml, fixed_xml};

verus! {

/// A ZIP archive read from memory (`zip::ZipArchive`).
#[verifier::external_type_specification]
#[verifier::external_body]
#[verifier::reject_recursive_types(R)]
pub struct ExZipArchive<R>(zip::ZipArchive<R>);

/// A ZIP archive being written to memory.  It holds a `zip::ZipWriter`,
/// whose declaration Verus refuses (its parameter is bound by `std::io`
/// traits), so the writer is kept opaque behind this struct.
#[verifier::external_body]
pub struct ZipOutput {
    inner: zip::ZipWriter<std::io::Cursor<Vec<u8>>>,
}

/// An in-memory reader or writer (`std::io::Cursor`).
#[verifier::external_type_specification]
#[verifier::external_body]
#[verifier::reject_recursive_types(T)]
pub struct ExCursor<T>(std::io::Cursor<T>);

/// A named entry of a ZIP archive with its uncompressed bytes.
pub type ZipEntryView = (Seq<char>, Seq<u8>);

/// The entries of a ZIP archive, in central-directory order: each entry's
/// name and uncompressed contents, or `None` for an entry that cannot be
/// read (`by_index` or decompressing it fails).
pub uninterp spec fn zip_archive_entries(a: zip::ZipArchive<std::io::Cursor<Vec<u8>>>) -> Seq<Option<ZipEntryView>>;

/// The entries of the ZIP archive held in `bytes` (`None` when
/// `zip::ZipArchive::new` rejects them).
pub uninterp spec fn zip_entries_of(bytes: Seq<u8>) -> Option<Seq<Option<ZipEntryView>>>;

/// The entries written so far to a ZIP writer.
pub uninterp spec fn zip_writer_entries(w: ZipOutput) -> Seq<ZipEntryView>;

/// The bytes of a ZIP archive holding `entries`, all deflated with the
/// default options, as `zip::ZipWriter::finish` produces them.
pub uninterp spec fn zip_deflated_archive(entries: Seq<ZipEntryView>) -> Seq<u8>;

/// The number of bytes the deflate stream of an entry with contents `data`
/// takes in an archive written by `zip::ZipWriter` with the default
/// deflate options (what it records as the entry's compressed size).
pub uninterp spec fn zip_deflated_len(data: Seq<u8>) -> nat;

/// What `String::from_utf8_lossy` makes of `bytes`, as UTF-8 bytes.
pub uninterp spec fn utf8_lossy(bytes: Seq<u8>) -> Seq<u8>;

/// Opens a ZIP archive held in memory (`zip::ZipArchive::new`).  The
/// archive's entries are those the bytes hold; it opens exactly when the
/// bytes are a ZIP archive.
#[verifier::external_body]
fn zip_open(bytes: &[u8]) -> (r: Result<zip::ZipArchive<std::io::Cursor<Vec<u8>>>, zip::result::ZipError>)
    ensures
        match r {
            Ok(a) => zip_entries_of(bytes@) == Some(zip_archive_entries(a)),
            Err(_) => zip_entries_of(bytes@) is None,
        },
{
    zip::ZipArchive::new(std::io::Cursor::new(bytes.to_vec()))
}

/// Number of entries of an archive (`zip::ZipArchive::len`).
#[verifier::external_body]
fn zip_len(a: &zip::ZipArchive<std::io::Cursor<Vec<u8>>>) -> (n: usize)
    ensures
        n == zip_archive_entries(*a).len(),
{
    a.len()
}

/// Reads entry `i` of an archive (`zip::ZipArchive::by_index`, then its name
/// and `std::io::Read::read_to_end`): the entry's name and bytes, or an
/// error for an entry that cannot be read.  The archive's entries do not
/// change (each read seeks to its entry).
#[verifier::external_body]
fn zip_read_entry(a: &mut zip::ZipArchive<std::io::Cursor<Vec<u8>>>, i: usize) -> (r: Result<(String, Vec<u8>), DocxToImageError>)
    requires
        i < zip_archive_entries(*old(a)).len(),
    ensures
        zip_archive_entries(*final(a)) == zip_archive_entries(*old(a)),
        match zip_archive_entries(*old(a))[i as int] {
            Some(e) => r matches Ok((name, data)) && e == (name@, data@),
            None => r is Err,
        },
{
    let mut entry = a.by_index(i).map_err(DocxToImageError::Zip)?;
    let mut data: Vec<u8> = Vec::new();
    entry.read_to_end(&mut data).map_err(DocxToImageError::Io)?;
    Ok((entry.name().to_string(), data))
}

/// A writer for a new ZIP archive in memory (`zip::ZipWriter::new`).
#[verifier::external_body]
fn zip_writer_new() -> (w: ZipOutput)
    ensures
        zip_writer_entries(w) == Seq::<ZipEntryView>::empty(),
{
    ZipOutput { inner: zip::ZipWriter::new(std::io::Cursor::new(Vec::new())) }
}

/// Starts a new deflated entry (`zip::ZipWriter::start_file`).  It first
/// closes the entry before it, which fails when that entry's deflate stream
/// is over `u32::MAX` bytes (no large-file option is set); otherwise the new
/// entry is added, still empty.
#[verifier::external_body]
fn zip_start_file(w: &mut ZipOutput, name: &String) -> (r: Result<(), zip::result::ZipError>)
    ensures
        ({
            let es = zip_writer_entries(*old(w));
            if es.len() == 0 || zip_deflated_len(es.last().1) <= u32::MAX {
                r is Ok && zip_writer_entries(*final(w)) == es.push((name@, Seq::<u8>::empty()))
            } else {
                r is Err
            }
        }),
{
    let options = zip::write::FileOptions::default().compression_method(zip::CompressionMethod::Deflated);
    w.inner.start_file(name.as_str(), options)
}

/// Appends bytes to the entry being written (`std::io::Write::write_all`).
/// They are added to the last entry, unless the entry would then hold more
/// than `u32::MAX` bytes, which fails (no large-file option is set).
#[verifier::external_body]
fn zip_write_all(w: &mut ZipOutput, data: &Vec<u8>) -> (r: Result<(), std::io::Error>)
    requires
        zip_writer_entries(*old(w)).len() > 0,
    ensures
        ({
            let old_entries = zip_writer_entries(*old(w));
            let last = old_entries.len() - 1;
            if old_entries[last].1.len() + data@.len() <= u32::MAX {
                r is Ok && zip_writer_entries(*final(w)) == old_entries.update(
                    last,
                    (old_entries[last].0, old_entries[last].1 + data@),
                )
            } else {
                r is Err
            }
        }),
{
    w.inner.write_all(data)
}

/// Finishes the archive (`zip::ZipWriter::finish`) and returns its bytes.
/// Closing the last entry fails when its deflate stream is over `u32::MAX`
/// bytes; otherwise the archive is written.  When every entry fits without
/// the large-file option and every name fits the 16-bit name length (at
/// most 65535 bytes in UTF-8; a longer length is cut to 16 bits when the
/// headers are written), reading the archive
/// back (`zip::ZipArchive::new`, then each entry) gives the entries as they
/// were written: names are stored as UTF-8 (flagged when not ASCII) and read
/// back the same, and every entry carries its CRC.
#[verifier::external_body]
fn zip_finish(w: &mut ZipOutput) -> (r: Result<Vec<u8>, zip::result::ZipError>)
    ensures
        ({
            let es = zip_writer_entries(*old(w));
            if es.len() == 0 || zip_deflated_len(es.last().1) <= u32::MAX {
                r matches Ok(bytes) && bytes@ == zip_deflated_archive(es) && (writable(es) && short_names(es)
                    ==> zip_entries_of(bytes@) == Some(as_read(es)))
            } else {
                r is Err
            }
        }),
{
    w.inner.finish().map(|c| c.into_inner())
}

/// The bytes of `String::from_utf8_lossy(bytes)`: valid UTF-8 is kept as
/// it is.
#[verifier::external_body]
pub(crate) fn utf8_lossy_bytes(bytes: &[u8]) -> (r: Vec<u8>)
    ensures
        r@ == utf8_lossy(bytes@),
        vstd::utf8::valid_utf8(bytes@) ==> r@ == bytes@,
{
    String::from_utf8_lossy(bytes).into_owned().into_bytes()
}

/// The path of the main document part inside a DOCX package.
pub open spec fn document_part() -> Seq<char> {
    "word/document.xml"@
}

/// An entry after the fix: the main document part gets its run-less
/// paragraphs fixed, every other entry is kept.
pub open spec fn fixed_entry(e: ZipEntryView) -> ZipEntryView {
    if e.0 == document_part() {
        (e.0, fixed_xml(utf8_lossy(e.1)))
    } else {
        e
    }
}

/// All entries after the fix, in their original order.
pub open spec fn fixed_entries(entries: Seq<ZipEntryView>) -> Seq<ZipEntryView> {
    entries.map_values(|e: ZipEntryView| fixed_entry(e))
}

/// Every entry of the archive can be read.
pub open spec fn all_readable(entries: Seq<Option<ZipEntryView>>) -> bool {
    forall|i: int| 0 <= i < entries.len() ==> #[trigger] entries[i] is Some
}

/// The entries as read, when all can be read.
pub open spec fn read_entries(entries: Seq<Option<ZipEntryView>>) -> Seq<ZipEntryView> {
    entries.map_values(|o: Option<ZipEntryView>| o->Some_0)
}

/// Every entry name fits the 16-bit name length of a ZIP header: at most
/// 65535 bytes in UTF-8.
pub open spec fn short_names(entries: Seq<ZipEntryView>) -> bool {
    forall|i: int|
        0 <= i < entries.len() ==> vstd::utf8::encode_utf8((#[trigger] entries[i]).0).len() <= 65535
}

/// Entries as an archive reader gives them back: each one readable.
pub open spec fn as_read(entries: Seq<ZipEntryView>) -> Seq<Option<ZipEntryView>> {
    entries.map_values(|e: ZipEntryView| Some(e))
}

/// Every entry fits a ZIP archive without the large-file option: at most
/// `u32::MAX` bytes, and so is its deflate stream.
pub open spec fn writable(entries: Seq<ZipEntryView>) -> bool {
    forall|i: int|
        0 <= i < entries.len() ==> (#[trigger] entries[i]).1.len() <= u32::MAX && zip_deflated_len(
            entries[i].1,
        ) <= u32::MAX
}

/// Reads every entry of a DOCX package, fixes the run-less paragraphs of
/// `word/document.xml` and writes the entries again, deflated, in the same
/// order.  Bytes that are not a ZIP archive are refused, and so is an
/// archive with an entry that cannot be read or that does not fit a ZIP
/// archive without the large-file option once fixed.
pub fn fix_empty_paragraphs_in_docx(docx_bytes: &[u8]) -> (r: Result<Vec<u8>, DocxToImageError>)
    ensures
        match zip_entries_of(docx_bytes@) {
            None => r matches Err(DocxToImageError::Zip(_)),
            Some(es) => if all_readable(es) && writable(fixed_entries(read_entries(es))) {
                r matches Ok(out) && out@ == zip_deflated_archive(fixed_entries(read_entries(es))) && (
                short_names(read_entries(es)) ==> zip_entries_of(out@) == Some(
                    as_read(fixed_entries(read_entries(es))),
                ))
            } else {
                r is Err
            },
        },
{
    let mut archive = match zip_open(docx_bytes) {
        Ok(a) => a,
        Err(e) => {
            return Err(DocxToImageError::Zip(e));
        },
    };
    let ghost entries = zip_archive_entries(archive);
    let ghost fe = fixed_entries(read_entries(entries));
    let n = zip_len(&archive);
    let mut names: Vec<String> = Vec::new();
    let mut datas: Vec<Vec<u8>> = Vec::new();
    let mut i: usize = 0;
    while i < n
        invariant
            n == entries.len(),
            zip_entries_of(docx_bytes@) == Some(entries),
            fe == fixed_entries(read_entries(entries)),
            zip_archive_entries(archive) == entries,
            i <= n,
            names@.len() == i,
            datas@.len() == i,
            forall|j: int| 0 <= j < i ==> #[trigger] entries[j] is Some,
            forall|j: int|
                0 <= j < i ==> (#[trigger] names@[j])@ == fe[j].0 && datas@[j]@ == fe[j].1,
        decreases n - i,
    {
        let (name, data) = match zip_read_entry(&mut archive, i) {
            Ok(e) => e,
            Err(e) => {
                assert(!all_readable(entries)) by {
                    assert(entries[i as int] is None);
                }
                return Err(e);
            },
        };
        assert(read_entries(entries)[i as int] == (name@, data@));
        assert(fe[i as int] == fixed_entry((name@, data@)));
        if str_eq(name.as_str(), "word/document.xml") {
            let xml = utf8_lossy_bytes(&data);
            let fixed = fix_empty_paragraphs_xml(&xml);
            datas.push(fixed);
        } else {
            datas.push(data);
        }
        names.push(name);
        i = i + 1;
    }
    assert(all_readable(entries));
    let mut w = zip_writer_new();
    let mut j: usize = 0;
    while j < n
        invariant
            n == entries.len(),
            zip_entries_of(docx_bytes@) == Some(entries),
            fe == fixed_entries(read_entries(entries)),
            fe.len() == n,
            all_readable(entries),
            names@.len() == n,
            datas@.len() == n,
            j <= n,
            forall|x: int|
                0 <= x < n ==> (#[trigger] names@[x])@ == fe[x].0 && datas@[x]@ == fe[x].1,
            zip_writer_entries(w) == fe.take(j as int),
            forall|x: int| 0 <= x < j ==> (#[trigger] fe[x]).1.len() <= u32::MAX,
            forall|x: int| 0 <= x && x + 1 < j ==> zip_deflated_len((#[trigger] fe[x]).1) <= u32::MAX,
        decreases n - j,
    {
        proof {
            if j > 0 {
                assert(fe.take(j as int).last() == fe[j - 1]);
            }
        }
        match zip_start_file(&mut w, &names[j]) {
            Ok(()) => {},
            Err(e) => {
                assert(!writable(fe)) by {
                    assert(zip_deflated_len(fe[j - 1].1) > u32::MAX);
                }
                return Err(DocxToImageError::Zip(e));
            },
        }
        assert(zip_writer_entries(w) =~= fe.take(j as int).push((fe[j as int].0, Seq::<u8>::empty())));
        match zip_write_all(&mut w, &datas[j]) {
            Ok(()) => {},
            Err(e) => {
                assert(!writable(fe)) by {
                    assert(fe[j as int].1.len() > u32::MAX);
                }
                return Err(DocxToImageError::Io(e));
            },
        }
        assert(zip_writer_entries(w) =~= fe.take(j + 1));
        j = j + 1;
    }
    assert(fe.take(n as int) =~= fe);
    proof {
        if n > 0 {
            assert(fe.last() == fe[n - 1]);
        }
    }
    match zip_finish(&mut w) {
        Ok(bytes) => {
            assert(writable(fe));
            assert(short_names(read_entries(entries)) ==> short_names(fe)) by {
                if short_names(read_entries(entries)) {
                    assert forall|x: int| 0 <= x < fe.len() implies vstd::utf8::encode_utf8(
                        (#[trigger] fe[x]).0,
                    ).len() <= 65535 by {
                        assert(fe[x].0 == read_entries(entries)[x].0);
                    }
                }
            }
            Ok(bytes)
        },
        Err(e) => {
            assert(!writable(fe)) by {
                assert(zip_deflated_len(fe[n - 1].1) > u32::MAX);
            }
            Err(DocxToImageError::Zip(e))
        },
    }
}

} // verus!
