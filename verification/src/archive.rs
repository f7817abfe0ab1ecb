//! Zip archives of map resources: the server packs the files of a map
//! into one archive, and the client unpacks an archive into its resource
//! map and finds the map in it.

use vstd::prelude::*;
use vstd::string::*;
use std::io::Read;
use std::io::Write;
use crate::resources::ResourceMap;
use crate::naming::{WasmFile, spec_fix_bsp_file_name, fix_bsp_file_name};

verus! {

#[verifier::external_type_specification]
#[verifier::external_body]
#[verifier::reject_recursive_types(T)]
pub struct ExCursor<T>(std::io::Cursor<T>);

#[verifier::external_type_specification]
#[verifier::external_body]
#[verifier::reject_recursive_types(R)]
pub struct ExZipArchive<R>(zip::ZipArchive<R>);

#[verifier::external_type_specification]
#[verifier::external_body]
pub struct ExZipError(zip::result::ZipError);

#[verifier::external_type_specification]
#[verifier::external_body]
pub struct ExIoError(std::io::Error);

/// What the zip crate reads from the bytes of an archive: for each entry,
/// in the archive's order, its name and contents, or nothing for an entry
/// that cannot be read; nothing at all when the bytes are not an archive.
pub uninterp spec fn zip_archive_of(bytes: Seq<u8>) -> Option<Seq<Option<(Seq<char>, Seq<u8>)>>>;

/// The entries of an opened archive, as `zip_archive_of` describes them.
pub uninterp spec fn zip_entries(archive: zip::ZipArchive<std::io::Cursor<Vec<u8>>>) -> Seq<Option<(Seq<char>, Seq<u8>)>>;

/// Calls `ZipArchive::new` on the bytes. The contract names what the
/// archive holds.
#[verifier::external_body]
fn zip_open(bytes: Vec<u8>) -> (res: Result<zip::ZipArchive<std::io::Cursor<Vec<u8>>>, zip::result::ZipError>)
    ensures
        match res {
            Ok(archive) => zip_archive_of(bytes@) == Some(zip_entries(archive)),
            Err(_) => zip_archive_of(bytes@) is None,
        },
{
    zip::ZipArchive::new(std::io::Cursor::new(bytes))
}

/// Calls `ZipArchive::len`: the number of entries.
#[verifier::external_body]
fn zip_len(archive: &zip::ZipArchive<std::io::Cursor<Vec<u8>>>) -> (res: usize)
    ensures
        res == zip_entries(*archive).len(),
{
    archive.len()
}

/// Calls `ZipArchive::by_index` for entry `index`, then `ZipFile::name`
/// and `Read::read_to_end` on it. The contract claims that the entries
/// of the archive do not change and ties the outcome to entry `index`.
#[verifier::external_body]
fn zip_read_entry(archive: &mut zip::ZipArchive<std::io::Cursor<Vec<u8>>>, index: usize) -> (res: Result<(String, Vec<u8>), zip::result::ZipError>)
    requires
        index < zip_entries(*old(archive)).len(),
    ensures
        zip_entries(*final(archive)) == zip_entries(*old(archive)),
        match res {
            Ok((name, contents)) => zip_entries(*old(archive))[index as int] == Some((name@, contents@)),
            Err(_) => zip_entries(*old(archive))[index as int] is None,
        },
{
    let mut file = archive.by_index(index)?;
    let name = file.name().to_string();
    let mut contents = Vec::new();
    match file.read_to_end(&mut contents) {
        Ok(_) => Ok((name, contents)),
        Err(e) => Err(zip::result::ZipError::Io(e)),
    }
}

/// The resource map made of archive entries, a later entry of the same
/// name replacing an earlier one.
pub open spec fn entries_map(entries: Seq<Option<(Seq<char>, Seq<u8>)>>) -> Map<Seq<char>, Seq<u8>>
    decreases entries.len(),
{
    if entries.len() == 0 {
        Map::empty()
    } else {
        let prev = entries_map(entries.drop_last());
        match entries.last() {
            Some((name, contents)) => prev.insert(name, contents),
            None => prev,
        }
    }
}

/// Every entry could be read.
pub open spec fn all_readable(entries: Seq<Option<(Seq<char>, Seq<u8>)>>) -> bool {
    forall|i: int| 0 <= i < entries.len() ==> (#[trigger] entries[i]) is Some
}

/// Unpacks a zip archive into a resource map keyed by entry name. Fails
/// when the bytes are not an archive or an entry cannot be read.
pub fn extract_zip_to_hashmap(zip_bytes: &[u8]) -> (res: Result<ResourceMap, zip::result::ZipError>)
    ensures
        match res {
            Ok(map) => map.wf() && match zip_archive_of(zip_bytes@) {
                Some(entries) => all_readable(entries) && map.view() == entries_map(entries),
                None => false,
            },
            Err(_) => match zip_archive_of(zip_bytes@) {
                Some(entries) => !all_readable(entries),
                None => true,
            },
        },
{
    let mut bytes: Vec<u8> = Vec::new();
    bytes.extend_from_slice(zip_bytes);
    proof {
        assert(bytes@ =~= zip_bytes@);
    }
    let mut archive = match zip_open(bytes) {
        Ok(a) => a,
        Err(e) => return Err(e),
    };
    let ghost entries = zip_entries(archive);
    let n = zip_len(&archive);
    let mut map = ResourceMap::new();
    let mut i: usize = 0;
    proof {
        assert(entries.take(0) =~= Seq::<Option<(Seq<char>, Seq<u8>)>>::empty());
    }
    while i < n
        invariant
            n == entries.len(),
            zip_archive_of(zip_bytes@) == Some(entries),
            zip_entries(archive) == entries,
            i <= n,
            map.wf(),
            forall|j: int| 0 <= j < i ==> (#[trigger] entries[j]) is Some,
            map.view() == entries_map(entries.take(i as int)),
        decreases n - i,
    {
        let (name, contents) = match zip_read_entry(&mut archive, i) {
            Ok(entry) => entry,
            Err(e) => return Err(e),
        };
        proof {
            assert(entries.take(i + 1).drop_last() =~= entries.take(i as int));
            assert(entries.take(i + 1).last() == entries[i as int]);
        }
        map.insert(name, contents);
        i = i + 1;
    }
    proof {
        assert(entries.take(n as int) =~= entries);
    }
    Ok(map)
}

/// Why the resources of a map could not be had from an archive.
pub enum ArchiveError {
    /// The archive could not be unpacked.
    ZipDecompress { source: zip::result::ZipError },
    /// The archive holds no map file of the asked name.
    BspFromArchive,
}

/// The path of a map file inside an archive.
pub open spec fn spec_map_entry_name(map_name: Seq<char>) -> Seq<char> {
    "maps/"@ + map_name
}

/// Unpacks the archive of a map: all its files, and the bytes of the map
/// file `maps/<map_name>` among them.
pub fn zip_bytes_to_map_resources(zip_bytes: &[u8], map_name: &str) -> (res: Result<(ResourceMap, Vec<u8>), ArchiveError>)
    ensures
        match res {
            Ok((map, bsp)) => {
                &&& map.wf()
                &&& zip_archive_of(zip_bytes@) matches Some(entries) && all_readable(entries) && map.view() == entries_map(entries)
                &&& map.view().contains_key(spec_map_entry_name(map_name@))
                &&& bsp@ == map.view()[spec_map_entry_name(map_name@)]
            },
            Err(ArchiveError::ZipDecompress { .. }) => match zip_archive_of(zip_bytes@) {
                Some(entries) => !all_readable(entries),
                None => true,
            },
            Err(ArchiveError::BspFromArchive) => zip_archive_of(zip_bytes@) matches Some(entries)
                && all_readable(entries) && !entries_map(entries).contains_key(spec_map_entry_name(map_name@)),
        },
{
    let map = match extract_zip_to_hashmap(zip_bytes) {
        Ok(m) => m,
        Err(e) => return Err(ArchiveError::ZipDecompress { source: e }),
    };
    let mut entry_name = String::from_str("maps/");
    entry_name.append(map_name);
    proof {
        reveal_strlit("maps/");
    }
    let bsp = match map.get(entry_name.as_str()) {
        Some(b) => b.clone(),
        None => return Err(ArchiveError::BspFromArchive),
    };
    Ok((map, bsp))
}

/// The name of the map file that a client asks for, with its extension.
pub fn map_file_name(map_name: &str) -> (res: String)
    ensures
        res@ == spec_fix_bsp_file_name(map_name@),
{
    fix_bsp_file_name(map_name)
}

/// A zip writer over an in-memory buffer.
#[verifier::external_body]
pub struct ArchiveWriter {
    writer: zip::ZipWriter<std::io::Cursor<Vec<u8>>>,
}

/// The files that an archive writer has been given, each with the bytes
/// written to it so far.
pub uninterp spec fn zip_writer_files(writer: ArchiveWriter) -> Seq<(Seq<char>, Seq<u8>)>;

/// The bytes of the archive that the zip crate writes for these files,
/// each stored deflated with the crate's default options.
pub uninterp spec fn zip_archive_bytes(files: Seq<(Seq<char>, Seq<u8>)>) -> Seq<u8>;

/// Whether every call made on an archive writer so far has succeeded.
pub uninterp spec fn zip_writer_sound(writer: ArchiveWriter) -> bool;

/// The number of bytes that UTF-8 takes for a character.
pub open spec fn char_utf8_len(c: char) -> nat {
    if (c as u32) < 0x80 {
        1
    } else if (c as u32) < 0x800 {
        2
    } else if (c as u32) < 0x10000 {
        3
    } else {
        4
    }
}

/// The number of bytes that UTF-8 takes for a text.
pub open spec fn utf8_len(s: Seq<char>) -> nat
    decreases s.len(),
{
    if s.len() == 0 {
        0
    } else {
        utf8_len(s.drop_last()) + char_utf8_len(s.last())
    }
}

/// The largest file, in bytes, that the writer is sure to take: its
/// deflated size stays below the 4 GiB size field of a zip entry without
/// ZIP64 (a deflate symbol takes at most 48 bits and a match covers at
/// least 3 bytes, a literal one byte in at most 15 bits).
pub const ZIP_FILE_SIZE_LIMIT: u64 = 0x4000_0000;

/// Calls `ZipWriter::new` over an empty in-memory buffer. The contract
/// claims that the writer holds no file yet and has met no error.
#[verifier::external_body]
fn zip_writer_new() -> (res: ArchiveWriter)
    ensures
        zip_writer_files(res) == Seq::<(Seq<char>, Seq<u8>)>::empty(),
        zip_writer_sound(res),
{
    ArchiveWriter { writer: zip::ZipWriter::new(std::io::Cursor::new(Vec::new())) }
}

/// Calls `ZipWriter::start_file` for `name` with deflate compression. The
/// crate panics on a name longer than 65535 bytes, which `requires` leaves
/// out. The contract claims that a started file is added, empty, after the
/// others; that a name already given to a file is refused (the crate keeps
/// its files by name and returns an error for a duplicate); and that on a
/// writer that has met no error, a new name is taken when the file before
/// it is within the size limit (finishing that file then checks only its
/// sizes, and the rest writes to memory).
#[verifier::external_body]
fn zip_start_file(writer: &mut ArchiveWriter, name: String) -> (res: Result<(), zip::result::ZipError>)
    requires
        utf8_len(name@) <= 65535,
    ensures
        res is Ok ==> zip_writer_files(*final(writer)) == zip_writer_files(*old(writer)).push((name@, Seq::<u8>::empty())),
        res is Ok && zip_writer_sound(*old(writer)) ==> zip_writer_sound(*final(writer)),
        (exists|k: int| 0 <= k < zip_writer_files(*old(writer)).len() && #[trigger] zip_writer_files(*old(writer))[k].0 == name@)
            ==> res is Err,
        ({
            &&& zip_writer_sound(*old(writer))
            &&& forall|k: int| 0 <= k < zip_writer_files(*old(writer)).len()
                ==> #[trigger] zip_writer_files(*old(writer))[k].0 != name@
            &&& zip_writer_files(*old(writer)).len() > 0
                ==> zip_writer_files(*old(writer)).last().1.len() <= ZIP_FILE_SIZE_LIMIT
        }) ==> res is Ok,
{
    let options = zip::write::SimpleFileOptions::default().compression_method(zip::CompressionMethod::Deflated);
    writer.writer.start_file(name, options)
}

/// Calls `Write::write_all` of `ZipWriter`. The contract claims that the
/// bytes are appended to the file started last, and that on a writer that
/// has met no error this succeeds while that file stays within the size
/// limit (a write fails only with no file started or past 4 GiB, and the
/// deflater writes to memory).
#[verifier::external_body]
fn zip_write_all(writer: &mut ArchiveWriter, bytes: &[u8]) -> (res: Result<(), std::io::Error>)
    requires
        zip_writer_files(*old(writer)).len() > 0,
    ensures
        res is Ok && zip_writer_sound(*old(writer)) ==> zip_writer_sound(*final(writer)),
        zip_writer_sound(*old(writer)) && zip_writer_files(*old(writer)).last().1.len() + bytes@.len() <= ZIP_FILE_SIZE_LIMIT
            ==> res is Ok,
        res is Ok ==> zip_writer_files(*final(writer)) == zip_writer_files(*old(writer)).update(
            zip_writer_files(*old(writer)).len() - 1,
            (zip_writer_files(*old(writer)).last().0, zip_writer_files(*old(writer)).last().1 + bytes@),
        ),
{
    writer.writer.write_all(bytes)
}

/// Each file as a readable archive entry.
pub open spec fn readable_entries(files: Seq<(Seq<char>, Seq<u8>)>) -> Seq<Option<(Seq<char>, Seq<u8>)>> {
    files.map_values(|f: (Seq<char>, Seq<u8>)| Some(f))
}

/// Calls `ZipWriter::finish` and takes the buffer out of the cursor. The
/// contract claims that the bytes are the archive of the files given,
/// which the zip crate reads back as those files, in order (the central
/// directory lists them in the order they were started); and that a
/// writer that has met no error finishes when its last file is within the
/// size limit (the central directory is written to memory).
#[verifier::external_body]
fn zip_finish(writer: ArchiveWriter) -> (res: Result<Vec<u8>, zip::result::ZipError>)
    ensures
        res matches Ok(bytes) ==> bytes@ == zip_archive_bytes(zip_writer_files(writer)),
        res matches Ok(bytes) ==> zip_archive_of(bytes@) == Some(readable_entries(zip_writer_files(writer))),
        zip_writer_sound(writer) && (zip_writer_files(writer).len() > 0
            ==> zip_writer_files(writer).last().1.len() <= ZIP_FILE_SIZE_LIMIT) ==> res is Ok,
{
    match writer.writer.finish() {
        Ok(cursor) => Ok(cursor.into_inner()),
        Err(e) => Err(e),
    }
}

/// Why an archive could not be written.
pub enum ZipFilesError {
    Zip(zip::result::ZipError),
    Write(std::io::Error),
}

/// The name and bytes of each file.
pub open spec fn file_views(files: Seq<WasmFile>) -> Seq<(Seq<char>, Seq<u8>)> {
    Seq::new(files.len(), |i: int| (files[i].name@, files[i].bytes@))
}

/// No two files share a name.
pub open spec fn names_distinct(files: Seq<WasmFile>) -> bool {
    forall|a: int, b: int| 0 <= a < b < files.len() ==> #[trigger] files[a].name@ != #[trigger] files[b].name@
}

/// Every file is within the size limit.
pub open spec fn sizes_within_limit(files: Seq<WasmFile>) -> bool {
    forall|i: int| 0 <= i < files.len() ==> (#[trigger] files[i]).bytes@.len() <= ZIP_FILE_SIZE_LIMIT
}

/// Packs files into a zip archive, each deflated, in the given order. Two
/// files with one name are refused; distinct names with every file within
/// the size limit are always packed.
pub fn zip_files(files: Vec<WasmFile>) -> (res: Result<Vec<u8>, ZipFilesError>)
    requires
        forall|i: int| 0 <= i < files@.len() ==> utf8_len((#[trigger] files@[i]).name@) <= 65535,
    ensures
        res matches Ok(bytes) ==> bytes@ == zip_archive_bytes(file_views(files@)),
        res matches Ok(bytes) ==> zip_archive_of(bytes@) == Some(readable_entries(file_views(files@))),
        !names_distinct(files@) ==> res is Err,
        names_distinct(files@) && sizes_within_limit(files@) ==> res is Ok,
{
    let ghost all = file_views(files@);
    let mut zip = zip_writer_new();
    let mut i: usize = 0;
    let ghost given = files@;
    proof {
        assert(all.take(0) =~= Seq::<(Seq<char>, Seq<u8>)>::empty());
    }
    while i < files.len()
        invariant
            files@ == given,
            all == file_views(given),
            i <= files@.len(),
            zip_writer_files(zip) == all.take(i as int),
            forall|a: int, b: int| 0 <= a < b < i ==> #[trigger] given[a].name@ != #[trigger] given[b].name@,
            forall|j: int| 0 <= j < given.len() ==> utf8_len((#[trigger] given[j]).name@) <= 65535,
            names_distinct(given) && sizes_within_limit(given) ==> zip_writer_sound(zip),
        decreases files@.len() - i,
    {
        proof {
            if names_distinct(given) && sizes_within_limit(given) {
                assert forall|k: int| 0 <= k < zip_writer_files(zip).len()
                    implies #[trigger] zip_writer_files(zip)[k].0 != given[i as int].name@ by {
                    assert(zip_writer_files(zip)[k].0 == given[k].name@);
                }
                if i > 0 {
                    assert(zip_writer_files(zip).last().1 == given[i - 1].bytes@);
                }
            }
        }
        let name = files[i].name.clone();
        let ghost before = zip_writer_files(zip);
        match zip_start_file(&mut zip, name) {
            Ok(()) => {},
            Err(e) => return Err(ZipFilesError::Zip(e)),
        }
        proof {
            assert forall|a: int| 0 <= a < i implies #[trigger] given[a].name@ != given[i as int].name@ by {
                if given[a].name@ == given[i as int].name@ {
                    assert(before[a].0 == given[a].name@);
                }
            }
            if names_distinct(given) && sizes_within_limit(given) {
                assert(zip_writer_files(zip).last().1.len() == 0);
                assert(given[i as int].bytes@.len() <= ZIP_FILE_SIZE_LIMIT);
            }
        }
        match zip_write_all(&mut zip, files[i].bytes.as_slice()) {
            Ok(()) => {},
            Err(e) => return Err(ZipFilesError::Write(e)),
        }
        proof {
            assert(zip_writer_files(zip) =~= all.take(i + 1));
        }
        i = i + 1;
    }
    proof {
        assert(all.take(files@.len() as int) =~= all);
        if names_distinct(given) && sizes_within_limit(given) && files@.len() > 0 {
            assert(zip_writer_files(zip).last().1 == given[files@.len() - 1].bytes@);
        }
    }
    match zip_finish(zip) {
        Ok(bytes) => Ok(bytes),
        Err(e) => Err(ZipFilesError::Zip(e)),
    }
}

/// The entries of distinct files, all readable, make the map of the files.
proof fn lemma_entries_of_files(files: Seq<WasmFile>)
    requires
        names_distinct(files),
    ensures
        all_readable(readable_entries(file_views(files))),
        forall|i: int| 0 <= i < files.len() ==> {
            &&& entries_map(readable_entries(file_views(files))).contains_key(#[trigger] files[i].name@)
            &&& entries_map(readable_entries(file_views(files)))[files[i].name@] == files[i].bytes@
        },
        forall|k: Seq<char>| #[trigger] entries_map(readable_entries(file_views(files))).contains_key(k)
            ==> exists|i: int| 0 <= i < files.len() && files[i].name@ == k,
    decreases files.len(),
{
    let e = readable_entries(file_views(files));
    if files.len() > 0 {
        let init = files.drop_last();
        assert(names_distinct(init)) by {
            assert forall|a: int, b: int| 0 <= a < b < init.len() implies
                #[trigger] init[a].name@ != #[trigger] init[b].name@ by {
                assert(init[a] == files[a]);
                assert(init[b] == files[b]);
            }
        }
        let e0 = readable_entries(file_views(init));
        assert(e.drop_last() =~= e0);
        lemma_entries_of_files(init);
        let last = files.last();
        assert(e.last() == Some((last.name@, last.bytes@)));
        assert(entries_map(e) == entries_map(e0).insert(last.name@, last.bytes@));
        assert forall|i: int| 0 <= i < files.len() implies {
            &&& entries_map(e).contains_key(#[trigger] files[i].name@)
            &&& entries_map(e)[files[i].name@] == files[i].bytes@
        } by {
            if i < files.len() - 1 {
                assert(init[i] == files[i]);
                assert(files[i].name@ != files[files.len() - 1].name@);
            }
        }
        assert forall|k: Seq<char>| #[trigger] entries_map(e).contains_key(k)
            implies exists|i: int| 0 <= i < files.len() && files[i].name@ == k by {
            if k != last.name@ {
                assert(entries_map(e0).contains_key(k));
                let i = choose|i: int| 0 <= i < init.len() && init[i].name@ == k;
                assert(files[i] == init[i]);
            } else {
                assert(files[files.len() - 1].name@ == k);
            }
        }
    } else {
        assert(entries_map(e) == Map::<Seq<char>, Seq<u8>>::empty());
    }
}

/// What `zip_files` packs, `extract_zip_to_hashmap` gives back: an
/// archive that reads back as files of distinct names has every entry
/// readable and unpacks into exactly those files, each with its bytes.
pub proof fn lemma_zip_read_back(files: Seq<WasmFile>, bytes: Seq<u8>)
    requires
        names_distinct(files),
        zip_archive_of(bytes) == Some(readable_entries(file_views(files))),
    ensures
        zip_archive_of(bytes) matches Some(entries) && all_readable(entries) && {
            &&& forall|i: int| 0 <= i < files.len() ==> {
                &&& entries_map(entries).contains_key(#[trigger] files[i].name@)
                &&& entries_map(entries)[files[i].name@] == files[i].bytes@
            }
            &&& forall|k: Seq<char>| #[trigger] entries_map(entries).contains_key(k)
                ==> exists|i: int| 0 <= i < files.len() && files[i].name@ == k
        },
{
    lemma_entries_of_files(files);
}

/// The files of a map's archive: the map file under `maps/`, then every
/// fetched resource, in the order of the map.
pub fn map_archive_files(map_name: &str, bsp_bytes: Vec<u8>, resources: ResourceMap) -> (res: Vec<WasmFile>)
    ensures
        res@.len() == resources.entries@.len() + 1,
        res@[0].name@ == spec_map_entry_name(map_name@),
        res@[0].bytes@ == bsp_bytes@,
        forall|i: int| 0 <= i < resources.entries@.len() ==> {
            &&& (#[trigger] res@[i + 1]).name@ == resources.entries@[i].0@
            &&& res@[i + 1].bytes@ == resources.entries@[i].1@
        },
{
    let mut name = String::from_str("maps/");
    name.append(map_name);
    proof {
        reveal_strlit("maps/");
    }
    let mut files: Vec<WasmFile> = Vec::new();
    files.push(WasmFile { name, bytes: bsp_bytes });
    let ghost entries = resources.entries@;
    let mut rest = resources.entries;
    let mut taken: Vec<WasmFile> = Vec::new();
    while rest.len() > 0
        invariant
            rest@.len() + taken@.len() == entries.len(),
            forall|j: int| 0 <= j < rest@.len() ==> #[trigger] rest@[j] == entries[j],
            forall|j: int| 0 <= j < taken@.len() ==> {
                &&& (#[trigger] taken@[j]).name@ == entries[entries.len() - 1 - j].0@
                &&& taken@[j].bytes@ == entries[entries.len() - 1 - j].1@
            },
        decreases rest@.len(),
    {
        let (key, value) = rest.pop().unwrap();
        taken.push(WasmFile { name: key, bytes: value });
    }
    let ghost first = files@[0];
    while taken.len() > 0
        invariant
            files@.len() >= 1,
            files@[0] == first,
            files@.len() - 1 + taken@.len() == entries.len(),
            forall|j: int| 0 <= j < taken@.len() ==> {
                &&& (#[trigger] taken@[j]).name@ == entries[entries.len() - 1 - j].0@
                &&& taken@[j].bytes@ == entries[entries.len() - 1 - j].1@
            },
            forall|i: int| 1 <= i < files@.len() ==> {
                &&& (#[trigger] files@[i]).name@ == entries[i - 1].0@
                &&& files@[i].bytes@ == entries[i - 1].1@
            },
        decreases taken@.len(),
    {
        let f = taken.pop().unwrap();
        files.push(f);
    }
    files
}

} // verus!
