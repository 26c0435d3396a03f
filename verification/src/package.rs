//! A `.docx` package in memory: an ordered collection of named parts.
//!
//! Loading reads every entry of the zip, saving writes them back out in the same
//! order. All higher-level operations work on the parts in place.

use std::io::{Cursor, Read, Write};
use vstd::prelude::*;
use vstd::utf8::*;
use zip::result::ZipError;
use zip::{ZipArchive, ZipWriter};

use crate::bytes::lit;
use crate::error::Error;
use crate::names::{inserted, NameMap, Pairs};
use crate::ns::PART_CONTENT_TYPES;
use crate::text::str_eq;

verus! {

/// The parts of a package: names and contents in insertion order.
pub type Parts = Seq<(Seq<char>, Seq<u8>)>;

/// A `.docx` package.
#[derive(Debug)]
pub struct Package {
    entries: Vec<Entry>,
    source: Option<String>,
}

#[derive(Debug)]
struct Entry {
    name: String,
    data: Vec<u8>,
}

impl View for Package {
    type V = Parts;

    closed spec fn view(&self) -> Parts {
        entries_view(self.entries@)
    }
}

closed spec fn entries_view(v: Seq<Entry>) -> Parts {
    v.map_values(|e: Entry| (e.name@, e.data@))
}

/// The first part named `name`, looked for from `from` on.
pub open spec fn find_part(parts: Parts, name: Seq<char>, from: int) -> Option<int>
    decreases parts.len() - from,
{
    if from >= parts.len() {
        None
    } else if parts[from].0 == name {
        Some(from)
    } else {
        find_part(parts, name, from + 1)
    }
}

/// The contents of the part named `name`.
pub open spec fn part(parts: Parts, name: Seq<char>) -> Option<Seq<u8>> {
    match find_part(parts, name, 0) {
        Some(i) => Some(parts[i].1),
        None => None,
    }
}

/// `parts` with the part named `name` set to `data`; a new part goes to the end.
pub open spec fn with_part(parts: Parts, name: Seq<char>, data: Seq<u8>) -> Parts {
    match find_part(parts, name, 0) {
        Some(i) => parts.update(i, (name, data)),
        None => parts.push((name, data)),
    }
}

/// `parts` with the first part named `from` renamed to `to`.
pub open spec fn with_renamed(parts: Parts, from: Seq<char>, to: Seq<char>) -> Parts {
    match find_part(parts, from, 0) {
        Some(i) => parts.update(i, (to, parts[i].1)),
        None => parts,
    }
}

/// `parts` without the parts named `name`.
pub open spec fn without_part(parts: Parts, name: Seq<char>) -> Parts {
    parts.filter(|p: (Seq<char>, Seq<u8>)| p.0 != name)
}

/// The parts by name. Of parts with the same name the last counts.
pub open spec fn by_name(parts: Parts) -> Pairs<Seq<u8>>
    decreases parts.len(),
{
    if parts.len() == 0 {
        Seq::empty()
    } else {
        inserted(by_name(parts.drop_last()), parts.last().0, parts.last().1)
    }
}

/// `find_part` is the least position with that name.
pub proof fn lemma_find_part(parts: Parts, name: Seq<char>, from: int)
    requires
        0 <= from,
    ensures
        match find_part(parts, name, from) {
            Some(i) => from <= i < parts.len() && parts[i].0 == name && forall|j: int|
                from <= j < i ==> parts[j].0 != name,
            None => forall|j: int| from <= j < parts.len() ==> parts[j].0 != name,
        },
    decreases parts.len() - from,
{
    if from < parts.len() && parts[from].0 != name {
        lemma_find_part(parts, name, from + 1);
    }
}

/// Setting a part makes it the part of that name and leaves every other part, and
/// the order of the names, as they were.
pub proof fn lemma_with_part(parts: Parts, name: Seq<char>, data: Seq<u8>)
    ensures
        part(with_part(parts, name, data), name) == Some(data),
        forall|other: Seq<char>|
            other != name ==> #[trigger] part(with_part(parts, name, data), other) == part(
                parts,
                other,
            ),
        forall|i: int|
            0 <= i < parts.len() ==> #[trigger] with_part(parts, name, data)[i].0 == parts[i].0,
{
    let after = with_part(parts, name, data);
    lemma_find_part(parts, name, 0);
    lemma_find_part(after, name, 0);
    match find_part(parts, name, 0) {
        Some(i) => {
            assert(after[i].0 == name);
        },
        None => {
            assert(after[parts.len() as int].0 == name);
        },
    }
    assert forall|other: Seq<char>| other != name implies #[trigger] part(after, other) == part(
        parts,
        other,
    ) by {
        lemma_find_part(parts, other, 0);
        lemma_find_part(after, other, 0);
        match (find_part(parts, other, 0), find_part(after, other, 0)) {
            (Some(i), Some(j)) => {
                assert(after[i].0 == other);
                assert(parts[j].0 == other);
            },
            (Some(i), None) => {
                assert(after[i].0 == other);
            },
            (None, Some(j)) => {
                assert(parts[j].0 == other);
            },
            (None, None) => {},
        }
    }
}

/// Renaming a part whose new name is free moves its contents to the new name.
pub proof fn lemma_with_renamed(parts: Parts, from: Seq<char>, to: Seq<char>)
    requires
        part(parts, from) is Some,
        part(parts, to) is None,
    ensures
        part(with_renamed(parts, from, to), to) == part(parts, from),
        with_renamed(parts, from, to).len() == parts.len(),
        forall|other: Seq<char>|
            other != from && other != to ==> #[trigger] part(
                with_renamed(parts, from, to),
                other,
            ) == part(parts, other),
{
    let after = with_renamed(parts, from, to);
    lemma_find_part(parts, from, 0);
    lemma_find_part(parts, to, 0);
    lemma_find_part(after, to, 0);
    let k = find_part(parts, from, 0)->0;
    assert(after[k].0 == to);
    assert forall|other: Seq<char>| other != from && other != to implies #[trigger] part(
        after,
        other,
    ) == part(parts, other) by {
        lemma_find_part(parts, other, 0);
        lemma_find_part(after, other, 0);
        match (find_part(parts, other, 0), find_part(after, other, 0)) {
            (Some(i), Some(j)) => {
                assert(after[i].0 == other);
                assert(parts[j].0 == other);
            },
            (Some(i), None) => {
                assert(after[i].0 == other);
            },
            (None, Some(j)) => {
                assert(parts[j].0 == other);
            },
            (None, None) => {},
        }
    }
}

/// A part appended at the end is found only where no earlier part has its name.
pub proof fn lemma_part_push(parts: Parts, last: (Seq<char>, Seq<u8>), name: Seq<char>)
    ensures
        part(parts.push(last), name) == match part(parts, name) {
            Some(d) => Some(d),
            None => if last.0 == name {
                Some(last.1)
            } else {
                None
            },
        },
{
    let after = parts.push(last);
    lemma_find_part(parts, name, 0);
    lemma_find_part(after, name, 0);
    match find_part(parts, name, 0) {
        Some(i) => {
            assert(after[i].0 == name);
        },
        None => {
            assert(after[parts.len() as int] == last);
            if find_part(after, name, 0) is Some {
                let j = find_part(after, name, 0)->0;
                assert(j < parts.len() ==> parts[j].0 == name);
            }
        },
    }
}

/// After a removal no part has that name, and every other part is as it was.
pub proof fn lemma_without_part(parts: Parts, name: Seq<char>)
    ensures
        part(without_part(parts, name), name) is None,
        forall|other: Seq<char>|
            other != name ==> #[trigger] part(without_part(parts, name), other) == part(
                parts,
                other,
            ),
    decreases parts.len(),
{
    reveal(Seq::filter);
    let keep = |p: (Seq<char>, Seq<u8>)| p.0 != name;
    if parts.len() > 0 {
        let init = parts.drop_last();
        let last = parts.last();
        lemma_without_part(init, name);
        assert(init.push(last) =~= parts);
        assert(keep(last) == (last.0 != name));
        lemma_part_push(init, last, name);
        if last.0 != name {
            assert(without_part(parts, name) =~= without_part(init, name).push(last));
            lemma_part_push(without_part(init, name), last, name);
        } else {
            assert(without_part(parts, name) =~= without_part(init, name));
        }
        assert forall|other: Seq<char>| other != name implies #[trigger] part(
            without_part(parts, name),
            other,
        ) == part(parts, other) by {
            assert(part(without_part(init, name), other) == part(init, other));
            lemma_part_push(init, last, other);
            if last.0 != name {
                lemma_part_push(without_part(init, name), last, other);
            }
        }
    }
}

// ---------------------------------------------------------------------------
// The zip container
// ---------------------------------------------------------------------------

/// `zip::ZipArchive`.
#[verifier::external_type_specification]
#[verifier::external_body]
#[verifier::reject_recursive_types(R)]
pub struct ExZipArchive<R>(zip::ZipArchive<R>);

/// A `zip::ZipWriter` on a buffer in memory.
#[verifier::external_body]
pub struct ArchiveWriter {
    inner: ZipWriter<Cursor<Vec<u8>>>,
}

/// `std::io::Cursor`.
#[verifier::external_type_specification]
#[verifier::external_body]
#[verifier::reject_recursive_types(T)]
pub struct ExCursor<T>(std::io::Cursor<T>);

/// The entries of an archive in index order, each with its name and its unpacked
/// data; an entry that cannot be read stands as `None`.
pub uninterp spec fn archive_entries(archive: ZipArchive<Cursor<&[u8]>>) -> Seq<
    Option<(Seq<char>, Seq<u8>)>,
>;

/// The entries of the archive that `bytes` hold, or `None` where they hold none.
pub uninterp spec fn zip_entries(bytes: Seq<u8>) -> Option<Seq<Option<(Seq<char>, Seq<u8>)>>>;

/// The files started on a writer so far, with what was written to each.
pub uninterp spec fn writer_entries(writer: ArchiveWriter) -> Parts;

/// No call on the writer has failed.
pub uninterp spec fn writer_sound(writer: ArchiveWriter) -> bool;

/// What an archive of these parts takes at most where nothing can be compressed: the
/// names and the contents, with room for the headers of each part.
pub open spec fn archive_weight(parts: Parts) -> int
    decreases parts.len(),
{
    if parts.len() == 0 {
        0
    } else {
        archive_weight(parts.drop_last()) + encode_utf8(parts.last().0).len()
            + parts.last().1.len() + 128
    }
}

/// The parts fit into an archive with 32-bit sizes and offsets, with an eighth to spare.
pub open spec fn is_small(parts: Parts) -> bool {
    archive_weight(parts) <= 0xe000_0000
}

/// `ZipArchive::new` on bytes in memory.
#[verifier::external_body]
fn open_archive<'a>(bytes: &'a [u8]) -> (res: Result<ZipArchive<Cursor<&'a [u8]>>, ZipError>)
    ensures
        match res {
            Ok(a) => zip_entries(bytes@) == Some(archive_entries(a)),
            Err(_) => zip_entries(bytes@) is None,
        },
{
    ZipArchive::new(Cursor::new(bytes))
}

/// `ZipArchive::len`.
#[verifier::external_body]
fn archive_len<'a>(archive: &ZipArchive<Cursor<&'a [u8]>>) -> (n: usize)
    ensures
        n == archive_entries(*archive).len(),
{
    archive.len()
}

/// `ZipArchive::by_index`, read to its end: the name and the unpacked data of the
/// entry, or the failure to find it or to read it. The archive keeps its entries.
#[verifier::external_body]
fn read_entry<'a>(archive: &mut ZipArchive<Cursor<&'a [u8]>>, i: usize) -> (res: Result<
    (String, Vec<u8>),
    Error,
>)
    requires
        i < archive_entries(*old(archive)).len(),
    ensures
        match archive_entries(*old(archive))[i as int] {
            Some(e) => res is Ok && res->Ok_0.0@ == e.0 && res->Ok_0.1@ == e.1,
            None => res is Err && (res->Err_0 is Zip || res->Err_0 is Plain),
        },
        archive_entries(*final(archive)) == archive_entries(*old(archive)),
{
    let mut file = archive.by_index(i).map_err(Error::Zip)?;
    let name = file.name().to_string();
    let mut data = Vec::new();
    file.read_to_end(&mut data).map_err(Error::Plain)?;
    Ok((name, data))
}

/// `ZipWriter::new` on an empty buffer.
#[verifier::external_body]
fn new_writer() -> (writer: ArchiveWriter)
    ensures
        writer_entries(writer).len() == 0,
        writer_sound(writer),
{
    ArchiveWriter { inner: ZipWriter::new(Cursor::new(Vec::new())) }
}

/// `ZipWriter::start_file` with deflate compression: starts an empty file, and
/// refuses a name already used. It succeeds on another name where no call on the writer
/// has failed and the archive stays small.
#[verifier::external_body]
fn start_file(writer: &mut ArchiveWriter, name: &str) -> (res: Result<(), ZipError>)
    requires
        lit(name).len() <= 0xffff,
    ensures
        part(writer_entries(*old(writer)), name@) is Some ==> res is Err,
        res is Ok ==> writer_entries(*final(writer)) == writer_entries(*old(writer)).push(
            (name@, Seq::<u8>::empty()),
        ),
        res is Ok && writer_sound(*old(writer)) ==> writer_sound(*final(writer)),
        writer_sound(*old(writer)) && part(writer_entries(*old(writer)), name@) is None && is_small(
            writer_entries(*old(writer)).push((name@, Seq::<u8>::empty())),
        ) ==> res is Ok,
{
    let options = zip::write::SimpleFileOptions::default()
        .compression_method(zip::CompressionMethod::Deflated);
    writer.inner.start_file(name, options)
}

/// `Write::write_all` on a `ZipWriter`: appends to the file started last. It succeeds where
/// no call on the writer has failed and the archive stays small.
#[verifier::external_body]
fn write_file(writer: &mut ArchiveWriter, data: &[u8]) -> (res: Result<
    (),
    std::io::Error,
>)
    requires
        writer_entries(*old(writer)).len() > 0,
    ensures
        res is Ok ==> writer_entries(*final(writer)) == writer_entries(*old(writer)).update(
            writer_entries(*old(writer)).len() - 1,
            (
                writer_entries(*old(writer)).last().0,
                writer_entries(*old(writer)).last().1 + data@,
            ),
        ),
        res is Ok && writer_sound(*old(writer)) ==> writer_sound(*final(writer)),
        writer_sound(*old(writer)) && is_small(
            writer_entries(*old(writer)).update(
                writer_entries(*old(writer)).len() - 1,
                (
                    writer_entries(*old(writer)).last().0,
                    writer_entries(*old(writer)).last().1 + data@,
                ),
            ),
        ) ==> res is Ok,
{
    writer.inner.write_all(data)
}

/// `ZipWriter::finish`: the bytes of an archive with exactly the files written. It succeeds
/// where no call on the writer has failed and the archive is small.
#[verifier::external_body]
fn finish_archive(writer: ArchiveWriter) -> (res: Result<Vec<u8>, ZipError>)
    ensures
        res is Ok ==> zip_entries(res->Ok_0@) == Some(
            writer_entries(writer).map_values(|e: (Seq<char>, Seq<u8>)| Some(e)),
        ),
        writer_sound(writer) && is_small(writer_entries(writer)) ==> res is Ok,
{
    Ok(writer.inner.finish()?.into_inner())
}

/// The entries that could all be read, as parts.
pub open spec fn entry_parts(entries: Seq<Option<(Seq<char>, Seq<u8>)>>) -> Parts {
    entries.map_values(|e: Option<(Seq<char>, Seq<u8>)>| e->0)
}

/// Every entry could be read.
pub open spec fn all_entries_read(entries: Seq<Option<(Seq<char>, Seq<u8>)>>) -> bool {
    forall|i: int| 0 <= i < entries.len() ==> entries[i] is Some
}

/// The text of a source path, or nothing.
pub open spec fn opt_view(s: Option<String>) -> Option<Seq<char>> {
    match s {
        Some(s) => Some(s@),
        None => None,
    }
}

/// What loading gives: the parts of the archive in `bytes`, if it can be read and
/// has a content-types part.
pub open spec fn loaded(bytes: Seq<u8>, source: Seq<char>, res: Result<Package, Error>) -> bool {
    match zip_entries(bytes) {
        None => res is Err && res->Err_0 is Zip,
        Some(entries) => if !all_entries_read(entries) {
            res is Err && (res->Err_0 is Zip || res->Err_0 is Plain)
        } else if part(entry_parts(entries), PART_CONTENT_TYPES@) is None {
            res matches Err(Error::InvalidPackage { path, reason }) && path@ == source && reason@
                == "missing [Content_Types].xml"@
        } else {
            res is Ok && res->Ok_0@ == entry_parts(entries)
        },
    }
}

/// The parts that a vector of names and contents stands for.
pub open spec fn parts_view(v: Seq<(&str, &[u8])>) -> Parts {
    v.map_values(|p: (&str, &[u8])| (p.0@, p.1@))
}

impl Package {
    /// Where the package was loaded from, if known.
    pub closed spec fn source_view(&self) -> Option<Seq<char>> {
        opt_view(self.source)
    }

    /// An empty package.
    pub fn new() -> (r: Self)
        ensures
            r@ == Parts::empty(),
            r.source_view() is None,
    {
        let r = Package { entries: Vec::new(), source: None };
        assert(r@ =~= Parts::empty());
        r
    }

    /// Loads a package from a buffer.
    pub fn from_bytes(bytes: &[u8]) -> (res: Result<Self, Error>)
        ensures
            loaded(bytes@, Seq::empty(), res),
            res is Ok ==> res->Ok_0.source_view() is None,
    {
        Self::from_archive(bytes, None)
    }

    /// Loads a package from a buffer that was read from `source`.
    pub fn from_archive(bytes: &[u8], source: Option<String>) -> (res: Result<Self, Error>)
        ensures
            loaded(
                bytes@,
                match source {
                    Some(s) => s@,
                    None => Seq::empty(),
                },
                res,
            ),
            res is Ok ==> res->Ok_0.source_view() == opt_view(source),
    {
        let mut archive = match open_archive(bytes) {
            Ok(a) => a,
            Err(e) => return Err(Error::Zip(e)),
        };
        let ghost all = archive_entries(archive);
        let n: usize = archive_len(&archive);
        let mut entries: Vec<Entry> = Vec::new();
        let mut i: usize = 0;
        while i < n
            invariant
                i <= n,
                n == all.len(),
                zip_entries(bytes@) == Some(all),
                archive_entries(archive) == all,
                forall|j: int| 0 <= j < i ==> all[j] is Some,
                entries_view(entries@) == entry_parts(all.take(i as int)),
            decreases n - i,
        {
            let ghost before = entries@;
            match read_entry(&mut archive, i) {
                Ok(e) => {
                    entries.push(Entry { name: e.0, data: e.1 });
                    assert(entries_view(entries@) =~= entries_view(before).push((e.0@, e.1@)));
                    assert(entry_parts(all.take(i + 1)) =~= entry_parts(all.take(i as int)).push(
                        all[i as int]->0,
                    ));
                },
                Err(e) => {
                    assert(all[i as int] is None);
                    return Err(e);
                },
            }
            i += 1;
        }
        assert(all.take(n as int) =~= all);
        let pkg = Package { entries, source };
        if pkg.index_of(PART_CONTENT_TYPES).is_none() {
            let path = match pkg.source {
                Some(s) => s,
                None => String::new(),
            };
            return Err(
                Error::InvalidPackage { path, reason: "missing [Content_Types].xml".to_owned() },
            );
        }
        Ok(pkg)
    }

    /// The bytes of a `.docx` zip with the package's parts, in order. Two parts of one name
    /// cannot be written; parts with different names can, where they fit into an archive
    /// with 32-bit sizes.
    pub fn to_bytes(&self) -> (res: Result<Vec<u8>, Error>)
        requires
            forall|i: int|
                0 <= i < self@.len() ==> encode_utf8(#[trigger] self@[i].0).len() <= 0xffff,
        ensures
            match res {
                Ok(bytes) => zip_entries(bytes@) == Some(
                    self@.map_values(|e: (Seq<char>, Seq<u8>)| Some(e)),
                ),
                Err(e) => e is Zip || e is Plain,
            },
            (exists|i: int, j: int| 0 <= i < j < self@.len() && self@[i].0 == self@[j].0)
                ==> res is Err,
            is_small(self@) && (forall|i: int, j: int|
                0 <= i < j < self@.len() ==> (#[trigger] self@[i]).0 != (#[trigger] self@[j]).0)
                ==> res is Ok,
    {
        let mut writer = new_writer();
        let mut i: usize = 0;
        assert(writer_entries(writer) =~= self@.take(0));
        while i < self.entries.len()
            invariant
                i <= self.entries@.len(),
                self@.len() == self.entries@.len(),
                forall|i: int|
                    0 <= i < self@.len() ==> encode_utf8(#[trigger] self@[i].0).len() <= 0xffff,
                writer_entries(writer) == self@.take(i as int),
                writer_sound(writer),
                forall|a: int, b: int| 0 <= a < b < i ==> self@[a].0 != self@[b].0,
            decreases self.entries@.len() - i,
        {
            let ghost done = writer_entries(writer);
            assert(self@[i as int] == (
                self.entries@[i as int].name@,
                self.entries@[i as int].data@,
            ));
            assert(encode_utf8(self@[i as int].0).len() <= 0xffff);
            proof {
                let started = done.push((self@[i as int].0, Seq::<u8>::empty()));
                lemma_weight(self@, i + 1);
                assert(self@.take(i + 1).drop_last() =~= done);
                assert(started.drop_last() =~= done);
                lemma_find_part(done, self@[i as int].0, 0);
                assert(started.update(
                    started.len() - 1,
                    (started.last().0, started.last().1 + self@[i as int].1),
                ) =~= self@.take(i + 1)) by {
                    assert(Seq::<u8>::empty() + self@[i as int].1 =~= self@[i as int].1);
                }
            }
            match start_file(&mut writer, self.entries[i].name.as_str()) {
                Ok(_) => {},
                Err(e) => return Err(Error::Zip(e)),
            }
            proof {
                let name = self@[i as int].0;
                lemma_find_part(done, name, 0);
                assert forall|a: int, b: int| 0 <= a < b < i + 1 implies self@[a].0 != self@[b].0 by {
                    if b == i {
                        assert(done[a].0 == self@[a].0);
                    }
                }
            }
            match write_file(&mut writer, &self.entries[i].data) {
                Ok(_) => {},
                Err(e) => return Err(Error::Plain(e)),
            }
            proof {
                assert(Seq::<u8>::empty() + self@[i as int].1 =~= self@[i as int].1);
                assert(writer_entries(writer) =~= self@.take(i + 1));
            }
            i += 1;
        }
        assert(self@.take(i as int) =~= self@);
        match finish_archive(writer) {
            Ok(bytes) => Ok(bytes),
            Err(e) => Err(Error::Zip(e)),
        }
    }

    fn index_of(&self, name: &str) -> (r: Option<usize>)
        ensures
            match r {
                Some(i) => i < self.entries@.len() && find_part(self@, name@, 0) == Some(i as int),
                None => find_part(self@, name@, 0) is None,
            },
            self@.len() == self.entries@.len(),
            forall|i: int|
                0 <= i < self@.len() ==> #[trigger] self@[i] == (
                    self.entries@[i].name@,
                    self.entries@[i].data@,
                ),
    {
        let mut i: usize = 0;
        while i < self.entries.len()
            invariant
                i <= self.entries@.len(),
                find_part(self@, name@, 0) == find_part(self@, name@, i as int),
            decreases self.entries@.len() - i,
        {
            if str_eq(&self.entries[i].name, name) {
                return Some(i);
            }
            i += 1;
        }
        None
    }

    /// The contents of the part named `name`.
    pub fn get_part(&self, name: &str) -> (r: Option<&[u8]>)
        ensures
            match r {
                Some(d) => part(self@, name@) == Some(d@),
                None => part(self@, name@) is None,
            },
    {
        match self.index_of(name) {
            Some(i) => Some(self.entries[i].data.as_slice()),
            None => None,
        }
    }

    /// The contents of the part named `name`, to be changed in place.
    pub fn get_part_mut(&mut self, name: &str) -> (r: Option<&mut Vec<u8>>)
        ensures
            final(self).source_view() == old(self).source_view(),
            match r {
                Some(d) => {
                    &&& part(old(self)@, name@) == Some(d@)
                    &&& final(self)@ == with_part(old(self)@, name@, final(d)@)
                },
                None => part(old(self)@, name@) is None && final(self)@ == old(self)@,
            },
    {
        let ghost before = self.entries@;
        match self.index_of(name) {
            Some(i) => {
                proof {
                    lemma_find_part(self@, name@, 0);
                    assert forall|e: Entry| #[trigger]
                        entries_view(before.update(i as int, e)) == entries_view(before).update(
                            i as int,
                            (e.name@, e.data@),
                        ) by {
                        assert(entries_view(before.update(i as int, e)) =~= entries_view(
                            before,
                        ).update(i as int, (e.name@, e.data@)));
                    }
                }
                Some(&mut self.entries[i].data)
            },
            None => None,
        }
    }

    /// Replaces a part, or appends it where it is new.
    pub fn set_part(&mut self, name: &str, data: Vec<u8>)
        ensures
            final(self)@ == with_part(old(self)@, name@, data@),
            final(self).source_view() == old(self).source_view(),
    {
        match self.index_of(name) {
            Some(i) => {
                proof {
                    lemma_find_part(self@, name@, 0);
                }
                self.entries[i].data = data;
                assert(self@ =~= old(self)@.update(i as int, (name@, data@)));
            },
            None => {
                self.entries.push(Entry { name: name.to_owned(), data });
                assert(self@ =~= old(self)@.push((name@, data@)));
            },
        }
    }

    /// Renames a part. Returns whether there was one to rename.
    pub fn rename_part(&mut self, from: &str, to: &str) -> (r: bool)
        ensures
            final(self)@ == with_renamed(old(self)@, from@, to@),
            r == (part(old(self)@, from@) is Some),
            final(self).source_view() == old(self).source_view(),
    {
        match self.index_of(from) {
            Some(i) => {
                self.entries[i].name = to.to_owned();
                assert(self@ =~= old(self)@.update(i as int, (to@, old(self)@[i as int].1)));
                true
            },
            None => false,
        }
    }

    /// Removes the parts of that name. Returns whether there was any.
    pub fn remove_part(&mut self, name: &str) -> (r: bool)
        ensures
            final(self)@ == without_part(old(self)@, name@),
            r == (part(old(self)@, name@) is Some),
            final(self).source_view() == old(self).source_view(),
    {
        let ghost all = self@;
        let ghost keep = |p: (Seq<char>, Seq<u8>)| p.0 != name@;
        let mut found = false;
        let mut kept: Vec<Entry> = Vec::new();
        let n: usize = self.entries.len();
        let mut i: usize = 0;
        proof {
            lemma_find_part(all, name@, 0);
            reveal(Seq::filter);
        }
        assert(entries_view(kept@) =~= all.take(0).filter(keep));
        while i < n
            invariant
                i <= n,
                all.len() == n,
                self.entries@.len() == n,
                self.source == old(self).source,
                forall|p: (Seq<char>, Seq<u8>)| #[trigger] keep(p) == (p.0 != name@),
                forall|j: int|
                    i <= j < n ==> #[trigger] entries_view(self.entries@)[j] == all[j],
                entries_view(kept@) == all.take(i as int).filter(keep),
                found == exists|j: int| 0 <= j < i && all[j].0 == name@,
            decreases n - i,
        {
            let mut e = Entry { name: String::new(), data: Vec::new() };
            let ghost rest = entries_view(self.entries@);
            assert(rest[i as int] == all[i as int]);
            std::mem::swap(&mut e, &mut self.entries[i]);
            proof {
                reveal(Seq::filter);
                assert(all.take(i + 1).drop_last() =~= all.take(i as int));
                assert(all.take(i + 1).last() == all[i as int]);
                assert(keep(all[i as int]) == (all[i as int].0 != name@));
                assert forall|j: int| i + 1 <= j < n implies #[trigger] entries_view(
                    self.entries@,
                )[j] == all[j] by {
                    assert(rest[j] == all[j]);
                }
            }
            if str_eq(&e.name, name) {
                found = true;
            } else {
                let ghost before = kept@;
                kept.push(e);
                assert(entries_view(kept@) =~= entries_view(before).push(all[i as int]));
            }
            i += 1;
        }
        assert(all.take(n as int) =~= all);
        self.entries = kept;
        found
    }

    /// The names and contents of the parts, in insertion order.
    pub fn parts(&self) -> (r: Vec<(&str, &[u8])>)
        ensures
            parts_view(r@) == self@,
    {
        let mut r: Vec<(&str, &[u8])> = Vec::new();
        let mut i: usize = 0;
        assert(parts_view(r@) =~= self@.take(0));
        while i < self.entries.len()
            invariant
                i <= self.entries@.len(),
                parts_view(r@) == self@.take(i as int),
            decreases self.entries@.len() - i,
        {
            let ghost before = r@;
            r.push((self.entries[i].name.as_str(), self.entries[i].data.as_slice()));
            assert(self@.take(i + 1) =~= self@.take(i as int).push(self@[i as int]));
            assert(parts_view(r@) =~= parts_view(before).push(self@[i as int]));
            i += 1;
        }
        assert(self@.take(i as int) =~= self@);
        r
    }

    /// The parts in the order of their names.
    pub fn as_btree(&self) -> (r: NameMap<&[u8]>)
        ensures
            r@ == by_name(self@),
            r.wf(),
    {
        let mut r: NameMap<&[u8]> = NameMap::new();
        let mut i: usize = 0;
        assert(self@.take(0) =~= Seq::empty());
        while i < self.entries.len()
            invariant
                i <= self.entries@.len(),
                r@ == by_name(self@.take(i as int)),
                r.wf(),
            decreases self.entries@.len() - i,
        {
            proof {
                assert(self@.take(i + 1).drop_last() =~= self@.take(i as int));
                assert(self@.take(i + 1).last() == self@[i as int]);
            }
            r.insert(
                self.entries[i].name.as_str().to_owned(),
                self.entries[i].data.as_slice(),
            );
            i += 1;
        }
        assert(self@.take(i as int) =~= self@);
        r
    }

    /// Where the package was loaded from.
    pub fn source(&self) -> (r: Option<&str>)
        ensures
            match r {
                Some(s) => self.source_view() == Some(s@),
                None => self.source_view() is None,
            },
    {
        match &self.source {
            Some(s) => Some(s.as_str()),
            None => None,
        }
    }
}

proof fn lemma_weight(parts: Parts, n: int)
    requires
        0 <= n <= parts.len(),
    ensures
        0 <= archive_weight(parts.take(n)) <= archive_weight(parts),
    decreases parts.len(),
{
    if n == parts.len() {
        assert(parts.take(n) =~= parts);
        if n > 0 {
            lemma_weight(parts.drop_last(), n - 1);
            assert(parts.drop_last().take(n - 1) =~= parts.drop_last());
        }
    } else {
        lemma_weight(parts.drop_last(), n);
        assert(parts.drop_last().take(n) =~= parts.take(n));
    }
}

/// Loading what a package was written as gives its parts back, in order, wherever
/// the package has a content-types part.
pub proof fn law_write_then_load(parts: Parts, bytes: Seq<u8>, source: Seq<char>, res: Result<Package, Error>)
    requires
        part(parts, PART_CONTENT_TYPES@) is Some,
        zip_entries(bytes) == Some(parts.map_values(|e: (Seq<char>, Seq<u8>)| Some(e))),
        loaded(bytes, source, res),
    ensures
        res is Ok,
        res->Ok_0@ == parts,
{
    assert(entry_parts(zip_entries(bytes)->0) =~= parts);
}

} // verus!
