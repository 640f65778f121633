//! Application archives: zip files that are checked before anything is taken
//! from them.

use crate::error::{fatal_with, ErrorView, WieError};
use crate::path::{has_parent_segment, parent_segment};
use crate::text::{
    chars_of, chars_precede, law_parts_stand_between_separators, law_parts_stand_in_the_text,
    law_text_order_is_transitive, law_texts_are_ordered, lemma_part_number, same_chars, split,
    split_at_each, stands_at, text_precedes, texts,
};
use crate::zip_index::{
    crc32, open_zip, zip_content, zip_entries, zip_index, zip_len, zip_located, zip_locate,
    zip_names, zip_open, zip_opens, zip_read, zip_source, zip_start, ZipEntry, MAX_ENTRY_BYTES,
};
use vstd::prelude::*;

verus! {

/// The most entries that an archive may have.
pub const MAX_ENTRIES: usize = 16_384;

/// The most bytes that the entries of an archive may have together.
pub const MAX_TOTAL_BYTES: u64 = 0x800_0000;

/// The length of a central header up to the entry's name.
pub const CENTRAL_HEADER_BYTES: usize = 46;

/// Why an archive, or an entry of it, is refused.
pub enum Refusal {
    /// It breaks a rule of this library; the text names the rule.
    Rule(Seq<char>),
    /// The zip reader cannot read it, and says why in its own words.
    Unreadable,
}

/// The text in front of every reason.
pub open spec fn refusal_prefix() -> Seq<char> {
    "Invalid zip archive: "@
}

/// Whether `error` reports `refusal`.
pub open spec fn reports(error: ErrorView, refusal: Refusal) -> bool {
    match refusal {
        Refusal::Rule(reason) => error == ErrorView::FatalError(refusal_prefix() + reason),
        Refusal::Unreadable => exists|text: Seq<char>|
            error == ErrorView::FatalError(#[trigger] (refusal_prefix() + text)),
    }
}

/// The unsigned 16-bit number, low byte first, at `at`.
pub open spec fn le16(data: Seq<u8>, at: int) -> nat {
    data[at] as nat + 256 * data[at + 1] as nat
}

/// Whether a central header begins at `at`: the bytes `PK`, 1, 2.
pub open spec fn has_central_header(data: Seq<u8>, at: int) -> bool {
    &&& 0 <= at
    &&& at + 4 <= data.len()
    &&& data[at] == 0x50
    &&& data[at + 1] == 0x4b
    &&& data[at + 2] == 1
    &&& data[at + 3] == 2
}

/// The raw name in the central header at `at`.
pub open spec fn raw_name(data: Seq<u8>, at: int) -> Seq<u8> {
    data.subrange(at + CENTRAL_HEADER_BYTES, at + CENTRAL_HEADER_BYTES + le16(data, at + 28))
}

/// Where the central header at `at` ends: behind its name, its extra field and
/// its comment.
pub open spec fn central_end(data: Seq<u8>, at: int) -> int {
    at + CENTRAL_HEADER_BYTES + le16(data, at + 28) + le16(data, at + 30) + le16(data, at + 32)
}

/// The raw names in the central headers from `at` on, behind the names that
/// came before, or the rule that the headers break.
pub open spec fn central_names(data: Seq<u8>, at: int, before: Seq<Seq<u8>>) -> Result<
    Seq<Seq<u8>>,
    Seq<char>,
>
    decreases data.len() - at,
{
    if !has_central_header(data, at) {
        Ok(before)
    } else if at + CENTRAL_HEADER_BYTES > data.len() {
        Err("short central header"@)
    } else if at + CENTRAL_HEADER_BYTES + le16(data, at + 28) > data.len() {
        Err("short entry name"@)
    } else if before.contains(raw_name(data, at)) {
        Err("duplicate entry name"@)
    } else if before.len() + 1 > MAX_ENTRIES {
        Err("entry count limit exceeded"@)
    } else if central_end(data, at) > data.len() {
        Err("short central entry"@)
    } else {
        central_names(data, central_end(data, at), before.push(raw_name(data, at)))
    }
}

/// A name with `/` for every backslash.
pub open spec fn slashed(name: Seq<char>) -> Seq<char> {
    name.map_values(
        |c: char|
            if c == '\\' {
                '/'
            } else {
                c
            },
    )
}

/// Whether a name holds a zero character, or `..` between slashes or backslashes.
pub open spec fn is_unsafe_name(name: Seq<char>) -> bool {
    name.contains('\0') || split(slashed(name), '/').contains(parent_segment())
}

/// The rule that the next entry of an archive breaks, where the names of the
/// entries before it are `seen` and their sizes add up to `total`.
pub open spec fn entry_rule(
    seen: Seq<Seq<char>>,
    name: Seq<char>,
    size: u64,
    total: nat,
) -> Option<Seq<char>> {
    if is_unsafe_name(name) {
        Some("unsafe entry path"@)
    } else if seen.contains(name) {
        Some("duplicate decoded entry name"@)
    } else if total + size > u64::MAX {
        Some("size overflow"@)
    } else if size > MAX_ENTRY_BYTES || total + size > MAX_TOTAL_BYTES {
        Some("decompressed size limit exceeded"@)
    } else {
        None
    }
}

/// The names of entries.
pub open spec fn entry_names(entries: Seq<ZipEntry>) -> Seq<Seq<char>> {
    entries.map_values(|entry: ZipEntry| entry.name)
}

/// Why the entries from `from` on are refused, where those before have `total`
/// bytes together.
pub open spec fn entries_refusal(data: Seq<u8>, from: int, total: nat) -> Option<Refusal>
    decreases zip_entries(data).len() - from,
{
    let entries = zip_entries(data);
    if from < 0 || from >= entries.len() {
        None
    } else if !zip_located(data, from as nat) {
        Some(Refusal::Unreadable)
    } else {
        let entry = entries[from];
        match entry_rule(entry_names(entries).take(from), entry.name, entry.size, total) {
            Some(reason) => Some(Refusal::Rule(reason)),
            None => entries_refusal(data, from + 1, total + entry.size as nat),
        }
    }
}

/// Why an archive is refused.
pub open spec fn archive_refusal(data: Seq<u8>) -> Option<Refusal> {
    if data.len() > MAX_ENTRY_BYTES {
        Some(Refusal::Rule("compressed size limit exceeded"@))
    } else {
        match zip_index(data) {
            None => Some(Refusal::Unreadable),
            Some(index) => if index.entries.len() > MAX_ENTRIES {
                Some(Refusal::Rule("entry count limit exceeded"@))
            } else if index.start > usize::MAX {
                Some(Refusal::Rule("out of range integral type conversion attempted"@))
            } else {
                match central_names(data, index.start as int, Seq::empty()) {
                    Err(reason) => Some(Refusal::Rule(reason)),
                    Ok(names) => if names.len() != index.entries.len() {
                        Some(Refusal::Rule("inconsistent central index"@))
                    } else {
                        entries_refusal(data, 0, 0)
                    },
                }
            },
        }
    }
}

/// What reading one entry gives: nothing where it is no file.
pub open spec fn entry_content(data: Seq<u8>, index: nat) -> Result<Option<Seq<u8>>, Refusal> {
    let entry = zip_entries(data)[index as int];
    if !zip_opens(data, index) {
        Err(Refusal::Unreadable)
    } else if !entry.file {
        Ok(None)
    } else {
        match zip_content(data, index, (entry.size + 1) as u64) {
            None => Err(Refusal::Unreadable),
            Some(bytes) => if bytes.len() != entry.size {
                Err(Refusal::Rule("entry length mismatch"@))
            } else {
                Ok(Some(bytes))
            },
        }
    }
}

/// The files among the first `n` entries, of those that are chosen, in the
/// order of the index, or the first failure.
pub open spec fn extracted(data: Seq<u8>, chosen: Seq<bool>, n: nat) -> Result<
    Seq<(Seq<char>, Seq<u8>)>,
    Refusal,
>
    decreases n,
{
    if n == 0 {
        Ok(Seq::empty())
    } else {
        let last = (n - 1) as nat;
        match extracted(data, chosen, last) {
            Err(refusal) => Err(refusal),
            Ok(files) => if !chosen[last as int] {
                Ok(files)
            } else {
                match entry_content(data, last) {
                    Err(refusal) => Err(refusal),
                    Ok(None) => Ok(files),
                    Ok(Some(bytes)) => Ok(files.push((zip_entries(data)[last as int].name, bytes))),
                }
            },
        }
    }
}

/// Whether the names of `files` ascend, so that no two are the same.
pub open spec fn names_ascend(files: Seq<(Seq<char>, Seq<u8>)>) -> bool {
    forall|i: int, j: int|
        0 <= i < j < files.len() ==> text_precedes(#[trigger] files[i].0, #[trigger] files[j].0)
}

/// The meaning of extracted files.
pub open spec fn file_views(files: Seq<(String, Vec<u8>)>) -> Seq<(Seq<char>, Seq<u8>)> {
    files.map_values(|file: (String, Vec<u8>)| (file.0@, file.1@))
}

/// The sizes of the first `n` entries, added up.
pub open spec fn total_size(entries: Seq<ZipEntry>, n: int) -> nat
    decreases n,
{
    if n <= 0 {
        0
    } else {
        total_size(entries, n - 1) + entries[n - 1].size as nat
    }
}

proof fn lemma_entries_accepted(data: Seq<u8>, from: int, i: int)
    requires
        0 <= from <= i < zip_entries(data).len(),
        total_size(zip_entries(data), from) <= MAX_TOTAL_BYTES,
        entries_refusal(data, from, total_size(zip_entries(data), from)) is None,
    ensures
        zip_located(data, i as nat),
        !is_unsafe_name(zip_entries(data)[i].name),
        !entry_names(zip_entries(data)).take(i).contains(zip_entries(data)[i].name),
        zip_entries(data)[i].size <= MAX_ENTRY_BYTES,
        total_size(zip_entries(data), i + 1) <= MAX_TOTAL_BYTES,
    decreases i - from,
{
    if from < i {
        lemma_entries_accepted(data, from + 1, i);
    }
}

proof fn lemma_central_names_distinct(data: Seq<u8>, at: int, before: Seq<Seq<u8>>)
    requires
        before.no_duplicates(),
        before.len() <= MAX_ENTRIES,
        central_names(data, at, before) is Ok,
    ensures
        central_names(data, at, before)->Ok_0.no_duplicates(),
        central_names(data, at, before)->Ok_0.len() <= MAX_ENTRIES,
    decreases data.len() - at,
{
    if has_central_header(data, at) {
        let names = before.push(raw_name(data, at));
        assert forall|i: int, j: int|
            0 <= i < names.len() && 0 <= j < names.len() && i != j implies names[i] != names[j] by {
            if i == before.len() {
                assert(before.contains(before[j]));
            } else if j == before.len() {
                assert(before.contains(before[i]));
            }
        }
        lemma_central_names_distinct(data, central_end(data, at), names);
    }
}

/// An accepted archive keeps every limit: its entries have different names, raw
/// and decoded, none of which leaves the directory it is taken from, and their
/// number and sizes are bounded.
pub proof fn law_accepted_archives_are_safe(data: Seq<u8>)
    requires
        archive_refusal(data) is None,
    ensures
        ({
            let entries = zip_entries(data);
            let raw = central_names(data, zip_index(data)->0.start as int, Seq::empty());
            &&& zip_index(data) is Some
            &&& entries.len() <= MAX_ENTRIES
            &&& raw is Ok && raw->Ok_0.no_duplicates() && raw->Ok_0.len() == entries.len()
            &&& forall|i: int|
                #![trigger entries[i]]
                0 <= i < entries.len() ==> !is_unsafe_name(entries[i].name) && entries[i].size
                    <= MAX_ENTRY_BYTES
            &&& forall|i: int, j: int|
                0 <= i < j < entries.len() ==> #[trigger] entries[i].name != #[trigger] entries[j].name
            &&& total_size(entries, entries.len() as int) <= MAX_TOTAL_BYTES
        }),
{
    let entries = zip_entries(data);
    lemma_central_names_distinct(data, zip_index(data)->0.start as int, Seq::empty());
    assert forall|i: int|
        #![trigger entries[i]]
        0 <= i < entries.len() implies !is_unsafe_name(entries[i].name) && entries[i].size
        <= MAX_ENTRY_BYTES by {
        lemma_entries_accepted(data, 0, i);
    }
    assert forall|i: int, j: int| 0 <= i < j < entries.len() implies #[trigger] entries[i].name
        != #[trigger] entries[j].name by {
        lemma_entries_accepted(data, 0, j);
        assert(entry_names(entries).take(j)[i] == entries[i].name);
    }
    if entries.len() > 0 {
        lemma_entries_accepted(data, 0, entries.len() - 1);
    }
}

/// The error for `reason`.
fn invalid(reason: &str) -> (error: WieError)
    ensures
        error@ == ErrorView::FatalError(refusal_prefix() + reason@),
{
    fatal_with("Invalid zip archive: ", reason)
}

/// Whether `name` is one of `names`.
fn holds_name(names: &Vec<Vec<u8>>, name: &Vec<u8>) -> (found: bool)
    ensures
        found == raw_views(names@).contains(name@),
{
    let mut i: usize = 0;
    while i < names.len()
        invariant
            i <= names.len(),
            forall|k: int| 0 <= k < i ==> #[trigger] names@[k]@ != name@,
        decreases names.len() - i,
    {
        if same_bytes(&names[i], name) {
            assert(raw_views(names@)[i as int] == name@);
            return true;
        }
        i += 1;
    }
    proof {
        if raw_views(names@).contains(name@) {
            let k = choose|k: int| 0 <= k < names@.len() && raw_views(names@)[k] == name@;
            assert(names@[k]@ == name@);
        }
    }
    false
}

/// Whether `a` and `b` hold the same bytes.
fn same_bytes(a: &Vec<u8>, b: &Vec<u8>) -> (same: bool)
    ensures
        same == (a@ == b@),
{
    if a.len() != b.len() {
        return false;
    }
    let mut i: usize = 0;
    while i < a.len()
        invariant
            i <= a.len() == b.len(),
            a@.take(i as int) == b@.take(i as int),
        decreases a.len() - i,
    {
        if a[i] != b[i] {
            assert(a@[i as int] != b@[i as int]);
            return false;
        }
        assert(a@.take(i + 1) =~= a@.take(i as int).push(a@[i as int]));
        assert(b@.take(i + 1) =~= b@.take(i as int).push(b@[i as int]));
        i += 1;
    }
    assert(a@.take(a@.len() as int) =~= a@);
    assert(b@.take(b@.len() as int) =~= b@);
    true
}

/// The views of raw names.
pub open spec fn raw_views(names: Seq<Vec<u8>>) -> Seq<Seq<u8>> {
    names.map_values(|name: Vec<u8>| name@)
}

/// The number of central headers from `start` on, whose raw names must differ.
pub fn count_central_headers(data: &[u8], start: usize) -> (count: Result<usize, WieError>)
    ensures
        match central_names(data@, start as int, Seq::empty()) {
            Ok(names) => count == Ok::<usize, WieError>(names.len() as usize) && names.len()
                <= MAX_ENTRIES,
            Err(reason) => count is Err && count->Err_0@ == ErrorView::FatalError(
                refusal_prefix() + reason,
            ),
        },
{
    let mut offset: usize = start;
    let mut names: Vec<Vec<u8>> = Vec::new();
    assert(raw_views(names@) =~= Seq::<Seq<u8>>::empty());
    loop
        invariant
            names.len() <= MAX_ENTRIES,
            central_names(data@, start as int, Seq::empty()) == central_names(
                data@,
                offset as int,
                raw_views(names@),
            ),
        decreases data@.len() - offset,
    {
        let ghost known = raw_views(names@);
        if data.len() < 4 || offset > data.len() - 4 || data[offset] != 0x50 || data[offset + 1]
            != 0x4b || data[offset + 2] != 1 || data[offset + 3] != 2 {
            return Ok(names.len());
        }
        if data.len() - offset < CENTRAL_HEADER_BYTES {
            return Err(invalid("short central header"));
        }
        let name_len: usize = data[offset + 28] as usize + 256 * data[offset + 29] as usize;
        let extra_len: usize = data[offset + 30] as usize + 256 * data[offset + 31] as usize;
        let comment_len: usize = data[offset + 32] as usize + 256 * data[offset + 33] as usize;
        let name_start: usize = offset + CENTRAL_HEADER_BYTES;
        if data.len() - name_start < name_len {
            return Err(invalid("short entry name"));
        }
        let mut name: Vec<u8> = Vec::new();
        let mut i: usize = 0;
        while i < name_len
            invariant
                i <= name_len,
                name_start + name_len <= data@.len() <= usize::MAX,
                name@ == data@.subrange(name_start as int, name_start + i),
            decreases name_len - i,
        {
            name.push(data[name_start + i]);
            assert(name@ =~= data@.subrange(name_start as int, name_start + i + 1));
            i += 1;
        }
        assert(name@ == raw_name(data@, offset as int));
        if holds_name(&names, &name) {
            return Err(invalid("duplicate entry name"));
        }
        names.push(name);
        assert(raw_views(names@) =~= known.push(raw_name(data@, offset as int)));
        if names.len() > MAX_ENTRIES {
            return Err(invalid("entry count limit exceeded"));
        }
        let tail: usize = name_len + extra_len + comment_len;
        if data.len() - name_start < tail {
            return Err(invalid("short central entry"));
        }
        offset = name_start + tail;
    }
}

/// Whether an entry's name holds a zero character or leaves its directory.
pub fn name_is_unsafe(name: &str) -> (found: bool)
    ensures
        found == is_unsafe_name(name@),
{
    let chars = chars_of(name);
    let mut plain: Vec<char> = Vec::new();
    let mut i: usize = 0;
    while i < chars.len()
        invariant
            i <= chars.len(),
            chars@ == name@,
            forall|k: int| 0 <= k < i ==> #[trigger] name@[k] != '\0',
            plain@ == slashed(name@).take(i as int),
        decreases chars.len() - i,
    {
        let c = chars[i];
        if c == '\0' {
            assert(name@[i as int] == '\0');
            return true;
        }
        plain.push(
            if c == '\\' {
                '/'
            } else {
                c
            },
        );
        assert(plain@ =~= slashed(name@).take(i + 1));
        i += 1;
    }
    assert(plain@ =~= slashed(name@));
    has_parent_segment(&split_at_each(&plain, '/'))
}

/// Admits the next entry of an archive, where the names of the entries before
/// it are `seen` and their sizes add up to `total`. Gives the new sum.
pub fn admit_entry(seen: &Vec<Vec<char>>, name: &str, size: u64, total: u64) -> (sum: Result<
    u64,
    WieError,
>)
    ensures
        match entry_rule(texts(seen@), name@, size, total as nat) {
            Some(reason) => sum is Err && sum->Err_0@ == ErrorView::FatalError(
                refusal_prefix() + reason,
            ),
            None => sum == Ok::<u64, WieError>((total + size) as u64),
        },
{
    if name_is_unsafe(name) {
        return Err(invalid("unsafe entry path"));
    }
    let chars = chars_of(name);
    let mut i: usize = 0;
    while i < seen.len()
        invariant
            i <= seen.len(),
            chars@ == name@,
            !is_unsafe_name(name@),
            forall|k: int| 0 <= k < i ==> #[trigger] seen@[k]@ != name@,
        decreases seen.len() - i,
    {
        if same_chars(&seen[i], &chars) {
            assert(texts(seen@)[i as int] == name@);
            return Err(invalid("duplicate decoded entry name"));
        }
        i += 1;
    }
    proof {
        if texts(seen@).contains(name@) {
            let k = choose|k: int| 0 <= k < texts(seen@).len() && texts(seen@)[k] == name@;
            assert(seen@[k]@ == name@);
        }
    }
    if total > u64::MAX - size {
        return Err(invalid("size overflow"));
    }
    if size > MAX_ENTRY_BYTES || total + size > MAX_TOTAL_BYTES {
        return Err(invalid("decompressed size limit exceeded"));
    }
    Ok(total + size)
}

/// The content of a file, which must be as long as the index says.
pub fn admit_content(bytes: Vec<u8>, size: u64) -> (content: Result<Vec<u8>, WieError>)
    ensures
        bytes@.len() == size ==> content == Ok::<Vec<u8>, WieError>(bytes),
        bytes@.len() != size ==> content is Err && content->Err_0@ == ErrorView::FatalError(
            refusal_prefix() + "entry length mismatch"@,
        ),
{
    if bytes.len() as u64 != size {
        return Err(invalid("entry length mismatch"));
    }
    Ok(bytes)
}

/// Owns only the index of a zip archive. Entry names remain unchanged; reads
/// return owned bytes whose checksum and length were compared with the index.
pub struct Archive<'a> {
    zip: zip::ZipArchive<std::io::Cursor<&'a [u8]>>,
}

impl<'a> Archive<'a> {
    /// The bytes of the archive.
    pub closed spec fn source(&self) -> Seq<u8> {
        zip_source(self.zip)
    }

    /// An archive that exists was accepted.
    #[verifier::type_invariant]
    closed spec fn accepted(&self) -> bool {
        archive_refusal(zip_source(self.zip)) is None
    }

    /// Opens an archive.
    pub fn new(data: &'a [u8]) -> (archive: Result<Archive<'a>, WieError>)
        ensures
            archive is Ok == archive_refusal(data@) is None,
            archive is Ok ==> archive->Ok_0.source() == data@,
            archive is Err ==> reports(archive->Err_0@, archive_refusal(data@)->0),
    {
        if data.len() as u64 > MAX_ENTRY_BYTES {
            return Err(invalid("compressed size limit exceeded"));
        }
        let mut zip = match open_zip(data) {
            Ok(zip) => zip,
            Err(text) => return Err(invalid(text.as_str())),
        };
        if zip_len(&zip) > MAX_ENTRIES {
            return Err(invalid("entry count limit exceeded"));
        }
        // The index holds entries with the same raw name only once, so the
        // central headers themselves are looked through first.
        let start: u64 = zip_start(&zip);
        if start > usize::MAX as u64 {
            return Err(invalid("out of range integral type conversion attempted"));
        }
        let count: usize = match count_central_headers(data, start as usize) {
            Ok(count) => count,
            Err(error) => return Err(error),
        };
        if count != zip_len(&zip) {
            return Err(invalid("inconsistent central index"));
        }
        let mut names: Vec<Vec<char>> = Vec::new();
        let mut total: u64 = 0;
        let mut index: usize = 0;
        assert(texts(names@) =~= entry_names(zip_entries(data@)).take(0));
        while index < zip_len(&zip)
            invariant
                zip_source(zip) == data@,
                index <= zip_entries(data@).len(),
                texts(names@) == entry_names(zip_entries(data@)).take(index as int),
                archive_refusal(data@) == entries_refusal(data@, index as int, total as nat),
            decreases zip_entries(data@).len() - index,
        {
            let (name, size) = match zip_locate(&mut zip, index) {
                Ok(entry) => entry,
                Err(text) => {
                    let error = invalid(text.as_str());
                    assert(error@ == ErrorView::FatalError(refusal_prefix() + text@));
                    return Err(error);
                },
            };
            total =
            match admit_entry(&names, name.as_str(), size, total) {
                Ok(total) => total,
                Err(error) => return Err(error),
            };
            let ghost before = texts(names@);
            names.push(chars_of(name.as_str()));
            assert(texts(names@) =~= before.push(name@));
            assert(texts(names@) =~= entry_names(zip_entries(data@)).take(index + 1));
            index += 1;
        }
        Ok(Archive { zip })
    }

    /// The names of all entries, in the order of the index.
    pub fn names(&self) -> (names: Vec<String>)
        ensures
            names@.len() == zip_entries(self.source()).len(),
            forall|i: int|
                0 <= i < names@.len() ==> #[trigger] names@[i]@ == zip_entries(self.source())[i].name,
    {
        zip_names(&self.zip)
    }

    /// The content of the file of this name: none where there is no such file.
    pub fn read(&mut self, name: &str) -> (content: Result<Option<Vec<u8>>, WieError>)
        ensures
            final(self).source() == old(self).source(),
            !(exists|i: int|
                0 <= i < zip_entries(old(self).source()).len() && (#[trigger] zip_entries(
                    old(self).source(),
                )[i]).name == name@) ==> content == Ok::<Option<Vec<u8>>, WieError>(None),
            forall|i: int|
                0 <= i < zip_entries(old(self).source()).len() && (#[trigger] zip_entries(
                    old(self).source(),
                )[i]).name == name@ ==> is_entry_content(content, old(self).source(), i as nat),
    {
        proof {
            use_type_invariant(&*self);
        }
        let names = self.names();
        let wanted = chars_of(name);
        let ghost data = self.source();
        let mut i: usize = 0;
        while i < names.len()
            invariant
                i <= names.len() == zip_entries(data).len(),
                self.source() == data,
                data == old(self).source(),
                wanted@ == name@,
                archive_refusal(data) is None,
                forall|k: int| 0 <= k < names@.len() ==> #[trigger] names@[k]@ == zip_entries(data)[k].name,
                forall|k: int| 0 <= k < i ==> (#[trigger] zip_entries(data)[k]).name != name@,
            decreases names.len() - i,
        {
            if same_chars(&chars_of(names[i].as_str()), &wanted) {
                proof {
                    law_accepted_archives_are_safe(data);
                    assert(zip_entries(data)[i as int].name == name@);
                }
                return self.read_index(i);
            }
            assert(names@[i as int]@ == zip_entries(data)[i as int].name);
            i += 1;
        }
        Ok(None)
    }

    /// The content of one entry: none where it is no file.
    fn read_index(&mut self, index: usize) -> (content: Result<Option<Vec<u8>>, WieError>)
        requires
            index < zip_entries(old(self).source()).len(),
        ensures
            final(self).source() == old(self).source(),
            is_entry_content(content, old(self).source(), index as nat),
    {
        proof {
            use_type_invariant(&*self);
            law_accepted_archives_are_safe(self.source());
            assert(zip_entries(self.source())[index as int].size <= MAX_ENTRY_BYTES);
        }
        let (file, size) = match zip_open(&mut self.zip, index) {
            Ok(entry) => entry,
            Err(text) => {
                let error = invalid(text.as_str());
                assert(error@ == ErrorView::FatalError(refusal_prefix() + text@));
                return Err(error);
            },
        };
        if !file {
            return Ok(None);
        }
        let bytes = match zip_read(&mut self.zip, index, size + 1) {
            Ok(bytes) => bytes,
            Err(text) => {
                let error = invalid(text.as_str());
                assert(error@ == ErrorView::FatalError(refusal_prefix() + text@));
                return Err(error);
            },
        };
        match admit_content(bytes, size) {
            Ok(bytes) => Ok(Some(bytes)),
            Err(error) => Err(error),
        }
    }

    /// The files whose names `keep` accepts, in ascending order of their names,
    /// which are different from each other.
    pub fn extract_matching(&mut self, keep: impl Fn(&str) -> bool) -> (files: Result<
        Vec<(String, Vec<u8>)>,
        WieError,
    >)
        requires
            forall|name: &str| call_requires(keep, (name,)),
        ensures
            final(self).source() == old(self).source(),
            exists|chosen: Seq<bool>|
                #[trigger] is_extraction(files, old(self).source(), chosen) && are_answers(
                    keep,
                    old(self).source(),
                    chosen,
                ),
    {
        proof {
            use_type_invariant(&*self);
        }
        let names = self.names();
        let ghost data = self.source();
        let mut kept: Vec<bool> = Vec::new();
        let mut i: usize = 0;
        while i < names.len()
            invariant
                i <= names.len() == zip_entries(data).len(),
                kept.len() == i,
                forall|name: &str| call_requires(keep, (name,)),
                forall|k: int|
                    0 <= k < names@.len() ==> #[trigger] names@[k]@ == zip_entries(data)[k].name,
                forall|k: int|
                    0 <= k < i ==> is_answer(keep, zip_entries(data)[k].name, #[trigger] kept@[k]),
            decreases names.len() - i,
        {
            let name = names[i].as_str();
            let wanted = keep(name);
            assert(name@ == zip_entries(data)[i as int].name);
            assert(is_answer(keep, name@, wanted));
            kept.push(wanted);
            i += 1;
        }
        let mut files: Vec<(String, Vec<u8>)> = Vec::new();
        let ghost chosen = kept@;
        let mut index: usize = 0;
        let ghost mut views = Seq::<(Seq<char>, Seq<u8>)>::empty();
        assert(file_views(files@) =~= views);
        while index < names.len()
            invariant
                index <= names.len() == zip_entries(data).len(),
                self.source() == data,
                data == old(self).source(),
                archive_refusal(data) is None,
                kept@ == chosen,
                are_answers(keep, data, chosen),
                chosen.len() == names.len(),
                forall|k: int|
                    0 <= k < names@.len() ==> #[trigger] names@[k]@ == zip_entries(data)[k].name,
                extracted(data, chosen, index as nat) == Ok::<
                    Seq<(Seq<char>, Seq<u8>)>,
                    Refusal,
                >(views),
                names_ascend(file_views(files@)),
                file_views(files@).to_multiset() == views.to_multiset(),
                forall|k: int| 0 <= k < index && #[trigger] chosen[k] ==> is_sound(data, k as nat),
            decreases names.len() - index,
        {
            let ghost before = file_views(files@);
            if kept[index] {
                match self.read_index(index) {
                    Err(error) => {
                        proof {
                            lemma_extraction_fails_early(data, chosen, index as nat + 1, names.len() as nat);
                        }
                        assert(is_extraction(Err(error), data, chosen));
                        return Err(error);
                    },
                    Ok(None) => {},
                    Ok(Some(bytes)) => {
                        let ghost file = (zip_entries(data)[index as int].name, bytes@);
                        proof {
                            lemma_next_name_is_new(data, chosen, index as nat, before);
                        }
                        insert_file(&mut files, names[index].clone(), bytes);
                        proof {
                            vstd::seq_lib::to_multiset_insert(views, views.len() as int, file);
                            assert(views.insert(views.len() as int, file) =~= views.push(file));
                            views = views.push(file);
                        }
                    },
                }
            }
            index += 1;
        }
        assert(is_extraction(Ok(files), data, chosen));
        Ok(files)
    }
}

/// Places a file among files in ascending order of their names.
fn insert_file(files: &mut Vec<(String, Vec<u8>)>, name: String, bytes: Vec<u8>)
    requires
        names_ascend(file_views(old(files)@)),
        forall|i: int|
            0 <= i < old(files)@.len() ==> (#[trigger] file_views(old(files)@)[i]).0 != name@,
    ensures
        names_ascend(file_views(final(files)@)),
        file_views(final(files)@).to_multiset() == file_views(old(files)@).to_multiset().insert(
            (name@, bytes@),
        ),
{
    let ghost before = file_views(files@);
    let chars = chars_of(name.as_str());
    let mut place: usize = files.len();
    while place > 0 && chars_precede(&chars, &chars_of(files[place - 1].0.as_str()))
        invariant
            place <= files.len(),
            files@ == old(files)@,
            chars@ == name@,
            forall|i: int|
                place <= i < files@.len() ==> text_precedes(name@, #[trigger] files@[i].0@),
        decreases place,
    {
        place -= 1;
    }
    let ghost file = (name@, bytes@);
    files.insert(place, (name, bytes));
    let ghost after = file_views(files@);
    proof {
        assert(after =~= before.insert(place as int, file));
        vstd::seq_lib::to_multiset_insert(before, place as int, file);
        if place > 0 {
            let last = before[place - 1].0;
            assert(old(files)@[place - 1].0@ == last);
            law_texts_are_ordered(last, file.0);
        }
        assert forall|i: int, j: int| 0 <= i < j < after.len() implies text_precedes(
            #[trigger] after[i].0,
            #[trigger] after[j].0,
        ) by {
            if i < place && j < place {
                assert(after[i] == before[i] && after[j] == before[j]);
            } else if i < place && j == place {
                assert(after[i] == before[i] && after[j] == file);
                if i < place - 1 {
                    law_text_order_is_transitive(before[i].0, before[place - 1].0, file.0);
                }
            } else if i < place {
                assert(after[i] == before[i] && after[j] == before[j - 1]);
            } else if i == place {
                assert(after[i] == file && after[j] == before[j - 1]);
                assert(old(files)@[j - 1].0@ == before[j - 1].0);
            } else {
                assert(after[i] == before[i - 1] && after[j] == before[j - 1]);
            }
        }
    }
}

/// The next entry's name is none of those that were extracted before.
proof fn lemma_next_name_is_new(
    data: Seq<u8>,
    chosen: Seq<bool>,
    n: nat,
    files: Seq<(Seq<char>, Seq<u8>)>,
)
    requires
        archive_refusal(data) is None,
        n < zip_entries(data).len(),
        extracted(data, chosen, n) is Ok,
        files.to_multiset() == extracted(data, chosen, n)->Ok_0.to_multiset(),
    ensures
        forall|i: int| 0 <= i < files.len() ==> (#[trigger] files[i]).0 != zip_entries(data)[n as int].name,
{
    let views = extracted(data, chosen, n)->Ok_0;
    law_accepted_archives_are_safe(data);
    assert forall|i: int| 0 <= i < files.len() implies (#[trigger] files[i]).0 != zip_entries(
        data,
    )[n as int].name by {
        vstd::seq_lib::to_multiset_contains(files, files[i]);
        vstd::seq_lib::to_multiset_contains(views, files[i]);
        assert(files.contains(files[i]));
        let k = choose|k: int| 0 <= k < views.len() && views[k] == files[i];
        law_extraction_gives_entries(data, chosen, n, k);
        let e = choose|e: int|
            #![trigger chosen[e]]
            0 <= e < n && chosen[e] && views[k].0 == zip_entries(data)[e].name && entry_content(
                data,
                e as nat,
            ) == Ok::<Option<Seq<u8>>, Refusal>(Some(views[k].1));
        assert(zip_entries(data)[e].name != zip_entries(data)[n as int].name);
    }
}

/// All files of an archive, in ascending order of their names.
pub fn extract_zip(data: &[u8]) -> (files: Result<Vec<(String, Vec<u8>)>, WieError>)
    ensures
        match archive_refusal(data@) {
            Some(refusal) => files is Err && reports(files->Err_0@, refusal),
            None => is_extraction(
                files,
                data@,
                Seq::new(zip_entries(data@).len(), |i: int| true),
            ),
        },
{
    let mut archive = match Archive::new(data) {
        Ok(archive) => archive,
        Err(error) => return Err(error),
    };
    let keep_all = |name: &str| -> (kept: bool)
        ensures
            kept,
        { true };
    let files = archive.extract_matching(keep_all);
    proof {
        let n = zip_entries(data@).len();
        let chosen = choose|chosen: Seq<bool>|
            #[trigger] is_extraction(files, data@, chosen) && are_answers(keep_all, data@, chosen);
        assert forall|i: int| 0 <= i < n implies chosen[i] by {
            assert(is_answer(keep_all, zip_entries(data@)[i].name, chosen[i]));
        }
        assert(chosen =~= Seq::new(n, |i: int| true));
    }
    files
}

proof fn lemma_extraction_fails_early(data: Seq<u8>, chosen: Seq<bool>, n: nat, all: nat)
    requires
        n <= all,
        extracted(data, chosen, n) is Err,
    ensures
        extracted(data, chosen, all) == extracted(data, chosen, n),
    decreases all - n,
{
    if n < all {
        lemma_extraction_fails_early(data, chosen, n, (all - 1) as nat);
    }
}

/// Whether `keep` may give this answer for a name.
pub open spec fn is_answer<F: Fn(&str) -> bool>(keep: F, name: Seq<char>, answer: bool) -> bool {
    exists|text: &str| #[trigger] text@ == name && call_ensures(keep, (text,), answer)
}

/// Whether `keep` may give these answers for the names of an archive.
pub open spec fn are_answers<F: Fn(&str) -> bool>(
    keep: F,
    data: Seq<u8>,
    chosen: Seq<bool>,
) -> bool {
    &&& chosen.len() == zip_entries(data).len()
    &&& forall|i: int|
        0 <= i < chosen.len() ==> is_answer(keep, zip_entries(data)[i].name, #[trigger] chosen[i])
}

/// Whether the content of an entry, where it is a file that can be read, has the
/// checksum that the index gives.
pub open spec fn is_sound(data: Seq<u8>, index: nat) -> bool {
    entry_content(data, index) matches Ok(Some(bytes)) ==> crc32(bytes) == zip_entries(
        data,
    )[index as int].crc
}

/// Whether `files` is what extracting the chosen entries gives: their contents, in
/// the order of their names, each with the checksum that the index gives.
pub open spec fn is_extraction(
    files: Result<Vec<(String, Vec<u8>)>, WieError>,
    data: Seq<u8>,
    chosen: Seq<bool>,
) -> bool {
    match extracted(data, chosen, zip_entries(data).len()) {
        Ok(views) => {
            &&& files is Ok
            &&& names_ascend(file_views(files->Ok_0@))
            &&& file_views(files->Ok_0@).to_multiset() == views.to_multiset()
            &&& forall|i: int|
                0 <= i < zip_entries(data).len() && #[trigger] chosen[i] ==> is_sound(data, i as nat)
        },
        Err(refusal) => files is Err && reports(files->Err_0@, refusal),
    }
}

/// Files have one order by their names: what an extraction gives is determined by
/// the entries alone.
pub proof fn law_extraction_has_one_order(
    a: Seq<(Seq<char>, Seq<u8>)>,
    b: Seq<(Seq<char>, Seq<u8>)>,
)
    requires
        names_ascend(a),
        names_ascend(b),
        a.to_multiset() == b.to_multiset(),
    ensures
        a == b,
    decreases a.len(),
{
    vstd::seq_lib::to_multiset_len(a);
    vstd::seq_lib::to_multiset_len(b);
    if a.len() == 0 {
        assert(a =~= b);
    } else {
        let m = a.last();
        let n = b.last();
        assert(a[a.len() - 1] == m && b[b.len() - 1] == n);
        assert(a.contains(m) && b.contains(n));
        vstd::seq_lib::to_multiset_contains(a, m);
        vstd::seq_lib::to_multiset_contains(a, n);
        vstd::seq_lib::to_multiset_contains(b, m);
        vstd::seq_lib::to_multiset_contains(b, n);
        let i = choose|i: int| 0 <= i < b.len() && b[i] == m;
        let j = choose|j: int| 0 <= j < a.len() && a[j] == n;
        if m != n {
            assert(text_precedes(b[i].0, b[b.len() - 1].0));
            assert(text_precedes(a[j].0, a[a.len() - 1].0));
            law_texts_are_ordered(m.0, n.0);
        }
        vstd::seq_lib::to_multiset_remove(a, a.len() - 1);
        vstd::seq_lib::to_multiset_remove(b, b.len() - 1);
        assert(a.remove(a.len() - 1) =~= a.drop_last());
        assert(b.remove(b.len() - 1) =~= b.drop_last());
        law_extraction_has_one_order(a.drop_last(), b.drop_last());
        assert(a =~= a.drop_last().push(m));
        assert(b =~= b.drop_last().push(n));
    }
}

/// Every file that an extraction gives is a chosen entry, with that entry's
/// content.
pub proof fn law_extraction_gives_entries(data: Seq<u8>, chosen: Seq<bool>, n: nat, k: int)
    requires
        extracted(data, chosen, n) is Ok,
        0 <= k < extracted(data, chosen, n)->Ok_0.len(),
    ensures
        exists|i: int|
            #![trigger chosen[i]]
            0 <= i < n && chosen[i] && extracted(data, chosen, n)->Ok_0[k].0 == zip_entries(
                data,
            )[i].name && entry_content(data, i as nat) == Ok::<Option<Seq<u8>>, Refusal>(
                Some(extracted(data, chosen, n)->Ok_0[k].1),
            ),
    decreases n,
{
    let last = (n - 1) as nat;
    let before = extracted(data, chosen, last)->Ok_0;
    if k < before.len() {
        law_extraction_gives_entries(data, chosen, last, k);
        let i = choose|i: int|
            #![trigger chosen[i]]
            0 <= i < last && chosen[i] && before[k].0 == zip_entries(data)[i].name && entry_content(
                data,
                i as nat,
            ) == Ok::<Option<Seq<u8>>, Refusal>(Some(before[k].1));
        assert(chosen[i]);
    } else {
        assert(chosen[last as int]);
    }
}

/// Whether `content` is what reading one entry gives.
pub open spec fn is_entry_content(
    content: Result<Option<Vec<u8>>, WieError>,
    data: Seq<u8>,
    index: nat,
) -> bool {
    match entry_content(data, index) {
        Ok(None) => content == Ok::<Option<Vec<u8>>, WieError>(None),
        Ok(Some(bytes)) => content is Ok && content->Ok_0 is Some && content->Ok_0->0@ == bytes
            && crc32(bytes) == zip_entries(data)[index as int].crc,
        Err(refusal) => content is Err && reports(content->Err_0@, refusal),
    }
}

/// An extraction leaves out no file: every chosen entry that has content is in
/// it, with that content.
pub proof fn law_extraction_is_complete(data: Seq<u8>, chosen: Seq<bool>, n: nat, i: int)
    requires
        extracted(data, chosen, n) is Ok,
        0 <= i < n,
        chosen[i],
        entry_content(data, i as nat) is Ok,
        entry_content(data, i as nat)->Ok_0 is Some,
    ensures
        extracted(data, chosen, n)->Ok_0.contains(
            (zip_entries(data)[i].name, entry_content(data, i as nat)->Ok_0->0),
        ),
    decreases n,
{
    let file = (zip_entries(data)[i].name, entry_content(data, i as nat)->Ok_0->0);
    let files = extracted(data, chosen, n)->Ok_0;
    let last = (n - 1) as nat;
    let before = extracted(data, chosen, last)->Ok_0;
    if i < last {
        law_extraction_is_complete(data, chosen, last, i);
        let k = choose|k: int| 0 <= k < before.len() && before[k] == file;
        assert(files[k] == file);
    } else {
        assert(files[files.len() - 1] == file);
    }
}

/// Reading an entry that the index calls a file never comes to nothing: it gives the
/// content that the zip reader finds, with the length and the checksum of the index,
/// or it fails. It succeeds wherever the reader finds so many bytes. An entry that is
/// no file has no content.
pub proof fn law_files_are_read_whole(
    content: Result<Option<Vec<u8>>, WieError>,
    data: Seq<u8>,
    index: nat,
)
    requires
        index < zip_entries(data).len(),
        zip_entries(data)[index as int].size < u64::MAX,
        is_entry_content(content, data, index),
    ensures
        ({
            let entry = zip_entries(data)[index as int];
            let found = zip_content(data, index, (entry.size + 1) as u64);
            &&& content matches Ok(Some(bytes)) ==> {
                &&& entry.file
                &&& zip_opens(data, index)
                &&& bytes@.len() == entry.size
                &&& crc32(bytes@) == entry.crc
                &&& found == Some(bytes@)
            }
            &&& content matches Ok(None) ==> !entry.file && zip_opens(data, index)
            &&& content is Err == (!zip_opens(data, index) || entry.file && (found is None
                || found->0.len() != entry.size))
        }),
{
}

/// An extraction leaves out no file: every chosen entry that the index calls a file
/// is in it once, under its own name, with as many bytes as the index says and with
/// the checksum that it gives.
pub proof fn law_an_extraction_has_every_file(
    files: Result<Vec<(String, Vec<u8>)>, WieError>,
    data: Seq<u8>,
    chosen: Seq<bool>,
    i: int,
)
    requires
        archive_refusal(data) is None,
        is_extraction(files, data, chosen),
        files is Ok,
        0 <= i < zip_entries(data).len(),
    ensures
        ({
            let entry = zip_entries(data)[i];
            let views = file_views(files->Ok_0@);
            &&& (exists|k: int| 0 <= k < views.len() && (#[trigger] views[k]).0 == entry.name) == (
            chosen[i] && entry.file)
            &&& forall|k: int|
                0 <= k < views.len() && (#[trigger] views[k]).0 == entry.name ==> {
                    &&& views[k].1.len() == entry.size
                    &&& crc32(views[k].1) == entry.crc
                    &&& zip_content(data, i as nat, (entry.size + 1) as u64) == Some(views[k].1)
                }
            &&& forall|k: int, l: int|
                0 <= k < l < views.len() ==> (#[trigger] views[k]).0 != (#[trigger] views[l]).0
        }),
{
    let n = zip_entries(data).len();
    let entry = zip_entries(data)[i];
    let views = file_views(files->Ok_0@);
    let found = extracted(data, chosen, n)->Ok_0;
    law_accepted_archives_are_safe(data);
    assert(entry.size <= MAX_ENTRY_BYTES);
    assert forall|k: int| 0 <= k < views.len() && (#[trigger] views[k]).0 == entry.name implies {
        &&& chosen[i] && entry.file
        &&& views[k].1.len() == entry.size
        &&& crc32(views[k].1) == entry.crc
        &&& zip_content(data, i as nat, (entry.size + 1) as u64) == Some(views[k].1)
    } by {
        vstd::seq_lib::to_multiset_contains(views, views[k]);
        vstd::seq_lib::to_multiset_contains(found, views[k]);
        assert(views.contains(views[k]));
        let m = choose|m: int| 0 <= m < found.len() && found[m] == views[k];
        law_extraction_gives_entries(data, chosen, n, m);
        let e = choose|e: int|
            #![trigger chosen[e]]
            0 <= e < n && chosen[e] && found[m].0 == zip_entries(data)[e].name && entry_content(
                data,
                e as nat,
            ) == Ok::<Option<Seq<u8>>, Refusal>(Some(found[m].1));
        if e < i {
            assert(zip_entries(data)[e].name != zip_entries(data)[i].name);
        } else if i < e {
            assert(zip_entries(data)[i].name != zip_entries(data)[e].name);
        }
        assert(is_sound(data, e as nat));
    }
    if chosen[i] && entry.file {
        lemma_extraction_reads_every_choice(data, chosen, n, i);
        assert(entry_content(data, i as nat)->Ok_0 is Some);
        law_extraction_is_complete(data, chosen, n, i);
        let file = (entry.name, entry_content(data, i as nat)->Ok_0->0);
        vstd::seq_lib::to_multiset_contains(views, file);
        vstd::seq_lib::to_multiset_contains(found, file);
        let k = choose|k: int| 0 <= k < views.len() && views[k] == file;
        assert(views[k].0 == entry.name);
    }
    assert forall|k: int, l: int| 0 <= k < l < views.len() implies (#[trigger] views[k]).0 != (
    #[trigger] views[l]).0 by {
        law_texts_are_ordered(views[k].0, views[l].0);
    }
}

proof fn lemma_extraction_reads_every_choice(data: Seq<u8>, chosen: Seq<bool>, n: nat, i: int)
    requires
        extracted(data, chosen, n) is Ok,
        0 <= i < n,
        chosen[i],
    ensures
        entry_content(data, i as nat) is Ok,
    decreases n,
{
    if i < n - 1 {
        lemma_extraction_reads_every_choice(data, chosen, (n - 1) as nat, i);
    }
}

/// A name is unsafe exactly where it holds a zero character, or two dots that nothing
/// but a slash, a backslash or an end of the name stands beside.
pub proof fn law_unsafe_names_climb(name: Seq<char>)
    ensures
        is_unsafe_name(name) == ((exists|k: int| 0 <= k < name.len() && #[trigger] name[k] == '\0')
            || (exists|k: int|
            #![trigger name[k]]
            {
                &&& 0 <= k < name.len() - 1
                &&& name[k] == '.' && name[k + 1] == '.'
                &&& k == 0 || name[k - 1] == '/' || name[k - 1] == '\\'
                &&& k + 2 == name.len() || name[k + 2] == '/' || name[k + 2] == '\\'
            })),
{
    let s = slashed(name);
    let dots = parent_segment();
    assert(s.len() == name.len());
    if split(s, '/').contains(dots) {
        let n = choose|n: int| 0 <= n < split(s, '/').len() && split(s, '/')[n] == dots;
        law_parts_stand_in_the_text(s, '/', n);
        let at = choose|at: int| #[trigger]
            stands_at(s, '/', split(s, '/')[n], at) && (n == split(s, '/').len() - 1) == (at
                + split(s, '/')[n].len() == s.len());
        assert(s.subrange(at, at + 2)[0] == '.' && s.subrange(at, at + 2)[1] == '.');
        assert(s[at] == '.' && s[at + 1] == '.');
        assert(name[at] == '.' && name[at + 1] == '.');
    }
    if exists|k: int|
        #![trigger name[k]]
        {
            &&& 0 <= k < name.len() - 1
            &&& name[k] == '.' && name[k + 1] == '.'
            &&& k == 0 || name[k - 1] == '/' || name[k - 1] == '\\'
            &&& k + 2 == name.len() || name[k + 2] == '/' || name[k + 2] == '\\'
        } {
        let k = choose|k: int|
            #![trigger name[k]]
            {
                &&& 0 <= k < name.len() - 1
                &&& name[k] == '.' && name[k + 1] == '.'
                &&& k == 0 || name[k - 1] == '/' || name[k - 1] == '\\'
                &&& k + 2 == name.len() || name[k + 2] == '/' || name[k + 2] == '\\'
            };
        assert(s[k] == '.' && s[k + 1] == '.');
        law_parts_stand_between_separators(s, '/', k, k + 2);
        assert(s.subrange(k, k + 2) =~= dots);
        lemma_part_number(s, '/', k);
    }
}

/// An archive that was accepted has at most 16384 entries and 64 MiB, and none of its
/// entries has more than 64 MiB nor all together more than 128 MiB. The names of the
/// entries differ and hold neither a zero character nor a way out of their directory.
pub proof fn law_accepted_archives_keep_the_limits(data: Seq<u8>)
    requires
        archive_refusal(data) is None,
    ensures
        ({
            let entries = zip_entries(data);
            &&& data.len() <= 67_108_864
            &&& zip_index(data) is Some
            &&& entries.len() <= 16_384
            &&& total_size(entries, entries.len() as int) <= 134_217_728
            &&& forall|i: int|
                0 <= i < entries.len() ==> (#[trigger] entries[i]).size <= 67_108_864
                    && zip_located(data, i as nat) && !entries[i].name.contains('\0')
            &&& forall|i: int, j: int|
                0 <= i < j < entries.len() ==> (#[trigger] entries[i]).name != (
                #[trigger] entries[j]).name
            &&& forall|i: int, k: int|
                #![trigger entries[i].name[k]]
                0 <= i < entries.len() && 0 <= k < entries[i].name.len() - 1 ==> !({
                    let name = entries[i].name;
                    &&& name[k] == '.' && name[k + 1] == '.'
                    &&& k == 0 || name[k - 1] == '/' || name[k - 1] == '\\'
                    &&& k + 2 == name.len() || name[k + 2] == '/' || name[k + 2] == '\\'
                })
        }),
{
    let entries = zip_entries(data);
    law_accepted_archives_are_safe(data);
    assert forall|i: int| 0 <= i < entries.len() implies (#[trigger] entries[i]).size <= 67_108_864
        && zip_located(data, i as nat) && !entries[i].name.contains('\0') by {
        lemma_entries_accepted(data, 0, i);
    }
    assert forall|i: int, k: int|
        #![trigger entries[i].name[k]]
        0 <= i < entries.len() && 0 <= k < entries[i].name.len() - 1 implies !({
        let name = entries[i].name;
        &&& name[k] == '.' && name[k + 1] == '.'
        &&& k == 0 || name[k - 1] == '/' || name[k - 1] == '\\'
        &&& k + 2 == name.len() || name[k + 2] == '/' || name[k + 2] == '\\'
    }) by {
        law_unsafe_names_climb(entries[i].name);
        assert(!is_unsafe_name(entries[i].name));
    }
}

/// An archive is accepted wherever the zip reader reads it and it keeps the rules. Its
/// central headers stand at `at`, one behind the other with their names, extra fields
/// and comments, up to something that is no header; there are as many as entries, and
/// their raw names differ. The entries can be located, their names differ and are
/// safe, and all sizes keep the limits.
pub proof fn law_sound_archives_are_accepted(data: Seq<u8>, at: Seq<int>)
    requires
        data.len() <= 67_108_864,
        zip_index(data) is Some,
        zip_entries(data).len() <= 16_384,
        zip_index(data)->0.start <= usize::MAX,
        at.len() == zip_entries(data).len() + 1,
        at[0] == zip_index(data)->0.start,
        forall|i: int|
            #![trigger at[i]]
            0 <= i < at.len() - 1 ==> {
                &&& data[at[i]] == 0x50 && data[at[i] + 1] == 0x4b && data[at[i] + 2] == 1 && data[at[i]
                    + 3] == 2
                &&& at[i + 1] == at[i] + 46 + (data[at[i] + 28] + 256 * data[at[i] + 29]) + (data[at[i]
                    + 30] + 256 * data[at[i] + 31]) + (data[at[i] + 32] + 256 * data[at[i] + 33])
                &&& at[i + 1] <= data.len()
            },
        !(at.last() + 4 <= data.len() && data[at.last()] == 0x50 && data[at.last() + 1] == 0x4b
            && data[at.last() + 2] == 1 && data[at.last() + 3] == 2),
        forall|i: int, j: int|
            #![trigger at[i], at[j]]
            0 <= i < j < at.len() - 1 ==> data.subrange(
                at[i] + 46,
                at[i] + 46 + (data[at[i] + 28] + 256 * data[at[i] + 29]),
            ) != data.subrange(
                at[j] + 46,
                at[j] + 46 + (data[at[j] + 28] + 256 * data[at[j] + 29]),
            ),
        forall|i: int|
            0 <= i < zip_entries(data).len() ==> (#[trigger] zip_entries(data)[i]).size <= 67_108_864
                && zip_located(data, i as nat) && !is_unsafe_name(zip_entries(data)[i].name),
        forall|i: int, j: int|
            0 <= i < j < zip_entries(data).len() ==> (#[trigger] zip_entries(data)[i]).name != (
            #[trigger] zip_entries(data)[j]).name,
        total_size(zip_entries(data), zip_entries(data).len() as int) <= 134_217_728,
    ensures
        archive_refusal(data) is None,
{
    lemma_headers_stand(data, at);
    lemma_headers_are_named(data, at, 0, Seq::empty());
    lemma_entries_are_admitted(data, 0);
}

/// Whether a central header stands at `here` and ends at `next`.
spec fn is_header(data: Seq<u8>, here: int, next: int) -> bool {
    &&& has_central_header(data, here)
    &&& next == central_end(data, here)
    &&& next <= data.len()
}

proof fn lemma_headers_are_named(data: Seq<u8>, at: Seq<int>, i: int, before: Seq<Seq<u8>>)
    requires
        0 <= i < at.len() <= 16_385,
        forall|k: int| 0 <= k < at.len() - 1 ==> is_header(data, #[trigger] at[k], at[k + 1]),
        !has_central_header(data, at.last()),
        forall|k: int, j: int|
            0 <= k < j < at.len() - 1 ==> raw_name(data, #[trigger] at[k]) != raw_name(
                data,
                #[trigger] at[j],
            ),
        before.len() == i,
        forall|k: int| 0 <= k < i ==> #[trigger] before[k] == raw_name(data, at[k]),
    ensures
        central_names(data, at[i], before) is Ok,
        central_names(data, at[i], before)->Ok_0.len() == at.len() - 1,
    decreases at.len() - i,
{
    let here = at[i];
    if i < at.len() - 1 {
        let name = raw_name(data, here);
        assert(is_header(data, at[i], at[i + 1]));
        if before.contains(name) {
            let k = choose|k: int| 0 <= k < before.len() && before[k] == name;
            assert(raw_name(data, at[k]) == raw_name(data, at[i]));
        }
        lemma_headers_are_named(data, at, i + 1, before.push(name));
    }
}

/// Headers that stand one behind the other, with raw names that differ.
proof fn lemma_headers_stand(data: Seq<u8>, at: Seq<int>)
    requires
        0 < at.len(),
        0 <= at[0],
        forall|i: int|
            #![trigger at[i]]
            0 <= i < at.len() - 1 ==> {
                &&& data[at[i]] == 0x50 && data[at[i] + 1] == 0x4b && data[at[i] + 2] == 1 && data[at[i]
                    + 3] == 2
                &&& at[i + 1] == at[i] + 46 + (data[at[i] + 28] + 256 * data[at[i] + 29]) + (data[at[i]
                    + 30] + 256 * data[at[i] + 31]) + (data[at[i] + 32] + 256 * data[at[i] + 33])
                &&& at[i + 1] <= data.len()
            },
        !(at.last() + 4 <= data.len() && data[at.last()] == 0x50 && data[at.last() + 1] == 0x4b
            && data[at.last() + 2] == 1 && data[at.last() + 3] == 2),
        forall|i: int, j: int|
            #![trigger at[i], at[j]]
            0 <= i < j < at.len() - 1 ==> data.subrange(
                at[i] + 46,
                at[i] + 46 + (data[at[i] + 28] + 256 * data[at[i] + 29]),
            ) != data.subrange(
                at[j] + 46,
                at[j] + 46 + (data[at[j] + 28] + 256 * data[at[j] + 29]),
            ),
    ensures
        forall|k: int| 0 <= k < at.len() - 1 ==> is_header(data, #[trigger] at[k], at[k + 1]),
        !has_central_header(data, at.last()),
        forall|k: int, j: int|
            0 <= k < j < at.len() - 1 ==> raw_name(data, #[trigger] at[k]) != raw_name(
                data,
                #[trigger] at[j],
            ),
{
    lemma_headers_ascend(data, at, at.len() - 1);
    assert forall|k: int| 0 <= k < at.len() - 1 implies is_header(
        data,
        #[trigger] at[k],
        at[k + 1],
    ) by {
        lemma_headers_ascend(data, at, k);
    }
}

proof fn lemma_headers_ascend(data: Seq<u8>, at: Seq<int>, n: int)
    requires
        0 <= n < at.len(),
        0 <= at[0],
        forall|i: int|
            #![trigger at[i]]
            0 <= i < at.len() - 1 ==> at[i + 1] == at[i] + 46 + (data[at[i] + 28] + 256 * data[at[i]
                + 29]) + (data[at[i] + 30] + 256 * data[at[i] + 31]) + (data[at[i] + 32] + 256
                * data[at[i] + 33]),
    ensures
        0 <= at[n],
    decreases n,
{
    if n > 0 {
        lemma_headers_ascend(data, at, n - 1);
        assert(at[n] == at[(n - 1) + 1]);
    }
}

proof fn lemma_entries_are_admitted(data: Seq<u8>, from: int)
    requires
        0 <= from <= zip_entries(data).len(),
        forall|i: int|
            0 <= i < zip_entries(data).len() ==> (#[trigger] zip_entries(data)[i]).size <= 67_108_864
                && zip_located(data, i as nat) && !is_unsafe_name(zip_entries(data)[i].name),
        forall|i: int, j: int|
            0 <= i < j < zip_entries(data).len() ==> (#[trigger] zip_entries(data)[i]).name != (
            #[trigger] zip_entries(data)[j]).name,
        total_size(zip_entries(data), zip_entries(data).len() as int) <= 134_217_728,
    ensures
        entries_refusal(data, from, total_size(zip_entries(data), from)) is None,
    decreases zip_entries(data).len() - from,
{
    let entries = zip_entries(data);
    if from < entries.len() {
        lemma_entries_are_admitted(data, from + 1);
        lemma_total_grows(entries, from + 1, entries.len() as int);
        let names = entry_names(entries).take(from);
        if names.contains(entries[from].name) {
            let k = choose|k: int| 0 <= k < names.len() && names[k] == entries[from].name;
            assert(entries[k].name == entries[from].name);
        }
    }
}

proof fn lemma_total_grows(entries: Seq<ZipEntry>, a: int, b: int)
    requires
        0 <= a <= b <= entries.len(),
    ensures
        total_size(entries, a) <= total_size(entries, b),
    decreases b - a,
{
    if a < b {
        lemma_total_grows(entries, a, b - 1);
    }
}

/// Extracting an archive gives every file of it that the index names, under its own name
/// and with as many bytes as the index says, in ascending order of the names. An archive
/// that was refused gives none.
pub proof fn law_extracting_gives_every_file(
    data: &[u8],
    files: Result<Vec<(String, Vec<u8>)>, WieError>,
    i: int,
)
    requires
        call_ensures(extract_zip, (data,), files),
        files is Ok,
        0 <= i < zip_entries(data@).len(),
    ensures
        archive_refusal(data@) is None,
        ({
            let entry = zip_entries(data@)[i];
            let all = files->Ok_0@;
            &&& entry.file == exists|k: int|
                0 <= k < all.len() && (#[trigger] all[k]).0@ == entry.name
            &&& forall|k: int|
                0 <= k < all.len() && (#[trigger] all[k]).0@ == entry.name ==> all[k].1@.len()
                    == entry.size && crc32(all[k].1@) == entry.crc
            &&& forall|k: int, l: int|
                0 <= k < l < all.len() ==> text_precedes(
                    (#[trigger] all[k]).0@,
                    (#[trigger] all[l]).0@,
                )
        }),
{
    let n = zip_entries(data@).len();
    let chosen = Seq::new(n, |i: int| true);
    law_an_extraction_has_every_file(files, data@, chosen, i);
    let all = files->Ok_0@;
    let views = file_views(all);
    let entry = zip_entries(data@)[i];
    assert(chosen[i]);
    if entry.file {
        let k = choose|k: int| 0 <= k < views.len() && (#[trigger] views[k]).0 == entry.name;
        assert(all[k].0@ == entry.name);
    }
    assert forall|k: int| 0 <= k < all.len() && (#[trigger] all[k]).0@ == entry.name implies entry.file
        && all[k].1@.len() == entry.size && crc32(all[k].1@) == entry.crc by {
        assert(views[k].0 == entry.name);
        assert(views[k].1 == all[k].1@);
    }
    assert forall|k: int, l: int| 0 <= k < l < all.len() implies text_precedes(
        (#[trigger] all[k]).0@,
        (#[trigger] all[l]).0@,
    ) by {
        assert(views[k].0 == all[k].0@ && views[l].0 == all[l].0@);
    }
}

/// Reading a file by its name gives what the zip reader finds, with the length and the
/// checksum of the index, or fails: a file that the index names is never missing. A name
/// that no entry has gives nothing.
pub proof fn law_reading_gives_the_file<'a>(
    archive: &mut Archive<'a>,
    name: &str,
    content: Result<Option<Vec<u8>>, WieError>,
    i: int,
)
    requires
        call_ensures(Archive::<'a>::read, (archive, name), content),
        0 <= i < zip_entries(old(archive).source()).len(),
        zip_entries(old(archive).source())[i].name == name@,
        zip_entries(old(archive).source())[i].size < u64::MAX,
    ensures
        final(archive).source() == old(archive).source(),
        ({
            let entry = zip_entries(old(archive).source())[i];
            &&& entry.file ==> !(content matches Ok(None))
            &&& content matches Ok(Some(bytes)) ==> entry.file && bytes@.len() == entry.size
                && crc32(bytes@) == entry.crc && zip_content(
                old(archive).source(),
                i as nat,
                (entry.size + 1) as u64,
            ) == Some(bytes@)
        }),
{
    law_files_are_read_whole(content, old(archive).source(), i as nat);
}

/// An entry is admitted exactly where its name is safe and new and all sizes keep the
/// limits, and the sum then counts it.
pub proof fn law_entries_are_admitted_within_the_limits(
    seen: &Vec<Vec<char>>,
    name: &str,
    size: u64,
    total: u64,
    sum: Result<u64, WieError>,
    found: bool,
)
    requires
        call_ensures(admit_entry, (seen, name, size, total), sum),
        call_ensures(name_is_unsafe, (name,), found),
    ensures
        sum matches Ok(sum) ==> sum == total + size && !found && size <= 67_108_864 && total + size
            <= 134_217_728 && forall|i: int| 0 <= i < seen@.len() ==> (#[trigger] seen@[i])@ != name@,
        sum is Err ==> found || size > 67_108_864 || total + size > 134_217_728 || exists|i: int|
            0 <= i < seen@.len() && (#[trigger] seen@[i])@ == name@,
        found == is_unsafe_name(name@),
{
    let names = texts(seen@);
    assert forall|i: int| 0 <= i < seen@.len() implies names[i] == (#[trigger] seen@[i])@ by {}
    if names.contains(name@) {
        let i = choose|i: int| 0 <= i < names.len() && names[i] == name@;
        assert(seen@[i]@ == name@);
    }
    if sum is Ok {
        assert forall|i: int| 0 <= i < seen@.len() implies (#[trigger] seen@[i])@ != name@ by {
            assert(names[i] == seen@[i]@);
        }
    }
}

/// The content of a file is taken as it is where it is as long as the index says, and
/// refused otherwise.
pub proof fn law_contents_have_the_length_of_the_index(
    bytes: Vec<u8>,
    size: u64,
    content: Result<Vec<u8>, WieError>,
)
    requires
        call_ensures(admit_content, (bytes, size), content),
    ensures
        content is Ok == (bytes@.len() == size),
        content matches Ok(kept) ==> kept@ == bytes@,
{
}

/// An archive is opened exactly where it is accepted, and is then one of just these bytes.
pub proof fn law_accepted_archives_are_opened<'a>(
    data: &'a [u8],
    archive: Result<Archive<'a>, WieError>,
)
    requires
        call_ensures(Archive::<'a>::new, (data,), archive),
    ensures
        archive is Ok ==> archive->Ok_0.source() == data@ && data@.len() <= 67_108_864
            && zip_entries(data@).len() <= 16_384,
        archive is Err ==> archive_refusal(data@) is Some,
{
    if archive is Ok {
        law_accepted_archives_keep_the_limits(data@);
    }
}

/// A name that no entry has is read as nothing, and the names that are listed are those of
/// the entries, in order.
pub proof fn law_only_entries_are_read<'a>(
    archive: &mut Archive<'a>,
    name: &str,
    content: Result<Option<Vec<u8>>, WieError>,
    listed: &Archive<'a>,
    names: Vec<String>,
)
    requires
        call_ensures(Archive::<'a>::read, (archive, name), content),
        call_ensures(Archive::<'a>::names, (listed,), names),
        listed.source() == old(archive).source(),
        forall|i: int| 0 <= i < names@.len() ==> (#[trigger] names@[i])@ != name@,
    ensures
        content == Ok::<Option<Vec<u8>>, WieError>(None),
        names@.len() == zip_entries(listed.source()).len(),
        forall|i: int|
            0 <= i < names@.len() ==> (#[trigger] names@[i])@ == zip_entries(listed.source())[i].name,
{
    let entries = zip_entries(listed.source());
    assert forall|i: int| 0 <= i < entries.len() implies (#[trigger] entries[i]).name != name@ by {
        assert(names@[i]@ == entries[i].name);
    }
}

/// An extraction has the files that were asked for and no others: an entry whose name can
/// only be accepted is in it where the index calls it a file, and one whose name can only
/// be passed over is not.
pub proof fn law_only_accepted_names_are_extracted<'a, F: Fn(&str) -> bool>(
    archive: &mut Archive<'a>,
    keep: F,
    files: Result<Vec<(String, Vec<u8>)>, WieError>,
    i: int,
)
    requires
        archive_refusal(old(archive).source()) is None,
        call_ensures(Archive::<'a>::extract_matching, (archive, keep), files),
        files is Ok,
        0 <= i < zip_entries(old(archive).source()).len(),
    ensures
        ({
            let entry = zip_entries(old(archive).source())[i];
            let all = files->Ok_0@;
            let there = exists|k: int| 0 <= k < all.len() && (#[trigger] all[k]).0@ == entry.name;
            &&& (forall|text: &str|
                text@ == entry.name ==> !(#[trigger] call_ensures(keep, (text,), false))) ==> there
                == entry.file
            &&& (forall|text: &str|
                text@ == entry.name ==> !(#[trigger] call_ensures(keep, (text,), true))) ==> !there
        }),
{
    let data = old(archive).source();
    let entry = zip_entries(data)[i];
    let all = files->Ok_0@;
    let views = file_views(all);
    let chosen = choose|chosen: Seq<bool>|
        #[trigger] is_extraction(files, data, chosen) && are_answers(keep, data, chosen);
    law_an_extraction_has_every_file(files, data, chosen, i);
    assert(is_answer(keep, entry.name, chosen[i]));
    let text = choose|text: &str|
        #[trigger] text@ == entry.name && call_ensures(keep, (text,), chosen[i]);
    if exists|k: int| 0 <= k < views.len() && (#[trigger] views[k]).0 == entry.name {
        let k = choose|k: int| 0 <= k < views.len() && (#[trigger] views[k]).0 == entry.name;
        assert(all[k].0@ == entry.name);
    }
    if exists|k: int| 0 <= k < all.len() && (#[trigger] all[k]).0@ == entry.name {
        let k = choose|k: int| 0 <= k < all.len() && (#[trigger] all[k]).0@ == entry.name;
        assert(views[k].0 == entry.name);
    }
}

/// The central headers are counted: where they stand at `at`, one behind the other up to
/// something that is no header, and their raw names differ, there is one less than places.
pub proof fn law_central_headers_are_counted(
    data: &[u8],
    start: usize,
    at: Seq<int>,
    count: Result<usize, WieError>,
)
    requires
        call_ensures(count_central_headers, (data, start), count),
        0 < at.len() <= 16_385,
        at[0] == start,
        forall|i: int|
            #![trigger at[i]]
            0 <= i < at.len() - 1 ==> {
                &&& data@[at[i]] == 0x50 && data@[at[i] + 1] == 0x4b && data@[at[i] + 2] == 1
                    && data@[at[i] + 3] == 2
                &&& at[i + 1] == at[i] + 46 + (data@[at[i] + 28] + 256 * data@[at[i] + 29]) + (
                data@[at[i] + 30] + 256 * data@[at[i] + 31]) + (data@[at[i] + 32] + 256 * data@[at[i]
                    + 33])
                &&& at[i + 1] <= data@.len()
            },
        !(at.last() + 4 <= data@.len() && data@[at.last()] == 0x50 && data@[at.last() + 1] == 0x4b
            && data@[at.last() + 2] == 1 && data@[at.last() + 3] == 2),
        forall|i: int, j: int|
            #![trigger at[i], at[j]]
            0 <= i < j < at.len() - 1 ==> data@.subrange(
                at[i] + 46,
                at[i] + 46 + (data@[at[i] + 28] + 256 * data@[at[i] + 29]),
            ) != data@.subrange(
                at[j] + 46,
                at[j] + 46 + (data@[at[j] + 28] + 256 * data@[at[j] + 29]),
            ),
    ensures
        count matches Ok(count) && count == at.len() - 1,
{
    lemma_headers_stand(data@, at);
    lemma_headers_are_named(data@, at, 0, Seq::empty());
}

/// A header that repeats a raw name is refused, wherever the two stand.
pub proof fn law_repeated_raw_names_are_refused(data: Seq<u8>)
    requires
        archive_refusal(data) is None,
    ensures
        central_names(data, zip_index(data)->0.start as int, Seq::empty()) matches Ok(names)
            && names.len() == zip_entries(data).len() && forall|i: int, j: int|
            0 <= i < j < names.len() ==> #[trigger] names[i] != #[trigger] names[j],
{
    law_accepted_archives_are_safe(data);
}

/// An archive that is refused by a rule is refused with the words for it: too many bytes, too
/// many entries, an unsafe name, a name that another entry has, or too large a content.
pub proof fn law_refusals_name_their_rules(
    data: Seq<u8>,
    seen: Seq<Seq<char>>,
    name: Seq<char>,
    size: u64,
    total: nat,
)
    ensures
        data.len() > 67_108_864 ==> archive_refusal(data) == Some(
            Refusal::Rule("compressed size limit exceeded"@),
        ),
        data.len() <= 67_108_864 && zip_index(data) is None ==> archive_refusal(data) == Some(
            Refusal::Unreadable,
        ),
        data.len() <= 67_108_864 && zip_index(data) is Some && zip_entries(data).len() > 16_384
            ==> archive_refusal(data) == Some(Refusal::Rule("entry count limit exceeded"@)),
        is_unsafe_name(name) ==> entry_rule(seen, name, size, total) == Some("unsafe entry path"@),
        !is_unsafe_name(name) && seen.contains(name) ==> entry_rule(seen, name, size, total) == Some(
            "duplicate decoded entry name"@,
        ),
        !is_unsafe_name(name) && !seen.contains(name) ==> (entry_rule(seen, name, size, total) is None
            == (size <= 67_108_864 && total + size <= 134_217_728)),
{
}

/// An extraction of an accepted archive fails only where some chosen entry cannot be opened,
/// or is a file that cannot be read to the length that the index says.
pub proof fn law_extractions_fail_only_with_an_entry(
    files: Result<Vec<(String, Vec<u8>)>, WieError>,
    data: Seq<u8>,
    chosen: Seq<bool>,
)
    requires
        archive_refusal(data) is None,
        is_extraction(files, data, chosen),
        files is Err,
    ensures
        exists|i: int|
            #![trigger chosen[i]]
            0 <= i < zip_entries(data).len() && chosen[i] && (!zip_opens(data, i as nat)
                || zip_entries(data)[i].file && (zip_content(
                data,
                i as nat,
                (zip_entries(data)[i].size + 1) as u64,
            ) is None || zip_content(
                data,
                i as nat,
                (zip_entries(data)[i].size + 1) as u64,
            )->0.len() != zip_entries(data)[i].size)),
{
    lemma_extraction_fails_with(data, chosen, zip_entries(data).len());
}

proof fn lemma_extraction_fails_with(data: Seq<u8>, chosen: Seq<bool>, n: nat)
    requires
        extracted(data, chosen, n) is Err,
    ensures
        exists|i: int|
            #![trigger chosen[i]]
            0 <= i < n && chosen[i] && entry_content(data, i as nat) is Err,
    decreases n,
{
    let last = (n - 1) as nat;
    if extracted(data, chosen, last) is Err {
        lemma_extraction_fails_with(data, chosen, last);
        let i = choose|i: int|
            #![trigger chosen[i]]
            0 <= i < last && chosen[i] && entry_content(data, i as nat) is Err;
        assert(chosen[i]);
    } else {
        assert(chosen[last as int]);
    }
}

} // verus!
