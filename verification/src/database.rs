//! Record databases on the host: one directory per database, one file per
//! record, under `<base>/<app id>/db/<name>`.
//!
//! An application id that cannot name a directory as it stands is spelled out
//! below `<base>/_` instead, so that every application owns its databases.
//!
//! The host's file system is driven from outside: this module says where a
//! database lies, which record comes next and what the host's answers mean.

use crate::error::{fatal, fatal_with, ErrorView, WieError};
use crate::number::{
    decimal, decimal_chars, law_decimal_injective, law_parse_decimal, parse_u32, parsed_u32,
};
use crate::path::{
    home_of, home_segments, is_plain, is_skipped, join_path, joined_path, law_homes_are_apart,
    law_names_are_kept_as_directories, law_one_segment_moves, law_paths_tell_their_segments,
    law_segments_move_path_by_path, lemma_home_plain, lemma_leading_slashes_do_not_move,
    lemma_moving_identity, lemma_moving_segments, moving, moving_segments, parent_segment,
    segment_is_parent,
};
use crate::text::{
    chars_of, join, join_with, law_join_split, lemma_join_behind, lemma_split_nonempty, split,
    split_at_each, string_of, texts, trim_start, without_leading,
};
use vstd::prelude::*;

verus! {

/// The number of a record in its database.
pub type RecordId = u32;

/// The databases of all applications.
pub struct DatabaseRepository {
    base_path: String,
}

/// One database.
pub struct Database {
    base_path: String,
}

/// The name `_`, which stands in for names that cannot be used.
pub open spec fn substitute_name() -> Seq<char> {
    seq!['_']
}

/// A database name with `_` for the characters that no file name may hold.
pub open spec fn replaced(name: Seq<char>) -> Seq<char> {
    name.map_values(
        |c: char|
            if c == '\\' || c == '\0' {
                '_'
            } else {
                c
            },
    )
}

/// Segments with `_` in place of `..`.
pub open spec fn confined(segments: Seq<Seq<char>>) -> Seq<Seq<char>> {
    segments.map_values(
        |segment: Seq<char>|
            if segment == parent_segment() {
                substitute_name()
            } else {
                segment
            },
    )
}

/// The segments of a database's directory below its application's `db`.
pub open spec fn name_segments(name: Seq<char>) -> Seq<Seq<char>> {
    let segments = confined(moving(split(trim_start(replaced(name), '/'), '/')));
    if segments.len() == 0 {
        seq![substitute_name()]
    } else {
        segments
    }
}

/// The segments of the directory that holds an application's databases.
pub open spec fn app_segments(app_id: Seq<char>) -> Seq<Seq<char>> {
    home_segments(app_id).push(seq!['d', 'b'])
}

/// The directory of a database.
pub open spec fn database_path(base: Seq<char>, name: Seq<char>, app_id: Seq<char>) -> Seq<char> {
    joined_path(base, join(app_segments(app_id) + name_segments(name), '/'))
}

/// The file of a record.
pub open spec fn record_path(base: Seq<char>, id: RecordId) -> Seq<char> {
    joined_path(base, decimal(id as nat))
}

/// A database never leaves the `db` directory of its application, whatever its
/// name: every segment of its path names something in the directory before it.
pub proof fn law_database_stays_in_its_application(name: Seq<char>, app_id: Seq<char>)
    ensures
        ({
            let directory = app_segments(app_id);
            let segments = directory + name_segments(name);
            &&& segments.len() > directory.len()
            &&& segments.take(directory.len() as int) == directory
            &&& forall|i: int| 0 <= i < segments.len() ==> is_plain(#[trigger] segments[i])
        }),
{
    let directory = app_segments(app_id);
    let segments = directory + name_segments(name);
    let home = home_segments(app_id);
    let path = trim_start(replaced(name), '/');
    let kept = moving(split(path, '/'));
    lemma_home_plain(app_id);
    lemma_moving_segments(path);
    assert(segments.take(directory.len() as int) =~= directory);
    assert forall|i: int| 0 <= i < segments.len() implies is_plain(#[trigger] segments[i]) by {
        if i < home.len() {
            assert(segments[i] == home[i]);
        } else if i == home.len() {
            let db = seq!['d', 'b'];
            assert(segments[i] == db);
            assert(db[0] != '.' && !db.contains('/'));
        } else {
            let k = i - home.len() - 1;
            let segment = name_segments(name)[k];
            assert(segments[i] == segment);
            assert(substitute_name()[0] == '_' && substitute_name().len() == 1);
            assert(!substitute_name().contains('/'));
            if confined(kept).len() > 0 && kept[k] != parent_segment() {
                assert(segment == kept[k]);
            }
        }
    }
}

/// Applications do not share databases: whoever means the same directory has the
/// same id and means the same segments.
pub proof fn law_applications_have_their_own_databases(
    base: Seq<char>,
    name: Seq<char>,
    app_id: Seq<char>,
    other_name: Seq<char>,
    other_app_id: Seq<char>,
)
    requires
        database_path(base, name, app_id) == database_path(base, other_name, other_app_id),
    ensures
        app_id == other_app_id,
        name_segments(name) == name_segments(other_name),
{
    let a = app_segments(app_id) + name_segments(name);
    let b = app_segments(other_app_id) + name_segments(other_name);
    law_database_stays_in_its_application(name, app_id);
    law_database_stays_in_its_application(other_name, other_app_id);
    law_paths_tell_their_segments(base, a, b);
    law_homes_are_apart(
        app_id,
        other_app_id,
        seq!['d', 'b'],
        name_segments(name),
        name_segments(other_name),
    );
}

/// Different records of a database lie in different files.
pub proof fn law_records_have_their_own_files(base: Seq<char>, a: RecordId, b: RecordId)
    requires
        record_path(base, a) == record_path(base, b),
    ensures
        a == b,
{
    let head = if base.len() == 0 || base.last() == '/' {
        base
    } else {
        base.push('/')
    };
    assert(record_path(base, a) =~= head + decimal(a as nat));
    assert(record_path(base, b) =~= head + decimal(b as nat));
    assert(record_path(base, a).skip(head.len() as int) =~= decimal(a as nat));
    assert(record_path(base, b).skip(head.len() as int) =~= decimal(b as nat));
    law_decimal_injective(a as nat, b as nat);
}

/// The error for a failed operation of the host's file system.
pub fn storage_error(message: &str) -> (error: WieError)
    ensures
        error@ == ErrorView::FatalError("database: "@ + message@),
{
    fatal_with("database: ", message)
}

/// The text `_`.
fn substitute() -> (name: Vec<char>)
    ensures
        name@ == substitute_name(),
{
    let mut name: Vec<char> = Vec::new();
    name.push('_');
    assert(name@ =~= substitute_name());
    name
}

/// The directory of an application and, in it, `db`.
fn app_directories(app_id: &str) -> (segments: Vec<Vec<char>>)
    ensures
        texts(segments@) == app_segments(app_id@),
{
    let mut segments = home_of(app_id);
    let mut db: Vec<char> = Vec::new();
    db.push('d');
    db.push('b');
    assert(db@ =~= seq!['d', 'b']);
    segments.push(db);
    assert(texts(segments@) =~= app_segments(app_id@));
    segments
}

/// `name` with `_` for the characters that no file name may hold.
fn replace_unsafe(name: &str) -> (chars: Vec<char>)
    ensures
        chars@ == replaced(name@),
{
    let all = chars_of(name);
    let mut chars: Vec<char> = Vec::new();
    let mut i: usize = 0;
    while i < all.len()
        invariant
            i <= all.len(),
            all@ == name@,
            chars@ == replaced(name@).take(i as int),
        decreases all.len() - i,
    {
        let c = all[i];
        chars.push(
            if c == '\\' || c == '\0' {
                '_'
            } else {
                c
            },
        );
        assert(chars@ =~= replaced(name@).take(i + 1));
        i += 1;
    }
    assert(chars@ =~= replaced(name@));
    chars
}

impl DatabaseRepository {
    /// The directory under which the databases of all applications lie.
    pub closed spec fn base(&self) -> Seq<char> {
        self.base_path@
    }

    /// The databases under the given directory.
    pub fn new(base_path: String) -> (repository: DatabaseRepository)
        ensures
            repository.base() == base_path@,
    {
        DatabaseRepository { base_path }
    }

    /// The directory of a database.
    pub fn get_path_for_database(&self, name: &str, app_id: &str) -> (path: String)
        ensures
            path@ == database_path(self.base(), name@, app_id@),
    {
        let mut segments = app_directories(app_id);
        let kept = moving_segments(
            split_at_each(&without_leading(&replace_unsafe(name), '/'), '/'),
        );
        let ghost head = app_segments(app_id@);
        let ghost moved = moving(split(trim_start(replaced(name@), '/'), '/'));
        if kept.len() == 0 {
            segments.push(substitute());
            assert(texts(segments@) =~= head.push(substitute_name()));
            assert(head.push(substitute_name()) =~= head + name_segments(name@));
        } else {
            let mut i: usize = 0;
            while i < kept.len()
                invariant
                    i <= kept.len(),
                    texts(kept@) == moved,
                    texts(segments@) == head + confined(moved).take(i as int),
                decreases kept.len() - i,
            {
                let ghost before = texts(segments@);
                assert(kept@[i as int]@ == moved[i as int]);
                if segment_is_parent(&kept[i]) {
                    segments.push(substitute());
                } else {
                    let segment = kept[i].clone();
                    assert(segment@ =~= kept@[i as int]@);
                    segments.push(segment);
                }
                assert(texts(segments@) =~= before.push(confined(moved)[i as int]));
                assert(texts(segments@) =~= head + confined(moved).take(i + 1));
                i += 1;
            }
            assert(confined(moved).take(kept@.len() as int) =~= name_segments(name@));
        }
        string_of(&join_path(&chars_of(self.base_path.as_str()), &join_with(&segments, '/')))
    }

    /// The directory that holds an application's databases.
    pub fn get_path_for_app_databases(&self, app_id: &str) -> (path: String)
        ensures
            path@ == joined_path(self.base(), join(app_segments(app_id@), '/')),
    {
        let segments = app_directories(app_id);
        string_of(&join_path(&chars_of(self.base_path.as_str()), &join_with(&segments, '/')))
    }

    /// The bytes of all files in a directory and the directories below it. A
    /// directory that is not there holds none.
    pub fn directory_usage(listing: &Listing) -> (usage: Result<u64, WieError>)
        ensures
            usage is Ok == listing_usage(*listing) is Ok,
            usage is Ok ==> usage->Ok_0 == listing_usage(*listing)->Ok_0,
            usage is Err ==> usage->Err_0@ == listing_usage(*listing)->Err_0,
        decreases listing,
    {
        match listing {
            Listing::Missing => Ok(0),
            Listing::Failed(message) => Err(storage_error(message.as_str())),
            Listing::Entries(entries) => {
                let mut usage: u64 = 0;
                let mut i: usize = 0;
                assert(entries@.skip(0) =~= entries@);
                while i < entries.len()
                    invariant
                        i <= entries.len(),
                        *listing == Listing::Entries(*entries),
                        listing_usage(*listing) == entries_usage(entries@, i as int, usage as nat),
                    decreases entries.len() - i,
                {
                    let entry = &entries[i];
                    proof {
                        reveal_with_fuel(entries_usage, 2);
                        reveal_with_fuel(entry_usage, 2);
                    }
                    assert(decreases_to!(*listing => *entries));
                    assert(decreases_to!(*entries => entries@[i as int]));
                    let size: u64 = match entry {
                        Entry::File(len) => *len,
                        Entry::Directory(inner) => match Self::directory_usage(inner) {
                            Ok(size) => size,
                            Err(error) => return Err(error),
                        },
                        Entry::Other => 0,
                        Entry::Failed(message) => return Err(storage_error(message.as_str())),
                    };
                    if usage > u64::MAX - size {
                        return Err(fatal("database usage overflow"));
                    }
                    usage += size;
                    i += 1;
                }
                Ok(usage)
            },
        }
    }
}

/// What the host says of a directory.
pub enum Listing {
    /// It is not there.
    Missing,
    /// It could not be read; the text says why.
    Failed(String),
    /// Its entries, in the host's order.
    Entries(Vec<Entry>),
}

/// An entry of a directory.
pub enum Entry {
    /// A file of this many bytes.
    File(u64),
    /// A directory.
    Directory(Listing),
    /// Something else.
    Other,
    /// The host could not tell; the text says why.
    Failed(String),
}

/// The bytes of all files in a directory and below, or the first failure.
pub open spec fn listing_usage(listing: Listing) -> Result<u64, ErrorView>
    decreases listing,
{
    match listing {
        Listing::Missing => Ok(0),
        Listing::Failed(message) => Err(ErrorView::FatalError("database: "@ + message@)),
        Listing::Entries(entries) => entries_usage(entries@, 0, 0),
    }
}

/// The bytes of the entries from `from` on, added to `sum`, or the first failure.
pub open spec fn entries_usage(entries: Seq<Entry>, from: int, sum: nat) -> Result<u64, ErrorView>
    decreases entries, entries.len() - from,
{
    if from < 0 || from >= entries.len() {
        Ok(sum as u64)
    } else {
        match entry_usage(entries[from]) {
            Err(error) => Err(error),
            Ok(size) => if sum + size > u64::MAX {
                Err(ErrorView::FatalError("database usage overflow"@))
            } else {
                entries_usage(entries, from + 1, sum + size as nat)
            },
        }
    }
}

/// The bytes of one entry.
pub open spec fn entry_usage(entry: Entry) -> Result<u64, ErrorView>
    decreases entry,
{
    match entry {
        Entry::File(len) => Ok(len),
        Entry::Directory(listing) => listing_usage(listing),
        Entry::Other => Ok(0),
        Entry::Failed(message) => Err(ErrorView::FatalError("database: "@ + message@)),
    }
}

/// The bytes of all files in a directory and below, as far as the host could tell.
pub open spec fn listing_total(listing: Listing) -> nat
    decreases listing,
{
    match listing {
        Listing::Entries(entries) => entries_total(entries@, 0),
        _ => 0,
    }
}

/// The bytes of the entries from `from` on, as far as the host could tell.
pub open spec fn entries_total(entries: Seq<Entry>, from: int) -> nat
    decreases entries, entries.len() - from,
{
    if from < 0 || from >= entries.len() {
        0
    } else {
        let size = match entries[from] {
            Entry::File(len) => len as nat,
            Entry::Directory(listing) => listing_total(listing),
            _ => 0,
        };
        size + entries_total(entries, from + 1)
    }
}

/// Usage, where it is given, is the sum of the sizes of all files.
pub proof fn law_usage_is_the_sum(listing: Listing)
    requires
        listing_usage(listing) is Ok,
    ensures
        listing_usage(listing)->Ok_0 == listing_total(listing),
    decreases listing,
{
    if let Listing::Entries(entries) = listing {
        lemma_entries_sum(entries@, 0, 0);
    }
}

proof fn lemma_entries_sum(entries: Seq<Entry>, from: int, sum: nat)
    requires
        from >= 0,
        sum <= u64::MAX,
        entries_usage(entries, from, sum) is Ok,
    ensures
        entries_usage(entries, from, sum)->Ok_0 == sum + entries_total(entries, from),
    decreases entries, entries.len() - from,
{
    reveal_with_fuel(entries_usage, 2);
    reveal_with_fuel(entry_usage, 2);
    if from < entries.len() {
        if let Entry::Directory(listing) = entries[from] {
            law_usage_is_the_sum(listing);
        }
        lemma_entries_sum(entries, from + 1, sum + entry_usage(entries[from])->Ok_0 as nat);
    }
}

/// What the host answers when a record's file is looked for or created.
pub enum RecordEvent {
    /// The file is there, or was there already.
    Present,
    /// The file is not there.
    Absent,
    /// The file was created and written.
    Stored,
    /// The operation failed; the text says why.
    Failed(String),
}

/// The next operation in the search for a free record number.
pub enum RecordAction {
    /// Look whether this record's file is there.
    Probe(RecordId),
    /// Create this record's file, which must not be there yet, and write it.
    Store(RecordId),
    /// The search is over.
    Finish(Result<RecordId, WieError>),
}

/// The meaning of a [`RecordEvent`].
pub enum RecordEventView {
    Present,
    Absent,
    Stored,
    Failed(Seq<char>),
}

/// The meaning of a [`RecordAction`].
pub enum RecordActionView {
    Probe(RecordId),
    Store(RecordId),
    Finish(Result<RecordId, ErrorView>),
}

impl View for RecordEvent {
    type V = RecordEventView;

    open spec fn view(&self) -> RecordEventView {
        match self {
            RecordEvent::Present => RecordEventView::Present,
            RecordEvent::Absent => RecordEventView::Absent,
            RecordEvent::Stored => RecordEventView::Stored,
            RecordEvent::Failed(message) => RecordEventView::Failed(message@),
        }
    }
}

impl View for RecordAction {
    type V = RecordActionView;

    open spec fn view(&self) -> RecordActionView {
        match self {
            RecordAction::Probe(id) => RecordActionView::Probe(*id),
            RecordAction::Store(id) => RecordActionView::Store(*id),
            RecordAction::Finish(Ok(id)) => RecordActionView::Finish(Ok(*id)),
            RecordAction::Finish(Err(error)) => RecordActionView::Finish(Err(error@)),
        }
    }
}

/// The search for a record number that is free, from 1 upwards, and the
/// storing of a record under it where one is to be added.
pub struct RecordSearch {
    /// The number that was last tried.
    pub id: RecordId,
    /// Whether a record is stored under the number that is found.
    pub adding: bool,
    /// Whether the file is being created rather than looked for.
    pub storing: bool,
}

/// Whether the host can give this answer: a file that is looked for is not
/// created, and one that is created is not missing.
pub open spec fn record_event_fits(search: RecordSearch, event: RecordEventView) -> bool {
    match event {
        RecordEventView::Absent => !search.storing,
        RecordEventView::Stored => search.storing,
        _ => true,
    }
}

/// The next state and operation of a search.
pub open spec fn next_record(search: RecordSearch, event: RecordEventView) -> (
    RecordSearch,
    RecordActionView,
) {
    match event {
        RecordEventView::Failed(message) => (
            search,
            RecordActionView::Finish(Err(ErrorView::FatalError("database: "@ + message))),
        ),
        RecordEventView::Present => if search.id == u32::MAX {
            (
                search,
                RecordActionView::Finish(Err(ErrorView::FatalError("record IDs exhausted"@))),
            )
        } else {
            let id = (search.id + 1) as u32;
            let next = RecordSearch { id, ..search };
            (
                next,
                if search.storing {
                    RecordActionView::Store(id)
                } else {
                    RecordActionView::Probe(id)
                },
            )
        },
        RecordEventView::Absent => if search.adding {
            (RecordSearch { storing: true, ..search }, RecordActionView::Store(search.id))
        } else {
            (search, RecordActionView::Finish(Ok(search.id)))
        },
        RecordEventView::Stored => (search, RecordActionView::Finish(Ok(search.id))),
    }
}

impl RecordSearch {
    /// A search that begins by probing record 1.
    pub fn new(adding: bool) -> (search: RecordSearch)
        ensures
            search == (RecordSearch { id: 1, adding, storing: false }),
    {
        RecordSearch { id: 1, adding, storing: false }
    }

    /// The next operation, after the host's answer to the one before.
    pub fn step(&mut self, event: RecordEvent) -> (action: RecordAction)
        requires
            record_event_fits(*old(self), event@),
        ensures
            (*final(self), action@) == next_record(*old(self), event@),
    {
        match event {
            RecordEvent::Failed(message) => RecordAction::Finish(
                Err(storage_error(message.as_str())),
            ),
            RecordEvent::Present => {
                if self.id == u32::MAX {
                    return RecordAction::Finish(Err(fatal("record IDs exhausted")));
                }
                self.id = self.id + 1;
                if self.storing {
                    RecordAction::Store(self.id)
                } else {
                    RecordAction::Probe(self.id)
                }
            },
            RecordEvent::Absent => {
                if self.adding {
                    self.storing = true;
                    RecordAction::Store(self.id)
                } else {
                    RecordAction::Finish(Ok(self.id))
                }
            },
            RecordEvent::Stored => RecordAction::Finish(Ok(self.id)),
        }
    }
}

/// What a search finds in a directory that holds the records `present`, does
/// not change and does not fail.
pub open spec fn search_result(
    search: RecordSearch,
    action: RecordActionView,
    present: Set<RecordId>,
) -> Result<RecordId, ErrorView>
    decreases
            u32::MAX - search.id,
            match action {
                RecordActionView::Finish(_) => 0int,
                RecordActionView::Store(_) => 1int,
                RecordActionView::Probe(_) => 2int,
            },
    when (action matches RecordActionView::Finish(_)) || (action == (if search.storing {
        RecordActionView::Store(search.id)
    } else {
        RecordActionView::Probe(search.id)
    }))
{
    match action {
        RecordActionView::Finish(result) => result,
        RecordActionView::Probe(id) => {
            let event = if present.contains(id) {
                RecordEventView::Present
            } else {
                RecordEventView::Absent
            };
            let (next, then_do) = next_record(search, event);
            search_result(next, then_do, present)
        },
        RecordActionView::Store(id) => {
            let event = if present.contains(id) {
                RecordEventView::Present
            } else {
                RecordEventView::Stored
            };
            let (next, then_do) = next_record(search, event);
            search_result(next, then_do, present)
        },
    }
}

/// The search finds the smallest free number, and reports that none is left
/// only when all are taken. Adding a record stores it under that number.
pub proof fn law_search_finds_the_first_free(adding: bool, present: Set<RecordId>)
    ensures
        ({
            let search = RecordSearch { id: 1, adding, storing: false };
            let found = search_result(search, RecordActionView::Probe(1), present);
            match found {
                Ok(id) => {
                    &&& id >= 1
                    &&& !present.contains(id)
                    &&& forall|k: u32| 1 <= k < id ==> #[trigger] present.contains(k)
                },
                Err(error) => {
                    &&& error == ErrorView::FatalError("record IDs exhausted"@)
                    &&& forall|k: u32| 1 <= k ==> #[trigger] present.contains(k)
                },
            }
        }),
{
    lemma_search_from(RecordSearch { id: 1, adding, storing: false }, present);
}

proof fn lemma_search_from(search: RecordSearch, present: Set<RecordId>)
    requires
        search.id >= 1,
        !search.storing,
        forall|k: u32| 1 <= k < search.id ==> #[trigger] present.contains(k),
    ensures
        ({
            let found = search_result(search, RecordActionView::Probe(search.id), present);
            match found {
                Ok(id) => {
                    &&& id >= 1
                    &&& !present.contains(id)
                    &&& forall|k: u32| 1 <= k < id ==> #[trigger] present.contains(k)
                },
                Err(error) => {
                    &&& error == ErrorView::FatalError("record IDs exhausted"@)
                    &&& forall|k: u32| 1 <= k ==> #[trigger] present.contains(k)
                },
            }
        }),
    decreases u32::MAX - search.id,
{
    reveal_with_fuel(search_result, 4);
    if present.contains(search.id) {
        if search.id < u32::MAX {
            lemma_search_from(RecordSearch { id: (search.id + 1) as u32, ..search }, present);
        }
    }
}

/// An entry of a database's directory.
pub enum RecordEntry {
    /// A file, with its name where the name is text.
    File(Option<String>),
    /// Something else.
    Other,
    /// The host could not tell; the text says why.
    Failed(String),
}

/// The record numbers in a directory, in the host's order, or the first failure.
pub open spec fn listed_ids(entries: Seq<RecordEntry>) -> Result<Seq<RecordId>, ErrorView>
    decreases entries.len(),
{
    if entries.len() == 0 {
        Ok(Seq::empty())
    } else {
        match listed_ids(entries.drop_last()) {
            Err(error) => Err(error),
            Ok(ids) => match entries.last() {
                RecordEntry::File(Some(name)) => match parsed_u32(name@) {
                    Some(id) => Ok(ids.push(id)),
                    None => Err(ErrorView::FatalError("invalid record filename"@)),
                },
                RecordEntry::File(None) => Err(ErrorView::FatalError("invalid record filename"@)),
                RecordEntry::Other => Ok(ids),
                RecordEntry::Failed(message) => Err(ErrorView::FatalError("database: "@ + message@)),
            },
        }
    }
}

proof fn lemma_listing_fails_early(entries: Seq<RecordEntry>, n: int)
    requires
        0 <= n <= entries.len(),
        listed_ids(entries.take(n)) is Err,
    ensures
        listed_ids(entries) == listed_ids(entries.take(n)),
    decreases entries.len(),
{
    if n < entries.len() {
        assert(entries.drop_last().take(n) =~= entries.take(n));
        lemma_listing_fails_early(entries.drop_last(), n);
    } else {
        assert(entries.take(n) =~= entries);
    }
}

impl Database {
    /// The database's directory.
    pub closed spec fn base(&self) -> Seq<char> {
        self.base_path@
    }

    /// The database in the given directory.
    pub fn new(base_path: String) -> (database: Database)
        ensures
            database.base() == base_path@,
    {
        Database { base_path }
    }

    /// The file of a record.
    pub fn get_path_for_record(&self, id: RecordId) -> (path: String)
        ensures
            path@ == record_path(self.base(), id),
    {
        string_of(&join_path(&chars_of(self.base_path.as_str()), &decimal_chars(id)))
    }

    /// The record numbers in a directory, in the host's order, or the first failure.
    pub fn get_record_ids(entries: &Vec<RecordEntry>) -> (ids: Result<Vec<RecordId>, WieError>)
        ensures
            ids is Ok == listed_ids(entries@) is Ok,
            ids is Ok ==> ids->Ok_0@ == listed_ids(entries@)->Ok_0,
            ids is Err ==> ids->Err_0@ == listed_ids(entries@)->Err_0,
    {
        let mut ids: Vec<RecordId> = Vec::new();
        let mut i: usize = 0;
        while i < entries.len()
            invariant
                i <= entries.len(),
                listed_ids(entries@.take(i as int)) == Ok::<Seq<RecordId>, ErrorView>(ids@),
            decreases entries.len() - i,
        {
            assert(entries@.take(i + 1).drop_last() =~= entries@.take(i as int));
            proof {
                if listed_ids(entries@.take(i + 1)) is Err {
                    lemma_listing_fails_early(entries@, i + 1);
                }
            }
            match &entries[i] {
                RecordEntry::File(Some(name)) => {
                    match parse_u32(&chars_of(name.as_str())) {
                        Some(id) => ids.push(id),
                        None => return Err(fatal("invalid record filename")),
                    }
                },
                RecordEntry::File(None) => return Err(fatal("invalid record filename")),
                RecordEntry::Other => {},
                RecordEntry::Failed(message) => return Err(storage_error(message.as_str())),
            }
            i += 1;
        }
        assert(entries@.take(entries@.len() as int) =~= entries@);
        Ok(ids)
    }
}

/// What the host did with a file or directory that may be missing.
pub enum HostAnswer<T> {
    Done(T),
    Missing,
    /// The operation failed; the text says why.
    Failed(String),
}

/// The bytes of a record: none where it is missing.
pub fn read_record(answer: HostAnswer<Vec<u8>>) -> (record: Result<Option<Vec<u8>>, WieError>)
    ensures
        match answer {
            HostAnswer::Done(bytes) => record == Ok::<Option<Vec<u8>>, WieError>(Some(bytes)),
            HostAnswer::Missing => record == Ok::<Option<Vec<u8>>, WieError>(None),
            HostAnswer::Failed(message) => record is Err && record->Err_0@
                == ErrorView::FatalError("database: "@ + message@),
        },
{
    match answer {
        HostAnswer::Done(bytes) => Ok(Some(bytes)),
        HostAnswer::Missing => Ok(None),
        HostAnswer::Failed(message) => Err(storage_error(message.as_str())),
    }
}

/// Whether something was deleted: not where it was missing.
pub fn deleted(answer: HostAnswer<()>) -> (removed: Result<bool, WieError>)
    ensures
        match answer {
            HostAnswer::Done(_) => removed == Ok::<bool, WieError>(true),
            HostAnswer::Missing => removed == Ok::<bool, WieError>(false),
            HostAnswer::Failed(message) => removed is Err && removed->Err_0@
                == ErrorView::FatalError("database: "@ + message@),
        },
{
    match answer {
        HostAnswer::Done(_) => Ok(true),
        HostAnswer::Missing => Ok(false),
        HostAnswer::Failed(message) => Err(storage_error(message.as_str())),
    }
}

/// A name whose segments are all plain, and which holds neither a backslash nor a zero
/// character, is kept as it is.
pub proof fn law_plain_names_are_kept(name: Seq<char>)
    requires
        forall|i: int|
            0 <= i < split(name, '/').len() ==> is_plain(#[trigger] split(name, '/')[i]),
        forall|k: int|
            #![trigger name[k]]
            0 <= k < name.len() ==> name[k] != '\\' && name[k] != '\0',
    ensures
        name_segments(name) == split(name, '/'),
{
    let parts = split(name, '/');
    lemma_split_nonempty(name, '/');
    assert(replaced(name) =~= name);
    lemma_leading_slashes_do_not_move(name);
    assert forall|i: int| 0 <= i < parts.len() implies !is_skipped(#[trigger] parts[i]) by {
        assert(is_plain(parts[i]));
    }
    lemma_moving_identity(parts);
    assert forall|i: int| 0 <= i < parts.len() implies #[trigger] confined(parts)[i] == parts[i] by {
        assert(is_plain(parts[i]));
    }
    assert(confined(parts) =~= parts);
}

/// Different names of that kind are different databases, whosoever they are.
pub proof fn law_plain_names_are_apart(
    base: Seq<char>,
    name: Seq<char>,
    app_id: Seq<char>,
    other_name: Seq<char>,
    other_app_id: Seq<char>,
)
    requires
        forall|i: int|
            0 <= i < split(name, '/').len() ==> is_plain(#[trigger] split(name, '/')[i]),
        forall|k: int|
            #![trigger name[k]]
            0 <= k < name.len() ==> name[k] != '\\' && name[k] != '\0',
        forall|i: int|
            0 <= i < split(other_name, '/').len() ==> is_plain(#[trigger] split(other_name, '/')[i]),
        forall|k: int|
            #![trigger other_name[k]]
            0 <= k < other_name.len() ==> other_name[k] != '\\' && other_name[k] != '\0',
        name != other_name || app_id != other_app_id,
    ensures
        database_path(base, name, app_id) != database_path(base, other_name, other_app_id),
{
    if database_path(base, name, app_id) == database_path(base, other_name, other_app_id) {
        law_applications_have_their_own_databases(base, name, app_id, other_name, other_app_id);
        law_plain_names_are_kept(name);
        law_plain_names_are_kept(other_name);
        law_join_split(name, '/');
        law_join_split(other_name, '/');
    }
}

/// The database of such a name lies in `db` of the application's directory, under the
/// name itself.
pub proof fn law_plain_databases_lie_under_their_names(
    base: Seq<char>,
    name: Seq<char>,
    app_id: Seq<char>,
)
    requires
        forall|i: int|
            0 <= i < split(name, '/').len() ==> is_plain(#[trigger] split(name, '/')[i]),
        forall|k: int|
            #![trigger name[k]]
            0 <= k < name.len() ==> name[k] != '\\' && name[k] != '\0',
        is_plain(app_id),
        forall|k: int|
            #![trigger app_id[k]]
            0 <= k < app_id.len() ==> app_id[k] != '\\' && app_id[k] != '\0',
        base.len() > 0,
        base.last() != '/',
    ensures
        database_path(base, name, app_id) == base + seq!['/'] + app_id + seq!['/', 'd', 'b', '/']
            + name,
{
    law_plain_names_are_kept(name);
    assert forall|k: int|
        #![trigger app_id[k]]
        0 <= k < app_id.len() implies app_id[k] != '/' && app_id[k] != '\\' && app_id[k] != '\0' by {
        assert(app_id.contains(app_id[k]));
    }
    law_names_are_kept_as_directories(app_id);
    law_join_split(name, '/');
    let db = seq!['d', 'b'];
    let head = seq![app_id, db];
    assert(app_segments(app_id) =~= head);
    lemma_split_nonempty(name, '/');
    lemma_join_behind(head, split(name, '/'));
    let first = seq![app_id];
    assert(head.drop_last() =~= first);
    assert(join(first, '/') == app_id);
    assert(head.last() == db);
    assert(join(head, '/') == join(head.drop_last(), '/').push('/') + head.last());
    assert(join(head + split(name, '/'), '/') =~= app_id + seq!['/', 'd', 'b', '/'] + name);
    assert(database_path(base, name, app_id) =~= base + seq!['/'] + app_id + seq![
        '/',
        'd',
        'b',
        '/',
    ] + name);
}

/// A name is read segment by segment: behind a slash the segments of the rest follow,
/// and segments that do not move, a leading slash included, do not count. A name
/// without any is `_`.
pub proof fn law_names_are_read_segment_by_segment(a: Seq<char>, b: Seq<char>)
    ensures
        moving(split(a, '/')).len() == 0 && moving(split(b, '/')).len() == 0 ==> name_segments(
            a.push('/') + b,
        ) == seq![seq!['_']],
        moving(split(a, '/')).len() == 0 ==> name_segments(a.push('/') + b) == name_segments(b),
        moving(split(b, '/')).len() == 0 ==> name_segments(a.push('/') + b) == name_segments(a),
        moving(split(a, '/')).len() > 0 && moving(split(b, '/')).len() > 0 ==> name_segments(
            a.push('/') + b,
        ) == name_segments(a) + name_segments(b),
{
    let whole = a.push('/') + b;
    let x = moving(split(replaced(a), '/'));
    let y = moving(split(replaced(b), '/'));
    assert(replaced(whole) =~= replaced(a).push('/') + replaced(b));
    law_segments_move_path_by_path(replaced(a), replaced(b));
    lemma_leading_slashes_do_not_move(replaced(whole));
    lemma_leading_slashes_do_not_move(replaced(a));
    lemma_leading_slashes_do_not_move(replaced(b));
    lemma_replacing_keeps_moves(a);
    lemma_replacing_keeps_moves(b);
    assert(confined(x + y) =~= confined(x) + confined(y));
    if x.len() == 0 {
        assert(x + y =~= y);
    }
    if y.len() == 0 {
        assert(x + y =~= x);
    }
    if x.len() == 0 && y.len() == 0 {
        assert(name_segments(whole) == seq![substitute_name()]);
        assert(substitute_name() =~= seq!['_']);
    }
}

/// Replacing characters neither adds nor takes away segments that move.
proof fn lemma_replacing_keeps_moves(name: Seq<char>)
    ensures
        moving(split(replaced(name), '/')).len() == moving(split(name, '/')).len(),
    decreases name.len(),
{
    let parts = split(name, '/');
    let others = split(replaced(name), '/');
    lemma_replaced_parts(name);
    lemma_same_moves(parts, others);
}

proof fn lemma_replaced_parts(name: Seq<char>)
    ensures
        split(replaced(name), '/').len() == split(name, '/').len(),
        forall|i: int|
            0 <= i < split(name, '/').len() ==> #[trigger] split(replaced(name), '/')[i] == replaced(
                split(name, '/')[i],
            ),
    decreases name.len(),
{
    if name.len() == 0 {
        assert(replaced(name) =~= name);
        assert(replaced(split(name, '/')[0]) =~= split(name, '/')[0]);
    } else {
        let front = name.drop_last();
        lemma_replaced_parts(front);
        lemma_split_nonempty(front, '/');
        assert(replaced(name).drop_last() =~= replaced(front));
        let parts = split(front, '/');
        let others = split(replaced(front), '/');
        if name.last() == '/' {
            assert(replaced(Seq::<char>::empty()) =~= Seq::empty());
        } else {
            let k = parts.len() - 1;
            assert(others[k] == replaced(parts[k]));
            assert(replaced(parts.last().push(name.last())) =~= others.last().push(
                replaced(name).last(),
            ));
        }
    }
}

proof fn lemma_same_moves(parts: Seq<Seq<char>>, others: Seq<Seq<char>>)
    requires
        parts.len() == others.len(),
        forall|i: int| 0 <= i < parts.len() ==> #[trigger] others[i] == replaced(parts[i]),
    ensures
        moving(parts).len() == moving(others).len(),
    decreases parts.len(),
{
    reveal(Seq::filter);
    if parts.len() > 0 {
        let n = parts.len() - 1;
        lemma_same_moves(parts.drop_last(), others.drop_last());
        let a = parts[n];
        let b = others[n];
        assert(b == replaced(a));
        assert(a.len() == b.len());
        let dot = seq!['.'];
        assert(dot.len() == 1 && dot[0] == '.');
        if a == dot {
            assert(b =~= dot);
        }
        if b == dot {
            assert(a[0] == '.');
            assert(a =~= dot);
        }
    }
}

/// A name without a slash is one segment: `..` becomes `_`, and otherwise every
/// backslash and every zero character does and nothing else.
pub proof fn law_one_segment_is_confined(name: Seq<char>)
    requires
        !name.contains('/'),
        name.len() > 0,
        name != seq!['.'],
    ensures
        name_segments(name).len() == 1,
        name == seq!['.', '.'] ==> name_segments(name)[0] == seq!['_'],
        name != seq!['.', '.'] ==> name_segments(name)[0].len() == name.len() && forall|k: int|
            0 <= k < name.len() ==> #[trigger] name_segments(name)[0][k] == (if name[k] == '\\'
                || name[k] == '\0' {
                '_'
            } else {
                name[k]
            }),
{
    let text = replaced(name);
    let dot = seq!['.'];
    let dots = seq!['.', '.'];
    assert(dot.len() == 1 && dot[0] == '.');
    assert(dots.len() == 2 && dots[0] == '.' && dots[1] == '.');
    assert(parent_segment() =~= dots);
    if text.contains('/') {
        let k = choose|k: int| 0 <= k < text.len() && text[k] == '/';
        assert(name[k] == '/');
    }
    if text == dot {
        assert(name[0] == '.');
        assert(name =~= dot);
    }
    if text == dots {
        assert(name[0] == '.' && name[1] == '.');
        assert(name =~= dots);
    }
    if name == dots {
        assert(text =~= dots);
    }
    lemma_leading_slashes_do_not_move(text);
    law_one_segment_moves(text);
    let one = seq![text];
    assert(moving(split(text, '/')) == one);
    assert(confined(one).len() == 1);
    assert(substitute_name() =~= seq!['_']);
}

/// A record is added by being stored: the search for its number does not end well
/// before the host has created and written the file of that number. Where none is
/// added, nothing is stored.
pub proof fn law_added_records_are_stored(search: RecordSearch, event: RecordEventView)
    requires
        record_event_fits(search, event),
        search.storing ==> search.adding,
    ensures
        ({
            let (next, action) = next_record(search, event);
            &&& action matches RecordActionView::Finish(Ok(id)) ==> id == search.id && (
            search.adding ==> event is Stored) && (!search.adding ==> event is Absent)
            &&& action matches RecordActionView::Store(id) ==> search.adding && next.storing && id
                == next.id
            &&& action matches RecordActionView::Probe(id) ==> id == next.id && id == search.id + 1
            &&& event is Absent && search.adding ==> action == RecordActionView::Store(search.id)
            &&& event is Present && search.id < 0xffff_ffff ==> next.id == search.id + 1 && !(
            action is Finish)
            &&& event is Failed ==> action == RecordActionView::Finish(
                Err(ErrorView::FatalError("database: "@ + event->Failed_0)),
            )
            &&& next.adding == search.adding
        }),
{
}

/// A directory whose files are those of records lists just those records, in order,
/// whatever else lies between them.
pub proof fn law_records_are_listed(entries: Seq<RecordEntry>, other: RecordEntry, id: RecordId)
    requires
        listed_ids(entries) is Ok,
    ensures
        listed_ids(entries.push(RecordEntry::Other)) == listed_ids(entries),
        other matches RecordEntry::File(Some(name)) && name@ == decimal(id as nat) ==> listed_ids(
            entries.push(other),
        ) == Ok::<Seq<RecordId>, ErrorView>(listed_ids(entries)->Ok_0.push(id)),
        listed_ids(Seq::empty()) == Ok::<Seq<RecordId>, ErrorView>(Seq::empty()),
{
    assert(entries.push(RecordEntry::Other).drop_last() =~= entries);
    assert(entries.push(other).drop_last() =~= entries);
    law_parse_decimal(id);
}

/// A directory can be listed exactly where the host could tell of every entry and every
/// file in it is named by a number.
pub proof fn law_listing_needs_numbers(entries: Seq<RecordEntry>)
    ensures
        listed_ids(entries) is Ok == (forall|i: int|
            0 <= i < entries.len() ==> match #[trigger] entries[i] {
                RecordEntry::Other => true,
                RecordEntry::File(Some(name)) => parsed_u32(name@) is Some,
                _ => false,
            }),
    decreases entries.len(),
{
    if entries.len() > 0 {
        let front = entries.drop_last();
        law_listing_needs_numbers(front);
        if listed_ids(front) is Ok {
            assert forall|i: int| 0 <= i < front.len() implies match #[trigger] entries[i] {
                RecordEntry::Other => true,
                RecordEntry::File(Some(name)) => parsed_u32(name@) is Some,
                _ => false,
            } by {
                assert(front[i] == entries[i]);
            }
        } else {
            let i = choose|i: int|
                0 <= i < front.len() && !match #[trigger] front[i] {
                    RecordEntry::Other => true,
                    RecordEntry::File(Some(name)) => parsed_u32(name@) is Some,
                    _ => false,
                };
            assert(entries[i] == front[i]);
        }
        assert(entries[entries.len() - 1] == entries.last());
    }
}

/// A database of a plain name lies under that name, in `db` of its application's
/// directory, and databases of different names or applications lie apart.
pub proof fn law_databases_lie_under_their_names(
    repository: &DatabaseRepository,
    name: &str,
    other: &str,
    app_id: &str,
    path: String,
    other_path: String,
)
    requires
        call_ensures(
            DatabaseRepository::get_path_for_database,
            (repository, name, app_id),
            path,
        ),
        call_ensures(
            DatabaseRepository::get_path_for_database,
            (repository, other, app_id),
            other_path,
        ),
        forall|i: int|
            0 <= i < split(name@, '/').len() ==> is_plain(#[trigger] split(name@, '/')[i]),
        forall|k: int|
            #![trigger name@[k]]
            0 <= k < name@.len() ==> name@[k] != '\\' && name@[k] != '\0',
        forall|i: int|
            0 <= i < split(other@, '/').len() ==> is_plain(#[trigger] split(other@, '/')[i]),
        forall|k: int|
            #![trigger other@[k]]
            0 <= k < other@.len() ==> other@[k] != '\\' && other@[k] != '\0',
        is_plain(app_id@),
        forall|k: int|
            #![trigger app_id@[k]]
            0 <= k < app_id@.len() ==> app_id@[k] != '\\' && app_id@[k] != '\0',
        repository.base().len() > 0,
        repository.base().last() != '/',
    ensures
        path@ == repository.base() + seq!['/'] + app_id@ + seq!['/', 'd', 'b', '/'] + name@,
        name@ != other@ ==> path@ != other_path@,
{
    law_plain_databases_lie_under_their_names(repository.base(), name@, app_id@);
    if name@ != other@ {
        law_plain_names_are_apart(repository.base(), name@, app_id@, other@, app_id@);
    }
}

/// Every database of an application lies in the directory that holds its databases.
pub proof fn law_databases_lie_in_their_application(
    repository: &DatabaseRepository,
    name: &str,
    app_id: &str,
    path: String,
    directory: String,
)
    requires
        call_ensures(
            DatabaseRepository::get_path_for_database,
            (repository, name, app_id),
            path,
        ),
        call_ensures(
            DatabaseRepository::get_path_for_app_databases,
            (repository, app_id),
            directory,
        ),
    ensures
        path@ == directory@ + seq!['/'] + join(name_segments(name@), '/'),
{
    let head = app_segments(app_id@);
    law_database_stays_in_its_application(name@, app_id@);
    lemma_join_behind(head, name_segments(name@));
    let tail = join(head, '/').push('/') + join(name_segments(name@), '/');
    assert(joined_path(repository.base(), tail) =~= joined_path(
        repository.base(),
        join(head, '/'),
    ) + seq!['/'] + join(name_segments(name@), '/'));
}

/// A record's file lies in the database's directory under the record's number, and
/// different records have different files.
pub proof fn law_records_lie_under_their_numbers(
    database: &Database,
    id: RecordId,
    other: RecordId,
    path: String,
    other_path: String,
)
    requires
        call_ensures(Database::get_path_for_record, (database, id), path),
        call_ensures(Database::get_path_for_record, (database, other), other_path),
        database.base().len() > 0,
        database.base().last() != '/',
    ensures
        path@ == database.base() + seq!['/'] + decimal(id as nat),
        id != other ==> path@ != other_path@,
{
    assert(path@ =~= database.base() + seq!['/'] + decimal(id as nat));
    if path@ == other_path@ {
        law_records_have_their_own_files(database.base(), id, other);
    }
}

/// A record that is there is given as it is, one that is missing is none, and nothing is
/// deleted that was missing. Failures keep their reasons.
pub proof fn law_missing_records_are_no_failures(
    bytes: Vec<u8>,
    reason: String,
    there: Result<Option<Vec<u8>>, WieError>,
    gone: Result<Option<Vec<u8>>, WieError>,
    failed: Result<Option<Vec<u8>>, WieError>,
    removed: Result<bool, WieError>,
    absent: Result<bool, WieError>,
    kept: Result<bool, WieError>,
)
    requires
        call_ensures(read_record, (HostAnswer::Done(bytes),), there),
        call_ensures(read_record, (HostAnswer::Missing,), gone),
        call_ensures(read_record, (HostAnswer::Failed(reason),), failed),
        call_ensures(deleted, (HostAnswer::Done(()),), removed),
        call_ensures(deleted, (HostAnswer::Missing,), absent),
        call_ensures(deleted, (HostAnswer::Failed(reason),), kept),
    ensures
        there == Ok::<Option<Vec<u8>>, WieError>(Some(bytes)),
        gone == Ok::<Option<Vec<u8>>, WieError>(None),
        failed matches Err(error) && error@ == ErrorView::FatalError("database: "@ + reason@),
        removed == Ok::<bool, WieError>(true),
        absent == Ok::<bool, WieError>(false),
        kept matches Err(error) && error@ == ErrorView::FatalError("database: "@ + reason@),
{
}

/// The usage of a directory is the sum of the sizes of the files in it and below, and is
/// given exactly where the host could tell of everything and the sum fits 64 bits.
pub proof fn law_usage_counts_every_file(listing: &Listing, usage: Result<u64, WieError>)
    requires
        call_ensures(DatabaseRepository::directory_usage, (listing,), usage),
    ensures
        usage matches Ok(bytes) ==> bytes == listing_total(*listing),
        usage is Ok == (is_readable(*listing) && listing_total(*listing)
            <= 0xffff_ffff_ffff_ffff),
{
    if usage is Ok {
        law_usage_is_the_sum(*listing);
    }
    lemma_usage_of_readable(*listing);
}

/// Whether the host could tell of everything in a directory and below.
pub open spec fn is_readable(listing: Listing) -> bool
    decreases listing,
{
    match listing {
        Listing::Missing => true,
        Listing::Failed(_) => false,
        Listing::Entries(entries) => are_readable(entries@, 0),
    }
}

/// Whether the host could tell of all entries from `from` on.
pub open spec fn are_readable(entries: Seq<Entry>, from: int) -> bool
    decreases entries, entries.len() - from,
{
    if from < 0 || from >= entries.len() {
        true
    } else {
        let readable = match entries[from] {
            Entry::Directory(listing) => is_readable(listing),
            Entry::Failed(_) => false,
            _ => true,
        };
        readable && are_readable(entries, from + 1)
    }
}

proof fn lemma_usage_of_readable(listing: Listing)
    ensures
        listing_usage(listing) is Ok == (is_readable(listing) && listing_total(listing) <= u64::MAX),
    decreases listing,
{
    if let Listing::Entries(entries) = listing {
        lemma_usage_of_entries(entries@, 0, 0);
    }
}

proof fn lemma_usage_of_entries(entries: Seq<Entry>, from: int, sum: nat)
    requires
        from >= 0,
        sum <= u64::MAX,
    ensures
        entries_usage(entries, from, sum) is Ok == (are_readable(entries, from) && sum
            + entries_total(entries, from) <= u64::MAX),
    decreases entries, entries.len() - from,
{
    reveal_with_fuel(entries_usage, 2);
    reveal_with_fuel(entry_usage, 2);
    reveal_with_fuel(are_readable, 2);
    reveal_with_fuel(entries_total, 2);
    if from < entries.len() {
        if let Entry::Directory(listing) = entries[from] {
            lemma_usage_of_readable(listing);
            if listing_usage(listing) is Ok {
                law_usage_is_the_sum(listing);
            }
        }
        if entry_usage(entries[from]) is Ok {
            let size = entry_usage(entries[from])->Ok_0;
            if sum + size <= u64::MAX {
                lemma_usage_of_entries(entries, from + 1, sum + size as nat);
            }
        }
    }
}

/// A search for a free number begins with record 1, and stores a record where one is to be
/// added and nowhere else.
pub proof fn law_searching_begins_with_the_first_record(
    adding: bool,
    search: RecordSearch,
    step: &mut RecordSearch,
    event: RecordEvent,
    action: RecordAction,
)
    requires
        call_ensures(RecordSearch::new, (adding,), search),
        record_event_fits(*old(step), event@),
        old(step).storing ==> old(step).adding,
        call_ensures(RecordSearch::step, (step, event), action),
    ensures
        search.id == 1 && search.adding == adding && !search.storing,
        action@ matches RecordActionView::Finish(Ok(id)) ==> id == old(step).id && (old(step).adding
            ==> event@ is Stored) && (!old(step).adding ==> event@ is Absent),
        action@ is Store ==> old(step).adding && final(step).storing,
        event@ is Present && old(step).id < 0xffff_ffff ==> final(step).id == old(step).id + 1,
        event@ is Absent && old(step).adding ==> action@ == RecordActionView::Store(old(step).id),
{
    law_added_records_are_stored(*old(step), event@);
}

/// The files of a database that are named by numbers are its records, in order.
pub proof fn law_record_files_are_listed(
    entries: &Vec<RecordEntry>,
    numbers: Seq<RecordId>,
    ids: Result<Vec<RecordId>, WieError>,
)
    requires
        call_ensures(Database::get_record_ids, (entries,), ids),
        numbers.len() == entries@.len(),
        forall|i: int|
            0 <= i < entries@.len() ==> (#[trigger] entries@[i] matches RecordEntry::File(Some(name))
                && name@ == decimal(numbers[i] as nat)),
    ensures
        ids matches Ok(ids) && ids@ == numbers,
{
    lemma_numbers_are_listed(entries@, numbers);
}

proof fn lemma_numbers_are_listed(entries: Seq<RecordEntry>, numbers: Seq<RecordId>)
    requires
        numbers.len() == entries.len(),
        forall|i: int|
            0 <= i < entries.len() ==> (#[trigger] entries[i] matches RecordEntry::File(Some(name))
                && name@ == decimal(numbers[i] as nat)),
    ensures
        listed_ids(entries) == Ok::<Seq<RecordId>, ErrorView>(numbers),
    decreases entries.len(),
{
    if entries.len() > 0 {
        let front = entries.drop_last();
        let fewer = numbers.drop_last();
        let n = entries.len() - 1;
        assert forall|i: int| 0 <= i < front.len() implies (#[trigger] front[i] matches
            RecordEntry::File(Some(name)) && name@ == decimal(fewer[i] as nat)) by {
            assert(front[i] == entries[i]);
        }
        lemma_numbers_are_listed(front, fewer);
        assert(entries[n] == entries.last());
        law_parse_decimal(numbers[n]);
        assert(fewer.push(numbers[n]) =~= numbers);
    } else {
        assert(numbers =~= Seq::empty());
    }
}

} // verus!
