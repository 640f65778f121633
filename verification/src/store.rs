//! The web frontend's key-value stores: keys, records in them, and files.

use crate::content::{portion, read_into};
use crate::database::RecordId;
use crate::error::{fatal, ErrorView, WieError};
use crate::memory_filesystem::read_room;
use crate::number::{decimal, decimal_chars, law_parse_decimal, parse_u32, parsed_u32};
use crate::text::{append_chars, chars_of, concatenated, string_of};
use vstd::prelude::*;

verus! {

/// A key of a store.
#[derive(Debug, PartialEq, Eq)]
pub enum StoreKey {
    String(String),
    Pair(String, String),
}

/// The meaning of a [`StoreKey`].
pub enum StoreKeyView {
    String(Seq<char>),
    Pair(Seq<char>, Seq<char>),
}

impl View for StoreKey {
    type V = StoreKeyView;

    open spec fn view(&self) -> StoreKeyView {
        match self {
            StoreKey::String(text) => StoreKeyView::String(text@),
            StoreKey::Pair(first, second) => StoreKeyView::Pair(first@, second@),
        }
    }
}

/// The key of an application's file.
pub fn make_key(aid: &str, path: &str) -> (key: StoreKey)
    ensures
        key@ == StoreKeyView::Pair(aid@, path@),
{
    StoreKey::Pair(aid.to_owned(), path.to_owned())
}

/// The name of the store that holds an application's records.
pub fn database_name(app_id: &str) -> (name: String)
    ensures
        name@ == "wie_"@ + app_id@,
{
    concatenated("wie_", app_id)
}

/// Whether `key` begins with `prefix`.
pub open spec fn has_prefix(key: Seq<char>, prefix: Seq<char>) -> bool {
    prefix.len() <= key.len() && key.take(prefix.len() as int) == prefix
}

/// The record that a key stands for, in the database of this prefix.
pub open spec fn record_of(key: Seq<char>, prefix: Seq<char>) -> Option<RecordId> {
    if has_prefix(key, prefix) {
        parsed_u32(key.skip(prefix.len() as int))
    } else {
        None
    }
}

/// The records that keys stand for, in order. Other keys are passed over.
pub open spec fn records_of(keys: Seq<Seq<char>>, prefix: Seq<char>) -> Seq<RecordId>
    decreases keys.len(),
{
    if keys.len() == 0 {
        Seq::empty()
    } else {
        let before = records_of(keys.drop_last(), prefix);
        match record_of(keys.last(), prefix) {
            Some(id) => before.push(id),
            None => before,
        }
    }
}

/// The largest of some record numbers, or zero.
pub open spec fn largest(ids: Seq<RecordId>) -> RecordId
    decreases ids.len(),
{
    if ids.len() == 0 {
        0
    } else {
        let before = largest(ids.drop_last());
        if before < ids.last() {
            ids.last()
        } else {
            before
        }
    }
}

/// The views of strings.
pub open spec fn key_views(keys: Seq<String>) -> Seq<Seq<char>> {
    keys.map_values(|key: String| key@)
}

/// The key of a record stands for that record.
pub proof fn law_record_keys_are_found(prefix: Seq<char>, id: RecordId)
    ensures
        record_of(prefix + decimal(id as nat), prefix) == Some(id),
{
    let key = prefix + decimal(id as nat);
    assert(key.take(prefix.len() as int) =~= prefix);
    assert(key.skip(prefix.len() as int) =~= decimal(id as nat));
    law_parse_decimal(id);
}

/// A number beyond the largest is free.
pub proof fn law_next_number_is_free(ids: Seq<RecordId>, i: int)
    requires
        0 <= i < ids.len(),
    ensures
        ids[i] <= largest(ids),
    decreases ids.len(),
{
    if i < ids.len() - 1 {
        law_next_number_is_free(ids.drop_last(), i);
    }
}

/// Whether `key` begins with `prefix`.
fn starts_with(key: &Vec<char>, prefix: &Vec<char>) -> (found: bool)
    ensures
        found == has_prefix(key@, prefix@),
{
    if key.len() < prefix.len() {
        return false;
    }
    let mut i: usize = 0;
    while i < prefix.len()
        invariant
            i <= prefix.len() <= key.len(),
            forall|k: int| 0 <= k < i ==> key@[k] == prefix@[k],
        decreases prefix.len() - i,
    {
        if key[i] != prefix[i] {
            proof {
                if key@.take(prefix@.len() as int) == prefix@ {
                    assert(key@.take(prefix@.len() as int)[i as int] == prefix@[i as int]);
                }
            }
            return false;
        }
        i += 1;
    }
    assert(key@.take(prefix@.len() as int) =~= prefix@);
    true
}

/// A database in a store: its records have keys of this prefix.
pub struct WebDatabase {
    key_prefix: String,
}

impl WebDatabase {
    /// The prefix of the keys of all records.
    pub closed spec fn prefix(&self) -> Seq<char> {
        self.key_prefix@
    }

    /// The database of this name.
    pub fn new(name: &str) -> (database: WebDatabase)
        ensures
            database.prefix() == name@,
    {
        WebDatabase { key_prefix: name.to_owned() }
    }

    /// The key of a record.
    pub fn record_key(&self, id: RecordId) -> (key: StoreKey)
        ensures
            key@ == StoreKeyView::String(self.prefix() + decimal(id as nat)),
    {
        let mut text = chars_of(self.key_prefix.as_str());
        append_chars(&mut text, &decimal_chars(id));
        StoreKey::String(string_of(&text))
    }

    /// The records that a store's keys stand for, in order.
    pub fn get_record_ids(&self, keys: &Vec<String>) -> (ids: Vec<RecordId>)
        ensures
            ids@ == records_of(key_views(keys@), self.prefix()),
    {
        let prefix = chars_of(self.key_prefix.as_str());
        let mut ids: Vec<RecordId> = Vec::new();
        let ghost all = key_views(keys@);
        let mut i: usize = 0;
        while i < keys.len()
            invariant
                i <= keys.len(),
                all == key_views(keys@),
                prefix@ == self.prefix(),
                ids@ == records_of(all.take(i as int), self.prefix()),
            decreases keys.len() - i,
        {
            assert(all.take(i + 1).drop_last() =~= all.take(i as int));
            let key = chars_of(keys[i].as_str());
            if starts_with(&key, &prefix) {
                let mut tail: Vec<char> = Vec::new();
                let mut k: usize = prefix.len();
                while k < key.len()
                    invariant
                        prefix.len() <= k <= key.len(),
                        tail@ == key@.subrange(prefix@.len() as int, k as int),
                    decreases key.len() - k,
                {
                    tail.push(key[k]);
                    assert(tail@ =~= key@.subrange(prefix@.len() as int, k + 1));
                    k += 1;
                }
                assert(tail@ =~= key@.skip(prefix@.len() as int));
                if let Some(id) = parse_u32(&tail) {
                    ids.push(id);
                }
            }
            i += 1;
        }
        assert(all.take(all.len() as int) =~= all);
        ids
    }

    /// The number of the next record: one more than the largest.
    pub fn next_id(&self, ids: &Vec<RecordId>) -> (id: Result<RecordId, WieError>)
        ensures
            largest(ids@) < u32::MAX ==> id == Ok::<RecordId, WieError>(
                (largest(ids@) + 1) as RecordId,
            ),
            largest(ids@) == u32::MAX ==> id is Err && id->Err_0@ == ErrorView::FatalError(
                "record IDs exhausted"@,
            ),
    {
        let mut found: RecordId = 0;
        let mut i: usize = 0;
        while i < ids.len()
            invariant
                i <= ids.len(),
                found == largest(ids@.take(i as int)),
            decreases ids.len() - i,
        {
            assert(ids@.take(i + 1).drop_last() =~= ids@.take(i as int));
            if found < ids[i] {
                found = ids[i];
            }
            i += 1;
        }
        assert(ids@.take(ids@.len() as int) =~= ids@);
        if found == u32::MAX {
            return Err(fatal("record IDs exhausted"));
        }
        Ok(found + 1)
    }
}

/// Whether one of `keys` begins with `name`.
pub open spec fn one_has_prefix(keys: Seq<String>, name: Seq<char>) -> bool {
    exists|i: int| 0 <= i < keys.len() && has_prefix((#[trigger] keys[i])@, name)
}

/// Whether a store holds a database: one of its keys begins with the name.
pub fn holds_database(keys: &Vec<String>, name: &str) -> (found: bool)
    ensures
        found == one_has_prefix(keys@, name@),
{
    let prefix = chars_of(name);
    let mut i: usize = 0;
    while i < keys.len()
        invariant
            i <= keys.len(),
            prefix@ == name@,
            forall|k: int| 0 <= k < i ==> !has_prefix((#[trigger] keys@[k])@, name@),
        decreases keys.len() - i,
    {
        if starts_with(&chars_of(keys[i].as_str()), &prefix) {
            assert(has_prefix(keys@[i as int]@, name@));
            return true;
        }
        i += 1;
    }
    false
}

/// Takes what a store read of a file into `buf`. It must not be more than was
/// asked for: none where there is no file.
pub fn accept_read(data: Option<Vec<u8>>, count: usize, buf: &mut [u8]) -> (read: Result<
    Option<usize>,
    WieError,
>)
    ensures
        final(buf)@.len() == old(buf)@.len(),
        match data {
            None => read == Ok::<Option<usize>, WieError>(None) && final(buf)@ == old(buf)@,
            Some(bytes) => if bytes@.len() > read_room(count, old(buf)@.len()) {
                &&& read is Err
                &&& read->Err_0@ == ErrorView::FatalError("storage read exceeded output length"@)
                &&& final(buf)@ == old(buf)@
            } else {
                &&& read == Ok::<Option<usize>, WieError>(Some(bytes@.len() as usize))
                &&& final(buf)@ == bytes@ + old(buf)@.skip(bytes@.len() as int)
            },
        },
{
    match data {
        None => Ok(None),
        Some(bytes) => {
            let room: usize = if count < buf.len() {
                count
            } else {
                buf.len()
            };
            if bytes.len() > room {
                return Err(fatal("storage read exceeded output length"));
            }
            assert(portion(bytes@, 0, bytes@.len()) =~= bytes@);
            let read = read_into(&bytes, 0, bytes.len(), buf);
            Ok(Some(read))
        },
    }
}

/// The error for a failed script: its own text if it is one, the message of an
/// error object, or a text of ours.
pub fn script_error(text: Option<String>, message: Option<String>) -> (error: WieError)
    ensures
        error@ == ErrorView::FatalError(
            if text is Some {
                text->0@
            } else if message is Some {
                message->0@
            } else {
                "JavaScript storage operation failed"@
            },
        ),
{
    match text {
        Some(text) => WieError::FatalError(text),
        None => match message {
            Some(message) => WieError::FatalError(message),
            None => fatal("JavaScript storage operation failed"),
        },
    }
}

/// A key stands for a record exactly where it is the database's name and then a number:
/// no other database's keys are taken for its records unless they begin alike.
pub proof fn law_records_have_the_name_and_a_number(
    key: Seq<char>,
    prefix: Seq<char>,
    tail: Seq<char>,
)
    ensures
        record_of(prefix + tail, prefix) == parsed_u32(tail),
        record_of(key, prefix) is Some ==> exists|rest: Seq<char>|
            key == #[trigger] (prefix + rest) && parsed_u32(rest) == record_of(key, prefix),
        has_prefix(prefix + tail, prefix),
        has_prefix(key, prefix) ==> key == prefix + key.skip(prefix.len() as int),
{
    let whole = prefix + tail;
    assert(whole.take(prefix.len() as int) =~= prefix);
    assert(whole.skip(prefix.len() as int) =~= tail);
    if has_prefix(key, prefix) {
        let rest = key.skip(prefix.len() as int);
        assert(key =~= key.take(prefix.len() as int) + rest);
        assert(key == prefix + rest);
    }
}

/// Keys are looked through one by one: those of two lists give the records of the one and
/// then those of the other, and one key gives its record, if it stands for one.
pub proof fn law_records_are_found_key_by_key(
    a: Seq<Seq<char>>,
    b: Seq<Seq<char>>,
    key: Seq<char>,
    prefix: Seq<char>,
)
    ensures
        records_of(a + b, prefix) == records_of(a, prefix) + records_of(b, prefix),
        record_of(key, prefix) matches Some(id) ==> records_of(seq![key], prefix) == seq![id],
        record_of(key, prefix) is None ==> records_of(seq![key], prefix).len() == 0,
    decreases b.len(),
{
    let one = seq![key];
    assert(one.drop_last() =~= Seq::empty());
    assert(one.last() == key);
    assert(records_of(one.drop_last(), prefix) =~= Seq::empty());
    if let Some(id) = record_of(key, prefix) {
        assert(records_of(one, prefix) =~= seq![id]);
    }
    if b.len() == 0 {
        assert(a + b =~= a);
        assert(records_of(a, prefix) + records_of(b, prefix) =~= records_of(a, prefix));
    } else {
        law_records_are_found_key_by_key(a, b.drop_last(), key, prefix);
        assert((a + b).drop_last() =~= a + b.drop_last());
        assert((a + b).last() == b.last());
        assert(records_of(a + b, prefix) =~= records_of(a, prefix) + records_of(b, prefix));
    }
}

/// The largest number is one of them, unless there is none.
pub proof fn law_the_largest_number_is_there(ids: Seq<RecordId>)
    ensures
        ids.len() == 0 ==> largest(ids) == 0,
        ids.len() > 0 ==> ids.contains(largest(ids)),
    decreases ids.len(),
{
    if ids.len() > 0 {
        let front = ids.drop_last();
        law_the_largest_number_is_there(front);
        if largest(ids) == ids.last() {
            assert(ids[ids.len() - 1] == largest(ids));
        } else {
            let i = choose|i: int| 0 <= i < front.len() && front[i] == largest(front);
            assert(ids[i] == largest(ids));
        }
    }
}

/// Files of different applications or paths have different keys, and so have the stores of
/// different applications and the records of one database.
pub proof fn law_keys_are_apart(
    aid: &str,
    path: &str,
    other_aid: &str,
    other_path: &str,
    key: StoreKey,
    other_key: StoreKey,
    store: String,
    other_store: String,
    database: &WebDatabase,
    id: RecordId,
    other_id: RecordId,
    record: StoreKey,
    other_record: StoreKey,
)
    requires
        call_ensures(make_key, (aid, path), key),
        call_ensures(make_key, (other_aid, other_path), other_key),
        call_ensures(database_name, (aid,), store),
        call_ensures(database_name, (other_aid,), other_store),
        call_ensures(WebDatabase::record_key, (database, id), record),
        call_ensures(WebDatabase::record_key, (database, other_id), other_record),
    ensures
        (key@ == other_key@) == (aid@ == other_aid@ && path@ == other_path@),
        key@ == StoreKeyView::Pair(aid@, path@),
        (store@ == other_store@) == (aid@ == other_aid@),
        (record@ == other_record@) == (id == other_id),
        record@ matches StoreKeyView::String(text) && record_of(text, database.prefix()) == Some(id),
{
    let head = "wie_"@;
    assert(store@.skip(head.len() as int) =~= aid@);
    assert(other_store@.skip(head.len() as int) =~= other_aid@);
    law_record_keys_are_found(database.prefix(), id);
    law_record_keys_are_found(database.prefix(), other_id);
}

/// The next number is one that no record has and larger than all of them, by one; there is
/// none left exactly where the largest number that there is was given out.
pub proof fn law_the_next_number_is_one_more(
    database: &WebDatabase,
    ids: &Vec<RecordId>,
    next: Result<RecordId, WieError>,
)
    requires
        call_ensures(WebDatabase::next_id, (database, ids), next),
    ensures
        next is Err == ids@.contains(0xffff_ffff),
        next matches Ok(id) ==> {
            &&& forall|i: int| 0 <= i < ids@.len() ==> #[trigger] ids@[i] < id
            &&& id == 1 || ids@.contains((id - 1) as u32)
        },
{
    law_the_largest_number_is_there(ids@);
    assert forall|i: int| 0 <= i < ids@.len() implies #[trigger] ids@[i] <= largest(ids@) by {
        law_next_number_is_free(ids@, i);
    }
    if ids@.contains(0xffff_ffff) {
        let i = choose|i: int| 0 <= i < ids@.len() && ids@[i] == 0xffff_ffff;
        assert(ids@[i] <= largest(ids@));
    }
}

/// A store holds a database exactly where one of its keys begins with the name.
pub proof fn law_databases_are_found_by_their_names(
    keys: &Vec<String>,
    name: &str,
    found: bool,
    i: int,
    rest: Seq<char>,
)
    requires
        call_ensures(holds_database, (keys, name), found),
    ensures
        0 <= i < keys@.len() && keys@[i]@ == name@ + rest ==> found,
        found ==> exists|k: int|
            #![trigger keys@[k]]
            0 <= k < keys@.len() && name@.len() <= keys@[k]@.len() && forall|c: int|
                0 <= c < name@.len() ==> keys@[k]@[c] == #[trigger] name@[c],
{
    if 0 <= i < keys@.len() && keys@[i]@ == name@ + rest {
        law_records_have_the_name_and_a_number(keys@[i]@, name@, rest);
        assert(has_prefix(keys@[i]@, name@));
    }
    if found {
        let k = choose|k: int| 0 <= k < keys@.len() && has_prefix((#[trigger] keys@[k])@, name@);
        let key = keys@[k]@;
        assert forall|c: int| 0 <= c < name@.len() implies key[c] == #[trigger] name@[c] by {
            assert(key.take(name@.len() as int)[c] == name@[c]);
        }
        assert(0 <= k < keys@.len());
    }
}

/// What a store read is taken over whole, at the beginning of the buffer, unless it is more
/// than was asked for or than there is room: then it is refused and the buffer left alone.
pub proof fn law_reads_of_a_store_are_taken_over(
    data: Option<Vec<u8>>,
    count: usize,
    buf: &mut [u8],
    read: Result<Option<usize>, WieError>,
)
    requires
        call_ensures(accept_read, (data, count, buf), read),
    ensures
        data is None ==> read == Ok::<Option<usize>, WieError>(None) && final(buf)@ == old(buf)@,
        data matches Some(bytes) ==> {
            &&& read is Err == (bytes@.len() > count || bytes@.len() > old(buf)@.len())
            &&& read is Err ==> final(buf)@ == old(buf)@
            &&& read is Ok ==> {
                &&& read->Ok_0 matches Some(n) && n == bytes@.len()
                &&& final(buf)@.len() == old(buf)@.len()
                &&& forall|i: int| 0 <= i < bytes@.len() ==> #[trigger] final(buf)@[i] == bytes@[i]
                &&& forall|i: int|
                    bytes@.len() <= i < old(buf)@.len() ==> #[trigger] final(buf)@[i]
                        == old(buf)@[i]
            }
        },
{
}

/// A failed script is reported in its own words where it has some.
pub proof fn law_scripts_fail_in_their_own_words(
    text: Option<String>,
    message: Option<String>,
    error: WieError,
)
    requires
        call_ensures(script_error, (text, message), error),
    ensures
        text matches Some(words) ==> error@ == ErrorView::FatalError(words@),
        text is None ==> (message matches Some(words) ==> error@ == ErrorView::FatalError(words@)),
{
}

/// The records of a database are found among the keys of its store.
pub proof fn law_record_keys_are_listed(
    database: &WebDatabase,
    keys: &Vec<String>,
    ids: Vec<RecordId>,
    i: int,
    id: RecordId,
)
    requires
        call_ensures(WebDatabase::get_record_ids, (database, keys), ids),
        0 <= i < keys@.len(),
        keys@[i]@ == database.prefix() + decimal(id as nat),
    ensures
        ids@.contains(id),
        ids@.len() <= keys@.len(),
{
    let all = key_views(keys@);
    assert(all[i] == keys@[i]@);
    law_record_keys_are_found(database.prefix(), id);
    lemma_records_hold(all, database.prefix(), i, id);
}

proof fn lemma_records_hold(keys: Seq<Seq<char>>, prefix: Seq<char>, i: int, id: RecordId)
    requires
        0 <= i < keys.len(),
        record_of(keys[i], prefix) == Some(id),
    ensures
        records_of(keys, prefix).contains(id),
        records_of(keys, prefix).len() <= keys.len(),
    decreases keys.len(),
{
    let front = keys.drop_last();
    let found = records_of(keys, prefix);
    lemma_records_are_keys(front, prefix);
    if i < keys.len() - 1 {
        lemma_records_hold(front, prefix, i, id);
        let before = records_of(front, prefix);
        let k = choose|k: int| 0 <= k < before.len() && before[k] == id;
        assert(found[k] == id);
    } else {
        assert(found[found.len() - 1] == id);
    }
}

proof fn lemma_records_are_keys(keys: Seq<Seq<char>>, prefix: Seq<char>)
    ensures
        records_of(keys, prefix).len() <= keys.len(),
    decreases keys.len(),
{
    if keys.len() > 0 {
        lemma_records_are_keys(keys.drop_last(), prefix);
    }
}

} // verus!
