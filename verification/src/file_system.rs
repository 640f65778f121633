//! The guest's view of its files: a persistent backend laid over the resources
//! that came with the application's archive.

use crate::content::{read_into, resized, written};
use crate::error::{fatal, ErrorView, WieError};
use crate::file_map::FileMap;
use crate::memory_filesystem::{copied, is_reading, law_reads_fill_the_buffer};
use crate::path::{
    has_parent_segment, is_plain, is_skipped, law_one_segment_moves, lemma_leading_slashes_do_not_move,
    lemma_moving_identity, lemma_moving_segments, moving, moving_segments, parent_segment,
};
use crate::text::{
    chars_of, join, join_with, law_join_split, law_split_join, law_trimming_takes_leading_characters,
    lemma_split_nonempty, split, split_at_each, string_of, trim_start, without_leading,
};
use vstd::prelude::*;

verus! {

/// The key under which both layers hold a guest path, if the path is valid.
///
/// Leading `/` and the segments `.` and the empty one are dropped. A path with a
/// `..` segment, a backslash, a trailing `/` or no segment left has no key.
pub open spec fn guest_path_key(path: Seq<char>) -> Option<Seq<char>> {
    let trimmed = trim_start(path, '/');
    let segments = moving(split(trimmed, '/'));
    if path.contains('\\') || trimmed.len() == 0 || trimmed.last() == '/' || segments.contains(
        parent_segment(),
    ) || segments.len() == 0 {
        None
    } else {
        Some(join(segments, '/'))
    }
}

/// Normalizes a guest-supplied path so that both overlay layers see the same key.
pub fn normalize_guest_path(path: &str) -> (key: Option<String>)
    ensures
        key is Some == guest_path_key(path@) is Some,
        key is Some ==> key->0@ == guest_path_key(path@)->0,
{
    let chars = chars_of(path);
    let mut i: usize = 0;
    while i < chars.len()
        invariant
            i <= chars.len(),
            chars@ == path@,
            forall|k: int| 0 <= k < i ==> #[trigger] chars@[k] != '\\',
        decreases chars.len() - i,
    {
        if chars[i] == '\\' {
            assert(path@.contains('\\'));
            return None;
        }
        i += 1;
    }
    assert(!path@.contains('\\'));
    let trimmed = without_leading(&chars, '/');
    if trimmed.len() == 0 || trimmed[trimmed.len() - 1] == '/' {
        return None;
    }
    let segments = moving_segments(split_at_each(&trimmed, '/'));
    if has_parent_segment(&segments) || segments.len() == 0 {
        return None;
    }
    Some(string_of(&join_with(&segments, '/')))
}

proof fn lemma_trim_start_shape(s: Seq<char>, c: char)
    ensures
        trim_start(s, c).len() <= s.len(),
        trim_start(s, c) == s.skip(s.len() - trim_start(s, c).len()),
        trim_start(s, c).len() > 0 ==> trim_start(s, c)[0] != c,
    decreases s.len(),
{
    if s.len() > 0 && s[0] == c {
        lemma_trim_start_shape(s.drop_first(), c);
        let t = trim_start(s.drop_first(), c);
        assert(s.drop_first().skip(s.len() - 1 - t.len()) =~= s.skip(s.len() - t.len()));
    } else {
        assert(s.skip(0) =~= s);
    }
}

proof fn lemma_split_members(s: Seq<char>, sep: char, i: int, c: char)
    requires
        0 <= i < split(s, sep).len(),
        split(s, sep)[i].contains(c),
    ensures
        s.contains(c),
    decreases s.len(),
{
    if s.len() > 0 {
        let front = s.drop_last();
        let parts = split(front, sep);
        let part = split(s, sep)[i];
        let k = choose|k: int| 0 <= k < part.len() && part[k] == c;
        if i < parts.len() && part == parts[i] {
            lemma_split_members(front, sep, i, c);
            let j = choose|j: int| 0 <= j < front.len() && front[j] == c;
            assert(s[j] == c);
        } else if s.last() != sep {
            if i < parts.len() - 1 {
                assert(part == parts[i]);
            }
            if k == part.len() - 1 {
                assert(s[s.len() - 1] == c);
            } else {
                assert(parts[i][k] == c);
                assert(parts[i].contains(c));
                lemma_split_members(front, sep, i, c);
                let j = choose|j: int| 0 <= j < front.len() && front[j] == c;
                assert(s[j] == c);
            }
        }
    }
}

proof fn lemma_join_members(parts: Seq<Seq<char>>, sep: char, c: char)
    requires
        join(parts, sep).contains(c),
    ensures
        c == sep || exists|i: int| 0 <= i < parts.len() && (#[trigger] parts[i]).contains(c),
    decreases parts.len(),
{
    let whole = join(parts, sep);
    let k = choose|k: int| 0 <= k < whole.len() && whole[k] == c;
    if parts.len() == 1 {
        assert(parts[0].contains(c));
    } else if parts.len() > 1 {
        let front = join(parts.drop_last(), sep);
        if k < front.len() {
            assert(front[k] == c);
            lemma_join_members(parts.drop_last(), sep, c);
            if c != sep {
                let i = choose|i: int|
                    0 <= i < parts.drop_last().len() && (#[trigger] parts.drop_last()[i]).contains(c);
                assert(parts[i].contains(c));
            }
        } else if k > front.len() {
            assert(parts.last()[k - front.len() - 1] == c);
            assert(parts[parts.len() - 1].contains(c));
        }
    }
}

proof fn lemma_join_ends(parts: Seq<Seq<char>>, sep: char)
    requires
        parts.len() > 0,
        forall|i: int| 0 <= i < parts.len() ==> (#[trigger] parts[i]).len() > 0,
    ensures
        join(parts, sep).len() > 0,
        join(parts, sep)[0] == parts[0][0],
        join(parts, sep).last() == parts.last().last(),
    decreases parts.len(),
{
    assert(parts[parts.len() - 1].len() > 0);
    if parts.len() > 1 {
        let front = parts.drop_last();
        assert forall|i: int| 0 <= i < front.len() implies (#[trigger] front[i]).len() > 0 by {
            assert(front[i] == parts[i]);
        }
        lemma_join_ends(front, sep);
        assert(front[0] == parts[0]);
    }
}

/// A key is made of plain segments alone: none is empty, `.` or `..`, and none
/// holds a separator or a backslash.
pub proof fn law_key_is_plain(path: Seq<char>)
    requires
        guest_path_key(path) is Some,
    ensures
        ({
            let key = guest_path_key(path)->0;
            &&& key.len() > 0
            &&& !key.contains('\\')
            &&& key[0] != '/'
            &&& key.last() != '/'
            &&& forall|i: int| 0 <= i < split(key, '/').len() ==> is_plain(#[trigger] split(key, '/')[i])
        }),
{
    let trimmed = trim_start(path, '/');
    let segments = moving(split(trimmed, '/'));
    let key = join(segments, '/');
    lemma_moving_segments(trimmed);
    assert forall|i: int| 0 <= i < segments.len() implies is_plain(#[trigger] segments[i]) by {
        assert(!segments[i].contains('/') && !is_skipped(segments[i]));
        assert(segments.contains(segments[i]));
    }
    assert forall|i: int| 0 <= i < segments.len() implies (#[trigger] segments[i]).len() > 0 by {
        assert(is_plain(segments[i]));
    }
    law_split_join(segments, '/');
    lemma_join_ends(segments, '/');
    assert(!segments[0].contains('/') && !segments[segments.len() - 1].contains('/'));
    if key[0] == '/' {
        assert(segments[0][0] == '/');
        assert(segments[0].contains('/'));
    }
    if key.last() == '/' {
        let last = segments[segments.len() - 1];
        assert(last[last.len() - 1] == '/');
        assert(last.contains('/'));
    }
    if key.contains('\\') {
        lemma_join_members(segments, '/', '\\');
        let i = choose|i: int| 0 <= i < segments.len() && (#[trigger] segments[i]).contains('\\');
        lemma_moving_is_member(trimmed, i);
        let j = choose|j: int| 0 <= j < split(trimmed, '/').len() && split(trimmed, '/')[j] == segments[i];
        lemma_split_members(trimmed, '/', j, '\\');
        lemma_trim_start_shape(path, '/');
        let k = choose|k: int| 0 <= k < trimmed.len() && trimmed[k] == '\\';
        assert(path[path.len() - trimmed.len() + k] == '\\');
        assert(path.contains('\\'));
    }
}

proof fn lemma_moving_is_member(path: Seq<char>, i: int)
    requires
        0 <= i < moving(split(path, '/')).len(),
    ensures
        split(path, '/').contains(moving(split(path, '/'))[i]),
{
    crate::path::lemma_filtered_members(split(path, '/'));
}

/// Normalizing a key gives the same key.
pub proof fn law_key_is_stable(path: Seq<char>)
    requires
        guest_path_key(path) is Some,
    ensures
        guest_path_key(guest_path_key(path)->0) == guest_path_key(path),
{
    let key = guest_path_key(path)->0;
    let segments = moving(split(trim_start(path, '/'), '/'));
    law_key_is_plain(path);
    lemma_moving_segments(trim_start(path, '/'));
    law_split_join(segments, '/');
    assert(trim_start(key, '/') == key);
    assert forall|i: int| 0 <= i < segments.len() implies !is_skipped(#[trigger] segments[i]) by {
        assert(!segments[i].contains('/') && !is_skipped(segments[i]));
    }
    lemma_moving_identity(segments);
}

/// A leading `/` does not change the key of a path.
pub proof fn law_leading_slash_is_ignored(path: Seq<char>)
    ensures
        guest_path_key(seq!['/'] + path) == guest_path_key(path),
{
    let slashed = seq!['/'] + path;
    assert(slashed.drop_first() =~= path);
    if path.contains('\\') {
        let k = choose|k: int| 0 <= k < path.len() && path[k] == '\\';
        assert(slashed[k + 1] == '\\');
        assert(slashed.contains('\\'));
    }
    if slashed.contains('\\') {
        let k = choose|k: int| 0 <= k < slashed.len() && slashed[k] == '\\';
        assert(path[k - 1] == '\\');
        assert(path.contains('\\'));
    }
}

/// Unified view of an application's files: a persistent backend, and in memory
/// the resources that came with the application's archive.
///
/// Writes always go to the backend; reads prefer it and fall back to the
/// resources. The backend is called from outside, with the keys that this type
/// gives, and its answers are handed back.
pub struct FilesystemOverlay {
    virtual_files: FileMap,
    aid: String,
}

/// The key that a resource is kept under: that of its path, or the path itself
/// without its leading `/` where it has none.
pub open spec fn resource_key(path: Seq<char>) -> Seq<char> {
    match guest_path_key(path) {
        Some(key) => key,
        None => trim_start(path, '/'),
    }
}

/// What the guest sees at a key: the backend's file, or the resource.
pub open spec fn seen(
    persistent: Map<Seq<char>, Seq<u8>>,
    resources: Map<Seq<char>, Seq<u8>>,
    key: Seq<char>,
) -> Option<Seq<u8>> {
    if persistent.dom().contains(key) {
        Some(persistent[key])
    } else if resources.dom().contains(key) {
        Some(resources[key])
    } else {
        None
    }
}

/// The resource at a key, or no bytes where there is none.
pub open spec fn initial_bytes(resources: Map<Seq<char>, Seq<u8>>, key: Seq<char>) -> Seq<u8> {
    if resources.dom().contains(key) {
        resources[key]
    } else {
        Seq::empty()
    }
}

/// What a change is made to where the backend has no file.
pub struct ChangeTarget {
    /// The key that the backend is called with.
    pub key: String,
    /// What a missing file begins as.
    pub initial: Vec<u8>,
}

impl FilesystemOverlay {
    /// The application's identifier.
    pub closed spec fn application(&self) -> Seq<char> {
        self.aid@
    }

    /// The resources, by key.
    pub closed spec fn resources(&self) -> Map<Seq<char>, Seq<u8>> {
        Map::new(
            |key: Seq<char>| self.virtual_files@.dom().contains((self.aid@, key)),
            |key: Seq<char>| self.virtual_files@[(self.aid@, key)],
        )
    }

    /// An application's files, without resources.
    pub fn new(aid: &str) -> (overlay: FilesystemOverlay)
        ensures
            overlay.application() == aid@,
            overlay.resources() == Map::<Seq<char>, Seq<u8>>::empty(),
    {
        let overlay = FilesystemOverlay { virtual_files: FileMap::new(), aid: aid.to_owned() };
        assert(overlay.resources() =~= Map::<Seq<char>, Seq<u8>>::empty());
        overlay
    }

    /// The application's identifier, which the backend is called with.
    pub fn aid(&self) -> (aid: &str)
        ensures
            aid@ == self.application(),
    {
        self.aid.as_str()
    }

    /// Adds a resource.
    pub fn add_virtual(&mut self, path: &str, data: Vec<u8>)
        ensures
            final(self).application() == old(self).application(),
            final(self).resources() == old(self).resources().insert(resource_key(path@), data@),
    {
        let key = match normalize_guest_path(path) {
            Some(key) => key,
            None => string_of(&without_leading(&chars_of(path), '/')),
        };
        let ghost before = self.resources();
        self.virtual_files.insert(self.aid.as_str(), key.as_str(), data);
        assert(self.resources() =~= before.insert(resource_key(path@), data@));
    }

    /// Whether a path has a key.
    pub fn is_valid_path(&self, path: &str) -> (valid: bool)
        ensures
            valid == guest_path_key(path@) is Some,
    {
        normalize_guest_path(path).is_some()
    }

    /// Whether there is a file, where the backend answered `persistent` for the
    /// path's key. The backend is not called for a path without a key.
    pub fn has_file(&self, path: &str, persistent: bool) -> (found: bool)
        ensures
            found == (guest_path_key(path@) is Some && (persistent || self.resources().dom().contains(
                guest_path_key(path@)->0,
            ))),
    {
        match normalize_guest_path(path) {
            Some(key) => persistent || self.virtual_files.get(
                self.aid.as_str(),
                key.as_str(),
            ).is_some(),
            None => false,
        }
    }

    /// The size of a file, where the backend answered `persistent` for the path's
    /// key: none where there is no file.
    pub fn size(&self, path: &str, persistent: Option<usize>) -> (size: Option<usize>)
        ensures
            match guest_path_key(path@) {
                None => size is None,
                Some(key) => if persistent is Some {
                    size == persistent
                } else {
                    &&& size is Some == self.resources().dom().contains(key)
                    &&& size is Some ==> size->0 == self.resources()[key].len()
                },
            },
    {
        match normalize_guest_path(path) {
            None => None,
            Some(key) => {
                if persistent.is_some() {
                    return persistent;
                }
                match self.virtual_files.get(self.aid.as_str(), key.as_str()) {
                    Some(bytes) => Some(bytes.len()),
                    None => None,
                }
            },
        }
    }

    /// Reads a file, where the backend answered `persistent` for the path's key.
    /// What the backend read is in `buf` already; otherwise the resource is read:
    /// none where there is none.
    pub fn read(
        &self,
        path: &str,
        offset: usize,
        count: usize,
        persistent: Option<usize>,
        buf: &mut [u8],
    ) -> (read: Option<usize>)
        ensures
            final(buf)@.len() == old(buf)@.len(),
            match guest_path_key(path@) {
                None => read is None && final(buf)@ == old(buf)@,
                Some(key) => if persistent is Some {
                    read == persistent && final(buf)@ == old(buf)@
                } else if self.resources().dom().contains(key) {
                    is_reading(
                        read,
                        self.resources()[key],
                        offset,
                        count,
                        old(buf)@,
                        final(buf)@,
                    )
                } else {
                    read is None && final(buf)@ == old(buf)@
                },
            },
    {
        match normalize_guest_path(path) {
            None => None,
            Some(key) => {
                if persistent.is_some() {
                    return persistent;
                }
                match self.virtual_files.get(self.aid.as_str(), key.as_str()) {
                    Some(bytes) => Some(read_into(bytes, offset, count, buf)),
                    None => None,
                }
            },
        }
    }

    /// What the backend is called with for a write or a truncation: the path's
    /// key, and the bytes that a missing file begins as.
    pub fn change(&self, path: &str) -> (target: Result<ChangeTarget, WieError>)
        ensures
            match guest_path_key(path@) {
                None => target is Err && target->Err_0@ == ErrorView::FatalError(
                    "invalid file path"@,
                ),
                Some(key) => {
                    &&& target is Ok
                    &&& target->Ok_0.key@ == key
                    &&& target->Ok_0.initial@ == initial_bytes(self.resources(), key)
                },
            },
    {
        match normalize_guest_path(path) {
            None => Err(fatal("invalid file path")),
            Some(key) => {
                let initial = match self.virtual_files.get(self.aid.as_str(), key.as_str()) {
                    Some(bytes) => copied(bytes.as_slice()),
                    None => Vec::new(),
                };
                Ok(ChangeTarget { key, initial })
            },
        }
    }
}

/// What the guest sees after a write to a backend that keeps its promise is what
/// it saw before, with the data in place: the first write makes a resource
/// persistent, and later reads see the backend's file.
pub proof fn law_write_changes_what_is_seen(
    persistent: Map<Seq<char>, Seq<u8>>,
    resources: Map<Seq<char>, Seq<u8>>,
    key: Seq<char>,
    offset: nat,
    data: Seq<u8>,
)
    ensures
        ({
            let base = if persistent.dom().contains(key) {
                persistent[key]
            } else {
                initial_bytes(resources, key)
            };
            let before = match seen(persistent, resources, key) {
                Some(bytes) => bytes,
                None => Seq::empty(),
            };
            seen(persistent.insert(key, written(base, offset, data)), resources, key) == Some(
                written(before, offset, data),
            )
        }),
{
}

/// What the guest sees after a truncation by a backend that keeps its promise is
/// what it saw before, cut or zero-filled.
pub proof fn law_truncation_changes_what_is_seen(
    persistent: Map<Seq<char>, Seq<u8>>,
    resources: Map<Seq<char>, Seq<u8>>,
    key: Seq<char>,
    len: nat,
)
    ensures
        ({
            let base = if persistent.dom().contains(key) {
                persistent[key]
            } else {
                initial_bytes(resources, key)
            };
            let before = match seen(persistent, resources, key) {
                Some(bytes) => bytes,
                None => Seq::empty(),
            };
            seen(persistent.insert(key, resized(base, len)), resources, key) == Some(
                resized(before, len),
            )
        }),
{
}

/// A resource is seen under every spelling of its path, and only where the
/// backend has no file.
pub proof fn law_resources_are_seen(
    persistent: Map<Seq<char>, Seq<u8>>,
    resources: Map<Seq<char>, Seq<u8>>,
    path: Seq<char>,
    data: Seq<u8>,
)
    requires
        guest_path_key(path) is Some,
        !persistent.dom().contains(guest_path_key(path)->0),
    ensures
        seen(
            persistent,
            resources.insert(resource_key(path), data),
            guest_path_key(seq!['/'] + path)->0,
        ) == Some(data),
        guest_path_key(seq!['/'] + path) is Some,
{
    law_leading_slash_is_ignored(path);
}

/// A path has a key exactly where it holds no backslash, does not end with a slash and
/// has segments that move, none of which is `..`. The key has just these segments.
pub proof fn law_keys_have_the_segments_of_their_paths(path: Seq<char>)
    ensures
        guest_path_key(path) is Some == {
            &&& !path.contains('\\')
            &&& path.len() > 0 && path.last() != '/'
            &&& moving(split(path, '/')).len() > 0
            &&& !moving(split(path, '/')).contains(seq!['.', '.'])
        },
        guest_path_key(path) matches Some(key) ==> split(key, '/') == moving(split(path, '/')),
{
    let trimmed = trim_start(path, '/');
    let segments = moving(split(path, '/'));
    lemma_leading_slashes_do_not_move(path);
    law_trimming_takes_leading_characters(path, '/');
    assert(parent_segment() =~= seq!['.', '.']);
    if trimmed.len() > 0 {
        assert(trimmed.last() == path.last());
    } else {
        assert(trimmed =~= Seq::empty());
        law_one_segment_moves(trimmed);
        assert(moving(split(trimmed, '/')).len() == 0);
    }
    if guest_path_key(path) is Some {
        lemma_moving_segments(path);
        assert forall|i: int| 0 <= i < segments.len() implies !(#[trigger] segments[i]).contains('/') by {
            assert(moving(split(path, '/'))[i] == segments[i]);
        }
        law_split_join(segments, '/');
    }
}

/// A path of plain segments without a backslash is its own key, and so different such
/// paths are different files.
pub proof fn law_plain_paths_are_their_keys(path: Seq<char>)
    requires
        !path.contains('\\'),
        forall|i: int|
            0 <= i < split(path, '/').len() ==> is_plain(#[trigger] split(path, '/')[i]),
    ensures
        guest_path_key(path) == Some(path),
{
    let parts = split(path, '/');
    lemma_split_nonempty(path, '/');
    assert forall|i: int| 0 <= i < parts.len() implies !is_skipped(#[trigger] parts[i]) by {
        assert(is_plain(parts[i]));
    }
    lemma_moving_identity(parts);
    law_keys_have_the_segments_of_their_paths(path);
    law_join_split(path, '/');
    assert(parent_segment() =~= seq!['.', '.']);
    if parts.contains(parent_segment()) {
        let i = choose|i: int| 0 <= i < parts.len() && parts[i] == parent_segment();
        assert(is_plain(parts[i]));
    }
    assert forall|i: int| 0 <= i < parts.len() implies (#[trigger] parts[i]).len() > 0 by {
        assert(is_plain(parts[i]));
    }
    lemma_join_ends(parts, '/');
    let last = parts[parts.len() - 1];
    assert(is_plain(last));
    if path.last() == '/' {
        assert(last[last.len() - 1] == '/');
        assert(last.contains('/'));
    }
    let key = guest_path_key(path)->0;
    law_join_split(key, '/');
}

/// The guest sees the backend's file wherever the backend has one, else the resource
/// if there is one, else nothing. A change begins with what the guest saw.
pub proof fn law_the_backend_comes_first(
    persistent: Map<Seq<char>, Seq<u8>>,
    resources: Map<Seq<char>, Seq<u8>>,
    key: Seq<char>,
    other: Seq<char>,
    data: Seq<u8>,
)
    ensures
        seen(persistent.insert(key, data), resources, key) == Some(data),
        !persistent.dom().contains(key) ==> seen(persistent, resources.insert(key, data), key)
            == Some(data) && initial_bytes(resources.insert(key, data), key) == data,
        !persistent.dom().contains(key) && !resources.dom().contains(key) ==> seen(
            persistent,
            resources,
            key,
        ) is None && initial_bytes(resources, key).len() == 0,
        other != key ==> seen(persistent.insert(key, data), resources, other) == seen(
            persistent,
            resources,
            other,
        ) && seen(persistent, resources.insert(key, data), other) == seen(
            persistent,
            resources,
            other,
        ),
{
}

/// Both layers see a plain path as it is, and no path that climbs, ends with a slash or
/// holds a backslash.
pub proof fn law_normalizing_keeps_plain_paths(path: &str, key: Option<String>)
    requires
        call_ensures(normalize_guest_path, (path,), key),
    ensures
        !path@.contains('\\') && (forall|i: int|
            0 <= i < split(path@, '/').len() ==> is_plain(#[trigger] split(path@, '/')[i])) ==> (
        key matches Some(key) && key@ == path@),
        path@.contains('\\') || path@.len() == 0 || path@.last() == '/' ==> key is None,
        key matches Some(key) ==> split(key@, '/') == moving(split(path@, '/')),
{
    law_keys_have_the_segments_of_their_paths(path@);
    if !path@.contains('\\') && (forall|i: int|
        0 <= i < split(path@, '/').len() ==> is_plain(#[trigger] split(path@, '/')[i])) {
        law_plain_paths_are_their_keys(path@);
    }
}

/// A file is there, and has the size, that the backend says, and where the backend has none
/// those of the resource. A change begins with the resource, under the path's key; only a
/// path without a key cannot be changed.
pub proof fn law_the_overlay_falls_back_to_resources(
    overlay: &FilesystemOverlay,
    path: &str,
    persistent: Option<usize>,
    there: bool,
    size: Option<usize>,
    target: Result<ChangeTarget, WieError>,
)
    requires
        call_ensures(FilesystemOverlay::has_file, (overlay, path, persistent is Some), there),
        call_ensures(FilesystemOverlay::size, (overlay, path, persistent), size),
        call_ensures(FilesystemOverlay::change, (overlay, path), target),
        guest_path_key(path@) is Some,
    ensures
        there == size is Some,
        persistent is Some ==> size == persistent,
        persistent is None ==> there == overlay.resources().dom().contains(
            guest_path_key(path@)->0,
        ),
        persistent is None && there ==> size->0 == overlay.resources()[guest_path_key(
            path@,
        )->0].len(),
        target matches Ok(target) && target.key@ == guest_path_key(path@)->0 && (persistent is None
            && there ==> target.initial@ == overlay.resources()[target.key@] && size->0
            == target.initial@.len()) && (persistent is None && !there ==> target.initial@.len()
            == 0),
{
}

/// A resource that was added is found under its path, whichever way the path is spelled,
/// and all others are as they were.
pub proof fn law_added_resources_are_found(
    overlay: &mut FilesystemOverlay,
    path: &str,
    data: Vec<u8>,
    other: Seq<char>,
)
    requires
        call_ensures(FilesystemOverlay::add_virtual, (overlay, path, data), ()),
        guest_path_key(path@) is Some,
    ensures
        final(overlay).application() == old(overlay).application(),
        final(overlay).resources().dom().contains(guest_path_key(path@)->0),
        final(overlay).resources()[guest_path_key(path@)->0] == data@,
        other != guest_path_key(path@)->0 ==> final(overlay).resources().dom().contains(other)
            == old(overlay).resources().dom().contains(other),
        other != guest_path_key(path@)->0 && old(overlay).resources().dom().contains(other)
            ==> final(overlay).resources()[other] == old(overlay).resources()[other],
{
}

/// What the backend read is given as it is; otherwise the resource is read, as far as the
/// buffer, the count and the resource reach. A file that is nowhere gives nothing and
/// leaves the buffer alone.
pub proof fn law_the_overlay_reads_the_resource(
    overlay: &FilesystemOverlay,
    path: &str,
    offset: usize,
    count: usize,
    persistent: Option<usize>,
    buf: &mut [u8],
    read: Option<usize>,
)
    requires
        call_ensures(
            FilesystemOverlay::read,
            (overlay, path, offset, count, persistent, buf),
            read,
        ),
        guest_path_key(path@) is Some,
        forall|key: Seq<char>| #[trigger]
            overlay.resources().dom().contains(key) ==> overlay.resources()[key].len() <= usize::MAX,
    ensures
        persistent is Some ==> read == persistent && final(buf)@ == old(buf)@,
        persistent is None && !overlay.resources().dom().contains(guest_path_key(path@)->0)
            ==> read is None && final(buf)@ == old(buf)@,
        persistent is None && overlay.resources().dom().contains(guest_path_key(path@)->0) ==> {
            let content = overlay.resources()[guest_path_key(path@)->0];
            read matches Some(n) && {
                &&& n <= count && n <= old(buf)@.len()
                &&& n == count || n == old(buf)@.len() || offset + n >= content.len()
                &&& forall|i: int| 0 <= i < n ==> #[trigger] final(buf)@[i] == content[offset + i]
                &&& forall|i: int|
                    n <= i < old(buf)@.len() ==> #[trigger] final(buf)@[i] == old(buf)@[i]
            }
        },
{
    if persistent is None && overlay.resources().dom().contains(guest_path_key(path@)->0) {
        law_reads_fill_the_buffer(
            read,
            overlay.resources()[guest_path_key(path@)->0],
            offset,
            count,
            old(buf)@,
            final(buf)@,
        );
    }
}

} // verus!
