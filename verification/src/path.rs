//! Segments of `/`-separated paths, and the rules that keep a path inside the
//! directory it belongs to.

use crate::number::{decimal, decimal_chars, is_digit, law_decimal_injective, lemma_decimal_digits};
use crate::text::{
    append_chars, chars_of, join, join_with, law_split_join, law_splitting_goes_part_by_part,
    lemma_split_parts, split, texts, trim_start,
};
use vstd::prelude::*;

verus! {

/// A character that no directory name may hold.
pub open spec fn is_unsafe_in_name(c: char) -> bool {
    c == '/' || c == '\\' || c == '\0'
}

/// An identifier without the characters that no directory name may hold.
pub open spec fn sanitized(id: Seq<char>) -> Seq<char> {
    id.filter(|c: char| !is_unsafe_in_name(c))
}

/// The segment `..`.
pub open spec fn parent_segment() -> Seq<char> {
    seq!['.', '.']
}

/// A segment that does not move: it is empty or `.`.
pub open spec fn is_skipped(segment: Seq<char>) -> bool {
    segment.len() == 0 || segment == seq!['.']
}

/// A segment that names something in the directory it stands in.
pub open spec fn is_plain(segment: Seq<char>) -> bool {
    &&& !is_skipped(segment)
    &&& segment != parent_segment()
    &&& !segment.contains('/')
}

/// The segments that move, in order.
pub open spec fn moving(segments: Seq<Seq<char>>) -> Seq<Seq<char>> {
    segments.filter(|segment: Seq<char>| !is_skipped(segment))
}

/// Whether `id` can name a directory as it stands.
pub open spec fn is_directory_name(id: Seq<char>) -> bool {
    is_plain(id) && !id.contains('\\') && !id.contains('\0')
}

/// The codes of an identifier's characters in decimal, behind the word `id`.
pub open spec fn code_parts(id: Seq<char>) -> Seq<Seq<char>> {
    seq![seq!['i', 'd']] + id.map_values(|c: char| decimal(c as u32 as nat))
}

/// The directory name that spells an identifier by the codes of its characters,
/// such as `id-97-47-98` for `a/b`.
pub open spec fn spelled(id: Seq<char>) -> Seq<char> {
    join(code_parts(id), '-')
}

/// The directory of an application's own: the one that its identifier names, or
/// one below `_` that spells the identifier where it cannot name a directory.
pub open spec fn home_segments(id: Seq<char>) -> Seq<Seq<char>> {
    if is_directory_name(id) {
        seq![id]
    } else {
        seq![seq!['_'], spelled(id)]
    }
}

/// Whether `id`, once sanitized, can name a directory.
pub open spec fn names_directory(id: Seq<char>) -> bool {
    sanitized(id).len() > 0 && sanitized(id) != seq!['.'] && sanitized(id) != parent_segment()
}

/// The path `tail`, which does not begin with `/`, taken from the directory `base`.
pub open spec fn joined_path(base: Seq<char>, tail: Seq<char>) -> Seq<char> {
    if base.len() == 0 {
        tail
    } else if base.last() == '/' {
        base + tail
    } else {
        base.push('/') + tail
    }
}

/// A joined text begins as its first part does and holds no character that is
/// neither the separator nor in a part.
proof fn lemma_join_chars(parts: Seq<Seq<char>>, sep: char, c: char)
    requires
        parts.len() >= 1,
        parts[0].len() >= 1,
        c != sep,
        forall|i: int| 0 <= i < parts.len() ==> !#[trigger] parts[i].contains(c),
    ensures
        join(parts, sep).len() >= parts[0].len(),
        join(parts, sep)[0] == parts[0][0],
        !join(parts, sep).contains(c),
    decreases parts.len(),
{
    if parts.len() > 1 {
        let front = parts.drop_last();
        assert forall|i: int| 0 <= i < front.len() implies !#[trigger] front[i].contains(c) by {
            assert(front[i] == parts[i]);
        }
        lemma_join_chars(front, sep, c);
        let head = join(front, sep);
        let whole = join(parts, sep);
        assert(whole == head.push(sep) + parts.last());
        assert(!parts[parts.len() - 1].contains(c));
        assert forall|k: int| 0 <= k < whole.len() implies whole[k] != c by {
            if k < head.len() {
                assert(whole[k] == head[k]);
            } else if k > head.len() {
                assert(whole[k] == parts.last()[k - head.len() - 1]);
            }
        }
    } else {
        assert(parts[0] == join(parts, sep));
    }
}

/// No part of an identifier's codes holds a character that is neither a digit
/// nor in the word `id`.
proof fn lemma_code_parts(id: Seq<char>, c: char)
    requires
        !is_digit(c),
        c != 'i' && c != 'd',
    ensures
        forall|i: int|
            0 <= i < code_parts(id).len() ==> !#[trigger] code_parts(id)[i].contains(c),
{
    assert forall|i: int| 0 <= i < code_parts(id).len() implies !#[trigger] code_parts(
        id,
    )[i].contains(c) by {
        let part = code_parts(id)[i];
        if i > 0 {
            let n = id[i - 1] as u32 as nat;
            lemma_decimal_digits(n);
            assert(part == decimal(n));
            assert forall|k: int| 0 <= k < part.len() implies part[k] != c by {
                assert(is_digit(decimal(n)[k]));
            }
        }
    }
}

/// Every segment of an application's directory names something in the directory
/// before it.
pub proof fn lemma_home_plain(id: Seq<char>)
    ensures
        1 <= home_segments(id).len() <= 2,
        forall|i: int| 0 <= i < home_segments(id).len() ==> is_plain(#[trigger] home_segments(id)[i]),
        home_segments(id).len() == 2 ==> home_segments(id)[1][0] == 'i',
{
    if !is_directory_name(id) {
        lemma_code_parts(id, '/');
        lemma_join_chars(code_parts(id), '-', '/');
        let name = spelled(id);
        assert(name.len() >= 2 && name[0] == 'i');
        assert(name != parent_segment());
        let under = seq!['_'];
        assert(under[0] == '_' && under.len() == 1 && !under.contains('/'));
    }
}

/// Different characters have different codes.
proof fn lemma_codes_differ(a: char, b: char)
    requires
        a as u32 == b as u32,
    ensures
        a == b,
{
}

/// Different identifiers are spelled differently.
pub proof fn law_spelling_tells_the_identifier(a: Seq<char>, b: Seq<char>)
    requires
        spelled(a) == spelled(b),
    ensures
        a == b,
{
    lemma_code_parts(a, '-');
    lemma_code_parts(b, '-');
    law_split_join(code_parts(a), '-');
    law_split_join(code_parts(b), '-');
    let x = code_parts(a);
    let y = code_parts(b);
    assert(x == y);
    assert(x.len() == a.len() + 1 && y.len() == b.len() + 1);
    assert forall|i: int| 0 <= i < a.len() implies a[i] == b[i] by {
        assert(x[i + 1] == decimal(a[i] as u32 as nat));
        assert(y[i + 1] == decimal(b[i] as u32 as nat));
        law_decimal_injective(a[i] as u32 as nat, b[i] as u32 as nat);
        lemma_codes_differ(a[i], b[i]);
    }
    assert(a =~= b);
}

/// Applications have directories of their own: what lies in `kind` in the
/// directory of one identifier lies in that of no other.
pub proof fn law_homes_are_apart(
    a: Seq<char>,
    b: Seq<char>,
    kind: Seq<char>,
    tail: Seq<Seq<char>>,
    other_tail: Seq<Seq<char>>,
)
    requires
        kind.len() > 0,
        kind[0] != 'i',
        home_segments(a).push(kind) + tail == home_segments(b).push(kind) + other_tail,
    ensures
        a == b,
        tail == other_tail,
{
    let x = home_segments(a);
    let y = home_segments(b);
    let left = x.push(kind) + tail;
    let right = y.push(kind) + other_tail;
    lemma_home_plain(a);
    lemma_home_plain(b);
    assert(left[0] == x[0] && right[0] == y[0]);
    assert(left[1] == (if x.len() == 1 {
        kind
    } else {
        x[1]
    }));
    assert(right[1] == (if y.len() == 1 {
        kind
    } else {
        y[1]
    }));
    assert(x.len() == y.len());
    if x.len() == 2 {
        law_spelling_tells_the_identifier(a, b);
    }
    assert(left.skip(x.len() as int + 1) =~= tail);
    assert(right.skip(y.len() as int + 1) =~= other_tail);
}

/// A moving segment of a split path is plain unless it is `..`.
pub proof fn lemma_moving_segments(path: Seq<char>)
    ensures
        forall|i: int|
            #![trigger moving(split(path, '/'))[i]]
            0 <= i < moving(split(path, '/')).len() ==> {
                &&& !moving(split(path, '/'))[i].contains('/')
                &&& !is_skipped(moving(split(path, '/'))[i])
            },
{
    lemma_split_parts(path, '/');
    lemma_filtered_members(split(path, '/'));
    assert forall|i: int|
        #![trigger moving(split(path, '/'))[i]]
        0 <= i < moving(split(path, '/')).len() implies {
        &&& !moving(split(path, '/'))[i].contains('/')
        &&& !is_skipped(moving(split(path, '/'))[i])
    } by {
        let segment = moving(split(path, '/'))[i];
        assert(split(path, '/').contains(segment));
        let k = choose|k: int|
            0 <= k < split(path, '/').len() && split(path, '/')[k] == segment;
        assert(!split(path, '/')[k].contains('/'));
    }
}

pub proof fn lemma_filtered_members(segments: Seq<Seq<char>>)
    ensures
        forall|i: int|
            #![trigger moving(segments)[i]]
            0 <= i < moving(segments).len() ==> segments.contains(moving(segments)[i])
                && !is_skipped(moving(segments)[i]),
    decreases segments.len(),
{
    reveal(Seq::filter);
    if segments.len() > 0 {
        let front = segments.drop_last();
        lemma_filtered_members(front);
        assert forall|i: int|
            #![trigger moving(segments)[i]]
            0 <= i < moving(segments).len() implies segments.contains(moving(segments)[i])
            && !is_skipped(moving(segments)[i]) by {
            if i < moving(front).len() {
                let segment = moving(front)[i];
                assert(moving(segments)[i] == segment);
                assert(front.contains(segment));
                let k = choose|k: int| 0 <= k < front.len() && front[k] == segment;
                assert(segments[k] == segment);
            } else {
                assert(segments[segments.len() - 1] == segments.last());
            }
        }
    }
}

/// Segments that all move are kept as they are.
pub proof fn lemma_moving_identity(segments: Seq<Seq<char>>)
    requires
        forall|i: int| 0 <= i < segments.len() ==> !is_skipped(#[trigger] segments[i]),
    ensures
        moving(segments) == segments,
    decreases segments.len(),
{
    reveal(Seq::filter);
    if segments.len() > 0 {
        let front = segments.drop_last();
        assert forall|i: int| 0 <= i < front.len() implies !is_skipped(#[trigger] front[i]) by {
            assert(front[i] == segments[i]);
        }
        lemma_moving_identity(front);
        assert(!is_skipped(segments[segments.len() - 1]));
        assert(front.push(segments.last()) =~= segments);
    }
}

/// A path below a directory tells its segments: paths of plain segments that are
/// the same have the same segments.
pub proof fn law_paths_tell_their_segments(
    base: Seq<char>,
    a: Seq<Seq<char>>,
    b: Seq<Seq<char>>,
)
    requires
        a.len() > 0,
        b.len() > 0,
        forall|i: int| 0 <= i < a.len() ==> is_plain(#[trigger] a[i]),
        forall|i: int| 0 <= i < b.len() ==> is_plain(#[trigger] b[i]),
        joined_path(base, join(a, '/')) == joined_path(base, join(b, '/')),
    ensures
        a == b,
{
    let head = if base.len() == 0 || base.last() == '/' {
        base
    } else {
        base.push('/')
    };
    let x = join(a, '/');
    let y = join(b, '/');
    assert(joined_path(base, x) =~= head + x);
    assert(joined_path(base, y) =~= head + y);
    assert((head + x).skip(head.len() as int) =~= x);
    assert((head + y).skip(head.len() as int) =~= y);
    assert forall|i: int| 0 <= i < a.len() implies !#[trigger] a[i].contains('/') by {
        assert(is_plain(a[i]));
    }
    assert forall|i: int| 0 <= i < b.len() implies !#[trigger] b[i].contains('/') by {
        assert(is_plain(b[i]));
    }
    law_split_join(a, '/');
    law_split_join(b, '/');
}

/// Whether `segment` is empty or `.`.
pub fn segment_is_skipped(segment: &Vec<char>) -> (skipped: bool)
    ensures
        skipped == is_skipped(segment@),
{
    if segment.len() == 0 {
        true
    } else if segment.len() == 1 && segment[0] == '.' {
        assert(segment@ =~= seq!['.']);
        true
    } else {
        proof {
            if segment@ == seq!['.'] {
                assert(segment@.len() == 1 && segment@[0] == '.');
            }
        }
        false
    }
}

/// Whether `segment` is `..`.
pub fn segment_is_parent(segment: &Vec<char>) -> (parent: bool)
    ensures
        parent == (segment@ == parent_segment()),
{
    if segment.len() == 2 && segment[0] == '.' && segment[1] == '.' {
        assert(segment@ =~= parent_segment());
        true
    } else {
        proof {
            if segment@ == parent_segment() {
                assert(segment@.len() == 2 && segment@[0] == '.' && segment@[1] == '.');
            }
        }
        false
    }
}

/// The segments that move, in order.
pub fn moving_segments(segments: Vec<Vec<char>>) -> (kept: Vec<Vec<char>>)
    ensures
        texts(kept@) == moving(texts(segments@)),
{
    let mut kept: Vec<Vec<char>> = Vec::new();
    let mut i: usize = 0;
    reveal(Seq::filter);
    assert(texts(segments@).take(0) =~= Seq::empty());
    assert(texts(kept@) =~= moving(texts(segments@).take(0)));
    while i < segments.len()
        invariant
            i <= segments.len(),
            texts(kept@) == moving(texts(segments@).take(i as int)),
        decreases segments.len() - i,
    {
        let ghost all = texts(segments@);
        let ghost before = texts(kept@);
        reveal(Seq::filter);
        assert(all.take(i + 1).drop_last() =~= all.take(i as int));
        assert(all.take(i + 1).last() == segments@[i as int]@);
        if !segment_is_skipped(&segments[i]) {
            let copy = segments[i].clone();
            assert(copy@ =~= segments@[i as int]@);
            kept.push(copy);
            assert(texts(kept@) =~= before.push(segments@[i as int]@));
        }
        i += 1;
    }
    assert(texts(segments@).take(i as int) =~= texts(segments@));
    kept
}

/// Whether one of `segments` is `..`.
pub fn has_parent_segment(segments: &Vec<Vec<char>>) -> (found: bool)
    ensures
        found == texts(segments@).contains(parent_segment()),
{
    let mut i: usize = 0;
    while i < segments.len()
        invariant
            i <= segments.len(),
            forall|k: int| 0 <= k < i ==> #[trigger] segments@[k]@ != parent_segment(),
        decreases segments.len() - i,
    {
        if segment_is_parent(&segments[i]) {
            assert(texts(segments@)[i as int] == parent_segment());
            return true;
        }
        i += 1;
    }
    proof {
        if texts(segments@).contains(parent_segment()) {
            let k = choose|k: int|
                0 <= k < texts(segments@).len() && texts(segments@)[k] == parent_segment();
            assert(segments@[k]@ == parent_segment());
        }
    }
    false
}

/// An identifier without the characters that no directory name may hold.
pub fn sanitize(id: &str) -> (name: Vec<char>)
    ensures
        name@ == sanitized(id@),
{
    let chars = chars_of(id);
    let mut name: Vec<char> = Vec::new();
    let mut i: usize = 0;
    reveal(Seq::filter);
    assert(chars@.take(0) =~= Seq::empty());
    assert(name@ =~= sanitized(chars@.take(0)));
    while i < chars.len()
        invariant
            i <= chars.len(),
            name@ == sanitized(chars@.take(i as int)),
        decreases chars.len() - i,
    {
        let c = chars[i];
        reveal(Seq::filter);
        assert(chars@.take(i + 1).drop_last() =~= chars@.take(i as int));
        if !(c == '/' || c == '\\' || c == '\0') {
            name.push(c);
        }
        i += 1;
    }
    assert(chars@.take(i as int) =~= chars@);
    name
}

/// The segments of an application's own directory.
pub fn home_of(id: &str) -> (segments: Vec<Vec<char>>)
    ensures
        texts(segments@) == home_segments(id@),
{
    let chars = chars_of(id);
    let mut usable = !segment_is_skipped(&chars) && !segment_is_parent(&chars);
    let mut parts: Vec<Vec<char>> = Vec::new();
    let mut word: Vec<char> = Vec::new();
    word.push('i');
    word.push('d');
    assert(word@ =~= seq!['i', 'd']);
    parts.push(word);
    assert(texts(parts@) =~= code_parts(id@).take(1));
    let mut i: usize = 0;
    while i < chars.len()
        invariant
            i <= chars.len(),
            chars@ == id@,
            texts(parts@) == code_parts(id@).take(i + 1),
            usable == (!is_skipped(id@) && id@ != parent_segment() && (forall|k: int|
                0 <= k < i ==> !is_unsafe_in_name(#[trigger] id@[k]))),
        decreases chars.len() - i,
    {
        let c = chars[i];
        if c == '/' || c == '\\' || c == '\0' {
            assert(is_unsafe_in_name(id@[i as int]));
            usable = false;
        }
        let ghost before = texts(parts@);
        let code: u32 = c as u32;
        parts.push(decimal_chars(code));
        assert(texts(parts@) =~= before.push(decimal(c as u32 as nat)));
        assert(code_parts(id@)[i + 1] == decimal(c as u32 as nat));
        assert(code_parts(id@).take(i + 2) =~= code_parts(id@).take(i + 1).push(decimal(c as u32 as nat)));
        i += 1;
    }
    assert(code_parts(id@).take(i + 1) =~= code_parts(id@));
    let mut segments: Vec<Vec<char>> = Vec::new();
    if usable {
        assert forall|c: char| is_unsafe_in_name(c) implies !id@.contains(c) by {
            if id@.contains(c) {
                let k = choose|k: int| 0 <= k < id@.len() && id@[k] == c;
                assert(!is_unsafe_in_name(id@[k]));
            }
        }
        assert(!id@.contains('/') && !id@.contains('\\') && !id@.contains('\0'));
        segments.push(chars);
    } else {
        proof {
            if is_directory_name(id@) {
                let k = choose|k: int| 0 <= k < id@.len() && is_unsafe_in_name(#[trigger] id@[k]);
                assert(id@.contains(id@[k]));
            }
        }
        let mut under: Vec<char> = Vec::new();
        under.push('_');
        assert(under@ =~= seq!['_']);
        segments.push(under);
        segments.push(join_with(&parts, '-'));
    }
    assert(texts(segments@) =~= home_segments(id@));
    segments
}

/// The path `tail` taken from the directory `base`.
pub fn join_path(base: &Vec<char>, tail: &Vec<char>) -> (path: Vec<char>)
    ensures
        path@ == joined_path(base@, tail@),
{
    let mut path: Vec<char> = base.clone();
    assert(path@ =~= base@);
    if base.len() > 0 && base[base.len() - 1] != '/' {
        path.push('/');
    }
    append_chars(&mut path, tail);
    assert(path@ =~= joined_path(base@, tail@));
    path
}

/// The segments that move in two paths, one behind the other, are those of the one and
/// then those of the other.
pub proof fn law_segments_move_path_by_path(a: Seq<char>, b: Seq<char>)
    ensures
        moving(split(a.push('/') + b, '/')) == moving(split(a, '/')) + moving(split(b, '/')),
{
    law_splitting_goes_part_by_part(a, b, '/');
    Seq::filter_distributes_over_add(
        split(a, '/'),
        split(b, '/'),
        |segment: Seq<char>| !is_skipped(segment),
    );
}

/// A text without a slash is one segment, which moves unless it is empty or `.`.
pub proof fn law_one_segment_moves(segment: Seq<char>)
    requires
        !segment.contains('/'),
    ensures
        split(segment, '/') == seq![segment],
        segment.len() > 0 && segment != seq!['.'] ==> moving(split(segment, '/')) == seq![segment],
        segment.len() == 0 || segment == seq!['.'] ==> moving(split(segment, '/')).len() == 0,
{
    let one = seq![segment];
    law_split_join(one, '/');
    reveal(Seq::filter);
    assert(one.drop_last() =~= Seq::empty());
    assert(moving(one.drop_last()) =~= Seq::empty());
    assert(one.last() == segment);
    assert(moving(one) =~= if is_skipped(segment) {
        Seq::empty()
    } else {
        one
    });
}

/// Leading slashes do not matter to the segments that move.
pub proof fn lemma_leading_slashes_do_not_move(path: Seq<char>)
    ensures
        moving(split(trim_start(path, '/'), '/')) == moving(split(path, '/')),
    decreases path.len(),
{
    if path.len() > 0 && path[0] == '/' {
        let rest = path.drop_first();
        lemma_leading_slashes_do_not_move(rest);
        let none = Seq::<char>::empty();
        assert(path =~= none.push('/') + rest);
        law_segments_move_path_by_path(none, rest);
        law_one_segment_moves(none);
        assert(moving(split(none, '/')) + moving(split(rest, '/')) =~= moving(split(rest, '/')));
    }
}

/// The directory of an application is the one of its own name, wherever the name can
/// name a directory: it is not empty, `.` or `..` and holds no slash, backslash or zero
/// character.
pub proof fn law_names_are_kept_as_directories(id: Seq<char>)
    requires
        id.len() > 0,
        id != seq!['.'],
        id != seq!['.', '.'],
        forall|k: int|
            #![trigger id[k]]
            0 <= k < id.len() ==> id[k] != '/' && id[k] != '\\' && id[k] != '\0',
    ensures
        home_segments(id) == seq![id],
        names_directory(id),
{
    lemma_sanitized_keeps(id);
}

proof fn lemma_sanitized_keeps(id: Seq<char>)
    requires
        forall|k: int|
            #![trigger id[k]]
            0 <= k < id.len() ==> id[k] != '/' && id[k] != '\\' && id[k] != '\0',
    ensures
        sanitized(id) == id,
    decreases id.len(),
{
    reveal(Seq::filter);
    if id.len() > 0 {
        let front = id.drop_last();
        assert forall|k: int|
            #![trigger front[k]]
            0 <= k < front.len() implies front[k] != '/' && front[k] != '\\' && front[k] != '\0' by {
            assert(front[k] == id[k]);
        }
        lemma_sanitized_keeps(front);
        assert(id[id.len() - 1] == id.last());
        assert(front.push(id.last()) =~= id);
    } else {
        assert(sanitized(id) =~= id);
    }
}

/// An identifier can have files unless nothing of it is left, or only `.` or `..`,
/// once slashes, backslashes and zero characters are taken out: one that holds any
/// other character than those and a dot can.
pub proof fn law_identifiers_with_characters_can_have_files(id: Seq<char>, k: int)
    requires
        0 <= k < id.len(),
        id[k] != '/' && id[k] != '\\' && id[k] != '\0' && id[k] != '.',
    ensures
        names_directory(id),
{
    broadcast use vstd::seq_lib::group_filter_ensures;

    let kept = sanitized(id);
    let keep = |c: char| !is_unsafe_in_name(c);
    id.lemma_filter_contains(keep, k);
    assert(kept.contains(id[k]));
    let m = choose|m: int| 0 <= m < kept.len() && kept[m] == id[k];
    assert(kept[m] != '.');
    assert(seq!['.'].len() == 1 && seq!['.'][0] == '.');
    assert(parent_segment().len() == 2 && parent_segment()[0] == '.' && parent_segment()[1] == '.');
}

/// A path below a directory is the directory, one slash and the rest.
pub proof fn law_joined_paths_have_one_slash(base: Seq<char>, tail: Seq<char>)
    ensures
        base.len() > 0 && base.last() != '/' ==> joined_path(base, tail) == base + seq!['/'] + tail,
        base.len() == 0 || base.last() == '/' ==> joined_path(base, tail) == base + tail,
{
    assert(base.push('/') =~= base + seq!['/']);
    assert(Seq::<char>::empty() + tail =~= tail);
    if base.len() == 0 {
        assert(base + tail =~= tail);
    }
}

} // verus!
