//! Characters and strings: splitting and joining.

use vstd::prelude::*;

verus! {

/// `String::push` appends the given character to the end of the string.
pub assume_specification[ std::string::String::push ](s: &mut std::string::String, c: char)
    ensures
        final(s)@ == old(s)@.push(c),
;

/// The text `s` without its leading `c`s.
pub open spec fn trim_start(s: Seq<char>, c: char) -> Seq<char>
    decreases s.len(),
{
    if s.len() > 0 && s[0] == c {
        trim_start(s.drop_first(), c)
    } else {
        s
    }
}

/// The parts of `s` between occurrences of `sep`. There is one part more than
/// there are separators, so the empty text has one empty part.
pub open spec fn split(s: Seq<char>, sep: char) -> Seq<Seq<char>>
    decreases s.len(),
{
    if s.len() == 0 {
        seq![Seq::empty()]
    } else {
        let parts = split(s.drop_last(), sep);
        if s.last() == sep {
            parts.push(Seq::empty())
        } else {
            parts.drop_last().push(parts.last().push(s.last()))
        }
    }
}

/// The texts `parts`, in order, with `sep` between neighbours.
pub open spec fn join(parts: Seq<Seq<char>>, sep: char) -> Seq<char>
    decreases parts.len(),
{
    if parts.len() == 0 {
        Seq::empty()
    } else if parts.len() == 1 {
        parts[0]
    } else {
        join(parts.drop_last(), sep).push(sep) + parts.last()
    }
}

/// Whether `a` stands before `b` in the order of their characters, as in a
/// dictionary.
pub open spec fn text_precedes(a: Seq<char>, b: Seq<char>) -> bool
    decreases a.len(),
{
    if b.len() == 0 {
        false
    } else if a.len() == 0 {
        true
    } else if a[0] != b[0] {
        a[0] < b[0]
    } else {
        text_precedes(a.drop_first(), b.drop_first())
    }
}

/// Of two texts exactly one stands before the other, unless they are the same.
pub proof fn law_texts_are_ordered(a: Seq<char>, b: Seq<char>)
    ensures
        a == b ==> !text_precedes(a, b),
        a != b ==> text_precedes(a, b) != text_precedes(b, a),
    decreases a.len(),
{
    if a.len() == 0 || b.len() == 0 {
        if a.len() == b.len() {
            assert(a =~= b);
        }
    } else {
        let x = a.drop_first();
        let y = b.drop_first();
        law_texts_are_ordered(x, y);
        if a[0] == b[0] && x == y {
            assert(a =~= seq![a[0]] + x);
            assert(b =~= seq![b[0]] + y);
        }
    }
}

/// The order of texts is transitive.
pub proof fn law_text_order_is_transitive(a: Seq<char>, b: Seq<char>, c: Seq<char>)
    requires
        text_precedes(a, b),
        text_precedes(b, c),
    ensures
        text_precedes(a, c),
    decreases a.len(),
{
    if a.len() > 0 && a[0] == b[0] && b[0] == c[0] {
        law_text_order_is_transitive(a.drop_first(), b.drop_first(), c.drop_first());
    }
}

/// Splitting always leaves at least one part.
pub proof fn lemma_split_nonempty(s: Seq<char>, sep: char)
    ensures
        split(s, sep).len() >= 1,
    decreases s.len(),
{
    if s.len() > 0 {
        lemma_split_nonempty(s.drop_last(), sep);
    }
}

/// No part contains the separator that it was split at.
pub proof fn lemma_split_parts(s: Seq<char>, sep: char)
    ensures
        split(s, sep).len() >= 1,
        forall|i: int| 0 <= i < split(s, sep).len() ==> !#[trigger] split(s, sep)[i].contains(sep),
    decreases s.len(),
{
    if s.len() > 0 {
        lemma_split_parts(s.drop_last(), sep);
        let parts = split(s.drop_last(), sep);
        assert forall|i: int| 0 <= i < split(s, sep).len() implies !#[trigger] split(
            s,
            sep,
        )[i].contains(sep) by {
            if i < parts.len() - 1 {
                assert(split(s, sep)[i] == parts[i]);
            } else if s.last() == sep && i == parts.len() - 1 {
                assert(split(s, sep)[i] == parts[i]);
            } else if s.last() != sep {
                assert(split(s, sep)[i] == parts.last().push(s.last()));
                assert(!parts[parts.len() - 1].contains(sep));
                if split(s, sep)[i].contains(sep) {
                    let k = choose|k: int|
                        0 <= k < split(s, sep)[i].len() && split(s, sep)[i][k] == sep;
                    if k < parts.last().len() {
                        assert(parts.last()[k] == sep);
                    }
                }
            }
        }
    }
}

/// Joining the parts of a text at the separator it was split at gives the
/// text back.
pub proof fn law_join_split(s: Seq<char>, sep: char)
    ensures
        join(split(s, sep), sep) == s,
    decreases s.len(),
{
    if s.len() > 0 {
        let t = s.drop_last();
        let parts = split(t, sep);
        law_join_split(t, sep);
        lemma_split_nonempty(t, sep);
        if s.last() == sep {
            let all = parts.push(Seq::empty());
            assert(all.drop_last() == parts);
            assert(join(all, sep) == join(parts, sep).push(sep) + all.last());
            assert(t.push(sep) + Seq::<char>::empty() =~= s);
        } else {
            let all = parts.drop_last().push(parts.last().push(s.last()));
            assert(all.drop_last() =~= parts.drop_last());
            if parts.len() == 1 {
                assert(parts[0].push(s.last()) =~= s);
            } else {
                assert(join(all, sep) =~= join(parts, sep).push(s.last()));
            }
            assert(t.push(s.last()) =~= s);
        }
    }
}

/// Appending characters other than `sep` extends the last part of a split.
proof fn lemma_split_extend(s: Seq<char>, part: Seq<char>, sep: char)
    requires
        !part.contains(sep),
    ensures
        split(s + part, sep) == split(s, sep).drop_last().push(split(s, sep).last() + part),
    decreases part.len(),
{
    lemma_split_nonempty(s, sep);
    if part.len() == 0 {
        assert(s + part =~= s);
        assert(split(s, sep).last() + part =~= split(s, sep).last());
        assert(split(s, sep).drop_last().push(split(s, sep).last()) =~= split(s, sep));
    } else {
        let front = part.drop_last();
        assert forall|c: char| front.contains(c) implies part.contains(c) by {
            let k = choose|k: int| 0 <= k < front.len() && front[k] == c;
            assert(part[k] == c);
        }
        lemma_split_extend(s, front, sep);
        assert((s + part).drop_last() =~= s + front);
        assert(part[part.len() - 1] != sep);
        let parts = split(s + front, sep);
        assert(parts.drop_last() =~= split(s, sep).drop_last());
        assert(parts.last().push(part.last()) =~= split(s, sep).last() + part);
    }
}

/// Splitting a joined text at its separator gives the parts back, as long as
/// there is a part and no part contains the separator.
pub proof fn law_split_join(parts: Seq<Seq<char>>, sep: char)
    requires
        parts.len() >= 1,
        forall|i: int| 0 <= i < parts.len() ==> !#[trigger] parts[i].contains(sep),
    ensures
        split(join(parts, sep), sep) == parts,
    decreases parts.len(),
{
    let last = parts.last();
    assert(!parts[parts.len() - 1].contains(sep));
    if parts.len() == 1 {
        lemma_split_extend(Seq::empty(), parts[0], sep);
        assert(Seq::<char>::empty() + parts[0] =~= parts[0]);
        assert(split(parts[0], sep) =~= parts);
    } else {
        let front = parts.drop_last();
        assert forall|i: int| 0 <= i < front.len() implies !#[trigger] front[i].contains(sep) by {
            assert(front[i] == parts[i]);
        }
        law_split_join(front, sep);
        let head = join(front, sep).push(sep);
        assert(head.drop_last() =~= join(front, sep));
        assert(split(head, sep) =~= front.push(Seq::empty()));
        lemma_split_extend(head, last, sep);
        assert(split(head, sep).drop_last() =~= front);
        assert(split(head, sep).last() + last =~= last);
        assert(front.push(last) =~= parts);
    }
}

/// The characters of a string, in order.
pub fn chars_of(s: &str) -> (chars: Vec<char>)
    ensures
        chars@ == s@,
{
    let mut out: Vec<char> = Vec::new();
    for c in it: s.chars()
        invariant
            out@ == it.seq().take(it.index()),
            it.seq() == s@,
    {
        out.push(c);
    }
    out
}

/// The string made of `chars`.
pub fn string_of(chars: &Vec<char>) -> (s: String)
    ensures
        s@ == chars@,
{
    let mut out: String = String::new();
    let mut i: usize = 0;
    while i < chars.len()
        invariant
            i <= chars.len(),
            out@ == chars@.take(i as int),
        decreases chars.len() - i,
    {
        out.push(chars[i]);
        i += 1;
    }
    out
}

/// The text `a` followed by the text `b`.
pub fn concatenated(a: &str, b: &str) -> (s: String)
    ensures
        s@ == a@ + b@,
{
    let mut out: String = a.to_owned();
    for c in it: b.chars()
        invariant
            out@ == a@ + it.seq().take(it.index()),
            it.seq() == b@,
    {
        out.push(c);
    }
    assert(b@.take(b@.len() as int) =~= b@);
    out
}

/// Whether `a` and `b` hold the same characters.
pub fn same_chars(a: &Vec<char>, b: &Vec<char>) -> (same: bool)
    ensures
        same == (a@ == b@),
{
    if a.len() != b.len() {
        return false;
    }
    let mut i: usize = 0;
    while i < a.len()
        invariant
            i <= a.len() == b.len(),
            a@.take(i as int) == b@.take(i as int),
        decreases a.len() - i,
    {
        if a[i] != b[i] {
            return false;
        }
        i += 1;
        assert(a@.take(i as int) =~= a@.take(i - 1).push(a@[i - 1]));
        assert(b@.take(i as int) =~= b@.take(i - 1).push(b@[i - 1]));
    }
    assert(a@.take(i as int) =~= a@);
    assert(b@.take(i as int) =~= b@);
    true
}

/// Whether `a` stands before `b` in the order of their characters.
pub fn chars_precede(a: &Vec<char>, b: &Vec<char>) -> (found: bool)
    ensures
        found == text_precedes(a@, b@),
{
    let mut i: usize = 0;
    assert(a@.skip(0) =~= a@);
    assert(b@.skip(0) =~= b@);
    while i < a.len() && i < b.len() && a[i] == b[i]
        invariant
            i <= a.len(),
            i <= b.len(),
            text_precedes(a@, b@) == text_precedes(a@.skip(i as int), b@.skip(i as int)),
        decreases a.len() - i,
    {
        assert(a@.skip(i as int).drop_first() =~= a@.skip(i + 1));
        assert(b@.skip(i as int).drop_first() =~= b@.skip(i + 1));
        i += 1;
    }
    i < b.len() && (i == a.len() || a[i] < b[i])
}

/// Appends `tail` to `chars`.
pub fn append_chars(chars: &mut Vec<char>, tail: &Vec<char>)
    ensures
        final(chars)@ == old(chars)@ + tail@,
{
    let ghost before = chars@;
    let mut i: usize = 0;
    while i < tail.len()
        invariant
            i <= tail.len(),
            chars@ == before + tail@.take(i as int),
        decreases tail.len() - i,
    {
        chars.push(tail[i]);
        i += 1;
        assert(tail@.take(i as int) =~= tail@.take(i - 1).push(tail@[i - 1]));
    }
    assert(tail@.take(i as int) =~= tail@);
}

/// The views of a vector of texts.
pub open spec fn texts(parts: Seq<Vec<char>>) -> Seq<Seq<char>> {
    parts.map_values(|part: Vec<char>| part@)
}

/// `chars` without its leading `c`s.
pub fn without_leading(chars: &Vec<char>, c: char) -> (rest: Vec<char>)
    ensures
        rest@ == trim_start(chars@, c),
{
    let mut start: usize = 0;
    assert(chars@.skip(0) =~= chars@);
    while start < chars.len() && chars[start] == c
        invariant
            start <= chars.len(),
            trim_start(chars@, c) == trim_start(chars@.skip(start as int), c),
        decreases chars.len() - start,
    {
        assert(chars@.skip(start as int).drop_first() =~= chars@.skip(start + 1));
        start += 1;
    }
    let mut rest: Vec<char> = Vec::new();
    let mut i: usize = start;
    while i < chars.len()
        invariant
            start <= i <= chars.len(),
            rest@ == chars@.subrange(start as int, i as int),
        decreases chars.len() - i,
    {
        rest.push(chars[i]);
        i += 1;
    }
    assert(rest@ =~= chars@.skip(start as int));
    rest
}

/// The parts of `chars` between occurrences of `sep`.
pub fn split_at_each(chars: &Vec<char>, sep: char) -> (parts: Vec<Vec<char>>)
    ensures
        texts(parts@) == split(chars@, sep),
{
    let mut parts: Vec<Vec<char>> = Vec::new();
    let mut part: Vec<char> = Vec::new();
    let mut i: usize = 0;
    assert(chars@.take(0) =~= Seq::empty());
    assert(texts(parts@).push(part@) =~= split(chars@.take(0), sep));
    while i < chars.len()
        invariant
            i <= chars.len(),
            texts(parts@).push(part@) == split(chars@.take(i as int), sep),
        decreases chars.len() - i,
    {
        let c = chars[i];
        let ghost before = texts(parts@);
        let ghost so_far = chars@.take(i as int);
        assert(chars@.take(i + 1).drop_last() =~= so_far);
        assert(before.push(part@).drop_last() =~= before);
        if c == sep {
            let ghost done = part@;
            parts.push(part);
            part = Vec::new();
            assert(texts(parts@) =~= before.push(done));
        } else {
            part.push(c);
        }
        i += 1;
    }
    let ghost before = texts(parts@);
    let ghost done = part@;
    parts.push(part);
    assert(texts(parts@) =~= before.push(done));
    assert(chars@.take(i as int) =~= chars@);
    parts
}

/// The texts `parts`, in order, with `sep` between neighbours.
pub fn join_with(parts: &Vec<Vec<char>>, sep: char) -> (joined: Vec<char>)
    ensures
        joined@ == join(texts(parts@), sep),
{
    let mut joined: Vec<char> = Vec::new();
    let mut i: usize = 0;
    while i < parts.len()
        invariant
            i <= parts.len(),
            joined@ == join(texts(parts@).take(i as int), sep),
        decreases parts.len() - i,
    {
        let ghost all = texts(parts@);
        assert(all.take(i + 1).drop_last() =~= all.take(i as int));
        assert(all.take(i + 1).last() == parts@[i as int]@);
        if i > 0 {
            joined.push(sep);
        }
        append_chars(&mut joined, &parts[i]);
        proof {
            if i == 0 {
                assert(joined@ =~= all[0]);
            }
        }
        i += 1;
    }
    assert(texts(parts@).take(i as int) =~= texts(parts@));
    joined
}

/// How many of the characters of `s` are `sep`.
pub open spec fn occurrences(s: Seq<char>, sep: char) -> nat
    decreases s.len(),
{
    if s.len() == 0 {
        0
    } else {
        occurrences(s.drop_last(), sep) + (if s.last() == sep {
            1nat
        } else {
            0
        })
    }
}

proof fn lemma_occurrences_of_prefix(s: Seq<char>, sep: char, i: int, j: int)
    requires
        0 <= i <= j <= s.len(),
    ensures
        occurrences(s.take(i), sep) <= occurrences(s.take(j), sep),
        forall|k: int|
            #![trigger s[k]]
            i <= k < j && s[k] == sep ==> occurrences(s.take(i), sep) < occurrences(s.take(j), sep),
    decreases j - i,
{
    if i < j {
        lemma_occurrences_of_prefix(s, sep, i, j - 1);
        assert(s.take(j).drop_last() =~= s.take(j - 1));
        assert(s.take(j).last() == s[j - 1]);
    }
}

/// Splitting cuts a text at every separator and nowhere else: there is one part more
/// than separators, and what stands between two neighbouring separators, or between
/// one and an end of the text, is the part whose number is that of the separators
/// before it.
pub proof fn law_parts_stand_between_separators(s: Seq<char>, sep: char, i: int, j: int)
    requires
        0 <= i <= j <= s.len(),
        i == 0 || s[i - 1] == sep,
        j == s.len() || s[j] == sep,
        forall|k: int| i <= k < j ==> #[trigger] s[k] != sep,
    ensures
        split(s, sep).len() == occurrences(s, sep) + 1,
        split(s, sep)[occurrences(s.take(i), sep) as int] == s.subrange(i, j),
    decreases s.len(),
{
    let k = occurrences(s.take(i), sep) as int;
    if s.len() == 0 {
        assert(s.take(0) =~= s);
        assert(s.subrange(0, 0) =~= Seq::empty());
    } else {
        let t = s.drop_last();
        lemma_split_nonempty(t, sep);
        lemma_part_count(t, sep);
        lemma_part_count(s, sep);
        if j == s.len() {
            lemma_occurrences_within(s, sep, i, j);
            assert(s.take(j) =~= s);
            if i == s.len() {
                assert(split(s, sep).last() == Seq::<char>::empty());
                assert(s.subrange(i, j) =~= Seq::empty());
            } else {
                assert(t.take(i) =~= s.take(i));
                assert(s[s.len() - 1] != sep);
                law_parts_stand_between_separators(t, sep, i, j - 1);
                assert(k == split(t, sep).len() - 1) by {
                    lemma_occurrences_within(t, sep, i, j - 1);
                    assert(t.take(j - 1) =~= t);
                }
                assert(s.subrange(i, j) =~= t.subrange(i, j - 1).push(s.last()));
            }
        } else {
            assert(t.take(i) =~= s.take(i));
            if j == t.len() {
                law_parts_stand_between_separators(t, sep, i, j);
                assert(s.subrange(i, j) =~= t.subrange(i, j));
                lemma_occurrences_of_prefix(t, sep, i, j);
                assert(t.take(j) =~= t);
            } else {
                law_parts_stand_between_separators(t, sep, i, j);
                assert(s.subrange(i, j) =~= t.subrange(i, j));
                lemma_occurrences_of_prefix(t, sep, i, t.len() as int);
                assert(t[j] == sep);
                assert(t.take(t.len() as int) =~= t);
            }
        }
    }
}

proof fn lemma_part_count(s: Seq<char>, sep: char)
    ensures
        split(s, sep).len() == occurrences(s, sep) + 1,
    decreases s.len(),
{
    if s.len() > 0 {
        lemma_part_count(s.drop_last(), sep);
    }
}

proof fn lemma_occurrences_within(s: Seq<char>, sep: char, i: int, j: int)
    requires
        0 <= i <= j <= s.len(),
        forall|k: int| i <= k < j ==> #[trigger] s[k] != sep,
    ensures
        occurrences(s.take(i), sep) == occurrences(s.take(j), sep),
    decreases j - i,
{
    if i < j {
        lemma_occurrences_within(s, sep, i, j - 1);
        assert(s.take(j).drop_last() =~= s.take(j - 1));
        assert(s.take(j).last() == s[j - 1]);
    }
}

/// The separators before a place are fewer than the parts.
pub proof fn lemma_part_number(s: Seq<char>, sep: char, at: int)
    requires
        0 <= at <= s.len(),
    ensures
        occurrences(s.take(at), sep) < split(s, sep).len(),
{
    lemma_part_count(s, sep);
    lemma_occurrences_of_prefix(s, sep, at, s.len() as int);
    assert(s.take(s.len() as int) =~= s);
}

/// Whether `part` stands at `at`, between separators or at the ends of the text.
pub open spec fn stands_at(s: Seq<char>, sep: char, part: Seq<char>, at: int) -> bool {
    let end = at + part.len();
    &&& 0 <= at && end <= s.len()
    &&& s.subrange(at, end) == part
    &&& at == 0 || s[at - 1] == sep
    &&& end == s.len() || s[end] == sep
}

/// Every part of a text stands somewhere in it, between separators or at its ends,
/// and only the last one at its end.
pub proof fn law_parts_stand_in_the_text(s: Seq<char>, sep: char, n: int)
    requires
        0 <= n < split(s, sep).len(),
    ensures
        exists|at: int| #[trigger]
            stands_at(s, sep, split(s, sep)[n], at) && (n == split(s, sep).len() - 1) == (at
                + split(s, sep)[n].len() == s.len()),
    decreases s.len(),
{
    let part = split(s, sep)[n];
    if s.len() == 0 {
        assert(s.subrange(0, part.len() as int) =~= part);
        assert(stands_at(s, sep, part, 0));
    } else {
        let t = s.drop_last();
        lemma_split_nonempty(t, sep);
        let parts = split(t, sep);
        if n == parts.len() {
            let at = s.len() as int;
            assert(s.subrange(at, at + part.len()) =~= part);
            assert(stands_at(s, sep, part, at));
        } else {
            law_parts_stand_in_the_text(t, sep, n);
            let at = choose|at: int| #[trigger]
                stands_at(t, sep, parts[n], at) && (n == parts.len() - 1) == (at + parts[n].len()
                    == t.len());
            if n == parts.len() - 1 && s.last() != sep {
                assert(part == parts[n].push(s.last()));
            } else {
                assert(part == parts[n]);
            }
            assert(s.subrange(at, at + part.len()) =~= part);
            assert(stands_at(s, sep, part, at));
        }
    }
}

/// Leading characters are all taken off and nothing else: the text is so many of them
/// and then what is left, which does not begin with one.
pub proof fn law_trimming_takes_leading_characters(s: Seq<char>, c: char)
    ensures
        ({
            let rest = trim_start(s, c);
            let n = s.len() - rest.len();
            &&& 0 <= n
            &&& s.skip(n) == rest
            &&& forall|i: int| 0 <= i < n ==> #[trigger] s[i] == c
            &&& rest.len() > 0 ==> rest[0] != c
        }),
    decreases s.len(),
{
    let rest = trim_start(s, c);
    if s.len() > 0 && s[0] == c {
        law_trimming_takes_leading_characters(s.drop_first(), c);
        let n = s.len() - rest.len();
        assert(s.skip(n) =~= s.drop_first().skip(n - 1));
        assert forall|i: int| 0 <= i < n implies #[trigger] s[i] == c by {
            if i > 0 {
                assert(s.drop_first()[i - 1] == s[i]);
            }
        }
    } else {
        assert(s.skip(0) =~= s);
    }
}

/// A text stands before another exactly where it is the beginning of it, or has a
/// smaller character at the first place where the two differ.
pub proof fn law_texts_are_ordered_like_words(a: Seq<char>, b: Seq<char>, n: int)
    requires
        0 <= n <= a.len(),
        n <= b.len(),
        a.take(n) == b.take(n),
        n == a.len() || n == b.len() || a[n] != b[n],
    ensures
        text_precedes(a, b) == (n < b.len() && (n == a.len() || a[n] < b[n])),
    decreases n,
{
    if n > 0 {
        assert(a[0] == a.take(n)[0] && b[0] == b.take(n)[0]);
        assert(a.drop_first().take(n - 1) =~= a.take(n).drop_first());
        assert(b.drop_first().take(n - 1) =~= b.take(n).drop_first());
        law_texts_are_ordered_like_words(a.drop_first(), b.drop_first(), n - 1);
    }
}

/// The parts of two texts with a separator between them are the parts of the one and
/// then those of the other.
pub proof fn law_splitting_goes_part_by_part(a: Seq<char>, b: Seq<char>, sep: char)
    ensures
        split(a.push(sep) + b, sep) == split(a, sep) + split(b, sep),
    decreases b.len(),
{
    let whole = a.push(sep) + b;
    lemma_split_nonempty(a, sep);
    if b.len() == 0 {
        assert(whole =~= a.push(sep));
        assert(whole.drop_last() =~= a);
        assert(split(whole, sep) =~= split(a, sep) + split(b, sep));
    } else {
        let front = b.drop_last();
        law_splitting_goes_part_by_part(a, front, sep);
        lemma_split_nonempty(front, sep);
        assert(whole.drop_last() =~= a.push(sep) + front);
        assert(whole.last() == b.last());
        assert(split(whole, sep) =~= split(a, sep) + split(b, sep));
    }
}

/// Joining two lists of parts puts one separator between them.
pub proof fn lemma_join_behind(a: Seq<Seq<char>>, b: Seq<Seq<char>>)
    requires
        a.len() > 0,
        b.len() > 0,
    ensures
        join(a + b, '/') == join(a, '/').push('/') + join(b, '/'),
    decreases b.len(),
{
    assert((a + b).drop_last() =~= a + b.drop_last());
    if b.len() == 1 {
        assert(a + b.drop_last() =~= a);
    } else {
        lemma_join_behind(a, b.drop_last());
        assert(join(a + b, '/') =~= join(a, '/').push('/') + join(b, '/'));
    }
}

} // verus!
