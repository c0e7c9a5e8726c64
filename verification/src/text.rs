//! Searching, splitting, joining and ordering of character sequences.

use crate::order::Order;
use vstd::prelude::*;

verus! {

/// Appends one character to a string (`String::push` of the standard library).
pub assume_specification[ String::push ](s: &mut String, ch: char)
    ensures
        final(s)@ == old(s)@.push(ch),
;

/// Whether `pattern` stands in `text` at position `at`.
pub open spec fn occurs_at(text: Seq<char>, pattern: Seq<char>, at: int) -> bool {
    &&& 0 <= at
    &&& at + pattern.len() <= text.len()
    &&& text.subrange(at, at + pattern.len()) == pattern
}

/// The first position at or after `from` where `pattern` stands in `text`,
/// or `text.len()` when there is none.
pub open spec fn find_from(text: Seq<char>, pattern: Seq<char>, from: int) -> int
    decreases text.len() - from,
{
    if from < 0 || from >= text.len() || from + pattern.len() > text.len() {
        text.len() as int
    } else if occurs_at(text, pattern, from) {
        from
    } else {
        find_from(text, pattern, from + 1)
    }
}

/// The first position where `pattern` stands in `text`, or `text.len()`.
pub open spec fn find(text: Seq<char>, pattern: Seq<char>) -> int {
    find_from(text, pattern, 0)
}

/// Whether a non-empty `pattern` stands somewhere in `text`.
pub open spec fn contains(text: Seq<char>, pattern: Seq<char>) -> bool {
    find(text, pattern) < text.len()
}

/// The pieces of `text` between the occurrences of `sep`, taken from left to
/// right without overlap. There is always at least one piece.
pub open spec fn split(text: Seq<char>, sep: Seq<char>) -> Seq<Seq<char>>
    decreases text.len(),
{
    let k = find(text, sep);
    if sep.len() == 0 || k >= text.len() {
        seq![text]
    } else {
        proof {
            lemma_find_from(text, sep, 0);
        }
        seq![text.take(k)] + split(text.skip(k + sep.len()), sep)
    }
}

/// The pieces put together with `sep` between each two neighbours.
pub open spec fn join(parts: Seq<Seq<char>>, sep: Seq<char>) -> Seq<char>
    decreases parts.len(),
{
    if parts.len() == 0 {
        Seq::empty()
    } else if parts.len() == 1 {
        parts[0]
    } else {
        parts[0] + sep + join(parts.drop_first(), sep)
    }
}

/// `text` with every occurrence of `pattern` replaced by `with`.
pub open spec fn replace(text: Seq<char>, pattern: Seq<char>, with: Seq<char>) -> Seq<char> {
    join(split(text, pattern), with)
}

/// The part of `text` before the first occurrence of `pattern`; all of it
/// when there is none.
pub open spec fn before(text: Seq<char>, pattern: Seq<char>) -> Seq<char> {
    text.take(find(text, pattern))
}

/// The part of `text` after the first occurrence of `pattern`, if there is one.
pub open spec fn after(text: Seq<char>, pattern: Seq<char>) -> Option<Seq<char>> {
    if contains(text, pattern) {
        Some(text.skip(find(text, pattern) + pattern.len()))
    } else {
        None
    }
}

/// Whether `text` begins with `prefix`.
pub open spec fn starts_with(text: Seq<char>, prefix: Seq<char>) -> bool {
    occurs_at(text, prefix, 0)
}

/// The views of a sequence of character vectors.
pub open spec fn texts(parts: Seq<Vec<char>>) -> Seq<Seq<char>> {
    Seq::new(parts.len(), |i: int| parts[i]@)
}

/// The views of a sequence of strings.
pub open spec fn strings(parts: Seq<String>) -> Seq<Seq<char>> {
    Seq::new(parts.len(), |i: int| parts[i]@)
}

/// The order of two texts: by the first position where they differ, and a
/// proper prefix before the longer text. Characters go by their code.
pub open spec fn text_order(a: Seq<char>, b: Seq<char>) -> Order
    decreases a.len(),
{
    if a.len() == 0 && b.len() == 0 {
        Order::Equal
    } else if a.len() == 0 {
        Order::Less
    } else if b.len() == 0 {
        Order::Greater
    } else if a[0] != b[0] {
        if (a[0] as u32) < (b[0] as u32) {
            Order::Less
        } else {
            Order::Greater
        }
    } else {
        text_order(a.drop_first(), b.drop_first())
    }
}

/// What `find_from` returns: the first occurrence, nothing before it.
pub proof fn lemma_find_from(text: Seq<char>, pattern: Seq<char>, from: int)
    requires
        0 <= from <= text.len(),
    ensures
        from <= find_from(text, pattern, from) <= text.len(),
        forall|j: int| from <= j < find_from(text, pattern, from) ==> !occurs_at(text, pattern, j),
        find_from(text, pattern, from) < text.len() ==> occurs_at(
            text,
            pattern,
            find_from(text, pattern, from),
        ),
        find_from(text, pattern, from) == text.len() && pattern.len() > 0 ==> forall|j: int|
            from <= j ==> !occurs_at(text, pattern, j),
    decreases text.len() - from,
{
    if from >= text.len() || from + pattern.len() > text.len() {
    } else if occurs_at(text, pattern, from) {
    } else {
        lemma_find_from(text, pattern, from + 1);
    }
}

/// A position with an occurrence and none before it is what `find_from` returns.
pub proof fn lemma_find_from_is(text: Seq<char>, pattern: Seq<char>, from: int, at: int)
    requires
        0 <= from <= at,
        occurs_at(text, pattern, at),
        forall|j: int| from <= j < at ==> !occurs_at(text, pattern, j),
    ensures
        find_from(text, pattern, from) == at,
    decreases at - from,
{
    if from < at {
        lemma_find_from_is(text, pattern, from + 1, at);
    }
}

/// Without any occurrence at or after `from`, `find_from` returns the length.
pub proof fn lemma_find_from_none(text: Seq<char>, pattern: Seq<char>, from: int)
    requires
        0 <= from,
        pattern.len() > 0,
        forall|j: int| from <= j ==> !occurs_at(text, pattern, j),
    ensures
        find_from(text, pattern, from) == text.len(),
    decreases text.len() - from,
{
    if from < text.len() && from + pattern.len() <= text.len() {
        lemma_find_from_none(text, pattern, from + 1);
    }
}

/// Searching the rest of a text is searching the text from that position.
pub proof fn lemma_find_skip(text: Seq<char>, pattern: Seq<char>, start: int, from: int)
    requires
        0 <= start <= text.len(),
        0 <= from,
    ensures
        find_from(text.skip(start), pattern, from) + start == find_from(
            text,
            pattern,
            start + from,
        ),
    decreases text.len() - start - from,
{
    let rest = text.skip(start);
    if from >= rest.len() || from + pattern.len() > rest.len() {
    } else {
        assert(rest.subrange(from, from + pattern.len()) =~= text.subrange(
            start + from,
            start + from + pattern.len(),
        ));
        if occurs_at(rest, pattern, from) {
        } else {
            lemma_find_skip(text, pattern, start, from + 1);
        }
    }
}

/// Where a pattern stands, the text holds the pattern's characters.
pub proof fn lemma_occurs_at_char(text: Seq<char>, pattern: Seq<char>, at: int, k: int)
    requires
        occurs_at(text, pattern, at),
        0 <= k < pattern.len(),
    ensures
        text[at + k] == pattern[k],
{
    assert(text.subrange(at, at + pattern.len())[k] == text[at + k]);
}

/// Where nothing stands before a position, the search may start there.
pub proof fn lemma_find_past(text: Seq<char>, pattern: Seq<char>, start: int)
    requires
        0 <= start <= text.len(),
        forall|j: int| 0 <= j < start ==> !occurs_at(text, pattern, j),
    ensures
        find(text, pattern) == find_from(text, pattern, start),
    decreases start,
{
    if start > 0 {
        lemma_find_past(text, pattern, start - 1);
        if start - 1 + pattern.len() > text.len() {
            lemma_find_from(text, pattern, start);
            if find_from(text, pattern, start) < text.len() {
                assert(false);
            }
        }
    }
}

/// A text that holds the pattern is made of what stands before its first
/// occurrence, the pattern, and what stands after it.
pub proof fn lemma_cut(text: Seq<char>, pattern: Seq<char>)
    requires
        contains(text, pattern),
    ensures
        text == before(text, pattern) + pattern + after(text, pattern)->0,
{
    lemma_find_from(text, pattern, 0);
    let k = find(text, pattern);
    assert(text =~= text.take(k) + text.subrange(k, k + pattern.len()) + text.skip(
        k + pattern.len(),
    ));
}

/// A text that does not hold the pattern is all before the pattern.
pub proof fn lemma_cut_absent(text: Seq<char>, pattern: Seq<char>)
    requires
        !contains(text, pattern),
    ensures
        before(text, pattern) == text,
        after(text, pattern) is None,
{
    lemma_find_from(text, pattern, 0);
    assert(text.take(text.len() as int) =~= text);
}

/// In a text put together from two, the pattern stands inside the first
/// part where it stands in the first text.
pub proof fn lemma_occurs_in_left(a: Seq<char>, b: Seq<char>, pattern: Seq<char>, at: int)
    requires
        0 <= at,
        at + pattern.len() <= a.len(),
    ensures
        occurs_at(a + b, pattern, at) == occurs_at(a, pattern, at),
{
    assert((a + b).subrange(at, at + pattern.len()) =~= a.subrange(at, at + pattern.len()));
}

/// In a text put together from two, the pattern stands inside the second
/// part where it stands in the second text.
pub proof fn lemma_occurs_in_right(a: Seq<char>, b: Seq<char>, pattern: Seq<char>, at: int)
    requires
        a.len() <= at,
    ensures
        occurs_at(a + b, pattern, at) == occurs_at(b, pattern, at - a.len()),
{
    if at + pattern.len() <= a.len() + b.len() {
        assert((a + b).subrange(at, at + pattern.len()) =~= b.subrange(
            at - a.len(),
            at - a.len() + pattern.len(),
        ));
    }
}

/// What stands before the first occurrence of a pattern holds no occurrence.
pub proof fn lemma_before_free(text: Seq<char>, pattern: Seq<char>)
    requires
        pattern.len() > 0,
    ensures
        !contains(before(text, pattern), pattern),
        forall|j: int| !occurs_at(before(text, pattern), pattern, j),
{
    lemma_find_from(text, pattern, 0);
    let k = find(text, pattern);
    let front = before(text, pattern);
    assert forall|j: int| !occurs_at(front, pattern, j) by {
        if occurs_at(front, pattern, j) {
            assert(text.subrange(j, j + pattern.len()) =~= front.subrange(j, j + pattern.len()));
            assert(occurs_at(text, pattern, j));
        }
    }
    lemma_find_from_none(front, pattern, 0);
}

/// A text that holds no pattern made of one character lacks the character.
pub proof fn lemma_not_contains_lacks(text: Seq<char>, c: char)
    requires
        !contains(text, seq![c]),
    ensures
        lacks(text, c),
{
    lemma_find_from(text, seq![c], 0);
    assert forall|i: int| 0 <= i < text.len() implies text[i] != c by {
        if text[i] == c {
            assert(text.subrange(i, i + 1) =~= seq![c]);
            assert(occurs_at(text, seq![c], i));
        }
    }
}

/// Where a pattern starts nowhere inside the first of two texts and the
/// second begins with it, the first occurrence is where the second begins.
pub proof fn lemma_find_at_join(a: Seq<char>, b: Seq<char>, pattern: Seq<char>)
    requires
        pattern.len() > 0,
        forall|j: int| 0 <= j < a.len() ==> !occurs_at(a + b, pattern, j),
        occurs_at(b, pattern, 0),
    ensures
        find(a + b, pattern) == a.len(),
        before(a + b, pattern) == a,
        after(a + b, pattern) == Some(b.skip(pattern.len() as int)),
{
    lemma_occurs_in_right(a, b, pattern, a.len() as int);
    lemma_find_from_is(a + b, pattern, 0, a.len() as int);
    assert((a + b).take(a.len() as int) =~= a);
    assert((a + b).skip((a.len() + pattern.len()) as int) =~= b.skip(pattern.len() as int));
}

/// A text in which a pattern starts nowhere does not hold it.
pub proof fn lemma_find_nowhere(text: Seq<char>, pattern: Seq<char>)
    requires
        pattern.len() > 0,
        forall|j: int| 0 <= j < text.len() ==> !occurs_at(text, pattern, j),
    ensures
        !contains(text, pattern),
        before(text, pattern) == text,
        after(text, pattern) is None,
{
    lemma_find_from_none(text, pattern, 0);
    lemma_cut_absent(text, pattern);
}

/// Joining with one more piece at the end.
pub proof fn lemma_join_push(parts: Seq<Seq<char>>, sep: Seq<char>, piece: Seq<char>)
    ensures
        join(parts.push(piece), sep) == if parts.len() == 0 {
            piece
        } else {
            join(parts, sep) + sep + piece
        },
    decreases parts.len(),
{
    let all = parts.push(piece);
    if parts.len() == 0 {
    } else {
        assert(all.drop_first() =~= parts.drop_first().push(piece));
        lemma_join_push(parts.drop_first(), sep, piece);
        if parts.len() == 1 {
            assert(join(parts, sep) == parts[0]);
            assert(parts.drop_first().len() == 0);
        } else {
            assert(join(all, sep) =~= join(parts, sep) + sep + piece);
        }
    }
}

/// Splitting and joining again with the same separator gives the text back.
pub proof fn lemma_join_split(text: Seq<char>, sep: Seq<char>)
    ensures
        join(split(text, sep), sep) == text,
    decreases text.len(),
{
    let k = find(text, sep);
    if sep.len() == 0 || k >= text.len() {
    } else {
        lemma_find_from(text, sep, 0);
        let rest = text.skip(k + sep.len());
        lemma_join_split(rest, sep);
        lemma_split_len(rest, sep);
        let parts = seq![text.take(k)] + split(rest, sep);
        assert(parts.drop_first() =~= split(rest, sep));
        assert(parts[0] == text.take(k));
        assert(text =~= text.take(k) + sep + rest);
    }
}

/// A split has at least one piece.
pub proof fn lemma_split_len(text: Seq<char>, sep: Seq<char>)
    ensures
        split(text, sep).len() >= 1,
    decreases text.len(),
{
    let k = find(text, sep);
    if sep.len() == 0 || k >= text.len() {
    } else {
        lemma_find_from(text, sep, 0);
        lemma_split_len(text.skip(k + sep.len()), sep);
    }
}

/// Two texts compare equal exactly where they are the same text.
pub proof fn lemma_text_order_equal(a: Seq<char>, b: Seq<char>)
    ensures
        text_order(a, b) == Order::Equal <==> a == b,
    decreases a.len(),
{
    if a.len() == 0 || b.len() == 0 {
        if a.len() == 0 && b.len() == 0 {
            assert(a =~= b);
        }
    } else if a[0] != b[0] {
    } else {
        lemma_text_order_equal(a.drop_first(), b.drop_first());
        if a.drop_first() == b.drop_first() {
            assert(a =~= seq![a[0]] + a.drop_first());
            assert(b =~= seq![b[0]] + b.drop_first());
        }
    }
}

/// Exchanging the two texts reverses the outcome of their comparison.
pub proof fn lemma_text_order_reversed(a: Seq<char>, b: Seq<char>)
    ensures
        text_order(b, a) == text_order(a, b).reversed(),
    decreases a.len(),
{
    if a.len() == 0 || b.len() == 0 {
    } else if a[0] != b[0] {
        let x = a[0] as u32;
        let y = b[0] as u32;
        if x == y {
            vstd::utf8::char_u32_cast(a[0], x);
            vstd::utf8::char_u32_cast(b[0], y);
        }
    } else {
        lemma_text_order_reversed(a.drop_first(), b.drop_first());
    }
}

/// The order of texts is transitive: a text that does not come after a
/// second, which does not come after a third, does not come after the third,
/// and comes before it where one of the two steps is strict.
pub proof fn lemma_text_order_transitive(a: Seq<char>, b: Seq<char>, c: Seq<char>)
    requires
        text_order(a, b) != Order::Greater,
        text_order(b, c) != Order::Greater,
    ensures
        text_order(a, c) != Order::Greater,
        text_order(a, b) == Order::Less || text_order(b, c) == Order::Less ==> text_order(a, c)
            == Order::Less,
    decreases a.len(),
{
    if a.len() == 0 || b.len() == 0 || c.len() == 0 {
    } else if a[0] != b[0] || b[0] != c[0] {
        let x = a[0] as u32;
        let z = c[0] as u32;
        if x == z {
            vstd::utf8::char_u32_cast(a[0], x);
            vstd::utf8::char_u32_cast(c[0], z);
        }
    } else {
        lemma_text_order_transitive(a.drop_first(), b.drop_first(), c.drop_first());
    }
}

/// Whether the character `c` is nowhere in `text`.
pub open spec fn lacks(text: Seq<char>, c: char) -> bool {
    forall|i: int| 0 <= i < text.len() ==> text[i] != c
}

/// A text that lacks a character holds no pattern made of it alone.
pub proof fn lemma_lacks_not_contains(text: Seq<char>, c: char)
    requires
        lacks(text, c),
    ensures
        !contains(text, seq![c]),
{
    lemma_find_from(text, seq![c], 0);
    let k = find(text, seq![c]);
    if k < text.len() {
        lemma_occurs_at_char(text, seq![c], k, 0);
    }
}

/// The pieces of a text that lacks a character lack it too.
pub proof fn lemma_split_lacks(text: Seq<char>, sep: Seq<char>, c: char)
    requires
        lacks(text, c),
    ensures
        forall|k: int| 0 <= k < split(text, sep).len() ==> lacks(#[trigger] split(text, sep)[k], c),
    decreases text.len(),
{
    let at = find(text, sep);
    if sep.len() == 0 || at >= text.len() {
    } else {
        lemma_find_from(text, sep, 0);
        let rest = text.skip(at + sep.len());
        lemma_split_lacks(rest, sep, c);
        assert forall|k: int| 0 <= k < split(text, sep).len() implies lacks(
            #[trigger] split(text, sep)[k],
            c,
        ) by {
            if k > 0 {
                assert(split(text, sep)[k] == split(rest, sep)[k - 1]);
            }
        }
    }
}

/// The pieces between the occurrences of one character lack that character.
pub proof fn lemma_split_at_char_lacks(text: Seq<char>, c: char)
    ensures
        forall|k: int|
            0 <= k < split(text, seq![c]).len() ==> lacks(#[trigger] split(text, seq![c])[k], c),
    decreases text.len(),
{
    let sep = seq![c];
    let at = find(text, sep);
    lemma_find_from(text, sep, 0);
    assert forall|i: int| 0 <= i < at implies text[i] != c by {
        if text[i] == c {
            assert(text.subrange(i, i + 1) =~= sep);
            assert(occurs_at(text, sep, i));
        }
    }
    if at >= text.len() {
    } else {
        let rest = text.skip(at + 1);
        lemma_split_at_char_lacks(rest, c);
        assert forall|k: int| 0 <= k < split(text, sep).len() implies lacks(
            #[trigger] split(text, sep)[k],
            c,
        ) by {
            if k > 0 {
                assert(split(text, sep)[k] == split(rest, sep)[k - 1]);
            }
        }
    }
}

/// Pieces that lack a character, joined by a separator that lacks it, make a
/// text that lacks it.
pub proof fn lemma_join_lacks(parts: Seq<Seq<char>>, sep: Seq<char>, c: char)
    requires
        lacks(sep, c),
        forall|k: int| 0 <= k < parts.len() ==> lacks(#[trigger] parts[k], c),
    ensures
        lacks(join(parts, sep), c),
    decreases parts.len(),
{
    if parts.len() >= 2 {
        assert forall|k: int| 0 <= k < parts.drop_first().len() implies lacks(
            #[trigger] parts.drop_first()[k],
            c,
        ) by {
            assert(parts.drop_first()[k] == parts[k + 1]);
        }
        lemma_join_lacks(parts.drop_first(), sep, c);
        assert(lacks(parts[0], c));
    } else if parts.len() == 1 {
        assert(lacks(parts[0], c));
    }
}

/// Taking out every occurrence of a pattern leaves a text that is not
/// longer, and a shorter one where the pattern occurs.
pub proof fn lemma_remove_shrinks(text: Seq<char>, pattern: Seq<char>)
    ensures
        replace(text, pattern, Seq::empty()).len() <= text.len(),
        pattern.len() > 0 && contains(text, pattern) ==> replace(text, pattern, Seq::empty()).len()
            < text.len(),
    decreases text.len(),
{
    let k = find(text, pattern);
    if pattern.len() == 0 || k >= text.len() {
    } else {
        lemma_find_from(text, pattern, 0);
        let rest = text.skip(k + pattern.len());
        lemma_remove_shrinks(rest, pattern);
        lemma_split_len(rest, pattern);
        let parts = split(text, pattern);
        assert(parts.drop_first() =~= split(rest, pattern));
        assert(parts[0] == text.take(k));
    }
}

/// A text without the pattern is left as it is by `replace`.
pub proof fn lemma_replace_absent(text: Seq<char>, pattern: Seq<char>, with: Seq<char>)
    requires
        !contains(text, pattern),
    ensures
        replace(text, pattern, with) == text,
{
}

/// The characters of a string, in a vector.
pub fn chars_of(s: &str) -> (r: Vec<char>)
    ensures
        r@ == s@,
{
    let mut out: Vec<char> = Vec::new();
    for c in it: s.chars()
        invariant
            it.seq() == s@,
            out@ == it.seq().take(it.index()),
    {
        out.push(c);
        assert(it.seq().take(it.index() + 1) =~= it.seq().take(it.index()).push(c));
    }
    assert(out@ =~= s@);
    out
}

/// The string made of the characters of `text`.
pub fn string_of(text: &Vec<char>) -> (r: String)
    ensures
        r@ == text@,
{
    let mut out = String::new();
    let mut i: usize = 0;
    while i < text.len()
        invariant
            i <= text.len(),
            out@ == text@.take(i as int),
        decreases text.len() - i,
    {
        out.push(text[i]);
        assert(text@.take(i + 1) =~= text@.take(i as int).push(text@[i as int]));
        i += 1;
    }
    assert(text@.take(text.len() as int) =~= text@);
    out
}

/// The characters of `text` from position `from` up to, not including, `to`.
pub fn slice_of(text: &Vec<char>, from: usize, to: usize) -> (r: Vec<char>)
    requires
        from <= to <= text.len(),
    ensures
        r@ == text@.subrange(from as int, to as int),
{
    let mut out: Vec<char> = Vec::new();
    let mut i: usize = from;
    while i < to
        invariant
            from <= i <= to <= text.len(),
            out@ == text@.subrange(from as int, i as int),
        decreases to - i,
    {
        out.push(text[i]);
        assert(text@.subrange(from as int, i + 1) =~= text@.subrange(from as int, i as int).push(
            text@[i as int],
        ));
        i += 1;
    }
    out
}

/// Appends the characters of `piece` to `text`.
pub fn append_chars(text: &mut Vec<char>, piece: &Vec<char>)
    ensures
        final(text)@ == old(text)@ + piece@,
{
    let mut i: usize = 0;
    while i < piece.len()
        invariant
            i <= piece.len(),
            text@ == old(text)@ + piece@.take(i as int),
        decreases piece.len() - i,
    {
        text.push(piece[i]);
        assert(piece@.take(i + 1) =~= piece@.take(i as int).push(piece@[i as int]));
        assert(text@ =~= old(text)@ + piece@.take(i + 1));
        i += 1;
    }
    assert(piece@.take(piece.len() as int) =~= piece@);
}

/// Whether `pattern` stands in `text` at position `at`.
pub fn matches_at(text: &Vec<char>, pattern: &Vec<char>, at: usize) -> (r: bool)
    ensures
        r == occurs_at(text@, pattern@, at as int),
{
    if pattern.len() > text.len() || at > text.len() - pattern.len() {
        return false;
    }
    let mut j: usize = 0;
    while j < pattern.len()
        invariant
            j <= pattern.len(),
            at + pattern.len() <= text.len(),
            forall|k: int| 0 <= k < j ==> text@[at + k] == pattern@[k],
        decreases pattern.len() - j,
    {
        if text[at + j] != pattern[j] {
            assert(text@.subrange(at as int, at + pattern.len())[j as int] == text@[at + j]);
            return false;
        }
        j += 1;
    }
    assert(text@.subrange(at as int, at + pattern.len()) =~= pattern@);
    true
}

/// The first position at or after `from` where `pattern` stands in `text`,
/// or the length of `text`.
pub fn find_in(text: &Vec<char>, pattern: &Vec<char>, from: usize) -> (r: usize)
    ensures
        r == find_from(text@, pattern@, from as int),
        from <= text.len() ==> from <= r <= text.len(),
{
    proof {
        if from <= text.len() {
            lemma_find_from(text@, pattern@, from as int);
        }
    }
    if pattern.len() > text.len() || from >= text.len() {
        return text.len();
    }
    if pattern.len() == 0 {
        assert(text@.subrange(from as int, from as int) =~= pattern@);
        return from;
    }
    let last: usize = text.len() - pattern.len();
    let mut i: usize = from;
    while i <= last
        invariant
            from <= i,
            pattern.len() > 0,
            last == text.len() - pattern.len(),
            find_from(text@, pattern@, from as int) == find_from(text@, pattern@, i as int),
        decreases last + 1 - i,
    {
        if matches_at(text, pattern, i) {
            return i;
        }
        i += 1;
    }
    text.len()
}

/// The part of `text` before the first occurrence of `pattern`.
pub fn cut_before(text: &Vec<char>, pattern: &Vec<char>) -> (r: Vec<char>)
    ensures
        r@ == before(text@, pattern@),
{
    let k = find_in(text, pattern, 0);
    slice_of(text, 0, k)
}

/// The part of `text` after the first occurrence of `pattern`, if there is one.
pub fn cut_after(text: &Vec<char>, pattern: &Vec<char>) -> (r: Option<Vec<char>>)
    ensures
        r is Some <==> after(text@, pattern@) is Some,
        r matches Some(rest) ==> after(text@, pattern@) == Some(rest@),
{
    let k = find_in(text, pattern, 0);
    if k < text.len() {
        proof {
            lemma_find_from(text@, pattern@, 0);
        }
        Some(slice_of(text, k + pattern.len(), text.len()))
    } else {
        None
    }
}

/// Whether `text` begins with `prefix`.
pub fn has_prefix(text: &Vec<char>, prefix: &Vec<char>) -> (r: bool)
    ensures
        r == starts_with(text@, prefix@),
{
    matches_at(text, prefix, 0)
}

/// The pieces of `text` between the occurrences of `sep`.
pub fn split_text(text: &Vec<char>, sep: &Vec<char>) -> (r: Vec<Vec<char>>)
    ensures
        texts(r@) == split(text@, sep@),
        r.len() >= 1,
{
    let mut parts: Vec<Vec<char>> = Vec::new();
    let mut start: usize = 0;
    if sep.len() == 0 {
        parts.push(slice_of(text, 0, text.len()));
        assert(text@.subrange(0, text.len() as int) =~= text@);
        assert(texts(parts@) =~= split(text@, sep@));
        return parts;
    }
    assert(text@.skip(0) =~= text@);
    assert(texts(parts@) + split(text@, sep@) =~= split(text@, sep@));
    loop
        invariant
            start <= text.len(),
            sep.len() > 0,
            split(text@, sep@) == texts(parts@) + split(text@.skip(start as int), sep@),
        decreases text.len() - start,
    {
        let k = find_in(text, sep, start);
        proof {
            lemma_find_skip(text@, sep@, start as int, 0);
            lemma_find_from(text@, sep@, start as int);
        }
        let ghost rest = text@.skip(start as int);
        let ghost before = texts(parts@);
        if k >= text.len() {
            parts.push(slice_of(text, start, text.len()));
            assert(text@.subrange(start as int, text.len() as int) =~= rest);
            assert(texts(parts@) =~= before + seq![rest]);
            return parts;
        }
        parts.push(slice_of(text, start, k));
        proof {
            assert(text@.subrange(start as int, k as int) =~= rest.take(k - start));
            assert(rest.skip(k - start + sep.len()) =~= text@.skip(k + sep.len()));
            assert(texts(parts@) =~= before + seq![rest.take(k - start)]);
        }
        start = k + sep.len();
    }
}

/// The pieces put together with `sep` between each two neighbours.
pub fn join_text(parts: &Vec<Vec<char>>, sep: &Vec<char>) -> (r: Vec<char>)
    ensures
        r@ == join(texts(parts@), sep@),
{
    let mut out: Vec<char> = Vec::new();
    let mut i: usize = 0;
    while i < parts.len()
        invariant
            i <= parts.len(),
            out@ == join(texts(parts@).take(i as int), sep@),
        decreases parts.len() - i,
    {
        proof {
            lemma_join_push(texts(parts@).take(i as int), sep@, parts@[i as int]@);
            assert(texts(parts@).take(i + 1) =~= texts(parts@).take(i as int).push(
                parts@[i as int]@,
            ));
        }
        if i > 0 {
            append_chars(&mut out, sep);
        }
        append_chars(&mut out, &parts[i]);
        i += 1;
    }
    assert(texts(parts@).take(parts.len() as int) =~= texts(parts@));
    out
}

/// `text` with every occurrence of `pattern` replaced by `with`.
pub fn replace_text(text: &Vec<char>, pattern: &Vec<char>, with: &Vec<char>) -> (r: Vec<char>)
    ensures
        r@ == replace(text@, pattern@, with@),
{
    let parts = split_text(text, pattern);
    join_text(&parts, with)
}

/// How two texts compare, see `text_order`.
pub fn compare_text(a: &Vec<char>, b: &Vec<char>) -> (r: Order)
    ensures
        r == text_order(a@, b@),
{
    let mut i: usize = 0;
    assert(a@.skip(0) =~= a@ && b@.skip(0) =~= b@);
    loop
        invariant
            i <= a.len(),
            i <= b.len(),
            text_order(a@, b@) == text_order(a@.skip(i as int), b@.skip(i as int)),
        decreases a.len() - i,
    {
        let ghost ra = a@.skip(i as int);
        let ghost rb = b@.skip(i as int);
        if i >= a.len() && i >= b.len() {
            return Order::Equal;
        } else if i >= a.len() {
            return Order::Less;
        } else if i >= b.len() {
            return Order::Greater;
        }
        assert(ra[0] == a@[i as int] && rb[0] == b@[i as int]);
        if a[i] != b[i] {
            let x: u32 = a[i] as u32;
            let y: u32 = b[i] as u32;
            if x < y {
                return Order::Less;
            } else {
                return Order::Greater;
            }
        }
        proof {
            assert(ra.drop_first() =~= a@.skip(i + 1));
            assert(rb.drop_first() =~= b@.skip(i + 1));
        }
        i += 1;
    }
}

} // verus!
