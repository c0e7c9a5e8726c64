//! What holds of reading, writing and ordering versions.

use crate::base_version::{
    base_segments, base_text, dot, lemma_base_order_prefix, lemma_base_order_reversed,
};
use crate::jenkins_plugin_version::{
    base_part, build_order, build_part, dash, format_version, parse_version, qualifier_mark,
    version_order, VersionView,
};
use crate::natural::{
    decimal_text, is_canonical_numeral, is_digit, is_numeral, lemma_canonical_numeral,
    lemma_decimal_text,
};
use crate::order::Order;
use crate::text::{
    after, before, contains, find, lacks, lemma_before_free, lemma_cut, lemma_cut_absent,
    lemma_find_at_join, lemma_find_from, lemma_find_nowhere, lemma_find_past, lemma_find_skip,
    lemma_join_split, lemma_lacks_not_contains, lemma_not_contains_lacks, lemma_occurs_at_char,
    lemma_occurs_in_left, occurs_at,
};
use vstd::prelude::*;

verus! {

/// Whether the text of a version is written as `format_version` writes it:
/// where it has a dash, no `.v` stands before the first dash, and the build
/// number has no needless leading zero.
pub open spec fn written_plainly(text: Seq<char>) -> bool {
    match build_part(text) {
        None => true,
        Some(digits) => !contains(before(text, dash()), qualifier_mark()) && is_canonical_numeral(
            digits,
        ),
    }
}

/// The empty text stands for no version, and neither does a text in which
/// what follows the first dash, up to the first `.v`, is no decimal numeral.
pub proof fn lemma_unreadable_versions(text: Seq<char>)
    ensures
        text.len() == 0 ==> parse_version(text) is None,
        build_part(text) matches Some(digits) && !is_numeral(digits) ==> parse_version(text) is None,
{
    if text.len() == 0 {
        assert(base_part(text).len() == 0);
    }
}

/// Exchanging the two versions reverses the outcome of their comparison.
pub proof fn lemma_version_order_reversed(a: VersionView, b: VersionView)
    ensures
        version_order(b, a) == version_order(a, b).reversed(),
{
    lemma_base_order_reversed(a.base, b.base, 0);
}

/// A version compares equal to itself.
pub proof fn lemma_version_order_reflexive(a: VersionView)
    ensures
        version_order(a, a) == Order::Equal,
{
    lemma_base_order_prefix(a.base, Seq::empty(), 0);
    assert(a.base + Seq::<Seq<char>>::empty() =~= a.base);
}

/// Of two versions with the same base segments, the one without a build
/// number comes before the one with a build number.
pub proof fn lemma_missing_build_comes_first(a: VersionView, b: VersionView)
    requires
        a.base == b.base,
        a.build is Some,
        b.build is None,
    ensures
        version_order(b, a) == Order::Less,
        version_order(a, b) == Order::Greater,
{
    lemma_version_order_reflexive(a);
    lemma_version_order_reversed(a, b);
}

/// The comparison of base versions ends with the shorter one: where one
/// version's segments begin the other's, only the build numbers decide.
pub proof fn lemma_longer_base_not_compared(a: VersionView, b: VersionView)
    requires
        a.base.len() <= b.base.len(),
        b.base.take(a.base.len() as int) == a.base,
    ensures
        version_order(a, b) == build_order(a.build, b.build),
        version_order(b, a) == build_order(b.build, a.build),
{
    let extra = b.base.skip(a.base.len() as int);
    assert(a.base + extra =~= b.base);
    lemma_base_order_prefix(a.base, extra, 0);
}

/// The qualifiers of two versions play no part in how they compare.
pub proof fn lemma_qualifier_not_compared(
    a: VersionView,
    b: VersionView,
    qa: Option<Seq<char>>,
    qb: Option<Seq<char>>,
)
    ensures
        version_order(
            VersionView { qualifier: qa, ..a },
            VersionView { qualifier: qb, ..b },
        ) == version_order(a, b),
{
}

/// A text that stands for a version and is written plainly is the text of
/// that version: writing what was read gives the text back.
pub proof fn lemma_format_of_parsed(text: Seq<char>)
    requires
        parse_version(text) is Some,
        written_plainly(text),
    ensures
        format_version(parse_version(text)->0) == text,
{
    let v = parse_version(text)->0;
    let base = base_part(text);
    lemma_join_split(base, dot());
    assert(base_text(v.base) == base);
    lemma_find_from(text, dash(), 0);
    if !contains(text, dash()) {
        lemma_cut_absent(text, dash());
        if contains(text, qualifier_mark()) {
            lemma_cut(text, qualifier_mark());
            assert(format_version(v) =~= text);
        } else {
            lemma_cut_absent(text, qualifier_mark());
            assert(format_version(v) =~= text);
        }
    } else {
        let d = find(text, dash());
        let head = before(text, dash());
        let tail = after(text, dash())->0;
        let digits = build_part(text)->0;
        lemma_cut(text, dash());
        lemma_cut_absent(head, qualifier_mark());
        lemma_canonical_numeral(digits);
        lemma_occurs_at_char(text, dash(), d, 0);
        lemma_find_from(head, qualifier_mark(), 0);
        assert forall|j: int| 0 <= j < d + 1 implies !occurs_at(text, qualifier_mark(), j) by {
            if occurs_at(text, qualifier_mark(), j) {
                lemma_occurs_at_char(text, qualifier_mark(), j, 0);
                lemma_occurs_at_char(text, qualifier_mark(), j, 1);
                if j + 2 <= d {
                    assert(head.subrange(j, j + 2) =~= text.subrange(j, j + 2));
                    assert(occurs_at(head, qualifier_mark(), j));
                }
            }
        }
        lemma_find_past(text, qualifier_mark(), d + 1);
        lemma_find_skip(text, qualifier_mark(), d + 1, 0);
        lemma_find_from(tail, qualifier_mark(), 0);
        if contains(tail, qualifier_mark()) {
            lemma_cut(tail, qualifier_mark());
            let k = find(tail, qualifier_mark());
            assert(text.skip(d + 1 + k + 2) =~= tail.skip(k + 2));
            assert(format_version(v) =~= text);
        } else {
            lemma_cut_absent(tail, qualifier_mark());
            assert(format_version(v) =~= text);
        }
    }
}

/// What holds of the base part of a text that stands for a version: it is
/// not empty, holds neither a dash nor `.v`, and is the text of the version's
/// base segments.
proof fn lemma_base_part(text: Seq<char>)
    requires
        parse_version(text) is Some,
    ensures
        base_part(text).len() > 0,
        lacks(base_part(text), '-'),
        forall|j: int| !occurs_at(base_part(text), qualifier_mark(), j),
        base_text(parse_version(text)->0.base) == base_part(text),
        base_segments(base_part(text)) == parse_version(text)->0.base,
{
    let head = before(text, dash());
    let base = base_part(text);
    lemma_join_split(base, dot());
    lemma_before_free(text, dash());
    lemma_not_contains_lacks(head, '-');
    lemma_before_free(head, qualifier_mark());
    lemma_find_from(head, qualifier_mark(), 0);
    assert forall|i: int| 0 <= i < base.len() implies base[i] != '-' by {
        assert(base[i] == head[i]);
    }
}

/// Behind a base part, `.v` starts nowhere before the end of the base part
/// where what follows does not begin with a `v`.
proof fn lemma_no_mark_in_base(base: Seq<char>, rest: Seq<char>)
    requires
        forall|j: int| !occurs_at(base, qualifier_mark(), j),
        rest.len() == 0 || rest[0] != 'v',
    ensures
        forall|j: int| 0 <= j < base.len() ==> !occurs_at(base + rest, qualifier_mark(), j),
{
    assert forall|j: int| 0 <= j < base.len() implies !occurs_at(
        base + rest,
        qualifier_mark(),
        j,
    ) by {
        if occurs_at(base + rest, qualifier_mark(), j) {
            if j + 2 <= base.len() {
                lemma_occurs_in_left(base, rest, qualifier_mark(), j);
            } else {
                lemma_occurs_at_char(base + rest, qualifier_mark(), j, 1);
            }
        }
    }
}

/// A version that was read is read again from its own text: writing a
/// version and reading the text gives the version back.
pub proof fn lemma_parse_of_formatted(text: Seq<char>)
    requires
        parse_version(text) is Some,
    ensures
        parse_version(format_version(parse_version(text)->0)) == parse_version(text),
{
    let v = parse_version(text)->0;
    let base = base_part(text);
    let mark = qualifier_mark();
    let written = format_version(v);
    lemma_base_part(text);
    let tail_of_mark: Seq<char> = match v.qualifier {
        Some(q) => mark + q,
        None => Seq::empty(),
    };
    if v.qualifier is Some {
        assert(occurs_at(tail_of_mark, mark, 0)) by {
            assert(tail_of_mark.subrange(0, 2) =~= mark);
        }
        assert(tail_of_mark.skip(2) =~= v.qualifier->0);
        assert(tail_of_mark[0] == '.');
    }
    match v.build {
        Some(n) => {
            let digits = decimal_text(n);
            lemma_decimal_text(n);
            let behind = digits + tail_of_mark;
            let rest = dash() + behind;
            assert(written =~= base + rest);
            assert(rest[0] == '-');
            // The first dash stands right behind the base part.
            assert forall|j: int| 0 <= j < base.len() implies !occurs_at(
                base + rest,
                dash(),
                j,
            ) by {
                if occurs_at(base + rest, dash(), j) {
                    lemma_occurs_at_char(base + rest, dash(), j, 0);
                }
            }
            assert(occurs_at(rest, dash(), 0)) by {
                assert(rest.subrange(0, 1) =~= dash());
            }
            lemma_find_at_join(base, rest, dash());
            assert(rest.skip(1) =~= behind);
            lemma_find_nowhere(base, mark);
            // The build number ends where the qualifier's mark stands.
            assert forall|j: int| 0 <= j < digits.len() implies !occurs_at(
                digits + tail_of_mark,
                mark,
                j,
            ) by {
                if occurs_at(digits + tail_of_mark, mark, j) {
                    lemma_occurs_at_char(digits + tail_of_mark, mark, j, 0);
                    assert(is_digit(digits[j]));
                }
            }
            // The first mark of the whole text is the qualifier's.
            let front = base + dash() + digits;
            assert(written =~= front + tail_of_mark);
            lemma_no_mark_in_base(base, rest);
            assert forall|j: int| 0 <= j < front.len() implies !occurs_at(
                front + tail_of_mark,
                mark,
                j,
            ) by {
                if occurs_at(front + tail_of_mark, mark, j) {
                    lemma_occurs_at_char(front + tail_of_mark, mark, j, 0);
                    if j > base.len() {
                        assert(is_digit(digits[j - base.len() - 1]));
                    }
                }
            }
            if v.qualifier is Some {
                lemma_find_at_join(digits, tail_of_mark, mark);
                lemma_find_at_join(front, tail_of_mark, mark);
            } else {
                assert(digits + tail_of_mark =~= digits);
                assert(front + tail_of_mark =~= front);
                lemma_find_nowhere(digits, mark);
                lemma_find_nowhere(front, mark);
            }
        },
        None => {
            assert(written =~= base + tail_of_mark);
            lemma_find_from(text, dash(), 0);
            lemma_cut_absent(text, dash());
            lemma_not_contains_lacks(text, '-');
            lemma_no_mark_in_base(base, tail_of_mark);
            if v.qualifier is Some {
                let q = v.qualifier->0;
                lemma_find_from(text, mark, 0);
                assert forall|i: int| 0 <= i < written.len() implies written[i] != '-' by {
                    if i >= base.len() + 2 {
                        assert(written[i] == q[i - base.len() - 2]);
                        assert(q[i - base.len() - 2] == text[find(text, mark) + 2 + i - base.len()
                            - 2]);
                    } else if i >= base.len() {
                        assert(written[i] == mark[i - base.len()]);
                    }
                }
                lemma_lacks_not_contains(written, '-');
                lemma_cut_absent(written, dash());
                lemma_find_at_join(base, tail_of_mark, mark);
            } else {
                assert(written =~= base);
                lemma_lacks_not_contains(written, '-');
                lemma_cut_absent(written, dash());
                lemma_find_nowhere(base, mark);
            }
        },
    }
}

/// A text that stands for a version and is not written plainly is not the
/// text of that version: writing what was read gives another text.
pub proof fn lemma_format_of_parsed_differs(text: Seq<char>)
    requires
        parse_version(text) is Some,
        !written_plainly(text),
    ensures
        format_version(parse_version(text)->0) != text,
{
    let v = parse_version(text)->0;
    let mark = qualifier_mark();
    let written = format_version(v);
    let head = before(text, dash());
    let base = base_part(text);
    let digits = build_part(text)->0;
    let n = v.build->0;
    lemma_base_part(text);
    lemma_find_from(text, dash(), 0);
    lemma_find_from(head, mark, 0);
    let shown = decimal_text(n);
    lemma_decimal_text(n);
    let tail_of_mark: Seq<char> = match v.qualifier {
        Some(q) => mark + q,
        None => Seq::empty(),
    };
    assert(written =~= base + (dash() + (shown + tail_of_mark)));
    if contains(head, mark) {
        let k = find(head, mark);
        lemma_occurs_at_char(head, mark, k, 0);
        assert(text[k] == head[k]);
        assert(written[k] == '-');
    } else if written == text {
        lemma_cut_absent(head, mark);
        let d = find(text, dash());
        let tail = after(text, dash())->0;
        assert(tail =~= shown + tail_of_mark);
        if v.qualifier is Some {
            assert(occurs_at(tail_of_mark, mark, 0)) by {
                assert(tail_of_mark.subrange(0, 2) =~= mark);
            }
        }
        assert forall|j: int| 0 <= j < shown.len() implies !occurs_at(
            shown + tail_of_mark,
            mark,
            j,
        ) by {
            if occurs_at(shown + tail_of_mark, mark, j) {
                lemma_occurs_at_char(shown + tail_of_mark, mark, j, 0);
                assert(is_digit(shown[j]));
            }
        }
        if v.qualifier is Some {
            lemma_find_at_join(shown, tail_of_mark, mark);
        } else {
            assert(shown + tail_of_mark =~= shown);
            lemma_find_nowhere(shown, mark);
        }
        assert(digits == shown);
    }
}

} // verus!
