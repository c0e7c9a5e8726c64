//! The dotted part at the start of a plugin version.

use crate::error::{AppError, AppErrorView};
use crate::natural::{
    check_numeral, code_value, compare_digits, decimal_value, digits_of_codes,
    digits_of_numeral, is_numeral, lemma_code_digits, lemma_numeral_digits,
};
use crate::order::{int_order, Order};
use crate::text::{
    chars_of, join, join_text, lemma_split_len, split, split_text, string_of, strings, texts,
};
use vstd::prelude::*;

verus! {

/// The segments of a plugin's base version, as they were written between the dots.
#[derive(Debug)]
pub struct BaseVersion {
    pub segments: Vec<String>,
}

impl View for BaseVersion {
    type V = Seq<Seq<char>>;

    open spec fn view(&self) -> Seq<Seq<char>> {
        strings(self.segments@)
    }
}

/// The separator of the segments.
pub open spec fn dot() -> Seq<char> {
    seq!['.']
}

/// The segments that a text is made of: none for the empty text, else its
/// pieces between the dots.
pub open spec fn base_segments(text: Seq<char>) -> Seq<Seq<char>> {
    if text.len() == 0 {
        Seq::empty()
    } else {
        split(text, dot())
    }
}

/// Whether segments can make a base version: there is at least one.
pub open spec fn valid_segments(segments: Seq<Seq<char>>) -> bool {
    segments.len() != 0
}

/// The segments written out with dots between them.
pub open spec fn base_text(segments: Seq<Seq<char>>) -> Seq<char> {
    join(segments, dot())
}

/// How two segments compare: as numbers where both are decimal numerals,
/// else by their code values.
pub open spec fn segment_order(a: Seq<char>, b: Seq<char>) -> Order {
    if is_numeral(a) && is_numeral(b) {
        int_order(decimal_value(a) as int, decimal_value(b) as int)
    } else {
        int_order(code_value(a) as int, code_value(b) as int)
    }
}

/// How two segment sequences compare from position `i` on: by the first pair
/// of segments at one position that differ. Where one sequence ends, the
/// comparison ends, and what the other still holds is not looked at.
pub open spec fn base_order_from(a: Seq<Seq<char>>, b: Seq<Seq<char>>, i: int) -> Order
    decreases a.len() - i,
{
    if i < 0 || i >= a.len() || i >= b.len() {
        Order::Equal
    } else {
        segment_order(a[i], b[i]).then_with(base_order_from(a, b, i + 1))
    }
}

/// How two segment sequences compare.
pub open spec fn base_order(a: Seq<Seq<char>>, b: Seq<Seq<char>>) -> Order {
    base_order_from(a, b, 0)
}

/// Exchanging the sides of a segment comparison reverses its outcome.
pub proof fn lemma_segment_order_reversed(a: Seq<char>, b: Seq<char>)
    ensures
        segment_order(b, a) == segment_order(a, b).reversed(),
{
}

/// Exchanging the sides of a base comparison reverses its outcome.
pub proof fn lemma_base_order_reversed(a: Seq<Seq<char>>, b: Seq<Seq<char>>, i: int)
    ensures
        base_order_from(b, a, i) == base_order_from(a, b, i).reversed(),
    decreases a.len() - i,
{
    if !(i < 0 || i >= a.len() || i >= b.len()) {
        lemma_base_order_reversed(a, b, i + 1);
    }
}

/// A segment sequence compares equal to every sequence that it begins, and
/// to itself: segments beyond the shorter length are never looked at.
pub proof fn lemma_base_order_prefix(a: Seq<Seq<char>>, extra: Seq<Seq<char>>, i: int)
    ensures
        base_order_from(a, a + extra, i) == Order::Equal,
        base_order_from(a + extra, a, i) == Order::Equal,
    decreases a.len() - i,
{
    if 0 <= i < a.len() {
        lemma_base_order_prefix(a, extra, i + 1);
    }
}

/// How two segments compare, see `segment_order`.
pub fn compare_segments(a: &str, b: &str) -> (r: Order)
    ensures
        r == segment_order(a@, b@),
{
    let x = chars_of(a);
    let y = chars_of(b);
    if check_numeral(&x) && check_numeral(&y) {
        let dx = digits_of_numeral(&x);
        let dy = digits_of_numeral(&y);
        proof {
            lemma_numeral_digits(x@);
            lemma_numeral_digits(y@);
        }
        compare_digits(&dx, &dy, 10)
    } else {
        let dx = digits_of_codes(&x);
        let dy = digits_of_codes(&y);
        proof {
            lemma_code_digits(x@, 0);
            lemma_code_digits(y@, 0);
        }
        compare_digits(&dx, &dy, 8)
    }
}

impl BaseVersion {
    /// Reads a base version: the pieces of `s` between its dots. The empty
    /// text has no segments and is refused.
    pub fn parse(s: &str) -> (r: Result<BaseVersion, AppError>)
        ensures
            match r {
                Ok(v) => valid_segments(base_segments(s@)) && v@ == base_segments(s@),
                Err(e) => !valid_segments(base_segments(s@)) && e@ == AppErrorView::VersionParseError(
                    s@,
                ),
            },
    {
        let text = chars_of(s);
        match BaseVersion::from_chars(&text) {
            Some(v) => Ok(v),
            None => Err(AppError::VersionParseError(s.to_owned())),
        }
    }

    /// Reads a base version from the characters of its text.
    pub fn from_chars(text: &Vec<char>) -> (r: Option<BaseVersion>)
        ensures
            r is Some <==> valid_segments(base_segments(text@)),
            r matches Some(v) ==> v@ == base_segments(text@),
    {
        let mut segments: Vec<String> = Vec::new();
        if text.len() > 0 {
            let sep: Vec<char> = vec!['.'];
            assert(sep@ =~= dot());
            let pieces = split_text(text, &sep);
            let mut i: usize = 0;
            while i < pieces.len()
                invariant
                    i <= pieces.len(),
                    segments.len() == i,
                    forall|j: int| 0 <= j < i ==> segments@[j]@ == pieces@[j]@,
                decreases pieces.len() - i,
            {
                segments.push(string_of(&pieces[i]));
                i += 1;
            }
            assert(strings(segments@) =~= texts(pieces@));
        }
        proof {
            lemma_split_len(text@, dot());
        }
        if BaseVersion::segments_valid(&segments) {
            Some(BaseVersion { segments })
        } else {
            None
        }
    }

    /// Whether the segments can make a base version.
    pub fn segments_valid(segments: &Vec<String>) -> (r: bool)
        ensures
            r == valid_segments(strings(segments@)),
    {
        segments.len() != 0
    }

    /// How this base version compares with another, see `base_order`.
    pub fn compare(&self, other: &BaseVersion) -> (r: Order)
        ensures
            r == base_order(self@, other@),
    {
        let mut i: usize = 0;
        while i < self.segments.len() && i < other.segments.len()
            invariant
                base_order(self@, other@) == base_order_from(self@, other@, i as int),
            decreases self.segments.len() - i,
        {
            let o = compare_segments(self.segments[i].as_str(), other.segments[i].as_str());
            if o != Order::Equal {
                return o;
            }
            i += 1;
        }
        Order::Equal
    }

    /// The segments written out with dots between them.
    pub fn to_chars(&self) -> (r: Vec<char>)
        ensures
            r@ == base_text(self@),
    {
        let mut pieces: Vec<Vec<char>> = Vec::new();
        let mut i: usize = 0;
        while i < self.segments.len()
            invariant
                i <= self.segments.len(),
                pieces.len() == i,
                forall|j: int| 0 <= j < i ==> pieces@[j]@ == self.segments@[j]@,
            decreases self.segments.len() - i,
        {
            pieces.push(chars_of(self.segments[i].as_str()));
            i += 1;
        }
        assert(texts(pieces@) =~= strings(self.segments@));
        let sep: Vec<char> = vec!['.'];
        assert(sep@ =~= dot());
        join_text(&pieces, &sep)
    }

    /// The base version as it is written.
    pub fn to_string(&self) -> (r: String)
        ensures
            r@ == base_text(self@),
    {
        string_of(&self.to_chars())
    }

    /// Whether two base versions hold the same segments.
    pub fn same(&self, other: &BaseVersion) -> (r: bool)
        ensures
            r == (self@ == other@),
    {
        if self.segments.len() != other.segments.len() {
            assert(self@.len() != other@.len());
            return false;
        }
        let mut i: usize = 0;
        while i < self.segments.len()
            invariant
                i <= self.segments.len(),
                self.segments.len() == other.segments.len(),
                forall|j: int| 0 <= j < i ==> self.segments@[j]@ == other.segments@[j]@,
            decreases self.segments.len() - i,
        {
            if self.segments[i] != other.segments[i] {
                assert(self@[i as int] != other@[i as int]);
                return false;
            }
            i += 1;
        }
        assert(self@ =~= other@);
        true
    }
}

impl Clone for BaseVersion {
    fn clone(&self) -> (r: Self)
        ensures
            r@ == self@,
    {
        let mut segments: Vec<String> = Vec::new();
        let mut i: usize = 0;
        while i < self.segments.len()
            invariant
                i <= self.segments.len(),
                segments.len() == i,
                forall|j: int| 0 <= j < i ==> segments@[j]@ == self.segments@[j]@,
            decreases self.segments.len() - i,
        {
            segments.push(self.segments[i].clone());
            i += 1;
        }
        assert(strings(segments@) =~= strings(self.segments@));
        BaseVersion { segments }
    }
}

impl PartialEq for BaseVersion {
    fn eq(&self, other: &Self) -> (r: bool) {
        self.same(other)
    }
}

impl vstd::std_specs::cmp::PartialEqSpecImpl for BaseVersion {
    open spec fn obeys_eq_spec() -> bool {
        true
    }

    open spec fn eq_spec(&self, other: &Self) -> bool {
        self@ == other@
    }
}

} // verus!
