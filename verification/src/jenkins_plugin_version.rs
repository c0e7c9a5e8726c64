//! Plugin versions: a dotted base version, an optional build number after a
//! dash, and an optional qualifier after `.v`.

use crate::base_version::{
    base_order, base_segments, base_text, valid_segments, BaseVersion,
};
use crate::error::{AppError, AppErrorView};
use crate::natural::{decimal_chars, decimal_text, decimal_value, is_numeral, parse_decimal};
use crate::order::{int_order, Order};
use crate::text::{
    after, append_chars, before, chars_of, cut_after, cut_before, string_of,
};
use std::cmp::Ordering;
use vstd::prelude::*;

verus! {

/// The version of a plugin.
#[derive(Debug)]
pub struct JenkinsPluginVersion {
    /// The dotted part at the start.
    pub base_version: BaseVersion,
    /// The number after the dash, where there is one.
    pub build_number: Option<usize>,
    /// What follows `.v`, where it occurs. It is kept for display and plays
    /// no part in the order of versions.
    pub git_hash: Option<String>,
}

/// A version as a mathematical value.
pub struct VersionView {
    pub base: Seq<Seq<char>>,
    pub build: Option<nat>,
    pub qualifier: Option<Seq<char>>,
}

impl View for JenkinsPluginVersion {
    type V = VersionView;

    open spec fn view(&self) -> VersionView {
        VersionView {
            base: self.base_version@,
            build: match self.build_number {
                Some(n) => Some(n as nat),
                None => None,
            },
            qualifier: match self.git_hash {
                Some(q) => Some(q@),
                None => None,
            },
        }
    }
}

/// What stands between the base version and the build number.
pub open spec fn dash() -> Seq<char> {
    seq!['-']
}

/// What stands before the qualifier.
pub open spec fn qualifier_mark() -> Seq<char> {
    seq!['.', 'v']
}

/// The text of the base version in a version text: what stands before the
/// first dash, up to the first `.v` in that.
pub open spec fn base_part(text: Seq<char>) -> Seq<char> {
    before(before(text, dash()), qualifier_mark())
}

/// The text of the build number in a version text, where it has a dash: what
/// follows the first dash, up to the first `.v` in that.
pub open spec fn build_part(text: Seq<char>) -> Option<Seq<char>> {
    match after(text, dash()) {
        Some(tail) => Some(before(tail, qualifier_mark())),
        None => None,
    }
}

/// The version that a text stands for, or `None` where it stands for none:
/// where its base part is empty, or it has a dash and what follows is no
/// decimal numeral or one too large for the build number's type. The
/// qualifier is whatever follows the first `.v` of the whole text.
pub open spec fn parse_version(text: Seq<char>) -> Option<VersionView> {
    let base = base_segments(base_part(text));
    let qualifier = after(text, qualifier_mark());
    if !valid_segments(base) {
        None
    } else {
        match build_part(text) {
            None => Some(VersionView { base, build: None, qualifier }),
            Some(digits) => if is_numeral(digits) && decimal_value(digits) <= usize::MAX {
                Some(VersionView { base, build: Some(decimal_value(digits)), qualifier })
            } else {
                None
            },
        }
    }
}

/// The text of a version: the base version, then a dash and the build number
/// where there is one, then `.v` and the qualifier where there is one.
pub open spec fn format_version(v: VersionView) -> Seq<char> {
    base_text(v.base) + (match v.build {
        Some(n) => dash() + decimal_text(n),
        None => Seq::empty(),
    }) + (match v.qualifier {
        Some(q) => qualifier_mark() + q,
        None => Seq::empty(),
    })
}

/// How two build numbers compare: a missing one before every number.
pub open spec fn build_order(a: Option<nat>, b: Option<nat>) -> Order {
    match (a, b) {
        (None, None) => Order::Equal,
        (None, Some(_)) => Order::Less,
        (Some(_), None) => Order::Greater,
        (Some(x), Some(y)) => int_order(x as int, y as int),
    }
}

/// How two versions compare: by their base versions, and where these compare
/// equal, by their build numbers. The qualifiers are not looked at.
pub open spec fn version_order(a: VersionView, b: VersionView) -> Order {
    base_order(a.base, b.base).then_with(build_order(a.build, b.build))
}

impl JenkinsPluginVersion {
    /// Reads a version, see `parse_version`. A text that stands for no
    /// version is handed back in the error.
    pub fn parse(s: &str) -> (r: Result<JenkinsPluginVersion, AppError>)
        ensures
            match r {
                Ok(v) => parse_version(s@) == Some(v@),
                Err(e) => parse_version(s@) is None && e@ == AppErrorView::VersionParseError(s@),
            },
    {
        let text = chars_of(s);
        match JenkinsPluginVersion::from_chars(&text) {
            Some(v) => Ok(v),
            None => Err(AppError::VersionParseError(s.to_owned())),
        }
    }

    /// Reads a version from the characters of its text.
    pub fn from_chars(text: &Vec<char>) -> (r: Option<JenkinsPluginVersion>)
        ensures
            r is Some <==> parse_version(text@) is Some,
            r matches Some(v) ==> parse_version(text@) == Some(v@),
    {
        let dash: Vec<char> = vec!['-'];
        let mark: Vec<char> = vec!['.', 'v'];
        assert(dash@ =~= self::dash());
        assert(mark@ =~= qualifier_mark());
        let head = cut_before(text, &dash);
        let base_chars = cut_before(&head, &mark);
        let base_version = match BaseVersion::from_chars(&base_chars) {
            Some(b) => b,
            None => {
                return None;
            },
        };
        let build_number: Option<usize> = match cut_after(text, &dash) {
            None => None,
            Some(tail) => {
                let digits = cut_before(&tail, &mark);
                match parse_decimal(&digits) {
                    Some(n) => Some(n),
                    None => {
                        return None;
                    },
                }
            },
        };
        let git_hash: Option<String> = match cut_after(text, &mark) {
            None => None,
            Some(rest) => Some(string_of(&rest)),
        };
        Some(JenkinsPluginVersion { base_version, build_number, git_hash })
    }

    /// The characters of the version's text.
    pub fn to_chars(&self) -> (r: Vec<char>)
        ensures
            r@ == format_version(self@),
    {
        let mut out = self.base_version.to_chars();
        match self.build_number {
            Some(n) => {
                out.push('-');
                let digits = decimal_chars(n);
                append_chars(&mut out, &digits);
                assert(out@ =~= base_text(self@.base) + (dash() + decimal_text(n as nat)));
            },
            None => {
                assert(out@ =~= base_text(self@.base) + Seq::<char>::empty());
            },
        }
        let ghost front = out@;
        match &self.git_hash {
            Some(q) => {
                out.push('.');
                out.push('v');
                let rest = chars_of(q.as_str());
                append_chars(&mut out, &rest);
                assert(out@ =~= front + (qualifier_mark() + q@));
            },
            None => {
                assert(out@ =~= front + Seq::<char>::empty());
            },
        }
        out
    }

    /// The version as it is written, see `format_version`.
    pub fn to_string(&self) -> (r: String)
        ensures
            r@ == format_version(self@),
    {
        string_of(&self.to_chars())
    }

    /// How this version compares with another, see `version_order`.
    pub fn compare(&self, other: &JenkinsPluginVersion) -> (r: Order)
        ensures
            r == version_order(self@, other@),
    {
        let o = self.base_version.compare(&other.base_version);
        if o != Order::Equal {
            return o;
        }
        match (self.build_number, other.build_number) {
            (None, None) => Order::Equal,
            (None, Some(_)) => Order::Less,
            (Some(_), None) => Order::Greater,
            (Some(x), Some(y)) => if x < y {
                Order::Less
            } else if x == y {
                Order::Equal
            } else {
                Order::Greater
            },
        }
    }

    /// Whether two versions hold the same base version, build number and
    /// qualifier.
    pub fn same(&self, other: &JenkinsPluginVersion) -> (r: bool)
        ensures
            r == (self@ == other@),
    {
        if !self.base_version.same(&other.base_version) {
            return false;
        }
        let builds = match (self.build_number, other.build_number) {
            (None, None) => true,
            (Some(x), Some(y)) => x == y,
            _ => false,
        };
        if !builds {
            return false;
        }
        match &self.git_hash {
            None => other.git_hash.is_none(),
            Some(x) => match &other.git_hash {
                None => false,
                Some(y) => *x == *y,
            },
        }
    }
}

impl Clone for JenkinsPluginVersion {
    fn clone(&self) -> (r: Self)
        ensures
            r@ == self@,
    {
        JenkinsPluginVersion {
            base_version: self.base_version.clone(),
            build_number: self.build_number,
            git_hash: match &self.git_hash {
                Some(q) => Some(q.clone()),
                None => None,
            },
        }
    }
}

impl PartialEq for JenkinsPluginVersion {
    fn eq(&self, other: &Self) -> (r: bool) {
        self.same(other)
    }
}

impl vstd::std_specs::cmp::PartialEqSpecImpl for JenkinsPluginVersion {
    open spec fn obeys_eq_spec() -> bool {
        true
    }

    open spec fn eq_spec(&self, other: &Self) -> bool {
        self@ == other@
    }
}

impl PartialOrd for JenkinsPluginVersion {
    fn partial_cmp(&self, other: &Self) -> (r: Option<Ordering>) {
        match self.compare(other) {
            Order::Less => Some(Ordering::Less),
            Order::Equal => Some(Ordering::Equal),
            Order::Greater => Some(Ordering::Greater),
        }
    }
}

impl vstd::std_specs::cmp::PartialOrdSpecImpl for JenkinsPluginVersion {
    open spec fn obeys_partial_cmp_spec() -> bool {
        true
    }

    open spec fn partial_cmp_spec(&self, other: &Self) -> Option<Ordering> {
        match version_order(self@, other@) {
            Order::Less => Some(Ordering::Less),
            Order::Equal => Some(Ordering::Equal),
            Order::Greater => Some(Ordering::Greater),
        }
    }
}

} // verus!
