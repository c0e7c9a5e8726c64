//! The manifest of a plugin: how its text is brought into one line per
//! value, and how the dependencies that it declares are read.

use crate::error::{AppError, AppErrorView};
use crate::input::{requests, RequestView, ResolvedPackage};
use crate::jenkins_plugin_version::{parse_version, JenkinsPluginVersion};
use crate::text::{
    after, before, chars_of, contains, cut_after, cut_before, has_prefix, lacks,
    lemma_join_lacks, lemma_lacks_not_contains, lemma_remove_shrinks, lemma_replace_absent,
    lemma_split_at_char_lacks,
    lemma_split_lacks, replace, replace_text, slice_of, split, split_text, starts_with,
    string_of, texts,
};
use vstd::prelude::*;

verus! {

/// The carriage return, which normalising takes out.
pub open spec fn carriage_return() -> Seq<char> {
    seq!['\r']
}

/// A line feed and one space: where a value goes on in the next line.
pub open spec fn line_wrap() -> Seq<char> {
    seq!['\n', ' ']
}

/// The text of a manifest without carriage returns and with each wrapped
/// value in one line: first every carriage return is taken out, then every
/// line feed that a space follows, together with that space.
pub open spec fn normalize(text: Seq<char>) -> Seq<char> {
    replace(replace(text, carriage_return(), Seq::empty()), line_wrap(), Seq::empty())
}

/// Whether a text holds nothing that normalising would take out.
pub open spec fn is_normalized(text: Seq<char>) -> bool {
    !contains(text, carriage_return()) && !contains(text, line_wrap())
}

/// What a line that declares dependencies begins with.
pub open spec fn dependency_prefix() -> Seq<char> {
    "Plugin-Dependencies:"@
}

/// The entries of a line that declares dependencies: what follows the
/// prefix and one space, if there is one, cut at the commas.
pub open spec fn declared_entries(line: Seq<char>) -> Seq<Seq<char>> {
    let rest = line.skip(dependency_prefix().len() as int);
    let list = if rest.len() > 0 && rest[0] == ' ' {
        rest.skip(1)
    } else {
        rest
    };
    split(list, seq![','])
}

/// The entries of all the lines that declare dependencies, in their order.
pub open spec fn all_entries(lines: Seq<Seq<char>>) -> Seq<Seq<char>>
    decreases lines.len(),
{
    if lines.len() == 0 {
        Seq::empty()
    } else if starts_with(lines.last(), dependency_prefix()) {
        all_entries(lines.drop_last()) + declared_entries(lines.last())
    } else {
        all_entries(lines.drop_last())
    }
}

/// The dependency that an entry declares: the name before the first colon,
/// and the version of what follows, up to the first semicolon. An entry
/// without a colon, or with a text there that is no version, declares none.
pub open spec fn parse_entry(entry: Seq<char>) -> Result<RequestView, AppErrorView> {
    match after(entry, seq![':']) {
        None => Err(AppErrorView::RemotePluginDeserializeError(entry)),
        Some(rest) => {
            let version_text = before(rest, seq![';']);
            match parse_version(version_text) {
                Some(version) => Ok(RequestView { name: before(entry, seq![':']), version }),
                None => Err(AppErrorView::VersionParseError(version_text)),
            }
        },
    }
}

/// The dependencies that entries declare, in their order, or the failure of
/// the first entry that declares none.
pub open spec fn parse_entries(entries: Seq<Seq<char>>) -> Result<Seq<RequestView>, AppErrorView>
    decreases entries.len(),
{
    if entries.len() == 0 {
        Ok(Seq::empty())
    } else {
        match parse_entries(entries.drop_last()) {
            Err(e) => Err(e),
            Ok(front) => match parse_entry(entries.last()) {
                Err(e) => Err(e),
                Ok(request) => Ok(front.push(request)),
            },
        }
    }
}

/// The dependencies that a manifest declares: those of the entries of all
/// its lines that begin with `Plugin-Dependencies:`. Other lines are passed
/// over.
pub open spec fn declared_dependencies(manifest: Seq<char>) -> Result<
    Seq<RequestView>,
    AppErrorView,
> {
    parse_entries(all_entries(split(manifest, seq!['\n'])))
}

/// A normalised text holds no carriage return.
pub proof fn lemma_normalize_strips_returns(text: Seq<char>)
    ensures
        lacks(normalize(text), '\r'),
        !contains(normalize(text), carriage_return()),
{
    let stripped = replace(text, carriage_return(), Seq::empty());
    lemma_split_at_char_lacks(text, '\r');
    lemma_join_lacks(split(text, carriage_return()), Seq::empty(), '\r');
    lemma_split_lacks(stripped, line_wrap(), '\r');
    lemma_join_lacks(split(stripped, line_wrap()), Seq::empty(), '\r');
    lemma_lacks_not_contains(normalize(text), '\r');
}

/// Normalising leaves a text as it is when it holds nothing to take out.
pub proof fn lemma_normalize_fixed(text: Seq<char>)
    requires
        is_normalized(text),
    ensures
        normalize(text) == text,
{
    lemma_replace_absent(text, carriage_return(), Seq::empty());
    lemma_replace_absent(text, line_wrap(), Seq::empty());
}

/// Normalising twice is normalising once, wherever the first pass leaves no
/// line feed with a space after it.
pub proof fn lemma_normalize_idempotent(text: Seq<char>)
    requires
        !contains(normalize(text), line_wrap()),
    ensures
        normalize(normalize(text)) == normalize(text),
{
    lemma_normalize_strips_returns(text);
    lemma_normalize_fixed(normalize(text));
}

/// Where the first pass leaves a line feed with a space after it, a second
/// pass takes it out: normalising twice is then not normalising once.
pub proof fn lemma_normalize_again_differs(text: Seq<char>)
    requires
        contains(normalize(text), line_wrap()),
    ensures
        normalize(normalize(text)) != normalize(text),
{
    let once = normalize(text);
    lemma_normalize_strips_returns(text);
    lemma_replace_absent(once, carriage_return(), Seq::empty());
    lemma_remove_shrinks(once, line_wrap());
}

/// Where the entries up to some position fail, all the entries fail alike.
pub proof fn lemma_parse_entries_fails(entries: Seq<Seq<char>>, n: int)
    requires
        0 <= n <= entries.len(),
        parse_entries(entries.take(n)) is Err,
    ensures
        parse_entries(entries) == parse_entries(entries.take(n)),
    decreases entries.len() - n,
{
    if n < entries.len() {
        assert(entries.take(n + 1).drop_last() =~= entries.take(n));
        lemma_parse_entries_fails(entries, n + 1);
    } else {
        assert(entries.take(n) =~= entries);
    }
}

/// The text of a manifest, normalised.
pub fn normalize_manifest(manifest: &str) -> (r: String)
    ensures
        r@ == normalize(manifest@),
{
    let text = chars_of(manifest);
    let nothing: Vec<char> = Vec::new();
    let cr: Vec<char> = vec!['\r'];
    let wrap: Vec<char> = vec!['\n', ' '];
    assert(cr@ =~= carriage_return());
    assert(wrap@ =~= line_wrap());
    assert(nothing@ =~= Seq::<char>::empty());
    let stripped = replace_text(&text, &cr, &nothing);
    let joined = replace_text(&stripped, &wrap, &nothing);
    string_of(&joined)
}

/// The dependency that an entry of a dependency line declares.
pub fn from_name_version_string(plugin_pair: &str) -> (r: Result<ResolvedPackage, AppError>)
    ensures
        match r {
            Ok(p) => parse_entry(plugin_pair@) == Ok::<RequestView, AppErrorView>(p@),
            Err(e) => parse_entry(plugin_pair@) == Err::<RequestView, AppErrorView>(e@),
        },
{
    let entry = chars_of(plugin_pair);
    entry_from_chars(&entry)
}

/// The dependency that an entry declares, from the entry's characters.
pub fn entry_from_chars(entry: &Vec<char>) -> (r: Result<ResolvedPackage, AppError>)
    ensures
        match r {
            Ok(p) => parse_entry(entry@) == Ok::<RequestView, AppErrorView>(p@),
            Err(e) => parse_entry(entry@) == Err::<RequestView, AppErrorView>(e@),
        },
{
    let colon: Vec<char> = vec![':'];
    let semicolon: Vec<char> = vec![';'];
    assert(colon@ =~= seq![':']);
    assert(semicolon@ =~= seq![';']);
    match cut_after(entry, &colon) {
        None => Err(AppError::RemotePluginDeserializeError(string_of(entry))),
        Some(rest) => {
            let version_text = cut_before(&rest, &semicolon);
            match JenkinsPluginVersion::from_chars(&version_text) {
                Some(version) => {
                    let name = string_of(&cut_before(entry, &colon));
                    Ok(ResolvedPackage { name, version })
                },
                None => Err(AppError::VersionParseError(string_of(&version_text))),
            }
        },
    }
}

/// The entries of a line that declares dependencies.
fn entries_of_line(line: &Vec<char>, prefix: &Vec<char>) -> (r: Vec<Vec<char>>)
    requires
        prefix@ == dependency_prefix(),
        starts_with(line@, prefix@),
    ensures
        texts(r@) == declared_entries(line@),
{
    let rest = slice_of(line, prefix.len(), line.len());
    assert(rest@ =~= line@.skip(prefix.len() as int));
    let list = if rest.len() > 0 && rest[0] == ' ' {
        let cut = slice_of(&rest, 1, rest.len());
        assert(cut@ =~= rest@.skip(1));
        cut
    } else {
        rest
    };
    let comma: Vec<char> = vec![','];
    assert(comma@ =~= seq![',']);
    split_text(&list, &comma)
}

/// The entries of all the lines of a manifest that declare dependencies.
fn entries_of_manifest(manifest: &Vec<char>) -> (r: Vec<Vec<char>>)
    ensures
        texts(r@) == all_entries(split(manifest@, seq!['\n'])),
{
    let feed: Vec<char> = vec!['\n'];
    assert(feed@ =~= seq!['\n']);
    let lines = split_text(manifest, &feed);
    let prefix = chars_of("Plugin-Dependencies:");
    let mut out: Vec<Vec<char>> = Vec::new();
    let mut i: usize = 0;
    assert(texts(lines@).take(0) =~= Seq::<Seq<char>>::empty());
    assert(texts(out@) =~= Seq::<Seq<char>>::empty());
    while i < lines.len()
        invariant
            i <= lines.len(),
            prefix@ == dependency_prefix(),
            texts(out@) == all_entries(texts(lines@).take(i as int)),
        decreases lines.len() - i,
    {
        let ghost done = texts(lines@).take(i as int);
        let ghost next = texts(lines@).take(i + 1);
        assert(next.drop_last() =~= done);
        assert(next.last() == lines@[i as int]@);
        if has_prefix(&lines[i], &prefix) {
            let mut entries = entries_of_line(&lines[i], &prefix);
            let ghost before = texts(out@);
            let ghost added = texts(entries@);
            out.append(&mut entries);
            assert(texts(out@) =~= before + added);
        }
        i += 1;
    }
    assert(texts(lines@).take(lines.len() as int) =~= texts(lines@));
    out
}

/// The dependencies that a manifest declares, see `declared_dependencies`.
pub fn parse_dependencies(manifest: &str) -> (r: Result<Vec<ResolvedPackage>, AppError>)
    ensures
        match r {
            Ok(found) => declared_dependencies(manifest@) == Ok::<Seq<RequestView>, AppErrorView>(
                requests(found@),
            ),
            Err(e) => declared_dependencies(manifest@) == Err::<Seq<RequestView>, AppErrorView>(e@),
        },
{
    let text = chars_of(manifest);
    let entries = entries_of_manifest(&text);
    let mut out: Vec<ResolvedPackage> = Vec::new();
    let mut i: usize = 0;
    assert(texts(entries@).take(0) =~= Seq::<Seq<char>>::empty());
    assert(requests(out@) =~= Seq::<RequestView>::empty());
    while i < entries.len()
        invariant
            i <= entries.len(),
            texts(entries@) == all_entries(split(manifest@, seq!['\n'])),
            parse_entries(texts(entries@).take(i as int)) == Ok::<Seq<RequestView>, AppErrorView>(
                requests(out@),
            ),
        decreases entries.len() - i,
    {
        let ghost done = texts(entries@).take(i as int);
        let ghost next = texts(entries@).take(i + 1);
        assert(next.drop_last() =~= done);
        assert(next.last() == entries@[i as int]@);
        match entry_from_chars(&entries[i]) {
            Err(e) => {
                proof {
                    assert(parse_entries(next) == Err::<Seq<RequestView>, AppErrorView>(e@));
                    lemma_parse_entries_fails(texts(entries@), i + 1);
                }
                return Err(e);
            },
            Ok(p) => {
                let ghost before = requests(out@);
                out.push(p);
                assert(requests(out@) =~= before.push(p@));
            },
        }
        i += 1;
    }
    assert(texts(entries@).take(entries.len() as int) =~= texts(entries@));
    Ok(out)
}

} // verus!
