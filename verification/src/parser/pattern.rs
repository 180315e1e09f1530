//! Which files a set of patterns selects, and the parsed form of a selected file.
use vstd::prelude::*;

use crate::parser::error::{ParserError, ParserErrorView};
use crate::parser::marker::{extract_marker_blocks, marker_blocks_spec};
use crate::text::{append_chars, chars_of, seqs, slice_chars, string_of};
use crate::types::{blocks_view, comments_view, BlockView, Comment, ParsedFile};
use crate::validator::{ValidatorError, ValidatorErrorView};

verus! {

/// What `glob::Pattern::new` reports of a pattern it refuses: the position of
/// the error and its message; `None` when it accepts the pattern. Which
/// patterns are refused depends on the path separators of the target the
/// program is built for (`a\**\b` is valid where `\` separates paths, not
/// elsewhere), so two calls in one program always agree.
pub uninterp spec fn glob_pattern_error(pattern: Seq<char>) -> Option<(usize, Seq<char>)>;

/// Whether `glob::Pattern::new` accepts a pattern.
pub open spec fn glob_pattern_valid(pattern: Seq<char>) -> bool {
    glob_pattern_error(pattern) is None
}

/// What `glob::Pattern::matches_path` answers for a pattern and a path. Like
/// `glob_pattern_error`, it depends on the path separators of the target the
/// program is built for; within one program it depends on its arguments alone.
pub uninterp spec fn glob_matches(pattern: Seq<char>, path: Seq<char>) -> bool;

/// Calls `glob::Pattern::new(pattern)`; on an error, gives its position and
/// message. Claimed, not proved: the answer is `glob_pattern_error` of the
/// pattern, so it depends on the pattern alone.
#[verifier::external_body]
fn glob_pattern_check(pattern: &str) -> (r: Option<(usize, String)>)
    ensures
        match r {
            None => glob_pattern_error(pattern@) is None,
            Some((pos, msg)) => glob_pattern_error(pattern@) == Some((pos, msg@)),
        },
{
    match glob::Pattern::new(pattern) {
        Ok(_) => None,
        Err(e) => Some((e.pos, e.msg.to_string())),
    }
}

/// Compiles `pattern` with `glob::Pattern::new` and asks
/// `glob::Pattern::matches_path` whether it matches `path`. Claimed, not
/// proved: for a valid pattern the answer is `glob_matches` of the pattern and
/// the path, so it depends on those two alone.
#[verifier::external_body]
fn glob_matches_path(pattern: &str, path: &str) -> (b: bool)
    requires
        glob_pattern_valid(pattern@),
    ensures
        b == glob_matches(pattern@, path@),
{
    match glob::Pattern::new(pattern) {
        Ok(p) => p.matches_path(std::path::Path::new(path)),
        Err(_) => false,
    }
}

/// A path that a pattern expanded to, with what the file system and
/// `.gitignore` say of it.
#[derive(Debug)]
pub struct PatternEntry {
    pub path: String,
    /// The last component of the path, when it has one.
    pub file_name: Option<String>,
    pub is_dir: bool,
    /// Whether `.gitignore` ignores the path or one of its parents.
    pub git_ignored: bool,
}

/// A pattern (directories already written as `dir/**/*`) and the paths it expanded to.
#[derive(Debug)]
pub struct PatternMatch {
    pub pattern: String,
    pub entries: Vec<PatternEntry>,
}

pub open spec fn license_name() -> Seq<char> {
    seq!['L', 'I', 'C', 'E', 'N', 'S', 'E']
}

pub open spec fn git_dir_name() -> Seq<char> {
    seq!['.', 'g', 'i', 't']
}

/// Whether some exclude pattern matches `path`.
pub open spec fn excluded(excludes: Seq<String>, path: Seq<char>) -> bool {
    exists|k: int| 0 <= k < excludes.len() && glob_matches(excludes[k]@, path)
}

/// Whether an entry is kept: a file that is neither ignored, nor named
/// `LICENSE`, nor excluded.
pub open spec fn entry_kept(e: PatternEntry, excludes: Seq<String>) -> bool {
    &&& !e.git_ignored
    &&& !e.is_dir
    &&& !(e.file_name matches Some(n) && n@ == license_name())
    &&& !excluded(excludes, e.path@)
}

/// The first exclude pattern that is not a valid glob.
pub open spec fn first_invalid(excludes: Seq<String>) -> Option<int> {
    if exists|k: int| 0 <= k < excludes.len() && !glob_pattern_valid(excludes[k]@) {
        Some(
            choose|k: int|
                0 <= k < excludes.len() && !glob_pattern_valid(excludes[k]@) && forall|q: int|
                    0 <= q < k ==> glob_pattern_valid(excludes[q]@),
        )
    } else {
        None
    }
}

/// The first pattern that expanded to nothing.
pub open spec fn first_empty(patterns: Seq<PatternMatch>) -> Option<int> {
    if exists|k: int| 0 <= k < patterns.len() && patterns[k].entries@.len() == 0 {
        Some(
            choose|k: int|
                0 <= k < patterns.len() && patterns[k].entries@.len() == 0 && forall|q: int|
                    0 <= q < k ==> patterns[q].entries@.len() != 0,
        )
    } else {
        None
    }
}

/// A selected path comes from some pattern before the first empty one
/// (all of them when none is empty) and is kept.
pub open spec fn selected(patterns: Seq<PatternMatch>, excludes: Seq<String>, path: Seq<char>) -> bool {
    exists|k: int, j: int|
        0 <= k < patterns.len() && 0 <= j < patterns[k].entries@.len() && (match first_empty(
            patterns,
        ) {
            Some(f) => k < f,
            None => true,
        }) && patterns[k].entries@[j].path@ == path && entry_kept(
            patterns[k].entries@[j],
            excludes,
        )
}

pub open spec fn from_groups(patterns: Seq<PatternMatch>, excludes: Seq<String>, k: int, p: Seq<char>) -> bool {
    exists|a: int, b: int|
        0 <= a < k && 0 <= b < patterns[a].entries@.len() && patterns[a].entries@[b].path@ == p
            && entry_kept(patterns[a].entries@[b], excludes)
}

pub open spec fn from_group(entries: Seq<PatternEntry>, excludes: Seq<String>, e: int, p: Seq<char>) -> bool {
    exists|b: int| 0 <= b < e && entries[b].path@ == p && entry_kept(entries[b], excludes)
}

proof fn lemma_from_group_step(entries: Seq<PatternEntry>, excludes: Seq<String>, e: int, p: Seq<char>)
    requires
        0 <= e < entries.len(),
    ensures
        from_group(entries, excludes, e + 1, p) <==> (from_group(entries, excludes, e, p) || (
        entries[e].path@ == p && entry_kept(entries[e], excludes))),
{
    if from_group(entries, excludes, e + 1, p) {
        let b = choose|b: int| 0 <= b < e + 1 && entries[b].path@ == p && entry_kept(entries[b], excludes);
        if b < e {
            assert(from_group(entries, excludes, e, p));
        }
    }
}

proof fn lemma_from_groups_step(patterns: Seq<PatternMatch>, excludes: Seq<String>, k: int, p: Seq<char>)
    requires
        0 <= k < patterns.len(),
    ensures
        from_groups(patterns, excludes, k + 1, p) <==> (from_groups(patterns, excludes, k, p)
            || from_group(patterns[k].entries@, excludes, patterns[k].entries@.len() as int, p)),
{
    if from_groups(patterns, excludes, k + 1, p) {
        let (a, b) = choose|a: int, b: int|
            0 <= a < k + 1 && 0 <= b < patterns[a].entries@.len() && patterns[a].entries@[b].path@
                == p && entry_kept(patterns[a].entries@[b], excludes);
        if a < k {
            assert(from_groups(patterns, excludes, k, p));
        } else {
            assert(from_group(patterns[k].entries@, excludes, patterns[k].entries@.len() as int, p));
        }
    }
    if from_group(patterns[k].entries@, excludes, patterns[k].entries@.len() as int, p) {
        let b = choose|b: int|
            0 <= b < patterns[k].entries@.len() && patterns[k].entries@[b].path@ == p && entry_kept(
                patterns[k].entries@[b],
                excludes,
            );
        assert(from_groups(patterns, excludes, k + 1, p));
    }
    if from_groups(patterns, excludes, k, p) {
        let (a, b) = choose|a: int, b: int|
            0 <= a < k && 0 <= b < patterns[a].entries@.len() && patterns[a].entries@[b].path@ == p
                && entry_kept(patterns[a].entries@[b], excludes);
        assert(from_groups(patterns, excludes, k + 1, p));
    }
}

pub open spec fn string_views(v: Seq<String>) -> Seq<Seq<char>> {
    Seq::new(v.len(), |i: int| v[i]@)
}

fn same_text(a: &String, b: &String) -> (r: bool)
    ensures
        r == (a@ == b@),
{
    *a == *b
}

fn is_license(name: &Option<String>) -> (r: bool)
    ensures
        r == (name matches Some(n) && n@ == license_name()),
{
    match name {
        Some(n) => {
            let c = chars_of(n.as_str());
            if c.len() == 7 && c[0] == 'L' && c[1] == 'I' && c[2] == 'C' && c[3] == 'E' && c[4]
                == 'N' && c[5] == 'S' && c[6] == 'E' {
                assert(c@ =~= license_name());
                true
            } else {
                assert(c@ != license_name()) by {
                    if c@ == license_name() {
                        assert(c@[0] == 'L');
                    }
                }
                false
            }
        },
        None => false,
    }
}

/// Whether `name` is `.git`, a directory that walks skip.
pub fn is_ignored_dir(name: &str) -> (r: bool)
    ensures
        r == (name@ == git_dir_name()),
{
    let c = chars_of(name);
    if c.len() == 4 && c[0] == '.' && c[1] == 'g' && c[2] == 'i' && c[3] == 't' {
        assert(c@ =~= git_dir_name());
        true
    } else {
        assert(c@ != git_dir_name()) by {
            if c@ == git_dir_name() {
                assert(c@[0] == '.');
            }
        }
        false
    }
}

/// Whether `name` is `LICENSE`, a file that selection skips.
pub fn is_ignored_file(name: &str) -> (r: bool)
    ensures
        r == (name@ == license_name()),
{
    let n = Some(string_of(chars_of(name).as_slice()));
    is_license(&n)
}

fn is_excluded(excludes: &[String], path: &String) -> (r: bool)
    requires
        forall|k: int| 0 <= k < excludes@.len() ==> glob_pattern_valid(#[trigger] excludes@[k]@),
    ensures
        r == excluded(excludes@, path@),
{
    let mut k: usize = 0;
    while k < excludes.len()
        invariant
            k <= excludes.len(),
            forall|q: int| 0 <= q < excludes@.len() ==> glob_pattern_valid(#[trigger] excludes@[q]@),
            forall|q: int| 0 <= q < k ==> !glob_matches(#[trigger] excludes@[q]@, path@),
        decreases excludes.len() - k,
    {
        if glob_matches_path(excludes[k].as_str(), path.as_str()) {
            return true;
        }
        k = k + 1;
    }
    false
}

/// The files selected by `patterns`, each once, in the order first met: entries
/// that are files, not ignored by `.gitignore`, not named `LICENSE` and not
/// matched by an exclude pattern. An invalid exclude pattern, and a pattern that
/// expanded to nothing, are errors (the first of each, invalid excludes first).
pub fn pattern_set(patterns: &[PatternMatch], excludes: &[String]) -> (r: Result<Vec<String>, ParserError>)
    ensures
        match r {
            Ok(v) => first_invalid(excludes@) is None && first_empty(patterns@) is None && (forall|
                p: Seq<char>,
            | string_views(v@).contains(p) <==> selected(patterns@, excludes@, p)) && (forall|
                i: int,
                j: int,
            | 0 <= i < j < v@.len() ==> v@[i]@ != v@[j]@),
            Err(e) => match first_invalid(excludes@) {
                Some(k) => glob_pattern_error(excludes@[k]@) matches Some((pos, msg)) && e@ == (
                ParserErrorView::Pattern { pos, msg }),
                None => match first_empty(patterns@) {
                    Some(k) => e@ == (ParserErrorView::NoPatternMatch {
                        pattern: patterns@[k].pattern@,
                    }),
                    None => false,
                },
            },
        },
{
    let mut q: usize = 0;
    while q < excludes.len()
        invariant
            q <= excludes.len(),
            forall|i: int| 0 <= i < q ==> glob_pattern_valid(#[trigger] excludes@[i]@),
        decreases excludes.len() - q,
    {
        if let Some((pos, msg)) = glob_pattern_check(excludes[q].as_str()) {
            let ghost w = choose|k: int|
                0 <= k < excludes@.len() && !glob_pattern_valid(excludes@[k]@) && forall|i: int|
                    0 <= i < k ==> glob_pattern_valid(excludes@[i]@);
            assert(w == q) by {
                if w < q {
                    assert(glob_pattern_valid(excludes@[w]@));
                } else if w > q {
                }
            }
            return Err(ParserError::Pattern { pos, msg });
        }
        q = q + 1;
    }
    assert(first_invalid(excludes@) is None);
    let mut result: Vec<String> = Vec::new();
    let mut k: usize = 0;
    while k < patterns.len()
        invariant
            k <= patterns.len(),
            forall|i: int| 0 <= i < excludes@.len() ==> glob_pattern_valid(#[trigger] excludes@[i]@),
            forall|i: int| 0 <= i < k ==> patterns@[i].entries@.len() != 0,
            forall|p: Seq<char>|
                string_views(result@).contains(p) <==> from_groups(patterns@, excludes@, k as int, p),
            forall|i: int, j: int| 0 <= i < j < result@.len() ==> result@[i]@ != result@[j]@,
        decreases patterns.len() - k,
    {
        let group = &patterns[k];
        let mut e: usize = 0;
        let ghost before = string_views(result@);
        while e < group.entries.len()
            invariant
                k < patterns.len(),
                *group == patterns@[k as int],
                e <= group.entries.len(),
                forall|i: int| 0 <= i < excludes@.len() ==> glob_pattern_valid(#[trigger] excludes@[i]@),
                forall|p: Seq<char>|
                    string_views(result@).contains(p) <==> (from_groups(patterns@, excludes@, k as int, p)
                        || from_group(group.entries@, excludes@, e as int, p)),
                forall|i: int, j: int| 0 <= i < j < result@.len() ==> result@[i]@ != result@[j]@,
            decreases group.entries.len() - e,
        {
            let entry = &group.entries[e];
            let keep = !entry.git_ignored && !entry.is_dir && !is_license(&entry.file_name)
                && !is_excluded(excludes, &entry.path);
            assert(keep == entry_kept(*entry, excludes@));
            assert(group.entries@[e as int] == *entry);
            let ghost prev_all = string_views(result@);
            assert forall|p: Seq<char>| from_group(group.entries@, excludes@, e + 1, p) <==> (from_group(group.entries@, excludes@, e as int, p) || (entry.path@ == p && keep)) by {
                lemma_from_group_step(group.entries@, excludes@, e as int, p);
            }
            if keep {
                let mut seen = false;
                let mut i: usize = 0;
                #[verifier::loop_isolation(false)]
                while i < result.len()
                    invariant
                        i <= result.len(),
                        seen <==> exists|q: int| 0 <= q < i && result@[q]@ == entry.path@,
                    decreases result.len() - i,
                {
                    if same_text(&result[i], &entry.path) {
                        seen = true;
                    }
                    i = i + 1;
                }
                if !seen {
                    let ghost prev = string_views(result@);
                    result.push(entry.path.clone());
                    assert(string_views(result@) =~= prev.push(entry.path@));
                    assert forall|p: Seq<char>| string_views(result@).contains(p) <==> (prev.contains(p)
                        || p == entry.path@) by {
                        if p == entry.path@ {
                            assert(string_views(result@)[prev.len() as int] == p);
                        }
                        if prev.contains(p) {
                            let w = choose|x: int| 0 <= x < prev.len() && prev[x] == p;
                            assert(string_views(result@)[w] == p);
                        }
                        if string_views(result@).contains(p) && p != entry.path@ {
                            let w = choose|x: int| 0 <= x < string_views(result@).len() && string_views(result@)[x] == p;
                            assert(prev[w] == p);
                        }
                    }
                    assert(prev == prev_all);
                } else {
                    assert(string_views(result@).contains(entry.path@)) by {
                        let w = choose|q: int| 0 <= q < result@.len() && result@[q]@ == entry.path@;
                        assert(string_views(result@)[w] == entry.path@);
                    }
                }
            }
            assert forall|p: Seq<char>| string_views(result@).contains(p) <==> (prev_all.contains(p) || (entry.path@ == p && keep)) by {
            }
            assert forall|p: Seq<char>| string_views(result@).contains(p) <==> (from_groups(patterns@, excludes@, k as int, p)
                || from_group(group.entries@, excludes@, e + 1, p)) by {
                lemma_from_group_step(group.entries@, excludes@, e as int, p);
                assert(prev_all.contains(p) <==> (from_groups(patterns@, excludes@, k as int, p)
                    || from_group(group.entries@, excludes@, e as int, p)));
            }
            e = e + 1;
        }
        assert forall|p: Seq<char>| string_views(result@).contains(p) <==> from_groups(patterns@, excludes@, k + 1, p) by {
            lemma_from_groups_step(patterns@, excludes@, k as int, p);
        }
        if group.entries.len() == 0 {
            let ghost w = choose|a: int|
                0 <= a < patterns@.len() && patterns@[a].entries@.len() == 0 && forall|i: int|
                    0 <= i < a ==> patterns@[i].entries@.len() != 0;
            assert(patterns@[k as int].entries@.len() == 0);
            assert(w == k) by {
                if w < k {
                } else if w > k {
                }
            }
            return Err(ParserError::NoPatternMatch { pattern: group.pattern.clone() });
        }
        k = k + 1;
    }
    assert(first_empty(patterns@) is None);
    assert forall|p: Seq<char>| from_groups(patterns@, excludes@, patterns@.len() as int, p) <==> selected(patterns@, excludes@, p) by {
        if selected(patterns@, excludes@, p) {
            let (a, b) = choose|a: int, b: int|
                0 <= a < patterns@.len() && 0 <= b < patterns@[a].entries@.len() && (match first_empty(
                    patterns@,
                ) {
                    Some(f) => a < f,
                    None => true,
                }) && patterns@[a].entries@[b].path@ == p && entry_kept(
                    patterns@[a].entries@[b],
                    excludes@,
                );
            assert(from_groups(patterns@, excludes@, patterns@.len() as int, p));
        }
    }
    Ok(result)
}

/// A file with the marker blocks its comments give.
pub fn parse_file(path: &str, content: &str, comments: &[Comment]) -> (r: Result<ParsedFile, ParserError>)
    requires
        marker_blocks_spec(content@, path@, comments_view(comments@)) is Some,
    ensures
        match r {
            Ok(f) => f.path@ == path@ && f.content@ == content@ && marker_blocks_spec(
                content@,
                path@,
                comments_view(comments@),
            ) == Some(Ok::<Seq<BlockView>, ParserErrorView>(blocks_view(f.blocks@))),
            Err(e) => marker_blocks_spec(content@, path@, comments_view(comments@)) == Some(
                Err::<Seq<BlockView>, ParserErrorView>(e@),
            ),
        },
{
    let blocks = match extract_marker_blocks(content, path, comments) {
        Ok(b) => b,
        Err(e) => {
            return Err(e);
        },
    };
    Ok(
        ParsedFile {
            content: string_of(chars_of(content).as_slice()),
            blocks,
            path: string_of(chars_of(path).as_slice()),
        },
    )
}

/// What was read of a selected file: whether its bytes are binary, its text,
/// and its comments in document order (`None` when its language is not
/// supported).
#[derive(Debug)]
pub struct SourceFile {
    pub path: String,
    pub binary: bool,
    pub content: String,
    pub comments: Option<Vec<Comment>>,
}

/// The first source read for `path`.
pub open spec fn source_for(sources: Seq<SourceFile>, path: Seq<char>) -> Option<int> {
    if exists|i: int| 0 <= i < sources.len() && sources[i].path@ == path {
        Some(
            choose|i: int|
                0 <= i < sources.len() && sources[i].path@ == path && forall|q: int|
                    0 <= q < i ==> sources[q].path@ != path,
        )
    } else {
        None
    }
}

/// Whether the comments of every source mark blocks within its lines.
pub open spec fn sources_in_range(sources: Seq<SourceFile>) -> bool {
    forall|i: int|
        0 <= i < sources.len() ==> match #[trigger] sources[i].comments {
            Some(c) => marker_blocks_spec(sources[i].content@, sources[i].path@, comments_view(c@))
                is Some,
            None => true,
        }
}

/// The content and blocks of the file at `path`, or why it cannot be parsed:
/// it was not read, it is binary, its language is unsupported, or its markers
/// are wrong.
pub open spec fn file_outcome(sources: Seq<SourceFile>, path: Seq<char>) -> Result<
    (Seq<char>, Seq<BlockView>),
    ParserErrorView,
> {
    match source_for(sources, path) {
        None => Err(ParserErrorView::Checker(ValidatorErrorView::FileNotExist { path })),
        Some(i) => if sources[i].binary {
            Err(ParserErrorView::Checker(ValidatorErrorView::BinaryFile { path }))
        } else {
            match sources[i].comments {
                None => Err(ParserErrorView::UnsupportedFileType { path }),
                Some(c) => match marker_blocks_spec(sources[i].content@, path, comments_view(c@)) {
                    Some(Ok(bs)) => Ok((sources[i].content@, bs)),
                    Some(Err(e)) => Err(e),
                    None => Err(ParserErrorView::UnsupportedFileType { path }),
                },
            }
        },
    }
}

fn find_source(sources: &[SourceFile], path: &String) -> (r: Option<usize>)
    ensures
        match r {
            Some(i) => i < sources@.len() && sources@[i as int].path@ == path@ && source_for(
                sources@,
                path@,
            ) == Some(i as int),
            None => source_for(sources@, path@) is None,
        },
{
    let mut i: usize = 0;
    while i < sources.len()
        invariant
            i <= sources.len(),
            forall|q: int| 0 <= q < i ==> sources@[q].path@ != path@,
        decreases sources.len() - i,
    {
        if same_text(&sources[i].path, path) {
            let ghost c = choose|m: int|
                0 <= m < sources@.len() && sources@[m].path@ == path@ && forall|q: int|
                    0 <= q < m ==> sources@[q].path@ != path@;
            assert(c == i) by {
                if c < i {
                } else if c > i {
                }
            }
            return Some(i);
        }
        i = i + 1;
    }
    None
}

/// Parses one selected file from what was read of it.
fn parse_source(sources: &[SourceFile], path: &String) -> (r: Result<ParsedFile, ParserError>)
    requires
        sources_in_range(sources@),
    ensures
        match r {
            Ok(f) => f.path@ == path@ && file_outcome(sources@, path@) == Ok::<
                (Seq<char>, Seq<BlockView>),
                ParserErrorView,
            >((f.content@, blocks_view(f.blocks@))),
            Err(e) => file_outcome(sources@, path@) == Err::<(Seq<char>, Seq<BlockView>), ParserErrorView>(
                e@,
            ),
        },
{
    match find_source(sources, path) {
        None => Err(ParserError::Checker(ValidatorError::FileNotExist { path: path.clone() })),
        Some(i) => {
            let src = &sources[i];
            if src.binary {
                return Err(ParserError::Checker(ValidatorError::BinaryFile { path: path.clone() }));
            }
            match &src.comments {
                None => Err(ParserError::UnsupportedFileType { path: path.clone() }),
                Some(c) => {
                    assert(sources@[i as int].path@ == path@);
                    assert(match sources@[i as int].comments {
                        Some(c) => marker_blocks_spec(sources@[i as int].content@, sources@[i as int].path@, comments_view(c@)) is Some,
                        None => true,
                    });
                    parse_file(path.as_str(), src.content.as_str(), c.as_slice())
                },
            }
        },
    }
}

/// Whether every selected path parses.
pub open spec fn all_parse(sources: Seq<SourceFile>, patterns: Seq<PatternMatch>, excludes: Seq<String>) -> bool {
    forall|p: Seq<char>| selected(patterns, excludes, p) ==> (#[trigger] file_outcome(sources, p)) is Ok
}

/// Parses each of `paths` from `sources`, in order; the first failure is returned.
fn parse_sources(sources: &[SourceFile], paths: &Vec<String>) -> (r: Result<Vec<ParsedFile>, ParserError>)
    requires
        sources_in_range(sources@),
    ensures
        match r {
            Ok(files) => files@.len() == paths@.len() && (forall|q: int|
                0 <= q < files@.len() ==> #[trigger] files@[q].path@ == paths@[q]@) && (forall|q: int|
                0 <= q < files@.len() ==> file_outcome(sources@, #[trigger] files@[q].path@) == Ok::<
                    (Seq<char>, Seq<BlockView>),
                    ParserErrorView,
                >((files@[q].content@, blocks_view(files@[q].blocks@)))),
            Err(e) => exists|q: int|
                0 <= q < paths@.len() && file_outcome(sources@, #[trigger] paths@[q]@) == Err::<
                    (Seq<char>, Seq<BlockView>),
                    ParserErrorView,
                >(e@),
        },
{
    let mut files: Vec<ParsedFile> = Vec::new();
    let mut i: usize = 0;
    while i < paths.len()
        invariant
            i <= paths.len(),
            sources_in_range(sources@),
            files@.len() == i,
            forall|q: int| 0 <= q < i ==> #[trigger] files@[q].path@ == paths@[q]@,
            forall|q: int|
                0 <= q < i ==> file_outcome(sources@, #[trigger] files@[q].path@) == Ok::<
                    (Seq<char>, Seq<BlockView>),
                    ParserErrorView,
                >((files@[q].content@, blocks_view(files@[q].blocks@))),
        decreases paths.len() - i,
    {
        match parse_source(sources, &paths[i]) {
            Ok(f) => {
                files.push(f);
            },
            Err(e) => {
                assert(file_outcome(sources@, paths@[i as int]@) == Err::<
                    (Seq<char>, Seq<BlockView>),
                    ParserErrorView,
                >(e@));
                return Err(e);
            },
        }
        i = i + 1;
    }
    Ok(files)
}

proof fn lemma_files_cover(
    patterns: Seq<PatternMatch>,
    excludes: Seq<String>,
    sources: Seq<SourceFile>,
    paths: Seq<String>,
    files: Seq<ParsedFile>,
)
    requires
        forall|p: Seq<char>| string_views(paths).contains(p) <==> selected(patterns, excludes, p),
        files.len() == paths.len(),
        forall|q: int| 0 <= q < files.len() ==> #[trigger] files[q].path@ == paths[q]@,
        forall|q: int|
            0 <= q < files.len() ==> file_outcome(sources, #[trigger] files[q].path@) == Ok::<
                (Seq<char>, Seq<BlockView>),
                ParserErrorView,
            >((files[q].content@, blocks_view(files[q].blocks@))),
    ensures
        all_parse(sources, patterns, excludes),
        forall|p: Seq<char>|
            (exists|i: int| 0 <= i < files.len() && #[trigger] files[i].path@ == p) <==> selected(
                patterns,
                excludes,
                p,
            ),
{
    assert forall|p: Seq<char>| selected(patterns, excludes, p) implies (#[trigger] file_outcome(
        sources,
        p,
    )) is Ok by {
        assert(string_views(paths).contains(p));
        let w = choose|x: int| 0 <= x < string_views(paths).len() && string_views(paths)[x] == p;
        assert(files[w].path@ == p);
    }
    assert forall|p: Seq<char>|
        (exists|i: int| 0 <= i < files.len() && #[trigger] files[i].path@ == p) <==> selected(
            patterns,
            excludes,
            p,
        ) by {
        if selected(patterns, excludes, p) {
            assert(string_views(paths).contains(p));
            let w = choose|x: int| 0 <= x < string_views(paths).len() && string_views(paths)[x] == p;
            assert(files[w].path@ == p);
        }
        if exists|i: int| 0 <= i < files.len() && #[trigger] files[i].path@ == p {
            let w = choose|i: int| 0 <= i < files.len() && #[trigger] files[i].path@ == p;
            assert(string_views(paths)[w] == p);
        }
    }
}

/// The parsed files that `patterns` select (see `pattern_set`), each from what
/// was read of it in `sources`. On success every selected path gives one file,
/// with the content and blocks its source gives; otherwise the error is that of
/// the patterns, or that of some selected file.
pub fn parse_patterns(patterns: &[PatternMatch], excludes: &[String], sources: &[SourceFile]) -> (r: Result<
    Vec<ParsedFile>,
    ParserError,
>)
    requires
        sources_in_range(sources@),
    ensures
        r is Ok <==> (first_invalid(excludes@) is None && first_empty(patterns@) is None
            && all_parse(sources@, patterns@, excludes@)),
        match r {
            Ok(files) => (forall|p: Seq<char>|
                (exists|i: int| 0 <= i < files@.len() && #[trigger] files@[i].path@ == p)
                    <==> selected(patterns@, excludes@, p)) && (forall|i: int, j: int|
                0 <= i < j < files@.len() ==> files@[i].path@ != files@[j].path@) && (forall|i: int|
                0 <= i < files@.len() ==> file_outcome(sources@, #[trigger] files@[i].path@)
                    == Ok::<(Seq<char>, Seq<BlockView>), ParserErrorView>(
                    (files@[i].content@, blocks_view(files@[i].blocks@)),
                )),
            Err(e) => match first_invalid(excludes@) {
                Some(k) => glob_pattern_error(excludes@[k]@) matches Some((pos, msg)) && e@ == (
                ParserErrorView::Pattern { pos, msg }),
                None => match first_empty(patterns@) {
                    Some(k) => e@ == (ParserErrorView::NoPatternMatch {
                        pattern: patterns@[k].pattern@,
                    }),
                    None => exists|p: Seq<char>|
                        selected(patterns@, excludes@, p) && file_outcome(sources@, p) == Err::<
                            (Seq<char>, Seq<BlockView>),
                            ParserErrorView,
                        >(e@),
                },
            },
        },
{
    let paths = match pattern_set(patterns, excludes) {
        Ok(v) => v,
        Err(e) => {
            return Err(e);
        },
    };
    let files = match parse_sources(sources, &paths) {
        Ok(files) => files,
        Err(e) => {
            proof {
                let q = choose|q: int|
                    0 <= q < paths@.len() && file_outcome(sources@, #[trigger] paths@[q]@) == Err::<
                        (Seq<char>, Seq<BlockView>),
                        ParserErrorView,
                    >(e@);
                assert(string_views(paths@)[q] == paths@[q]@);
                assert(string_views(paths@).contains(paths@[q]@));
                assert(selected(patterns@, excludes@, paths@[q]@));
                assert(!all_parse(sources@, patterns@, excludes@));
            }
            return Err(e);
        },
    };
    proof {
        lemma_files_cover(patterns@, excludes@, sources@, paths@, files@);
    }
    Ok(files)
}

pub open spec fn trailing_slashes_trimmed(s: Seq<char>) -> Seq<char>
    decreases s.len(),
{
    if s.len() > 0 && (s.last() == '/' || s.last() == '\\') {
        trailing_slashes_trimmed(s.drop_last())
    } else {
        s
    }
}

pub open spec fn recursive_suffix() -> Seq<char> {
    seq!['/', '*', '*', '/', '*']
}

pub open spec fn recursive_suffix_windows() -> Seq<char> {
    seq!['\\', '*', '*', '\\', '*']
}

/// The glob that stands for a directory: its path without trailing separators,
/// followed by `/**/*`.
pub fn directory_glob(dir: &str) -> (r: String)
    ensures
        r@ == trailing_slashes_trimmed(dir@) + recursive_suffix(),
{
    let c = chars_of(dir);
    let mut n = c.len();
    assert(c@.take(n as int) =~= c@);
    while n > 0 && (c[n - 1] == '/' || c[n - 1] == '\\')
        invariant
            n <= c.len(),
            trailing_slashes_trimmed(c@) == trailing_slashes_trimmed(c@.take(n as int)),
        decreases n,
    {
        assert(c@.take(n as int).drop_last() =~= c@.take(n - 1));
        n = n - 1;
    }
    let mut v = slice_chars(c.as_slice(), 0, n);
    assert(v@ =~= c@.take(n as int));
    let suffix = chars_of("/**/*");
    proof {
        reveal_strlit("/**/*");
    }
    assert(suffix@ =~= recursive_suffix());
    append_chars(&mut v, suffix.as_slice());
    string_of(v.as_slice())
}

/// The root of a pattern of the form `root/**/*` (or `root\**\*`).
pub open spec fn recursive_glob_root_spec(pattern: Seq<char>) -> Option<Seq<char>> {
    if pattern.len() >= 5 && pattern.skip(pattern.len() - 5) == recursive_suffix() {
        Some(pattern.take(pattern.len() - 5))
    } else if pattern.len() >= 5 && pattern.skip(pattern.len() - 5) == recursive_suffix_windows() {
        Some(pattern.take(pattern.len() - 5))
    } else {
        None
    }
}

/// The directory that a `dir/**/*` pattern walks, if the pattern has that form.
pub fn recursive_glob_root(pattern: &str) -> (r: Option<String>)
    ensures
        match r {
            Some(root) => recursive_glob_root_spec(pattern@) == Some(root@),
            None => recursive_glob_root_spec(pattern@) is None,
        },
{
    let c = chars_of(pattern);
    let n = c.len();
    if n < 5 {
        return None;
    }
    let tail = slice_chars(c.as_slice(), n - 5, n);
    assert(tail@ =~= c@.skip(n - 5));
    let unix = tail[0] == '/' && tail[1] == '*' && tail[2] == '*' && tail[3] == '/' && tail[4] == '*';
    let windows = tail[0] == '\\' && tail[1] == '*' && tail[2] == '*' && tail[3] == '\\' && tail[4]
        == '*';
    if unix {
        assert(tail@ =~= recursive_suffix());
    } else {
        assert(tail@ != recursive_suffix()) by {
            if tail@ == recursive_suffix() {
                assert(tail@[0] == '/');
            }
        }
    }
    if windows {
        assert(tail@ =~= recursive_suffix_windows());
    } else {
        assert(tail@ != recursive_suffix_windows()) by {
            if tail@ == recursive_suffix_windows() {
                assert(tail@[0] == '\\');
            }
        }
    }
    if unix || windows {
        let root = slice_chars(c.as_slice(), 0, n - 5);
        assert(root@ =~= c@.take(n - 5));
        Some(string_of(root.as_slice()))
    } else {
        None
    }
}

/// Exclusion applies to every pattern: a path that an exclude pattern matches
/// is never selected, whichever pattern produced it.
pub proof fn law_excluded_never_selected(patterns: Seq<PatternMatch>, excludes: Seq<String>, path: Seq<char>)
    requires
        excluded(excludes, path),
    ensures
        !selected(patterns, excludes, path),
{
}

} // verus!
