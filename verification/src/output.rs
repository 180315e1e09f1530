//! Output formats and the unified diffs that `--diff` prints.
use vstd::prelude::*;

use crate::text::{append_chars, chars_of, string_of};

verus! {

/// How `list` prints its rows.
#[derive(Debug, Clone, Copy, PartialEq, Eq, Structural)]
pub enum OutputFormat {
    Table,
    Json,
}

/// The unified diff (line based, three lines of context) that `similar`
/// renders from `old` to `new` with the given file headers.
pub uninterp spec fn unified_diff_text(
    old: Seq<char>,
    new: Seq<char>,
    old_path: Seq<char>,
    new_path: Seq<char>,
) -> Seq<char>;

/// The two header lines of a unified diff.
pub open spec fn diff_header(old_path: Seq<char>, new_path: Seq<char>) -> Seq<char> {
    seq!['-', '-', '-', ' '] + old_path + seq!['\n', '+', '+', '+', ' '] + new_path + seq!['\n']
}

/// `similar::TextDiff::from_lines(old, new).unified_diff().header(..)`, rendered
/// to a string. Claimed of it: the result is the named diff text; two equal
/// texts give an empty diff (no hunk); a non-empty diff starts with the two
/// header lines, which are written before the first hunk.
#[verifier::external_body]
fn unified_diff(old: &str, new: &str, old_path: &str, new_path: &str) -> (r: String)
    ensures
        r@ == unified_diff_text(old@, new@, old_path@, new_path@),
        old@ == new@ ==> r@.len() == 0,
        r@.len() > 0 ==> diff_header(old_path@, new_path@).is_prefix_of(r@),
{
    similar::TextDiff::from_lines(old, new).unified_diff().header(old_path, new_path).to_string()
}


/// The label of one side of a block diff: `path:lines:id:side`.
pub open spec fn block_label(path: Seq<char>, lines: Seq<char>, id: Seq<char>, side: Seq<char>) -> Seq<char> {
    path + seq![':'] + lines + seq![':'] + id + seq![':'] + side
}

pub open spec fn actual_word() -> Seq<char> {
    seq!['a', 'c', 't', 'u', 'a', 'l']
}

pub open spec fn expected_word() -> Seq<char> {
    seq!['e', 'x', 'p', 'e', 'c', 't', 'e', 'd']
}

/// The diff of a file before and after injection, with headers `a/path` and `b/path`.
pub fn file_diff(path: &str, original: &str, replaced: &str) -> (r: String)
    ensures
        r@ == unified_diff_text(
            original@,
            replaced@,
            seq!['a', '/'] + path@,
            seq!['b', '/'] + path@,
        ),
{
    let p = chars_of(path);
    let mut old_path: Vec<char> = Vec::new();
    old_path.push('a');
    old_path.push('/');
    append_chars(&mut old_path, p.as_slice());
    let mut new_path: Vec<char> = Vec::new();
    new_path.push('b');
    new_path.push('/');
    append_chars(&mut new_path, p.as_slice());
    assert(old_path@ =~= seq!['a', '/'] + path@);
    assert(new_path@ =~= seq!['b', '/'] + path@);
    let old_label = string_of(old_path.as_slice());
    let new_label = string_of(new_path.as_slice());
    unified_diff(original, replaced, old_label.as_str(), new_label.as_str())
}

fn label(path: &[char], lines: &[char], id: &[char], side: &[char]) -> (r: String)
    ensures
        r@ == block_label(path@, lines@, id@, side@),
{
    let mut v: Vec<char> = Vec::new();
    append_chars(&mut v, path);
    v.push(':');
    append_chars(&mut v, lines);
    v.push(':');
    append_chars(&mut v, id);
    v.push(':');
    append_chars(&mut v, side);
    assert(v@ =~= block_label(path@, lines@, id@, side@));
    string_of(v.as_slice())
}

/// The diff of an out-of-sync block, from its actual to its expected content,
/// with headers `path:lines:id:actual` and `path:lines:id:expected`.
pub fn block_diff(path: &str, lines: &str, id: &str, actual: &str, expected: &str) -> (r: String)
    ensures
        r@ == unified_diff_text(
            actual@,
            expected@,
            block_label(path@, lines@, id@, actual_word()),
            block_label(path@, lines@, id@, expected_word()),
        ),
{
    let p = chars_of(path);
    let l = chars_of(lines);
    let i = chars_of(id);
    let a = chars_of("actual");
    let e = chars_of("expected");
    proof {
        reveal_strlit("actual");
        reveal_strlit("expected");
    }
    assert(a@ =~= actual_word());
    assert(e@ =~= expected_word());
    let old_label = label(p.as_slice(), l.as_slice(), i.as_slice(), a.as_slice());
    let new_label = label(p.as_slice(), l.as_slice(), i.as_slice(), e.as_slice());
    unified_diff(actual, expected, old_label.as_str(), new_label.as_str())
}

} // verus!
