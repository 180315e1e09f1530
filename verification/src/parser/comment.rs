//! HTML comments (`<!-- ... -->`) inside the HTML blocks of a Markdown text.
use vstd::prelude::*;

use crate::text::{chars_of, join, join_chars, seqs, slice_chars, split, split_chars, string_of, trim};
use crate::types::{comments_view, Comment, CommentView};

verus! {

/// Number of newline characters in `s`.
pub open spec fn newlines(s: Seq<char>) -> nat
    decreases s.len(),
{
    if s.len() == 0 {
        0
    } else {
        newlines(s.drop_last()) + if s.last() == '\n' {
            1nat
        } else {
            0nat
        }
    }
}

/// Index of the first occurrence of `pat` in `s` (`str::find`).
pub open spec fn find_first(s: Seq<char>, pat: Seq<char>) -> Option<int>
    decreases s.len(),
{
    if s.len() < pat.len() {
        None
    } else if s.take(pat.len() as int) == pat {
        Some(0)
    } else if s.len() == 0 {
        None
    } else {
        match find_first(s.drop_first(), pat) {
            Some(i) => Some(i + 1),
            None => None,
        }
    }
}

pub open spec fn open_mark() -> Seq<char> {
    seq!['<', '!', '-', '-']
}

pub open spec fn close_mark() -> Seq<char> {
    seq!['-', '-', '>']
}

/// The comments of an HTML block `raw` whose first line is `start_line`, reading
/// from index `from`: each `<!--` with a later `-->` gives its trimmed text (when
/// not empty) and the lines of its two ends.
pub open spec fn block_comments(raw: Seq<char>, from: int, start_line: int) -> Seq<CommentView>
    decreases raw.len() - from,
{
    if from < 0 || from >= raw.len() {
        Seq::empty()
    } else {
        match find_first(raw.skip(from), open_mark()) {
            None => Seq::empty(),
            Some(rs) => {
                let cs = from + rs;
                let ts = cs + 4;
                match find_first(raw.skip(ts), close_mark()) {
                    None => Seq::empty(),
                    Some(re) => {
                        let te = ts + re;
                        let ce = te + 3;
                        let text = trim(raw.subrange(ts, te));
                        let rest = if ce > from && ce <= raw.len() {
                            block_comments(raw, ce, start_line)
                        } else {
                            Seq::empty()
                        };
                        if text.len() > 0 {
                            seq![
                                (
                                    text,
                                    (start_line + newlines(raw.take(cs))) as usize,
                                    (start_line + newlines(raw.take(ce))) as usize,
                                ),
                            ] + rest
                        } else {
                            rest
                        }
                    },
                }
            },
        }
    }
}

/// The last line of an HTML block: a block that ends at column 0 of a later row
/// ends on the row before.
pub open spec fn html_block_last_line(start_row: usize, end_row: usize, end_column: usize) -> int {
    if end_column == 0 && end_row > start_row {
        end_row - 1
    } else {
        end_row as int
    }
}

/// Rows of an HTML block of a Markdown text, as the Markdown parser reports them.
#[derive(Debug, Clone, Copy)]
pub struct HtmlBlock {
    pub start_row: usize,
    pub end_row: usize,
    pub end_column: usize,
}

pub open spec fn html_block_in_range(b: HtmlBlock, n_lines: nat) -> bool {
    b.start_row <= html_block_last_line(b.start_row, b.end_row, b.end_column) < n_lines
}

/// The comments of one HTML block of `content`.
pub open spec fn html_block_comments(content: Seq<char>, b: HtmlBlock) -> Seq<CommentView> {
    let pieces = split(content, '\n');
    let last = html_block_last_line(b.start_row, b.end_row, b.end_column);
    block_comments(join(pieces.subrange(b.start_row as int, last + 1), '\n'), 0, b.start_row as int)
}

/// The comments of all HTML blocks, block after block.
pub open spec fn markdown_comments_spec(content: Seq<char>, blocks: Seq<HtmlBlock>) -> Seq<CommentView>
    decreases blocks.len(),
{
    if blocks.len() == 0 {
        Seq::empty()
    } else {
        markdown_comments_spec(content, blocks.drop_last()) + html_block_comments(
            content,
            blocks.last(),
        )
    }
}

/// Number of newline characters in `text`.
pub fn count_newlines(text: &[char]) -> (n: usize)
    ensures
        n == newlines(text@),
{
    let mut n: usize = 0;
    let mut i: usize = 0;
    assert(text@.take(0) =~= Seq::<char>::empty());
    while i < text.len()
        invariant
            i <= text.len(),
            n == newlines(text@.take(i as int)),
            n <= i,
        decreases text.len() - i,
    {
        assert(text@.take(i + 1).drop_last() =~= text@.take(i as int));
        if text[i] == '\n' {
            n = n + 1;
        }
        i = i + 1;
    }
    assert(text@.take(text.len() as int) =~= text@);
    n
}

proof fn lemma_newlines_prefix(s: Seq<char>, k: int)
    requires
        0 <= k <= s.len(),
    ensures
        newlines(s.take(k)) <= newlines(s),
    decreases s.len() - k,
{
    if k < s.len() {
        assert(s.take(k + 1).drop_last() =~= s.take(k));
        lemma_newlines_prefix(s, k + 1);
    } else {
        assert(s.take(k) =~= s);
    }
}

/// First occurrence of `pat` in `s[from..]`, as an index of `s`.
fn find_from(s: &[char], from: usize, pat: &[char]) -> (r: Option<usize>)
    requires
        from <= s.len(),
        pat.len() > 0,
    ensures
        match r {
            Some(i) => find_first(s@.skip(from as int), pat@) == Some(i - from) && from <= i && i
                + pat.len() <= s.len(),
            None => find_first(s@.skip(from as int), pat@) is None,
        },
{
    let mut i = from;
    while i < s.len()
        invariant
            from <= i <= s.len(),
            pat.len() > 0,
            find_first(s@.skip(from as int), pat@) == match find_first(s@.skip(i as int), pat@) {
                Some(k) => Some(k + (i - from)),
                None => None::<int>,
            },
        decreases s.len() - i,
    {
        let ghost t = s@.skip(i as int);
        if s.len() - i < pat.len() {
            assert(find_first(t, pat@) is None);
            return None;
        }
        let mut j: usize = 0;
        while j < pat.len() && s[i + j] == pat[j]
            invariant
                i + pat.len() <= s.len(),
                j <= pat.len(),
                forall|q: int| 0 <= q < j ==> s@[i + q] == pat@[q],
            decreases pat.len() - j,
        {
            j = j + 1;
        }
        if j == pat.len() {
            assert(t.take(pat.len() as int) =~= pat@);
            return Some(i);
        }
        assert(t.take(pat.len() as int) != pat@) by {
            assert(t.take(pat.len() as int)[j as int] == s@[i + j]);
        }
        assert(t.drop_first() =~= s@.skip(i + 1));
        i = i + 1;
    }
    assert(s@.skip(i as int).len() == 0);
    assert(find_first(s@.skip(i as int), pat@) is None);
    None
}

fn trim_text(s: &[char]) -> (r: Vec<char>)
    ensures
        r@ == trim(s@),
{
    crate::parser::config::trim_chars(s)
}

/// Appends the comments of the HTML block `raw_text`, whose first line is
/// `block_start_line`, to `comments`.
pub fn extract_comments_from_block(raw_text: &[char], block_start_line: usize, comments: &mut Vec<Comment>)
    requires
        block_start_line + newlines(raw_text@) <= usize::MAX,
    ensures
        comments_view(final(comments)@) == comments_view(old(comments)@) + block_comments(
            raw_text@,
            0,
            block_start_line as int,
        ),
{
    let open = chars_of("<!--");
    let close = chars_of("-->");
    proof {
        reveal_strlit("<!--");
        reveal_strlit("-->");
    }
    assert(open@ =~= open_mark());
    assert(close@ =~= close_mark());
    let ghost start = comments_view(old(comments)@);
    let mut search_from: usize = 0;
    while search_from < raw_text.len()
        invariant
            search_from <= raw_text.len(),
            open@ == open_mark(),
            close@ == close_mark(),
            block_start_line + newlines(raw_text@) <= usize::MAX,
            start + block_comments(raw_text@, 0, block_start_line as int) == comments_view(comments@)
                + block_comments(raw_text@, search_from as int, block_start_line as int),
        ensures
            start + block_comments(raw_text@, 0, block_start_line as int) == comments_view(comments@),
        decreases raw_text.len() - search_from,
    {
        let comment_start = match find_from(raw_text, search_from, open.as_slice()) {
            Some(i) => i,
            None => {
                assert(block_comments(raw_text@, search_from as int, block_start_line as int)
                    =~= Seq::<CommentView>::empty());
                assert(comments_view(comments@) + Seq::<CommentView>::empty() =~= comments_view(comments@));
                break;
            },
        };
        let text_start = comment_start + 4;
        let text_end = match find_from(raw_text, text_start, close.as_slice()) {
            Some(i) => i,
            None => {
                assert(block_comments(raw_text@, search_from as int, block_start_line as int)
                    =~= Seq::<CommentView>::empty());
                assert(comments_view(comments@) + Seq::<CommentView>::empty() =~= comments_view(comments@));
                break;
            },
        };
        let comment_end = text_end + 3;
        let inner = slice_chars(raw_text, text_start, text_end);
        let text = trim_text(inner.as_slice());
        let before_start = slice_chars(raw_text, 0, comment_start);
        let before_end = slice_chars(raw_text, 0, comment_end);
        proof {
            lemma_newlines_prefix(raw_text@, comment_start as int);
            lemma_newlines_prefix(raw_text@, comment_end as int);
        }
        assert(before_start@ =~= raw_text@.take(comment_start as int));
        assert(before_end@ =~= raw_text@.take(comment_end as int));
        let start_line = block_start_line + count_newlines(before_start.as_slice());
        let end_line = block_start_line + count_newlines(before_end.as_slice());
        let ghost rest = block_comments(raw_text@, comment_end as int, block_start_line as int);
        let ghost here = block_comments(raw_text@, search_from as int, block_start_line as int);
        if text.len() > 0 {
            let ghost prev = comments_view(comments@);
            let c = Comment { text: string_of(text.as_slice()), start_line, end_line };
            comments.push(c);
            assert(comments_view(comments@) =~= prev.push(
                (text@, start_line, end_line),
            ));
            assert(here =~= seq![(text@, start_line, end_line)] + rest);
        } else {
            assert(here == rest);
        }
        search_from = comment_end;
        if search_from >= raw_text.len() {
            assert(block_comments(raw_text@, search_from as int, block_start_line as int)
                =~= Seq::<CommentView>::empty());
            assert(comments_view(comments@) + Seq::<CommentView>::empty() =~= comments_view(comments@));
        }
    }
}

/// Whether every HTML block lies within the lines of `content` (what
/// `markdown_comments` requires).
pub fn html_blocks_in_range(content: &str, blocks: &[HtmlBlock]) -> (b: bool)
    ensures
        b == forall|i: int|
            0 <= i < blocks@.len() ==> html_block_in_range(
                #[trigger] blocks@[i],
                split(content@, '\n').len(),
            ),
{
    let chars = chars_of(content);
    let n = split_chars(chars.as_slice(), '\n').len();
    let mut i: usize = 0;
    while i < blocks.len()
        invariant
            i <= blocks.len(),
            n == split(content@, '\n').len(),
            forall|q: int| 0 <= q < i ==> html_block_in_range(#[trigger] blocks@[q], n as nat),
        decreases blocks.len() - i,
    {
        let b = blocks[i];
        let last = if b.end_column == 0 && b.end_row > b.start_row {
            b.end_row - 1
        } else {
            b.end_row
        };
        if !(b.start_row <= last && last < n) {
            assert(!html_block_in_range(blocks@[i as int], n as nat));
            return false;
        }
        i = i + 1;
    }
    true
}

/// The comments inside the HTML blocks `blocks` of the Markdown text `content`.
pub fn markdown_comments(content: &str, blocks: &[HtmlBlock]) -> (r: Vec<Comment>)
    requires
        forall|i: int|
            0 <= i < blocks@.len() ==> html_block_in_range(
                #[trigger] blocks@[i],
                split(content@, '\n').len(),
            ),
    ensures
        comments_view(r@) == markdown_comments_spec(content@, blocks@),
{
    let chars = chars_of(content);
    let pieces = split_chars(chars.as_slice(), '\n');
    let mut comments: Vec<Comment> = Vec::new();
    let mut k: usize = 0;
    assert(blocks@.take(0) =~= Seq::<HtmlBlock>::empty());
    assert(comments_view(comments@) =~= Seq::<CommentView>::empty());
    while k < blocks.len()
        invariant
            k <= blocks.len(),
            seqs(pieces@) == split(content@, '\n'),
            forall|i: int|
                0 <= i < blocks@.len() ==> html_block_in_range(
                    #[trigger] blocks@[i],
                    split(content@, '\n').len(),
                ),
            comments_view(comments@) == markdown_comments_spec(content@, blocks@.take(k as int)),
        decreases blocks.len() - k,
    {
        let b = blocks[k];
        assert(html_block_in_range(blocks@[k as int], split(content@, '\n').len()));
        let last = if b.end_column == 0 && b.end_row > b.start_row {
            b.end_row - 1
        } else {
            b.end_row
        };
        let mut window: Vec<Vec<char>> = Vec::new();
        let mut i = b.start_row;
        while i <= last
            invariant
                b.start_row <= i <= last + 1,
                last < pieces.len(),
                seqs(window@) == seqs(pieces@).subrange(b.start_row as int, i as int),
            decreases last + 1 - i,
        {
            let l = slice_chars(pieces[i].as_slice(), 0, pieces[i].len());
            assert(l@ =~= pieces[i as int]@);
            let ghost prev = seqs(window@);
            window.push(l);
            assert(seqs(window@) =~= prev.push(pieces[i as int]@));
            i = i + 1;
            assert(seqs(window@) =~= seqs(pieces@).subrange(b.start_row as int, i as int));
        }
        let raw = join_chars(&window, '\n');
        proof {
            crate::text::lemma_split_pieces_free(content@, '\n');
            assert forall|q: int, j: int|
                0 <= q < seqs(window@).len() && 0 <= j < seqs(window@)[q].len() implies seqs(
                window@,
            )[q][j] != '\n' by {
                assert(seqs(window@)[q] == split(content@, '\n')[b.start_row + q]);
            }
            lemma_newlines_join(seqs(window@));
        }
        let ghost prev = comments_view(comments@);
        extract_comments_from_block(raw.as_slice(), b.start_row, &mut comments);
        assert(blocks@.take(k + 1).drop_last() =~= blocks@.take(k as int));
        k = k + 1;
    }
    assert(blocks@.take(blocks.len() as int) =~= blocks@);
    comments
}

/// Joining `n` pieces without newlines adds `n - 1` newlines.
proof fn lemma_newlines_join(parts: Seq<Seq<char>>)
    requires
        forall|k: int, j: int| 0 <= k < parts.len() && 0 <= j < parts[k].len() ==> parts[k][j] != '\n',
    ensures
        parts.len() > 0 ==> newlines(join(parts, '\n')) == parts.len() - 1,
    decreases parts.len(),
{
    if parts.len() > 1 {
        lemma_newlines_join(parts.drop_last());
        lemma_newlines_append(join(parts.drop_last(), '\n').push('\n'), parts.last());
        lemma_newlines_none(parts.last());
        assert(join(parts.drop_last(), '\n').push('\n').drop_last() =~= join(parts.drop_last(), '\n'));
    } else if parts.len() == 1 {
        lemma_newlines_none(parts[0]);
    }
}

proof fn lemma_newlines_none(s: Seq<char>)
    requires
        forall|j: int| 0 <= j < s.len() ==> s[j] != '\n',
    ensures
        newlines(s) == 0,
    decreases s.len(),
{
    if s.len() > 0 {
        lemma_newlines_none(s.drop_last());
    }
}

proof fn lemma_newlines_append(a: Seq<char>, b: Seq<char>)
    ensures
        newlines(a + b) == newlines(a) + newlines(b),
    decreases b.len(),
{
    if b.len() == 0 {
        assert(a + b =~= a);
    } else {
        lemma_newlines_append(a, b.drop_last());
        assert((a + b).drop_last() =~= a + b.drop_last());
    }
}

} // verus!
