//! Marker blocks: pairing `injm begin` and `injm end` comments, and the role a
//! begin marker gives its block.
use vstd::prelude::*;

use crate::parser::config::{extract_config, extract_config_spec};
use crate::parser::error::{ParserError, ParserErrorView};
use crate::text::{
    chars_of, contains, contains_at, join, join_chars, lemma_lines_free, lemma_split_join, lines,
    lines_of, seqs, slice_chars, split, string_of, tokens, tokens_of,
};
use crate::types::{
    blocks_view, comments_view, ids_view, BlockRole, BlockView, Comment, CommentView, MarkerBlock,
    MarkerConfig, RoleView, SourceSpan,
};

verus! {

/// The tokens of `toks` that start with `c`, in order.
pub open spec fn with_prefix(toks: Seq<Seq<char>>, c: char) -> Seq<Seq<char>>
    decreases toks.len(),
{
    if toks.len() == 0 {
        Seq::empty()
    } else {
        let p = with_prefix(toks.drop_last(), c);
        if toks.last().len() > 0 && toks.last()[0] == c {
            p.push(toks.last())
        } else {
            p
        }
    }
}

/// The role a begin marker comment gives its block: `<id` tokens make an input
/// block with those ids, one `>id` token an output block with that id, neither
/// an output block without id.
pub open spec fn role_of(comment: Seq<char>) -> Result<RoleView, ParserErrorView> {
    let toks = tokens(comment);
    let ins = with_prefix(toks, '<');
    let outs = with_prefix(toks, '>');
    if ins.len() == 0 && outs.len() == 0 {
        Ok(RoleView::Output(None))
    } else if ins.len() > 0 && outs.len() > 0 {
        Err(ParserErrorView::BothInputOutputMarker { comment })
    } else if ins.len() > 0 {
        Ok(RoleView::Input(Seq::new(ins.len(), |i: int| ins[i].drop_first())))
    } else if outs.len() == 1 {
        Ok(RoleView::Output(Some(outs[0].drop_first())))
    } else {
        Err(ParserErrorView::MultipleOutputMarker { comment })
    }
}

pub open spec fn begin_word() -> Seq<char> {
    seq!['i', 'n', 'j', 'm', ' ', 'b', 'e', 'g', 'i', 'n']
}

pub open spec fn end_word() -> Seq<char> {
    seq!['i', 'n', 'j', 'm', ' ', 'e', 'n', 'd']
}

/// Progress of pairing markers over the comments read so far.
pub enum MarkerScan {
    /// A marker is misplaced or malformed.
    Failed(ParserErrorView),
    /// A block's lines cannot be taken from the text: the end marker is not
    /// below the begin marker, or lies past the last line.
    OutOfRange,
    /// Blocks found so far, and the begin marker (its last line, role and
    /// options) still waiting for its end.
    Going { blocks: Seq<BlockView>, open: Option<(usize, RoleView, MarkerConfig)> },
}

pub open spec fn scan_step(st: MarkerScan, c: CommentView, lines: Seq<Seq<char>>, path: Seq<char>) -> MarkerScan {
    match st {
        MarkerScan::Going { blocks, open } => {
            let text = c.0;
            if contains(text, begin_word()) {
                if open is Some {
                    MarkerScan::Failed(ParserErrorView::NestedMarker { line: c.1, path })
                } else {
                    match role_of(text) {
                        Err(e) => MarkerScan::Failed(e),
                        Ok(role) => match extract_config_spec(text) {
                            Err(e) => MarkerScan::Failed(e),
                            Ok(cfg) => MarkerScan::Going { blocks, open: Some((c.2, role, cfg)) },
                        },
                    }
                }
            } else if contains(text, end_word()) {
                match open {
                    None => MarkerScan::Failed(ParserErrorView::EndWithoutBegin { line: c.1, path }),
                    Some((b, role, cfg)) => if b >= usize::MAX || b + 1 > c.1 || c.1 > lines.len() {
                        MarkerScan::OutOfRange
                    } else {
                        MarkerScan::Going {
                            blocks: blocks.push(
                                BlockView {
                                    span: SourceSpan { begin_marker: b, end_marker: c.1 },
                                    role,
                                    content: join(lines.subrange(b + 1, c.1 as int), '\n'),
                                    config: cfg,
                                },
                            ),
                            open: None,
                        }
                    },
                }
            } else {
                st
            }
        },
        _ => st,
    }
}

pub open spec fn scan_markers(comments: Seq<CommentView>, lines: Seq<Seq<char>>, path: Seq<char>) -> MarkerScan
    decreases comments.len(),
{
    if comments.len() == 0 {
        MarkerScan::Going { blocks: Seq::empty(), open: None }
    } else {
        scan_step(scan_markers(comments.drop_last(), lines, path), comments.last(), lines, path)
    }
}

/// The blocks of `content` marked by `comments` (in document order), or the
/// first marker error; `None` where the block lines cannot be taken.
pub open spec fn marker_blocks_spec(content: Seq<char>, path: Seq<char>, comments: Seq<CommentView>) -> Option<
    Result<Seq<BlockView>, ParserErrorView>,
> {
    match scan_markers(comments, lines(content), path) {
        MarkerScan::OutOfRange => None,
        MarkerScan::Failed(e) => Some(Err(e)),
        MarkerScan::Going { blocks, open } => match open {
            Some((b, _, _)) => Some(Err(ParserErrorView::BeginWithoutEnd { line: b, path })),
            None => Some(Ok(blocks)),
        },
    }
}

/// Whether `pat` occurs in `s`.
pub fn contains_chars(s: &[char], pat: &[char]) -> (r: bool)
    ensures
        r == contains(s@, pat@),
{
    if pat.len() > s.len() {
        assert forall|i: int| !contains_at(s@, pat@, i) by {}
        return false;
    }
    let last = s.len() - pat.len();
    let mut i: usize = 0;
    while i <= last
        invariant
            last == s.len() - pat.len(),
            pat.len() <= s.len(),
            i <= last + 1,
            forall|k: int| 0 <= k < i ==> !contains_at(s@, pat@, k),
        decreases last + 1 - i,
    {
        let mut j: usize = 0;
        while j < pat.len() && s[i + j] == pat[j]
            invariant
                i <= last,
                last == s.len() - pat.len(),
                j <= pat.len(),
                forall|q: int| 0 <= q < j ==> s@[i + q] == pat@[q],
            decreases pat.len() - j,
        {
            j = j + 1;
        }
        if j == pat.len() {
            assert(s@.subrange(i as int, i + pat.len()) =~= pat@);
            assert(contains_at(s@, pat@, i as int));
            return true;
        }
        assert(!contains_at(s@, pat@, i as int)) by {
            if contains_at(s@, pat@, i as int) {
                assert(s@.subrange(i as int, i + pat.len())[j as int] == pat@[j as int]);
            }
        }
        i = i + 1;
    }
    assert forall|k: int| !contains_at(s@, pat@, k) by {
        if 0 <= k < i {
        }
    }
    false
}

fn with_prefix_of(toks: &Vec<Vec<char>>, c: char) -> (r: Vec<Vec<char>>)
    ensures
        seqs(r@) == with_prefix(seqs(toks@), c),
{
    let mut r: Vec<Vec<char>> = Vec::new();
    let mut i: usize = 0;
    let ghost ts = seqs(toks@);
    assert(ts.take(0) =~= Seq::<Seq<char>>::empty());
    assert(seqs(r@) =~= Seq::<Seq<char>>::empty());
    while i < toks.len()
        invariant
            i <= toks.len(),
            ts == seqs(toks@),
            seqs(r@) == with_prefix(ts.take(i as int), c),
        decreases toks.len() - i,
    {
        let t = &toks[i];
        assert(ts.take(i + 1).drop_last() =~= ts.take(i as int));
        assert(ts.take(i + 1).last() == t@);
        if t.len() > 0 && t[0] == c {
            let copy = slice_chars(t.as_slice(), 0, t.len());
            assert(copy@ =~= t@);
            let ghost prev = seqs(r@);
            r.push(copy);
            assert(seqs(r@) =~= prev.push(t@));
        }
        i = i + 1;
    }
    assert(ts.take(toks.len() as int) =~= ts);
    r
}

fn tail_string(t: &Vec<char>) -> (s: String)
    requires
        t.len() > 0,
    ensures
        s@ == t@.drop_first(),
{
    let v = slice_chars(t.as_slice(), 1, t.len());
    assert(v@ =~= t@.drop_first());
    string_of(v.as_slice())
}

/// The role of a block from its begin marker comment.
pub fn extract_role(comment: &str) -> (r: Result<BlockRole, ParserError>)
    ensures
        match r {
            Ok(role) => role_of(comment@) == Ok::<RoleView, ParserErrorView>(role@),
            Err(e) => role_of(comment@) == Err::<RoleView, ParserErrorView>(e@),
        },
{
    let chars = chars_of(comment);
    let toks = tokens_of(chars.as_slice());
    let ins = with_prefix_of(&toks, '<');
    let outs = with_prefix_of(&toks, '>');
    proof {
        lemma_with_prefix_nonempty(seqs(toks@), '<');
        lemma_with_prefix_nonempty(seqs(toks@), '>');
    }
    assert(forall|q: int| 0 <= q < outs.len() ==> seqs(outs@)[q].len() > 0);
    assert(forall|q: int| 0 <= q < ins.len() ==> seqs(ins@)[q].len() > 0);
    if ins.len() == 0 && outs.len() == 0 {
        return Ok(BlockRole::Output { id: None });
    }
    if ins.len() > 0 && outs.len() > 0 {
        return Err(ParserError::BothInputOutputMarker { comment: string_of(chars.as_slice()) });
    }
    if ins.len() > 0 {
        let ghost want = Seq::new(seqs(ins@).len(), |i: int| seqs(ins@)[i].drop_first());
        let mut ids: Vec<String> = Vec::new();
        let mut i: usize = 0;
        while i < ins.len()
            invariant
                i <= ins.len(),
                want == Seq::new(seqs(ins@).len(), |q: int| seqs(ins@)[q].drop_first()),
                forall|q: int| 0 <= q < ins.len() ==> (#[trigger] seqs(ins@)[q]).len() > 0,
                ids_view(ids@) == want.take(i as int),
            decreases ins.len() - i,
        {
            assert(seqs(ins@)[i as int].len() > 0);
            let id = tail_string(&ins[i]);
            let ghost prev = ids_view(ids@);
            ids.push(id);
            assert(ids_view(ids@) =~= prev.push(want[i as int]));
            i = i + 1;
            assert(want.take(i as int) =~= want.take(i - 1).push(want[i - 1]));
        }
        assert(want.take(ins.len() as int) =~= want);
        return Ok(BlockRole::Input { ids });
    }
    if outs.len() == 1 {
        assert(seqs(outs@)[0].len() > 0);
        return Ok(BlockRole::Output { id: Some(tail_string(&outs[0])) });
    }
    Err(ParserError::MultipleOutputMarker { comment: string_of(chars.as_slice()) })
}

pub open spec fn open_view(open: Option<(usize, BlockRole, MarkerConfig)>) -> Option<(usize, RoleView, MarkerConfig)> {
    match open {
        Some((b, role, cfg)) => Some((b, role@, cfg)),
        None => None,
    }
}

/// What pairing the markers of a text gives.
enum ScanOutcome {
    Blocks(Vec<MarkerBlock>),
    Failed(ParserError),
    OutOfRange,
}

/// Once pairing fails or runs out of range, further comments change nothing.
proof fn lemma_scan_settled(comments: Seq<CommentView>, lines: Seq<Seq<char>>, path: Seq<char>, k: int)
    requires
        0 <= k <= comments.len(),
        !(scan_markers(comments.take(k), lines, path) is Going),
    ensures
        scan_markers(comments, lines, path) == scan_markers(comments.take(k), lines, path),
    decreases comments.len() - k,
{
    if k < comments.len() {
        assert(comments.take(k + 1).drop_last() =~= comments.take(k));
        lemma_scan_settled(comments, lines, path, k + 1);
    } else {
        assert(comments.take(k) =~= comments);
    }
}

fn scan_comments(content: &str, path: &str, comments: &[Comment]) -> (r: ScanOutcome)
    ensures
        match r {
            ScanOutcome::Blocks(v) => marker_blocks_spec(content@, path@, comments_view(comments@))
                == Some(Ok::<Seq<BlockView>, ParserErrorView>(blocks_view(v@))),
            ScanOutcome::Failed(e) => marker_blocks_spec(content@, path@, comments_view(comments@))
                == Some(Err::<Seq<BlockView>, ParserErrorView>(e@)),
            ScanOutcome::OutOfRange => marker_blocks_spec(
                content@,
                path@,
                comments_view(comments@),
            ) is None,
        },
{
    let chars = chars_of(content);
    let text_lines = lines_of(chars.as_slice());
    let ghost ls = seqs(text_lines@);
    let ghost cs = comments_view(comments@);
    let begin_pat = chars_of("injm begin");
    let end_pat = chars_of("injm end");
    proof {
        reveal_strlit("injm begin");
        reveal_strlit("injm end");
    }
    assert(begin_pat@ =~= begin_word());
    assert(end_pat@ =~= end_word());
    let mut blocks: Vec<MarkerBlock> = Vec::new();
    let mut open: Option<(usize, BlockRole, MarkerConfig)> = None;
    let mut i: usize = 0;
    assert(cs.take(0) =~= Seq::<CommentView>::empty());
    assert(blocks_view(blocks@) =~= Seq::<BlockView>::empty());
    while i < comments.len()
        invariant
            i <= comments.len(),
            ls == seqs(text_lines@),
            ls == lines(content@),
            cs == comments_view(comments@),
            begin_pat@ == begin_word(),
            end_pat@ == end_word(),
            scan_markers(cs.take(i as int), ls, path@) == (MarkerScan::Going {
                blocks: blocks_view(blocks@),
                open: open_view(open),
            }),
        decreases comments.len() - i,
    {
        let c = &comments[i];
        assert(cs.take(i + 1).drop_last() =~= cs.take(i as int));
        assert(cs.take(i + 1).last() == (c.text@, c.start_line, c.end_line));
        let text = chars_of(c.text.as_str());
        if contains_chars(text.as_slice(), begin_pat.as_slice()) {
            if open.is_some() {
                proof {
                    lemma_scan_settled(cs, ls, path@, i + 1);
                }
                return ScanOutcome::Failed(
                    ParserError::NestedMarker { line: c.start_line, path: string_of(chars_of(path).as_slice()) },
                );
            }
            let role = match extract_role(c.text.as_str()) {
                Ok(role) => role,
                Err(e) => {
                    proof {
                        lemma_scan_settled(cs, ls, path@, i + 1);
                    }
                    return ScanOutcome::Failed(e);
                },
            };
            let cfg = match extract_config(c.text.as_str()) {
                Ok(cfg) => cfg,
                Err(e) => {
                    proof {
                        lemma_scan_settled(cs, ls, path@, i + 1);
                    }
                    return ScanOutcome::Failed(e);
                },
            };
            open = Some((c.end_line, role, cfg));
        } else if contains_chars(text.as_slice(), end_pat.as_slice()) {
            let taken = open.take();
            match taken {
                None => {
                    proof {
                        lemma_scan_settled(cs, ls, path@, i + 1);
                    }
                    return ScanOutcome::Failed(
                        ParserError::EndWithoutBegin { line: c.start_line, path: string_of(chars_of(path).as_slice()) },
                    );
                },
                Some((b, role, cfg)) => {
                    let e = c.start_line;
                    if b == usize::MAX || b + 1 > e || e > text_lines.len() {
                        proof {
                            lemma_scan_settled(cs, ls, path@, i + 1);
                        }
                        return ScanOutcome::OutOfRange;
                    }
                    let window = slice_lines_of(&text_lines, b + 1, e);
                    let body = join_chars(&window, '\n');
                    let ghost prev = blocks_view(blocks@);
                    let block = MarkerBlock {
                        span: SourceSpan { begin_marker: b, end_marker: e },
                        role,
                        content: string_of(body.as_slice()),
                        config: cfg,
                    };
                    blocks.push(block);
                    assert(blocks_view(blocks@) =~= prev.push(block@));
                },
            }
        }
        i = i + 1;
    }
    assert(cs.take(comments.len() as int) =~= cs);
    match open {
        Some((b, _, _)) => ScanOutcome::Failed(
            ParserError::BeginWithoutEnd { line: b, path: string_of(chars_of(path).as_slice()) },
        ),
        None => ScanOutcome::Blocks(blocks),
    }
}

/// Copies of `lines[from..to]`.
fn slice_lines_of(lines: &Vec<Vec<char>>, from: usize, to: usize) -> (r: Vec<Vec<char>>)
    requires
        from <= to <= lines.len(),
    ensures
        seqs(r@) == seqs(lines@).subrange(from as int, to as int),
{
    let mut r: Vec<Vec<char>> = Vec::new();
    let mut i = from;
    while i < to
        invariant
            from <= i <= to <= lines.len(),
            seqs(r@) == seqs(lines@).subrange(from as int, i as int),
        decreases to - i,
    {
        let l = slice_chars(lines[i].as_slice(), 0, lines[i].len());
        assert(l@ =~= lines[i as int]@);
        let ghost prev = seqs(r@);
        r.push(l);
        assert(seqs(r@) =~= prev.push(lines[i as int]@));
        i = i + 1;
        assert(seqs(r@) =~= seqs(lines@).subrange(from as int, i as int));
    }
    r
}

/// The marker blocks of `content` (from the file at `path`), given its comments
/// in document order.
pub fn extract_marker_blocks(content: &str, path: &str, comments: &[Comment]) -> (r: Result<
    Vec<MarkerBlock>,
    ParserError,
>)
    requires
        marker_blocks_spec(content@, path@, comments_view(comments@)) is Some,
    ensures
        match r {
            Ok(v) => marker_blocks_spec(content@, path@, comments_view(comments@)) == Some(
                Ok::<Seq<BlockView>, ParserErrorView>(blocks_view(v@)),
            ),
            Err(e) => marker_blocks_spec(content@, path@, comments_view(comments@)) == Some(
                Err::<Seq<BlockView>, ParserErrorView>(e@),
            ),
        },
{
    match scan_comments(content, path, comments) {
        ScanOutcome::Blocks(v) => Ok(v),
        ScanOutcome::Failed(e) => Err(e),
        ScanOutcome::OutOfRange => {
            proof {
                assert(false);
            }
            Ok(Vec::new())
        },
    }
}

/// Whether every block the comments mark lies within the lines of `content`
/// (what `extract_marker_blocks` requires).
pub fn marker_blocks_in_range(content: &str, path: &str, comments: &[Comment]) -> (b: bool)
    ensures
        b == (marker_blocks_spec(content@, path@, comments_view(comments@)) is Some),
{
    match scan_comments(content, path, comments) {
        ScanOutcome::OutOfRange => false,
        _ => true,
    }
}

proof fn lemma_with_prefix_nonempty(toks: Seq<Seq<char>>, c: char)
    ensures
        forall|q: int|
            0 <= q < with_prefix(toks, c).len() ==> (#[trigger] with_prefix(toks, c)[q]).len() > 0
                && with_prefix(toks, c)[q][0] == c,
    decreases toks.len(),
{
    if toks.len() > 0 {
        lemma_with_prefix_nonempty(toks.drop_last(), c);
        let p = with_prefix(toks.drop_last(), c);
        assert forall|q: int| 0 <= q < with_prefix(toks, c).len() implies (#[trigger] with_prefix(
            toks,
            c,
        )[q]).len() > 0 && with_prefix(toks, c)[q][0] == c by {
            if q < p.len() {
                assert(with_prefix(toks, c)[q] == p[q]);
            }
        }
    }
}


/// Each block spans lines of `lines`, begin marker above end marker, and holds
/// the lines strictly between its markers, joined with newlines.
pub open spec fn blocks_hold_lines(blocks: Seq<BlockView>, lines: Seq<Seq<char>>) -> bool {
    forall|k: int|
        0 <= k < blocks.len() ==> {
            let b = #[trigger] blocks[k];
            &&& b.span.begin_marker < b.span.end_marker <= lines.len()
            &&& b.content == join(lines.subrange(b.span.begin_marker + 1, b.span.end_marker as int), '\n')
        }
}

proof fn lemma_scan_blocks_hold(comments: Seq<CommentView>, lines: Seq<Seq<char>>, path: Seq<char>)
    ensures
        scan_markers(comments, lines, path) matches MarkerScan::Going { blocks, .. } ==> blocks_hold_lines(
            blocks,
            lines,
        ),
    decreases comments.len(),
{
    if comments.len() > 0 {
        lemma_scan_blocks_hold(comments.drop_last(), lines, path);
        let st = scan_markers(comments.drop_last(), lines, path);
        if let MarkerScan::Going { blocks, open } = st {
            if let MarkerScan::Going { blocks: nb, .. } = scan_step(st, comments.last(), lines, path) {
                assert forall|k: int| 0 <= k < nb.len() implies {
                    let b = #[trigger] nb[k];
                    &&& b.span.begin_marker < b.span.end_marker <= lines.len()
                    &&& b.content == join(
                        lines.subrange(b.span.begin_marker + 1, b.span.end_marker as int),
                        '\n',
                    )
                } by {
                    if k < blocks.len() {
                        assert(nb[k] == blocks[k]);
                    }
                }
            }
        }
    }
}

/// A parsed block holds exactly the lines of the file strictly between its
/// markers, as they stand (indentation and all), joined with newlines; when
/// there are such lines, cutting its content at its newlines gives them back.
pub proof fn law_block_content_is_lines_between(
    content: Seq<char>,
    path: Seq<char>,
    comments: Seq<CommentView>,
)
    ensures
        marker_blocks_spec(content, path, comments) matches Some(Ok(blocks)) ==> forall|k: int|
            0 <= k < blocks.len() ==> {
                let b = #[trigger] blocks[k];
                &&& b.span.begin_marker < b.span.end_marker <= lines(content).len()
                &&& b.content == join(
                    lines(content).subrange(b.span.begin_marker + 1, b.span.end_marker as int),
                    '\n',
                )
                &&& b.span.begin_marker + 1 < b.span.end_marker ==> split(b.content, '\n')
                    == lines(content).subrange(b.span.begin_marker + 1, b.span.end_marker as int)
            },
{
    let l = lines(content);
    lemma_scan_blocks_hold(comments, l, path);
    if let Some(Ok(blocks)) = marker_blocks_spec(content, path, comments) {
        lemma_lines_free(content);
        assert forall|k: int| 0 <= k < blocks.len() implies {
            let b = #[trigger] blocks[k];
            &&& b.span.begin_marker < b.span.end_marker <= l.len()
            &&& b.content == join(l.subrange(b.span.begin_marker + 1, b.span.end_marker as int), '\n')
            &&& b.span.begin_marker + 1 < b.span.end_marker ==> split(b.content, '\n') == l.subrange(
                b.span.begin_marker + 1,
                b.span.end_marker as int,
            )
        } by {
            let b = blocks[k];
            let part = l.subrange(b.span.begin_marker + 1, b.span.end_marker as int);
            if b.span.begin_marker + 1 < b.span.end_marker {
                assert forall|p: int, q: int| 0 <= p < part.len() && 0 <= q < part[p].len() implies part[p][q]
                    != '\n' by {
                    assert(part[p] == l[b.span.begin_marker + 1 + p]);
                }
                lemma_split_join(part, '\n');
            }
        }
    }
}


/// Block `blk` is marked by the begin comment `cb` and the end comment `ce`:
/// `cb` holds `injm begin`, `ce` holds `injm end` and not `injm begin`; the
/// block's begin marker is the last line of `cb`, its end marker the first
/// line of `ce`, and its role and options are those that `cb` gives.
pub open spec fn marks_block(cb: CommentView, ce: CommentView, blk: BlockView) -> bool {
    &&& contains(cb.0, begin_word())
    &&& contains(ce.0, end_word())
    &&& !contains(ce.0, begin_word())
    &&& blk.span.begin_marker == cb.2
    &&& blk.span.end_marker == ce.1
    &&& role_of(cb.0) == Ok::<RoleView, ParserErrorView>(blk.role)
    &&& extract_config_spec(cb.0) == Ok::<MarkerConfig, ParserErrorView>(blk.config)
}

/// Some comment of `comments` and a later one mark `blk`.
pub open spec fn marked_by(comments: Seq<CommentView>, blk: BlockView) -> bool {
    exists|i: int, j: int| 0 <= i < j < comments.len() && #[trigger] marks_block(comments[i], comments[j], blk)
}

/// Some begin comment of `comments` ends at line `b` and gives `role` and `cfg`.
pub open spec fn opened_by(comments: Seq<CommentView>, b: usize, role: RoleView, cfg: MarkerConfig) -> bool {
    exists|i: int|
        0 <= i < comments.len() && contains(#[trigger] comments[i].0, begin_word()) && comments[i].2 == b
            && role_of(comments[i].0) == Ok::<RoleView, ParserErrorView>(role) && extract_config_spec(
            comments[i].0,
        ) == Ok::<MarkerConfig, ParserErrorView>(cfg)
}

/// What the scan so far owes to the comments: each block found is marked by
/// a begin comment and a later end comment, and a begin marker still open
/// comes from a begin comment.
pub open spec fn scan_from_comments(st: MarkerScan, comments: Seq<CommentView>) -> bool {
    st matches MarkerScan::Going { blocks, open } ==> {
        &&& forall|k: int| 0 <= k < blocks.len() ==> marked_by(comments, #[trigger] blocks[k])
        &&& open matches Some((b, role, cfg)) ==> opened_by(comments, b, role, cfg)
    }
}

proof fn lemma_scan_from_comments(comments: Seq<CommentView>, lines: Seq<Seq<char>>, path: Seq<char>)
    ensures
        scan_from_comments(scan_markers(comments, lines, path), comments),
    decreases comments.len(),
{
    if comments.len() > 0 {
        let d = comments.drop_last();
        let c = comments.last();
        let n = comments.len() - 1;
        assert(c == comments[n]);
        lemma_scan_from_comments(d, lines, path);
        let st = scan_markers(d, lines, path);
        if let MarkerScan::Going { blocks, open } = st {
            let st2 = scan_step(st, c, lines, path);
            if let MarkerScan::Going { blocks: nb, open: no } = st2 {
                assert forall|k: int| 0 <= k < nb.len() implies marked_by(comments, #[trigger] nb[k]) by {
                    if k < blocks.len() {
                        assert(nb[k] == blocks[k]);
                        assert(marked_by(d, blocks[k]));
                        let (i, j) = choose|i: int, j: int|
                            0 <= i < j < d.len() && #[trigger] marks_block(d[i], d[j], blocks[k]);
                        assert(d[i] == comments[i] && d[j] == comments[j]);
                        assert(marks_block(comments[i], comments[j], nb[k]));
                    } else {
                        let (b, role, cfg) = open->0;
                        assert(opened_by(d, b, role, cfg));
                        let i = choose|i: int|
                            0 <= i < d.len() && contains(#[trigger] d[i].0, begin_word()) && d[i].2 == b
                                && role_of(d[i].0) == Ok::<RoleView, ParserErrorView>(role)
                                && extract_config_spec(d[i].0) == Ok::<MarkerConfig, ParserErrorView>(cfg);
                        assert(d[i] == comments[i]);
                        assert(marks_block(comments[i], comments[n], nb[k]));
                    }
                }
                if let Some((b, role, cfg)) = no {
                    if open is Some {
                        assert(opened_by(d, b, role, cfg));
                        let i = choose|i: int|
                            0 <= i < d.len() && contains(#[trigger] d[i].0, begin_word()) && d[i].2 == b
                                && role_of(d[i].0) == Ok::<RoleView, ParserErrorView>(role)
                                && extract_config_spec(d[i].0) == Ok::<MarkerConfig, ParserErrorView>(cfg);
                        assert(d[i] == comments[i]);
                        assert(contains(comments[i].0, begin_word()));
                    } else {
                        assert(contains(comments[n].0, begin_word()));
                    }
                }
            }
        }
    }
}

/// Each parsed block is marked by a begin comment and a later end comment:
/// its begin marker is the last line of the begin comment, its end marker the
/// first line of the end comment, and its role and options are those that the
/// begin comment gives.
pub proof fn law_blocks_come_from_markers(content: Seq<char>, path: Seq<char>, comments: Seq<CommentView>)
    ensures
        marker_blocks_spec(content, path, comments) matches Some(Ok(blocks)) ==> forall|k: int|
            0 <= k < blocks.len() ==> marked_by(comments, #[trigger] blocks[k]),
{
    lemma_scan_from_comments(comments, lines(content), path);
}

} // verus!
