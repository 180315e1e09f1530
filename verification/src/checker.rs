//! Checking that every output block holds what injecting its input would write.
use vstd::prelude::*;

use crate::injector::{
    inject_block_spec, inject_into_a_block, prepare_fits, prepare_spec, prepared_small, prepared_text_fits,
    InjectorError,
};
use crate::injector::ends_with_newline;
use crate::text::{
    chars_of, join, join_chars, lemma_join_flatten, lemma_join_split, lemma_lines_free, lemma_lines_of_join,
    lemma_split_nonempty, lemma_split_pieces_free, lines, lines_of, seqs, slice_chars, split, string_of,
    strip_cr,
};
use crate::types::{
    block_matches, kept_after_start, kept_before_end, BlockRole, MarkerBlock, ParsedFile, SourceSpan,
};

verus! {

/// An output block whose content differs from what injection would write.
#[derive(Debug)]
pub struct SyncIssue {
    pub path: String,
    pub span: SourceSpan,
    pub id: String,
    /// What injection would put between the markers.
    pub expected: String,
    /// What is between the markers.
    pub actual: String,
}

/// Why a check could not be completed.
#[derive(Debug)]
pub enum CheckerError {
    Injector(InjectorError),
}

/// A sync issue as plain values: path, span, id, expected and actual content.
pub type IssueView = (Seq<char>, SourceSpan, Seq<char>, Seq<char>, Seq<char>);

pub open spec fn issue_view(i: SyncIssue) -> IssueView {
    (i.path@, i.span, i.id@, i.expected@, i.actual@)
}

pub open spec fn issues_view(v: Seq<SyncIssue>) -> Seq<IssueView> {
    Seq::new(v.len(), |k: int| issue_view(v[k]))
}

pub open spec fn derefs(s: Seq<&MarkerBlock>) -> Seq<MarkerBlock> {
    Seq::new(s.len(), |i: int| *s[i])
}

/// Index of the first input block that provides content for `output`.
pub open spec fn first_match_ref(inputs: Seq<&MarkerBlock>, output: &MarkerBlock) -> Option<int> {
    if exists|j: int| is_first_match_ref(inputs, output, j) {
        Some(choose|j: int| is_first_match_ref(inputs, output, j))
    } else {
        None
    }
}

/// The lines between the markers of `block` after injecting `s` into `lines`.
pub open spec fn expected_content(injected: Seq<Seq<char>>, block: &MarkerBlock) -> Seq<char> {
    let start = block.span.begin_marker + 1;
    join(injected.subrange(start, start + 2 * block.config.offset + 1), '\n')
}

/// The issue an output block of `path` has, if any.
pub open spec fn block_issue(
    lines: Seq<Seq<char>>,
    block: &MarkerBlock,
    ins: Seq<&MarkerBlock>,
    path: Seq<char>,
) -> Result<Option<IssueView>, InjectorError> {
    match block.role {
        BlockRole::Output { id: Some(id) } => match first_match_ref(ins, block) {
            None => Ok(None),
            Some(j) => match inject_block_spec(lines, block, ins[j].content@) {
                Err(e) => Err(e),
                Ok(injected) => {
                    let expected = expected_content(injected, block);
                    if expected == block.content@ {
                        Ok(None)
                    } else {
                        Ok(Some((path, block.span, id@, expected, block.content@)))
                    }
                },
            },
        },
        _ => Ok(None),
    }
}

/// Injecting into `block` and reading back its content stays within the lines.
pub open spec fn block_check_defined(n_lines: nat, block: &MarkerBlock, s: Seq<char>) -> bool {
    let kb = kept_before_end(block.span, block.config.offset);
    let ka = kept_after_start(block.span, block.config.offset);
    kb >= ka || (block.span.end_marker <= n_lines && prepare_fits(s, block.config)
        && block.span.begin_marker + 2 * block.config.offset + 2 <= usize::MAX)
}

pub open spec fn block_defined(lines: Seq<Seq<char>>, block: &MarkerBlock, ins: Seq<&MarkerBlock>) -> bool {
    match block.role {
        BlockRole::Output { id: Some(id) } => match first_match_ref(ins, block) {
            None => true,
            Some(j) => block_check_defined(lines.len(), block, ins[j].content@),
        },
        _ => true,
    }
}

/// Issues of the blocks of one file, in order; the first failing injection stops.
pub open spec fn file_issues(
    lines: Seq<Seq<char>>,
    blocks: Seq<MarkerBlock>,
    ins: Seq<&MarkerBlock>,
    path: Seq<char>,
) -> Result<Seq<IssueView>, InjectorError>
    decreases blocks.len(),
{
    if blocks.len() == 0 {
        Ok(Seq::empty())
    } else {
        match file_issues(lines, blocks.drop_last(), ins, path) {
            Err(e) => Err(e),
            Ok(done) => match block_issue(lines, &blocks.last(), ins, path) {
                Err(e) => Err(e),
                Ok(None) => Ok(done),
                Ok(Some(i)) => Ok(done.push(i)),
            },
        }
    }
}

/// Issues of all files, in order.
pub open spec fn check_sync_spec(ins: Seq<&MarkerBlock>, files: Seq<ParsedFile>) -> Result<
    Seq<IssueView>,
    InjectorError,
>
    decreases files.len(),
{
    if files.len() == 0 {
        Ok(Seq::empty())
    } else {
        match check_sync_spec(ins, files.drop_last()) {
            Err(e) => Err(e),
            Ok(done) => {
                let f = files.last();
                match file_issues(lines(f.content@), f.blocks@, ins, f.path@) {
                    Err(e) => Err(e),
                    Ok(more) => Ok(done + more),
                }
            },
        }
    }
}

pub open spec fn check_defined(ins: Seq<&MarkerBlock>, files: Seq<ParsedFile>) -> bool {
    forall|f: int, b: int|
        0 <= f < files.len() && 0 <= b < files[f].blocks@.len() ==> block_defined(
            lines(files[f].content@),
            #[trigger] &files[f].blocks@[b],
            ins,
        )
}

fn find_match_ref(inputs: &[&MarkerBlock], output: &MarkerBlock) -> (r: Option<usize>)
    ensures
        match r {
            Some(j) => j < inputs@.len() && first_match_ref(inputs@, output) == Some(j as int),
            None => first_match_ref(inputs@, output) is None,
        },
{
    let mut j: usize = 0;
    while j < inputs.len()
        invariant
            j <= inputs.len(),
            forall|k: int| 0 <= k < j ==> !block_matches(inputs@[k], output),
        decreases inputs.len() - j,
    {
        if inputs[j].matches_output(output) {
            assert(is_first_match_ref(inputs@, output, j as int));
            let ghost w = choose|m: int| is_first_match_ref(inputs@, output, m);
            assert(w == j) by {
                if w < j {
                    assert(!block_matches(inputs@[w], output));
                } else if w > j {
                    assert(!block_matches(inputs@[j as int], output));
                }
            }
            return Some(j);
        }
        j = j + 1;
    }
    None
}

fn same_chars(a: &[char], b: &[char]) -> (r: bool)
    ensures
        r == (a@ == b@),
{
    if a.len() != b.len() {
        return false;
    }
    let mut i: usize = 0;
    while i < a.len()
        invariant
            i <= a.len() == b.len(),
            forall|k: int| 0 <= k < i ==> a@[k] == b@[k],
        decreases a.len() - i,
    {
        if a[i] != b[i] {
            return false;
        }
        i = i + 1;
    }
    assert(a@ =~= b@);
    true
}

/// Checks one output block.
fn check_block(
    lines: &Vec<Vec<char>>,
    block: &MarkerBlock,
    input_blocks: &[&MarkerBlock],
    path: &String,
) -> (r: Result<Option<SyncIssue>, InjectorError>)
    requires
        block_defined(seqs(lines@), block, input_blocks@),
    ensures
        match r {
            Ok(Some(i)) => block_issue(seqs(lines@), block, input_blocks@, path@) == Ok::<
                Option<IssueView>,
                InjectorError,
            >(Some(issue_view(i))),
            Ok(None) => block_issue(seqs(lines@), block, input_blocks@, path@) == Ok::<
                Option<IssueView>,
                InjectorError,
            >(None),
            Err(e) => block_issue(seqs(lines@), block, input_blocks@, path@) == Err::<
                Option<IssueView>,
                InjectorError,
            >(e),
        },
{
    let id = match &block.role {
        BlockRole::Output { id: Some(id) } => id,
        _ => {
            return Ok(None);
        },
    };
    let j = match find_match_ref(input_blocks, block) {
        Some(j) => j,
        None => {
            return Ok(None);
        },
    };
    let source = chars_of(input_blocks[j].content.as_str());
    proof {
        reveal(crate::injector::inject_block_defined);
    }
    let injected = match inject_into_a_block(lines, block, source.as_slice()) {
        Ok(v) => v,
        Err(e) => {
            return Err(e);
        },
    };
    proof {
        reveal(inject_block_spec);
        let kb = kept_before_end(block.span, block.config.offset);
        let ka = kept_after_start(block.span, block.config.offset);
        let t = prepare_spec(source@, block.config)->Ok_0;
        assert(seqs(injected@) == seqs(lines@).take(kb + 1) + seq![t] + seqs(lines@).skip(ka));
        assert(injected@.len() == seqs(injected@).len());
        assert(injected@.len() == kb + 2 + lines@.len() - ka);
    }
    let start = block.span.begin_marker + 1;
    let end = start + 2 * block.config.offset + 1;
    let window = slice_lines(&injected, start, end);
    let expected = join_chars(&window, '\n');
    let actual = chars_of(block.content.as_str());
    if same_chars(expected.as_slice(), actual.as_slice()) {
        Ok(None)
    } else {
        Ok(
            Some(
                SyncIssue {
                    path: string_of(chars_of(path.as_str()).as_slice()),
                    span: block.span,
                    id: string_of(chars_of(id.as_str()).as_slice()),
                    expected: string_of(expected.as_slice()),
                    actual: string_of(actual.as_slice()),
                },
            ),
        )
    }
}

/// Copies of `lines[from..to]`.
fn slice_lines(lines: &Vec<Vec<char>>, from: usize, to: usize) -> (r: Vec<Vec<char>>)
    requires
        from <= to <= lines.len(),
    ensures
        seqs(r@) == seqs(lines@).subrange(from as int, to as int),
{
    let mut r: Vec<Vec<char>> = Vec::new();
    let mut i = from;
    while i < to
        invariant
            from <= i <= to <= lines.len(),
            seqs(r@) == seqs(lines@).subrange(from as int, i as int),
        decreases to - i,
    {
        let l = slice_chars(lines[i].as_slice(), 0, lines[i].len());
        assert(l@ =~= lines[i as int]@);
        let ghost prev = seqs(r@);
        r.push(l);
        assert(seqs(r@) =~= prev.push(lines[i as int]@));
        i = i + 1;
        assert(seqs(r@) =~= seqs(lines@).subrange(from as int, i as int));
    }
    r
}

/// Compares every output block that has an id and a matching input block with
/// what injecting that input would write, and reports those that differ.
pub fn check_sync(input_blocks: &[&MarkerBlock], output_files: &[ParsedFile]) -> (r: Result<
    Vec<SyncIssue>,
    CheckerError,
>)
    requires
        check_defined(input_blocks@, output_files@),
    ensures
        match r {
            Ok(v) => check_sync_spec(input_blocks@, output_files@) == Ok::<
                Seq<IssueView>,
                InjectorError,
            >(issues_view(v@)),
            Err(CheckerError::Injector(e)) => check_sync_spec(input_blocks@, output_files@)
                == Err::<Seq<IssueView>, InjectorError>(e),
        },
{
    let mut issues: Vec<SyncIssue> = Vec::new();
    let mut f: usize = 0;
    assert(output_files@.take(0) =~= Seq::<ParsedFile>::empty());
    assert(issues_view(issues@) =~= Seq::<IssueView>::empty());
    while f < output_files.len()
        invariant
            f <= output_files.len(),
            check_defined(input_blocks@, output_files@),
            check_sync_spec(input_blocks@, output_files@.take(f as int)) == Ok::<
                Seq<IssueView>,
                InjectorError,
            >(issues_view(issues@)),
        decreases output_files.len() - f,
    {
        let file = &output_files[f];
        let content = chars_of(file.content.as_str());
        let file_lines = lines_of(content.as_slice());
        let ghost before = issues_view(issues@);
        let ghost ls = seqs(file_lines@);
        assert(output_files@.take(f + 1).drop_last() =~= output_files@.take(f as int));
        assert(output_files@.take(f + 1).last() == *file);
        let mut b: usize = 0;
        assert(file.blocks@.take(0) =~= Seq::<MarkerBlock>::empty());
        assert(issues_view(issues@).skip(before.len() as int) =~= Seq::<IssueView>::empty());
        assert(issues_view(issues@).take(before.len() as int) =~= before);
        while b < file.blocks.len()
            invariant
                b <= file.blocks.len(),
                f < output_files.len(),
                *file == output_files@[f as int],
                ls == seqs(file_lines@),
                ls == lines(file.content@),
                check_defined(input_blocks@, output_files@),
                file_issues(ls, file.blocks@.take(b as int), input_blocks@, file.path@) == Ok::<
                    Seq<IssueView>,
                    InjectorError,
                >(issues_view(issues@).skip(before.len() as int)),
                issues_view(issues@).take(before.len() as int) == before,
                before.len() <= issues@.len(),
                check_sync_spec(input_blocks@, output_files@.take(f as int)) == Ok::<
                    Seq<IssueView>,
                    InjectorError,
                >(before),
                output_files@.take(f + 1).drop_last() == output_files@.take(f as int),
                output_files@.take(f + 1).last() == *file,
            decreases file.blocks.len() - b,
        {
            let block = &file.blocks[b];
            assert(file.blocks@.take(b + 1).drop_last() =~= file.blocks@.take(b as int));
            assert(file.blocks@.take(b + 1).last() == *block);
            assert(block_defined(ls, &output_files@[f as int].blocks@[b as int], input_blocks@));
            match check_block(&file_lines, block, input_blocks, &file.path) {
                Ok(Some(issue)) => {
                    let ghost old_v = issues_view(issues@);
                    issues.push(issue);
                    assert(issues_view(issues@) =~= old_v.push(issue_view(issue)));
                    assert(issues_view(issues@).skip(before.len() as int) =~= old_v.skip(
                        before.len() as int,
                    ).push(issue_view(issue)));
                    assert(issues_view(issues@).take(before.len() as int) =~= old_v.take(
                        before.len() as int,
                    ));
                },
                Ok(None) => {},
                Err(e) => {
                    assert(file_issues(ls, file.blocks@.take(b + 1), input_blocks@, file.path@) == Err::<Seq<IssueView>, InjectorError>(e));
                    proof {
                        lemma_file_issues_error(ls, file.blocks@, input_blocks@, file.path@, b + 1);
                        assert(file_issues(ls, file.blocks@, input_blocks@, file.path@) == Err::<Seq<IssueView>, InjectorError>(e));
                        assert(check_sync_spec(input_blocks@, output_files@.take(f + 1)) == Err::<Seq<IssueView>, InjectorError>(e));
                        lemma_check_error(input_blocks@, output_files@, f + 1);
                    }
                    return Err(CheckerError::Injector(e));
                },
            }
            b = b + 1;
        }
        assert(file.blocks@.take(file.blocks.len() as int) =~= file.blocks@);
        assert(issues_view(issues@) =~= before + issues_view(issues@).skip(before.len() as int));
        f = f + 1;
    }
    assert(output_files@.take(output_files.len() as int) =~= output_files@);
    Ok(issues)
}

/// Whether one block passes `block_fits` in a file of `n_lines` lines: it is
/// not compared, its range fails anyway, or its end marker lies within the
/// lines, its line numbers leave room for the compared window, and its
/// prepared text is small.
pub open spec fn block_small(n_lines: nat, block: &MarkerBlock, ins: Seq<&MarkerBlock>) -> bool {
    match block.role {
        BlockRole::Output { id: Some(_) } => match first_match_ref(ins, block) {
            None => true,
            Some(j) => {
                let kb = kept_before_end(block.span, block.config.offset);
                let ka = kept_after_start(block.span, block.config.offset);
                kb >= ka || (block.span.end_marker <= n_lines && block.config.offset <= (usize::MAX
                    - 2) / 2 && block.span.begin_marker <= usize::MAX - 2 - 2 * block.config.offset
                    && prepared_small(ins[j].content@, block.config))
            },
        },
        _ => true,
    }
}

/// Whether every block of every file passes `block_small` for its file's lines.
pub open spec fn files_small(ins: Seq<&MarkerBlock>, files: Seq<ParsedFile>) -> bool {
    forall|f: int, c: int|
        0 <= f < files.len() && 0 <= c < files[f].blocks@.len() ==> block_small(
            lines(files[f].content@).len(),
            #[trigger] &files[f].blocks@[c],
            ins,
        )
}

fn block_fits(n_lines: usize, block: &MarkerBlock, input_blocks: &[&MarkerBlock]) -> (b: bool)
    ensures
        b == block_small(n_lines as nat, block, input_blocks@),
        b ==> forall|l: Seq<Seq<char>>| l.len() == n_lines ==> block_defined(l, block, input_blocks@),
{
    match &block.role {
        BlockRole::Output { id: Some(_) } => {},
        _ => {
            return true;
        },
    }
    let j = match find_match_ref(input_blocks, block) {
        None => {
            return true;
        },
        Some(j) => j,
    };
    let kb = block.span.before_lines(block.config.offset);
    let ka = block.span.after_lines(block.config.offset);
    if kb >= ka {
        return true;
    }
    if block.span.end_marker > n_lines {
        return false;
    }
    if block.config.offset > (usize::MAX - 2) / 2 || block.span.begin_marker > usize::MAX - 2 - 2
        * block.config.offset {
        return false;
    }
    let source = chars_of(input_blocks[j].content.as_str());
    prepared_text_fits(source.as_slice(), block.config)
}

/// Whether `check_sync` may be called on these arguments: every output block
/// that is compared keeps its lines within its file, and its injected text
/// stays within what a string can hold. `true` only when it may (`false` as
/// well past the limits of `injection_fits`).
pub fn check_fits(input_blocks: &[&MarkerBlock], output_files: &[ParsedFile]) -> (b: bool)
    ensures
        b == files_small(input_blocks@, output_files@),
        b ==> check_defined(input_blocks@, output_files@),
{
    let mut f: usize = 0;
    while f < output_files.len()
        invariant
            f <= output_files.len(),
            forall|a: int, c: int|
                0 <= a < f && 0 <= c < output_files@[a].blocks@.len() ==> block_defined(
                    lines(output_files@[a].content@),
                    #[trigger] &output_files@[a].blocks@[c],
                    input_blocks@,
                ),
            forall|a: int, c: int|
                0 <= a < f && 0 <= c < output_files@[a].blocks@.len() ==> block_small(
                    lines(output_files@[a].content@).len(),
                    #[trigger] &output_files@[a].blocks@[c],
                    input_blocks@,
                ),
        decreases output_files.len() - f,
    {
        let file = &output_files[f];
        let n = lines_of(chars_of(file.content.as_str()).as_slice()).len();
        let mut b: usize = 0;
        while b < file.blocks.len()
            invariant
                f < output_files.len(),
                *file == output_files@[f as int],
                n == lines(file.content@).len(),
                b <= file.blocks.len(),
                forall|a: int, c: int|
                    0 <= a < f && 0 <= c < output_files@[a].blocks@.len() ==> block_defined(
                        lines(output_files@[a].content@),
                        #[trigger] &output_files@[a].blocks@[c],
                        input_blocks@,
                    ),
                forall|c: int|
                    0 <= c < b ==> block_defined(
                        lines(file.content@),
                        #[trigger] &file.blocks@[c],
                        input_blocks@,
                    ),
                forall|a: int, c: int|
                    0 <= a < f && 0 <= c < output_files@[a].blocks@.len() ==> block_small(
                        lines(output_files@[a].content@).len(),
                        #[trigger] &output_files@[a].blocks@[c],
                        input_blocks@,
                    ),
                forall|c: int|
                    0 <= c < b ==> block_small(
                        lines(file.content@).len(),
                        #[trigger] &file.blocks@[c],
                        input_blocks@,
                    ),
            decreases file.blocks.len() - b,
        {
            if !block_fits(n, &file.blocks[b], input_blocks) {
                assert(!block_small(
                    lines(output_files@[f as int].content@).len(),
                    &output_files@[f as int].blocks@[b as int],
                    input_blocks@,
                ));
                return false;
            }
            b = b + 1;
        }
        f = f + 1;
    }
    true
}

proof fn lemma_file_issues_error(
    lines: Seq<Seq<char>>,
    blocks: Seq<MarkerBlock>,
    ins: Seq<&MarkerBlock>,
    path: Seq<char>,
    k: int,
)
    requires
        0 <= k <= blocks.len(),
        file_issues(lines, blocks.take(k), ins, path) is Err,
    ensures
        file_issues(lines, blocks, ins, path) == file_issues(lines, blocks.take(k), ins, path),
    decreases blocks.len() - k,
{
    if k < blocks.len() {
        assert(blocks.take(k + 1).drop_last() =~= blocks.take(k));
        lemma_file_issues_error(lines, blocks, ins, path, k + 1);
    } else {
        assert(blocks.take(k) =~= blocks);
    }
}

proof fn lemma_check_error(ins: Seq<&MarkerBlock>, files: Seq<ParsedFile>, k: int)
    requires
        0 <= k <= files.len(),
        check_sync_spec(ins, files.take(k)) is Err,
    ensures
        check_sync_spec(ins, files) == check_sync_spec(ins, files.take(k)),
    decreases files.len() - k,
{
    if k < files.len() {
        assert(files.take(k + 1).drop_last() =~= files.take(k));
        lemma_check_error(ins, files, k + 1);
    } else {
        assert(files.take(k) =~= files);
    }
}

proof fn lemma_same_role_pointwise(ins: Seq<&MarkerBlock>, a: &MarkerBlock, b: &MarkerBlock)
    requires
        a.role == b.role,
    ensures
        forall|k: int| 0 <= k < ins.len() ==> #[trigger] block_matches(ins[k], a)
        == block_matches(ins[k], b),
{
    assert forall|k: int| 0 <= k < ins.len() implies #[trigger] block_matches(ins[k], a)
        == block_matches(ins[k], b) by {
        let x = ins[k];
        assert(block_matches(x, a) == block_matches(x, b));
    }
}

/// Whether `j` is the first input that provides content for `output`.
pub open spec fn is_first_match_ref(inputs: Seq<&MarkerBlock>, output: &MarkerBlock, j: int) -> bool {
    0 <= j < inputs.len() && block_matches(inputs[j], output) && forall|k: int|
        0 <= k < j ==> !block_matches(inputs[k], output)
}

proof fn lemma_same_match(ins: Seq<&MarkerBlock>, a: &MarkerBlock, b: &MarkerBlock)
    requires
        forall|k: int| 0 <= k < ins.len() ==> #[trigger] block_matches(ins[k], a)
        == block_matches(ins[k], b),
    ensures
        first_match_ref(ins, a) == first_match_ref(ins, b),
{
    assert forall|j: int| is_first_match_ref(ins, a, j) == is_first_match_ref(ins, b, j) by {
        if 0 <= j < ins.len() {
            assert(block_matches(ins[j], a) == block_matches(ins[j], b));
        }
    }
    assert((|j: int| is_first_match_ref(ins, a, j)) =~= (|j: int| is_first_match_ref(ins, b, j)));
}

pub(crate) proof fn lemma_same_role_same_match(ins: Seq<&MarkerBlock>, a: &MarkerBlock, b: &MarkerBlock)
    requires
        a.role == b.role,
    ensures
        first_match_ref(ins, a) == first_match_ref(ins, b),
{
    lemma_same_role_pointwise(ins, a, b);
    lemma_same_match(ins, a, b);
}

/// What `check` expects of a block is what injection writes: take a block into
/// which injection has just put its input, with its begin marker in place, its
/// end marker now just after the kept lines and the injected text, and between
/// the markers what injection left there. Injecting the same input into it
/// again gives the same lines, and `check` reports nothing for it.
pub proof fn law_inject_then_check(
    lines: Seq<Seq<char>>,
    block: &MarkerBlock,
    ins: Seq<&MarkerBlock>,
    after: &MarkerBlock,
    path: Seq<char>,
)
    requires
        block.span.end_marker < lines.len(),
        block.span.begin_marker + 2 * block.config.offset + 2 <= usize::MAX,
        first_match_ref(ins, block) is Some,
        after.role == block.role,
        after.config == block.config,
        after.span.begin_marker == block.span.begin_marker,
        after.span.end_marker == block.span.begin_marker + 2 * block.config.offset + 2,
        match first_match_ref(ins, block) {
            Some(j) => match inject_block_spec(lines, block, ins[j].content@) {
                Ok(injected) => after.content@ == join(
                    injected.subrange(
                        after.span.begin_marker + 1,
                        after.span.end_marker as int,
                    ),
                    '\n',
                ),
                Err(_) => false,
            },
            None => false,
        },
    ensures
        match first_match_ref(ins, block) {
            Some(j) => match inject_block_spec(lines, block, ins[j].content@) {
                Ok(injected) => inject_block_spec(injected, after, ins[j].content@) == Ok::<
                    Seq<Seq<char>>,
                    InjectorError,
                >(injected) && block_issue(injected, after, ins, path) == Ok::<
                    Option<IssueView>,
                    InjectorError,
                >(None),
                Err(_) => true,
            },
            None => true,
        },
{
    reveal(inject_block_spec);
    let j = first_match_ref(ins, block)->0;
    let s = ins[j].content@;
    let bm = block.span.begin_marker as int;
    let o = block.config.offset as int;
    let em = block.span.end_marker as int;
    let t = prepare_spec(s, block.config)->Ok_0;
    let injected = lines.take(bm + o + 1) + seq![t] + lines.skip(em - o);
    assert(inject_block_spec(lines, block, s) == Ok::<Seq<Seq<char>>, InjectorError>(injected));
    assert(injected.take(bm + o + 1) =~= lines.take(bm + o + 1));
    assert(injected.skip(bm + o + 2) =~= lines.skip(em - o));
    assert(injected.take(bm + o + 1) + seq![t] + injected.skip(bm + o + 2) =~= injected);
    assert(inject_block_spec(injected, after, s) == Ok::<Seq<Seq<char>>, InjectorError>(injected));
    lemma_same_role_same_match(ins, block, after);
    assert(expected_content(injected, after) == after.content@);
}

/// Whether no line of `t` ends with a carriage return.
pub open spec fn no_cr_line_ends(t: Seq<char>) -> bool {
    forall|k: int| 0 <= k < split(t, '\n').len() ==> strip_cr(#[trigger] split(t, '\n')[k]) == split(
        t,
        '\n',
    )[k]
}

/// The text of a file after injecting into one block: the injected lines
/// joined with newlines, with a final newline when the text had one.
pub open spec fn injected_text(content: Seq<char>, injected: Seq<Seq<char>>) -> Seq<char> {
    if ends_with_newline(content) {
        join(injected, '\n').push('\n')
    } else {
        join(injected, '\n')
    }
}

/// `check` accepts what `inject` writes. Inject the matching input into an
/// output block of a text, write the result out, and read it back: the begin
/// marker stays where it was, the end marker follows the kept lines and the
/// lines of the injected text, and the block holds the lines between them.
/// `check` then finds that block in sync (when no line of the injected text
/// ends with a carriage return, which reading back would drop).
pub proof fn law_injected_file_checks_in_sync(
    content: Seq<char>,
    block: &MarkerBlock,
    ins: Seq<&MarkerBlock>,
    after: &MarkerBlock,
    path: Seq<char>,
)
    requires
        block.span.end_marker < lines(content).len(),
        block.span.begin_marker + 2 * block.config.offset + 2 <= usize::MAX,
        after.role == block.role,
        after.config == block.config,
        after.span.begin_marker == block.span.begin_marker,
        match first_match_ref(ins, block) {
            Some(j) => match inject_block_spec(lines(content), block, ins[j].content@) {
                Ok(injected) => match prepare_spec(ins[j].content@, block.config) {
                    Ok(t) => {
                        &&& no_cr_line_ends(t)
                        &&& after.span.end_marker == block.span.begin_marker + 2
                            * block.config.offset + 1 + split(t, '\n').len()
                        &&& after.content@ == join(
                            lines(injected_text(content, injected)).subrange(
                                after.span.begin_marker + 1,
                                after.span.end_marker as int,
                            ),
                            '\n',
                        )
                    },
                    Err(_) => false,
                },
                Err(_) => false,
            },
            None => false,
        },
    ensures
        match first_match_ref(ins, block) {
            Some(j) => match inject_block_spec(lines(content), block, ins[j].content@) {
                Ok(injected) => block_issue(lines(injected_text(content, injected)), after, ins, path)
                    == Ok::<Option<IssueView>, InjectorError>(None),
                Err(_) => true,
            },
            None => true,
        },
{
    reveal(inject_block_spec);
    let j = first_match_ref(ins, block)->0;
    let src = ins[j].content@;
    let l = lines(content);
    let bm = block.span.begin_marker as int;
    let o = block.config.offset as int;
    let em = block.span.end_marker as int;
    let t = prepare_spec(src, block.config)->Ok_0;
    let kb = bm + o;
    let ka = em - o;
    let injected = l.take(kb + 1) + seq![t] + l.skip(ka);
    assert(inject_block_spec(l, block, src) == Ok::<Seq<Seq<char>>, InjectorError>(injected));
    let pieces = split(t, '\n');
    lemma_split_nonempty(t, '\n');
    lemma_split_pieces_free(t, '\n');
    lemma_join_split(t, '\n');
    let p = l.take(kb + 1) + pieces + l.skip(ka);
    lemma_join_flatten(l.take(kb + 1), pieces, l.skip(ka), '\n');
    assert(join(injected, '\n') == join(p, '\n'));
    lemma_lines_free(content);
    assert forall|k: int, q: int| 0 <= k < p.len() && 0 <= q < p[k].len() implies p[k][q] != '\n' by {
        if k < kb + 1 {
            assert(p[k] == l[k]);
        } else if k < kb + 1 + pieces.len() {
            assert(p[k] == pieces[k - kb - 1]);
        } else {
            assert(p[k] == l[k - kb - 1 - pieces.len() + ka]);
        }
    }
    let text = injected_text(content, injected);
    lemma_lines_of_join(p);
    let lt = lines(text);
    assert(lt.len() >= p.len() - 1);
    assert forall|k: int| 0 <= k < p.len() - 1 implies #[trigger] lt[k] == strip_cr(p[k]) by {
        if ends_with_newline(content) {
            assert(lines(join(p, '\n').push('\n'))[k] == strip_cr(p[k]));
        } else {
            assert(lines(join(p, '\n'))[k] == strip_cr(p[k]));
        }
    }
    let em2 = after.span.end_marker as int;
    assert(em2 == kb + 1 + pieces.len() + o);
    assert(p[em2] == l[em]);
    assert(em2 <= p.len() - 1);
    let ka2 = em2 - o;
    lemma_same_role_same_match(ins, block, after);
    let injected2 = lt.take(kb + 1) + seq![t] + lt.skip(ka2);
    assert(inject_block_spec(lt, after, src) == Ok::<Seq<Seq<char>>, InjectorError>(injected2));
    let a = lt.subrange(bm + 1, kb + 1);
    let b = lt.subrange(ka2, em2);
    assert(injected2.subrange(bm + 1, bm + 2 * o + 2) =~= a + seq![t] + b);
    assert forall|i: int| 0 <= i < pieces.len() implies lt[kb + 1 + i] == #[trigger] pieces[i] by {
        assert(lt[kb + 1 + i] == strip_cr(p[kb + 1 + i]));
        assert(p[kb + 1 + i] == pieces[i]);
    }
    assert(lt.subrange(kb + 1, ka2) =~= pieces);
    assert(lt.subrange(bm + 1, em2) =~= a + pieces + b);
    lemma_join_flatten(a, pieces, b, '\n');
    assert(expected_content(injected2, after) == after.content@);
}


/// `check` reports an output block with an id and a matching input exactly
/// when the text between its markers differs from what injecting that input
/// puts there, and the issue names the file, the block's span and id, the
/// expected text and the text found. Other blocks are never reported.
pub proof fn law_check_reports_difference(
    lines: Seq<Seq<char>>,
    block: &MarkerBlock,
    ins: Seq<&MarkerBlock>,
    path: Seq<char>,
)
    ensures
        match block.role {
            BlockRole::Output { id: Some(id) } => match first_match_ref(ins, block) {
                Some(j) => match inject_block_spec(lines, block, ins[j].content@) {
                    Ok(injected) => {
                        &&& block_issue(lines, block, ins, path) is Ok
                        &&& (block_issue(lines, block, ins, path) == Ok::<Option<IssueView>, InjectorError>(None))
                            <==> expected_content(injected, block) == block.content@
                        &&& block_issue(lines, block, ins, path) matches Ok(Some(issue)) ==> issue == (
                            path,
                            block.span,
                            id@,
                            expected_content(injected, block),
                            block.content@,
                        )
                    },
                    Err(e) => block_issue(lines, block, ins, path) == Err::<Option<IssueView>, InjectorError>(e),
                },
                None => block_issue(lines, block, ins, path) == Ok::<Option<IssueView>, InjectorError>(None),
            },
            _ => block_issue(lines, block, ins, path) == Ok::<Option<IssueView>, InjectorError>(None),
        },
{
}

proof fn lemma_no_file_issue(
    lines: Seq<Seq<char>>,
    blocks: Seq<MarkerBlock>,
    ins: Seq<&MarkerBlock>,
    path: Seq<char>,
    k: int,
)
    requires
        file_issues(lines, blocks, ins, path) == Ok::<Seq<IssueView>, InjectorError>(Seq::empty()),
        0 <= k < blocks.len(),
    ensures
        block_issue(lines, &blocks[k], ins, path) == Ok::<Option<IssueView>, InjectorError>(None),
    decreases blocks.len(),
{
    let d = blocks.drop_last();
    match file_issues(lines, d, ins, path) {
        Ok(done) => {
            match block_issue(lines, &blocks.last(), ins, path) {
                Ok(Some(i)) => {
                    assert(done.push(i).len() > 0);
                },
                _ => {},
            }
            assert(done.len() == 0);
            assert(done =~= Seq::<IssueView>::empty());
            if k < d.len() {
                assert(d[k] == blocks[k]);
                lemma_no_file_issue(lines, d, ins, path, k);
            } else {
                assert(blocks.last() == blocks[k]);
            }
        },
        Err(_) => {},
    }
}

proof fn lemma_no_check_issue(ins: Seq<&MarkerBlock>, files: Seq<ParsedFile>, f: int)
    requires
        check_sync_spec(ins, files) == Ok::<Seq<IssueView>, InjectorError>(Seq::empty()),
        0 <= f < files.len(),
    ensures
        file_issues(lines(files[f].content@), files[f].blocks@, ins, files[f].path@) == Ok::<
            Seq<IssueView>,
            InjectorError,
        >(Seq::empty()),
    decreases files.len(),
{
    let d = files.drop_last();
    let l = files.last();
    match check_sync_spec(ins, d) {
        Ok(done) => {
            match file_issues(lines(l.content@), l.blocks@, ins, l.path@) {
                Ok(more) => {
                    assert((done + more).len() == 0);
                    assert(done =~= Seq::<IssueView>::empty());
                    assert(more =~= Seq::<IssueView>::empty());
                    if f < d.len() {
                        assert(d[f] == files[f]);
                        lemma_no_check_issue(ins, d, f);
                    } else {
                        assert(l == files[f]);
                    }
                },
                Err(_) => {},
            }
        },
        Err(_) => {},
    }
}

/// When `check` finds no issue in a set of files, every output block with an
/// id and a matching input, in every file, holds exactly what injecting that
/// input would put between its markers.
pub proof fn law_no_issue_means_in_sync(ins: Seq<&MarkerBlock>, files: Seq<ParsedFile>, f: int, k: int)
    requires
        check_sync_spec(ins, files) == Ok::<Seq<IssueView>, InjectorError>(Seq::empty()),
        0 <= f < files.len(),
        0 <= k < files[f].blocks@.len(),
    ensures
        ({
            let b = files[f].blocks@[k];
            (b.role matches BlockRole::Output { id: Some(_) }) ==> match first_match_ref(ins, &b) {
                Some(j) => match inject_block_spec(lines(files[f].content@), &b, ins[j].content@) {
                    Ok(injected) => expected_content(injected, &b) == b.content@,
                    Err(_) => false,
                },
                None => true,
            }
        }),
{
    let b = files[f].blocks@[k];
    lemma_no_check_issue(ins, files, f);
    lemma_no_file_issue(lines(files[f].content@), files[f].blocks@, ins, files[f].path@, k);
    law_check_reports_difference(lines(files[f].content@), &b, ins, files[f].path@);
}

} // verus!
