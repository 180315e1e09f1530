//! The decisions of the commands: which patterns they take, the block that
//! stdin provides, the rows that `list` prints and the blocks that `check`
//! compares against.
use vstd::prelude::*;

use crate::checker::derefs;
use crate::cli::{InjectArgs, RootArgs};
use crate::config::GlobalConfig;
use crate::text::{chars_of, string_of};
use crate::types::{
    default_config, ids_view, line_range_text, BlockRole, MarkerBlock, ParsedFile, RoleView,
    SourceSpan,
};

verus! {

/// The pattern `.`, the current directory.
pub open spec fn current_dir() -> Seq<char> {
    seq!['.']
}

/// `first` followed by `second`.
pub fn chained(first: Vec<String>, second: Vec<String>) -> (r: Vec<String>)
    ensures
        r@ == first@ + second@,
{
    let mut r = first;
    let mut rest = second;
    r.append(&mut rest);
    r
}

/// The patterns given on the command line, then those of the configuration's
/// input and output; `.` alone when there are none.
pub fn merged_with_fallback(cli: Vec<String>, input: Vec<String>, output: Vec<String>) -> (merged: Vec<
    String,
>)
    ensures
        (cli@ + input@ + output@).len() > 0 ==> merged@ == cli@ + input@ + output@,
        (cli@ + input@ + output@).len() == 0 ==> merged@.len() == 1 && merged@[0]@ == current_dir(),
{
    let mut merged = chained(chained(cli, input), output);
    if merged.len() == 0 {
        let dot = chars_of(".");
        proof {
            reveal_strlit(".");
        }
        merged.push(string_of(dot.as_slice()));
        assert(merged@[0]@ =~= current_dir());
    }
    merged
}

/// The ids that are given, in order.
pub open spec fn present_ids(ids: Seq<Option<String>>) -> Seq<Seq<char>>
    decreases ids.len(),
{
    if ids.len() == 0 {
        Seq::empty()
    } else {
        present_ids(ids.drop_last()) + match ids.last() {
            Some(s) => seq![s@],
            None => Seq::empty(),
        }
    }
}

/// The single input block that stdin provides: its content is all of stdin,
/// its ids are the given ones, and its span and options are those of an empty
/// block at line 0.
pub fn stdin_blocks(content: String, ids: Vec<Option<String>>) -> (r: Vec<MarkerBlock>)
    ensures
        r@.len() == 1,
        r@[0].span.begin_marker == 0,
        r@[0].span.end_marker == 0,
        r@[0].role@ == RoleView::Input(present_ids(ids@)),
        r@[0].content@ == content@,
        r@[0].config == default_config(),
{
    let mut input_ids: Vec<String> = Vec::new();
    let mut i: usize = 0;
    assert(ids@.take(0) =~= Seq::<Option<String>>::empty());
    assert(ids_view(input_ids@) =~= Seq::<Seq<char>>::empty());
    while i < ids.len()
        invariant
            i <= ids.len(),
            ids_view(input_ids@) == present_ids(ids@.take(i as int)),
        decreases ids.len() - i,
    {
        assert(ids@.take(i + 1).drop_last() =~= ids@.take(i as int));
        assert(ids@.take(i + 1).last() == ids@[i as int]);
        match &ids[i] {
            Some(s) => {
                let ghost before = ids_view(input_ids@);
                input_ids.push(s.clone());
                assert(ids_view(input_ids@) =~= before + seq![s@]);
            },
            None => {
                assert(ids_view(input_ids@) =~= ids_view(input_ids@) + Seq::<Seq<char>>::empty());
            },
        }
        i = i + 1;
    }
    assert(ids@.take(ids.len() as int) =~= ids@);
    let mut r: Vec<MarkerBlock> = Vec::new();
    r.push(
        MarkerBlock {
            span: SourceSpan::new(0, 0),
            role: BlockRole::Input { ids: input_ids },
            content,
            config: crate::types::MarkerConfig::default(),
        },
    );
    r
}

/// What a run without subcommand injects: the configuration's input and
/// output patterns with the run's options and no ids; `None` when the
/// configuration gives no input pattern ("input source is empty").
pub fn root_inject_args(cfg: GlobalConfig, args: &RootArgs) -> (r: Option<InjectArgs>)
    ensures
        cfg.input@.len() == 0 <==> r is None,
        r matches Some(a) ==> a.input@ == cfg.input@ && a.output@ == cfg.output@ && a.dry_run
            == args.dry_run && a.diff == args.diff && a.id@.len() == 0,
{
    if cfg.input.len() == 0 {
        return None;
    }
    Some(
        InjectArgs {
            input: cfg.input,
            output: cfg.output,
            dry_run: args.dry_run,
            diff: args.diff,
            id: Vec::new(),
        },
    )
}

/// Whether a marker provides or receives content.
#[derive(Debug, Clone, Copy, PartialEq, Eq, Structural)]
pub enum MarkerType {
    Input,
    Output,
}

pub open spec fn marker_type_name(t: MarkerType) -> Seq<char> {
    match t {
        MarkerType::Input => seq!['i', 'n', 'p', 'u', 't'],
        MarkerType::Output => seq!['o', 'u', 't', 'p', 'u', 't'],
    }
}

impl MarkerType {
    /// `input` or `output`.
    pub fn to_string(&self) -> (s: String)
        ensures
            s@ == marker_type_name(*self),
    {
        match self {
            MarkerType::Input => {
                let c = chars_of("input");
                proof {
                    reveal_strlit("input");
                }
                assert(c@ =~= marker_type_name(*self));
                string_of(c.as_slice())
            },
            MarkerType::Output => {
                let c = chars_of("output");
                proof {
                    reveal_strlit("output");
                }
                assert(c@ =~= marker_type_name(*self));
                string_of(c.as_slice())
            },
        }
    }
}

/// One row of `list`: a file, an id, whether a block provides or receives it,
/// and the block's marker lines.
#[derive(Debug)]
pub struct MarkerInfo {
    pub file: String,
    pub id: String,
    pub marker_type: MarkerType,
    pub lines: String,
}

/// A row as plain values.
pub type RowView = (Seq<char>, Seq<char>, MarkerType, Seq<char>);

pub open spec fn row_view(r: MarkerInfo) -> RowView {
    (r.file@, r.id@, r.marker_type, r.lines@)
}

pub open spec fn rows_view(rows: Seq<MarkerInfo>) -> Seq<RowView> {
    Seq::new(rows.len(), |i: int| row_view(rows[i]))
}

/// Whether the markers' line numbers can be shown counted from 1.
pub open spec fn span_fits(span: SourceSpan) -> bool {
    span.begin_marker < usize::MAX && span.end_marker < usize::MAX
}

pub open spec fn span_text(span: SourceSpan) -> Seq<char> {
    line_range_text((span.begin_marker + 1) as nat, (span.end_marker + 1) as nat)
}

/// Appends the row of `id` in `file`.
pub fn push_row(
    rows: &mut Vec<MarkerInfo>,
    file: &str,
    marker_type: MarkerType,
    id: &str,
    span: &SourceSpan,
)
    requires
        span_fits(*span),
    ensures
        rows_view(final(rows)@) == rows_view(old(rows)@).push(
            (file@, id@, marker_type, span_text(*span)),
        ),
{
    let ghost before = rows_view(rows@);
    let f = string_of(chars_of(file).as_slice());
    let i = string_of(chars_of(id).as_slice());
    rows.push(MarkerInfo { file: f, id: i, marker_type, lines: span.display_lines() });
    assert(rows_view(rows@) =~= before.push((file@, id@, marker_type, span_text(*span))));
}

/// The rows of one block: one per id of an input block, one for an output
/// block with an id, none for an output block without.
pub open spec fn block_rows(path: Seq<char>, b: MarkerBlock) -> Seq<RowView> {
    match b.role {
        BlockRole::Input { ids } => Seq::new(
            ids@.len(),
            |i: int| (path, ids@[i]@, MarkerType::Input, span_text(b.span)),
        ),
        BlockRole::Output { id: Some(i) } => seq![(path, i@, MarkerType::Output, span_text(b.span))],
        BlockRole::Output { id: None } => Seq::empty(),
    }
}

pub open spec fn blocks_rows(path: Seq<char>, blocks: Seq<MarkerBlock>) -> Seq<RowView>
    decreases blocks.len(),
{
    if blocks.len() == 0 {
        Seq::empty()
    } else {
        blocks_rows(path, blocks.drop_last()) + block_rows(path, blocks.last())
    }
}

/// The rows of `list`: file by file, block by block.
pub open spec fn files_rows(files: Seq<ParsedFile>) -> Seq<RowView>
    decreases files.len(),
{
    if files.len() == 0 {
        Seq::empty()
    } else {
        files_rows(files.drop_last()) + blocks_rows(files.last().path@, files.last().blocks@)
    }
}

/// Whether every block of every file can show its marker lines.
pub open spec fn files_spans_fit(files: Seq<ParsedFile>) -> bool {
    forall|f: int, b: int|
        0 <= f < files.len() && 0 <= b < files[f].blocks@.len() ==> span_fits(
            #[trigger] files[f].blocks@[b].span,
        )
}

fn push_block_rows(rows: &mut Vec<MarkerInfo>, path: &String, block: &MarkerBlock)
    requires
        span_fits(block.span),
    ensures
        rows_view(final(rows)@) == rows_view(old(rows)@) + block_rows(path@, *block),
{
    let ghost start = rows_view(rows@);
    match &block.role {
        BlockRole::Input { ids } => {
            let mut i: usize = 0;
            while i < ids.len()
                invariant
                    i <= ids.len(),
                    span_fits(block.span),
                    block.role == (BlockRole::Input { ids: *ids }),
                    rows_view(rows@) == start + block_rows(path@, *block).take(i as int),
                decreases ids.len() - i,
            {
                push_row(rows, path.as_str(), MarkerType::Input, ids[i].as_str(), &block.span);
                assert(block_rows(path@, *block).take(i + 1) =~= block_rows(path@, *block).take(
                    i as int,
                ).push((path@, ids@[i as int]@, MarkerType::Input, span_text(block.span))));
                i = i + 1;
            }
            assert(block_rows(path@, *block).take(ids.len() as int) =~= block_rows(path@, *block));
        },
        BlockRole::Output { id } => {
            match id {
                Some(i) => {
                    push_row(rows, path.as_str(), MarkerType::Output, i.as_str(), &block.span);
                    assert(rows_view(rows@) =~= start + block_rows(path@, *block));
                },
                None => {
                    assert(rows_view(rows@) =~= start + block_rows(path@, *block));
                },
            }
        },
    }
}

/// The rows that `list` prints for `files`.
pub fn marker_rows(files: &[ParsedFile]) -> (rows: Vec<MarkerInfo>)
    requires
        files_spans_fit(files@),
    ensures
        rows_view(rows@) == files_rows(files@),
{
    let mut rows: Vec<MarkerInfo> = Vec::new();
    let mut f: usize = 0;
    assert(files@.take(0) =~= Seq::<ParsedFile>::empty());
    assert(rows_view(rows@) =~= Seq::<RowView>::empty());
    while f < files.len()
        invariant
            f <= files.len(),
            files_spans_fit(files@),
            rows_view(rows@) == files_rows(files@.take(f as int)),
        decreases files.len() - f,
    {
        let file = &files[f];
        let ghost start = rows_view(rows@);
        let mut b: usize = 0;
        assert(file.blocks@.take(0) =~= Seq::<MarkerBlock>::empty());
        assert(rows_view(rows@) =~= start + blocks_rows(file.path@, file.blocks@.take(0)));
        while b < file.blocks.len()
            invariant
                f < files.len(),
                *file == files@[f as int],
                b <= file.blocks.len(),
                files_spans_fit(files@),
                rows_view(rows@) == start + blocks_rows(file.path@, file.blocks@.take(b as int)),
            decreases file.blocks.len() - b,
        {
            assert(span_fits(files@[f as int].blocks@[b as int].span));
            assert(file.blocks@.take(b + 1).drop_last() =~= file.blocks@.take(b as int));
            assert(file.blocks@.take(b + 1).last() == file.blocks@[b as int]);
            push_block_rows(&mut rows, &file.path, &file.blocks[b]);
            b = b + 1;
            assert(rows_view(rows@) =~= start + blocks_rows(file.path@, file.blocks@.take(b as int)));
        }
        assert(file.blocks@.take(file.blocks.len() as int) =~= file.blocks@);
        assert(files@.take(f + 1).drop_last() =~= files@.take(f as int));
        assert(files@.take(f + 1).last() == files@[f as int]);
        f = f + 1;
        assert(rows_view(rows@) =~= files_rows(files@.take(f as int)));
    }
    assert(files@.take(files.len() as int) =~= files@);
    rows
}

/// The input blocks among `blocks`, in order.
pub open spec fn input_blocks_in(blocks: Seq<MarkerBlock>) -> Seq<MarkerBlock>
    decreases blocks.len(),
{
    if blocks.len() == 0 {
        Seq::empty()
    } else {
        input_blocks_in(blocks.drop_last()) + match blocks.last().role {
            BlockRole::Input { .. } => seq![blocks.last()],
            _ => Seq::empty(),
        }
    }
}

/// The input blocks of all files, file by file.
pub open spec fn files_input_blocks(files: Seq<ParsedFile>) -> Seq<MarkerBlock>
    decreases files.len(),
{
    if files.len() == 0 {
        Seq::empty()
    } else {
        files_input_blocks(files.drop_last()) + input_blocks_in(files.last().blocks@)
    }
}

/// The input blocks of `files` that `check` compares output blocks against.
pub fn input_blocks_of(files: &[ParsedFile]) -> (r: Vec<&MarkerBlock>)
    ensures
        derefs(r@) == files_input_blocks(files@),
{
    let mut r: Vec<&MarkerBlock> = Vec::new();
    let mut f: usize = 0;
    assert(files@.take(0) =~= Seq::<ParsedFile>::empty());
    assert(derefs(r@) =~= Seq::<MarkerBlock>::empty());
    while f < files.len()
        invariant
            f <= files.len(),
            derefs(r@) == files_input_blocks(files@.take(f as int)),
        decreases files.len() - f,
    {
        let file = &files[f];
        let ghost start = derefs(r@);
        let mut b: usize = 0;
        assert(file.blocks@.take(0) =~= Seq::<MarkerBlock>::empty());
        assert(derefs(r@) =~= start + input_blocks_in(file.blocks@.take(0)));
        while b < file.blocks.len()
            invariant
                f < files.len(),
                *file == files@[f as int],
                b <= file.blocks.len(),
                derefs(r@) == start + input_blocks_in(file.blocks@.take(b as int)),
            decreases file.blocks.len() - b,
        {
            let block = &file.blocks[b];
            assert(file.blocks@.take(b + 1).drop_last() =~= file.blocks@.take(b as int));
            assert(file.blocks@.take(b + 1).last() == *block);
            let ghost prev = derefs(r@);
            match &block.role {
                BlockRole::Input { .. } => {
                    r.push(block);
                    assert(derefs(r@) =~= prev.push(*block));
                },
                BlockRole::Output { .. } => {},
            }
            b = b + 1;
            assert(derefs(r@) =~= start + input_blocks_in(file.blocks@.take(b as int)));
        }
        assert(file.blocks@.take(file.blocks.len() as int) =~= file.blocks@);
        assert(files@.take(f + 1).drop_last() =~= files@.take(f as int));
        assert(files@.take(f + 1).last() == files@[f as int]);
        f = f + 1;
        assert(derefs(r@) =~= files_input_blocks(files@.take(f as int)));
    }
    assert(files@.take(files.len() as int) =~= files@);
    r
}

} // verus!
