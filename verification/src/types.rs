//! The marker model: spans, per-region options, roles and blocks.
use vstd::prelude::*;

use crate::number::{decimal, decimal_chars};
use crate::text::{append_chars, string_of};

verus! {

/// Line numbers (counted from 0) of the `injm begin` and `injm end` markers of a block.
#[derive(Debug, Clone, Copy, PartialEq, Eq, Structural)]
pub struct SourceSpan {
    pub begin_marker: usize,
    pub end_marker: usize,
}

/// Options written on a begin marker as `:name=value` tokens.
#[derive(Debug, Clone, Copy, PartialEq, Eq, Structural)]
pub struct MarkerConfig {
    /// Lines just inside the markers, on each side, that injection keeps.
    pub offset: usize,
    /// Whether leading and trailing blank lines of the injected text are removed.
    pub trim: bool,
    /// Column to which the minimum indentation of the injected text is moved.
    pub indent: Option<usize>,
}

/// What a block does: receive content (`>id`, or no id) or provide it (`<id`...).
#[derive(Debug)]
pub enum BlockRole {
    Output { id: Option<String> },
    Input { ids: Vec<String> },
}

/// A region between an `injm begin` and an `injm end` marker.
#[derive(Debug)]
pub struct MarkerBlock {
    pub span: SourceSpan,
    pub role: BlockRole,
    /// The lines between the markers, joined with `\n`.
    pub content: String,
    pub config: MarkerConfig,
}

/// A file with the blocks found in it.
#[derive(Debug)]
pub struct ParsedFile {
    pub content: String,
    pub blocks: Vec<MarkerBlock>,
    pub path: String,
}

/// A comment of a source file: its text (without comment delimiters, trimmed)
/// and the lines (from 0) on which it starts and ends.
#[derive(Debug)]
pub struct Comment {
    pub text: String,
    pub start_line: usize,
    pub end_line: usize,
}

/// A role with its identifiers as character sequences.
pub enum RoleView {
    Output(Option<Seq<char>>),
    Input(Seq<Seq<char>>),
}

/// A block with its texts as character sequences.
pub struct BlockView {
    pub span: SourceSpan,
    pub role: RoleView,
    pub content: Seq<char>,
    pub config: MarkerConfig,
}

impl View for BlockRole {
    type V = RoleView;

    open spec fn view(&self) -> RoleView {
        match self {
            BlockRole::Output { id } => RoleView::Output(
                match id {
                    Some(i) => Some(i@),
                    None => None,
                },
            ),
            BlockRole::Input { ids } => RoleView::Input(ids_view(ids@)),
        }
    }
}

impl View for MarkerBlock {
    type V = BlockView;

    open spec fn view(&self) -> BlockView {
        BlockView { span: self.span, role: self.role@, content: self.content@, config: self.config }
    }
}

pub open spec fn blocks_view(v: Seq<MarkerBlock>) -> Seq<BlockView> {
    Seq::new(v.len(), |i: int| v[i]@)
}

/// A comment as plain values: text, first line, last line.
pub type CommentView = (Seq<char>, usize, usize);

pub open spec fn comments_view(v: Seq<Comment>) -> Seq<CommentView> {
    Seq::new(v.len(), |i: int| (v[i].text@, v[i].start_line, v[i].end_line))
}

/// The identifiers of an input block, as character sequences.
pub open spec fn ids_view(ids: Seq<String>) -> Seq<Seq<char>> {
    Seq::new(ids.len(), |i: int| ids[i]@)
}

/// The configuration a begin marker without options has.
pub open spec fn default_config() -> MarkerConfig {
    MarkerConfig { offset: 0, trim: false, indent: None }
}

impl Default for MarkerConfig {
    fn default() -> (c: MarkerConfig)
        ensures
            c == default_config(),
    {
        MarkerConfig { offset: 0, trim: false, indent: None }
    }
}

/// An input block provides content for an output block when the output's id is
/// one of the input's ids, or, for an output without id, when the input has no id.
pub open spec fn block_matches(input: &MarkerBlock, output: &MarkerBlock) -> bool {
    match (&input.role, &output.role) {
        (BlockRole::Input { ids }, BlockRole::Output { id }) => match id {
            Some(i) => ids_view(ids@).contains(i@),
            None => ids@.len() == 0,
        },
        _ => false,
    }
}

/// Index of the first input block that provides content for `output`.
pub open spec fn first_match(inputs: Seq<MarkerBlock>, output: &MarkerBlock) -> Option<int> {
    if exists|j: int| 0 <= j < inputs.len() && block_matches(&inputs[j], output) {
        Some(
            choose|j: int|
                0 <= j < inputs.len() && block_matches(&inputs[j], output) && forall|k: int|
                    0 <= k < j ==> !block_matches(&inputs[k], output),
        )
    } else {
        None
    }
}

/// `s1 == s2` on strings.
pub fn same_string(s1: &String, s2: &String) -> (b: bool)
    ensures
        b == (s1@ == s2@),
{
    *s1 == *s2
}

impl MarkerBlock {
    /// Whether this (input) block provides content for `output`.
    pub fn matches_output(&self, output: &MarkerBlock) -> (b: bool)
        ensures
            b == block_matches(self, output),
    {
        let ids = match &self.role {
            BlockRole::Input { ids } => ids,
            BlockRole::Output { .. } => {
                return false;
            },
        };
        match &output.role {
            BlockRole::Output { id } => match id {
                Some(id) => {
                    let mut i: usize = 0;
                    while i < ids.len()
                        invariant
                            i <= ids.len(),
                            self.role == (BlockRole::Input { ids: *ids }),
                            output.role == (BlockRole::Output { id: Some(*id) }),
                            forall|k: int| 0 <= k < i ==> ids@[k]@ != id@,
                        decreases ids.len() - i,
                    {
                        if same_string(&ids[i], id) {
                            assert(ids_view(ids@)[i as int] == id@);
                            assert(ids_view(ids@).contains(id@));
                            return true;
                        }
                        i = i + 1;
                    }
                    assert forall|k: int| 0 <= k < ids_view(ids@).len() implies ids_view(
                        ids@,
                    )[k] != id@ by {
                        assert(ids_view(ids@)[k] == ids@[k]@);
                    }
                    false
                },
                None => ids.len() == 0,
            },
            BlockRole::Input { .. } => false,
        }
    }
}

/// Index of the first input block in `inputs` that provides content for `output`.
pub fn find_match(inputs: &[MarkerBlock], output: &MarkerBlock) -> (r: Option<usize>)
    ensures
        match r {
            Some(j) => j < inputs@.len() && first_match(inputs@, output) == Some(j as int),
            None => first_match(inputs@, output) is None,
        },
{
    let mut j: usize = 0;
    while j < inputs.len()
        invariant
            j <= inputs.len(),
            forall|k: int| 0 <= k < j ==> !block_matches(&inputs@[k], output),
        decreases inputs.len() - j,
    {
        if inputs[j].matches_output(output) {
            let ghost w = choose|m: int|
                0 <= m < inputs@.len() && block_matches(&inputs@[m], output) && forall|k: int|
                    0 <= k < m ==> !block_matches(&inputs@[k], output);
            assert(0 <= j < inputs@.len() && block_matches(&inputs@[j as int], output));
            assert(w == j) by {
                if w < j {
                } else if w > j {
                }
            }
            return Some(j);
        }
        j = j + 1;
    }
    None
}

/// The text `a-b`.
pub open spec fn line_range_text(a: nat, b: nat) -> Seq<char> {
    decimal(a).push('-') + decimal(b)
}

impl SourceSpan {
    pub fn new(begin_marker: usize, end_marker: usize) -> (s: SourceSpan)
        ensures
            s.begin_marker == begin_marker,
            s.end_marker == end_marker,
    {
        SourceSpan { begin_marker, end_marker }
    }

    /// Indices of the lines strictly between the markers.
    pub fn content_lines(&self) -> (r: std::ops::Range<usize>)
        requires
            self.begin_marker < usize::MAX,
        ensures
            r.start == self.begin_marker + 1,
            r.end == self.end_marker,
    {
        (self.begin_marker + 1)..self.end_marker
    }

    /// The markers' line numbers counted from 1, as `begin-end`.
    pub fn display_lines(&self) -> (s: String)
        requires
            self.begin_marker < usize::MAX,
            self.end_marker < usize::MAX,
        ensures
            s@ == line_range_text((self.begin_marker + 1) as nat, (self.end_marker + 1) as nat),
    {
        let mut v = decimal_chars(self.begin_marker + 1);
        v.push('-');
        let w = decimal_chars(self.end_marker + 1);
        append_chars(&mut v, w.as_slice());
        string_of(v.as_slice())
    }

    /// Index of the last line kept before the replaced region: the begin marker
    /// and the `offset` lines after it (saturating at `usize::MAX`).
    pub fn before_lines(&self, offset: usize) -> (r: usize)
        ensures
            r == kept_before_end(*self, offset),
    {
        self.begin_marker.saturating_add(offset)
    }

    /// Index of the first line kept after the replaced region: the end marker
    /// and the `offset` lines before it (saturating at 0).
    pub fn after_lines(&self, offset: usize) -> (r: usize)
        ensures
            r == kept_after_start(*self, offset),
    {
        self.end_marker.saturating_sub(offset)
    }
}

pub open spec fn kept_before_end(span: SourceSpan, offset: usize) -> int {
    if span.begin_marker + offset > usize::MAX {
        usize::MAX as int
    } else {
        span.begin_marker + offset
    }
}

pub open spec fn kept_after_start(span: SourceSpan, offset: usize) -> int {
    if span.end_marker < offset {
        0
    } else {
        span.end_marker - offset
    }
}

/// An input block without ids (what stdin gives without `--id`) provides
/// content exactly for the output blocks without id; blocks with an id are
/// left alone.
pub proof fn law_anonymous_input_targets_anonymous_outputs(input: &MarkerBlock, output: &MarkerBlock)
    requires
        input.role matches BlockRole::Input { ids } && ids@.len() == 0,
    ensures
        block_matches(input, output) <==> (output.role matches BlockRole::Output { id: None }),
{
    if let BlockRole::Output { id: Some(i) } = &output.role {
        if let BlockRole::Input { ids } = &input.role {
            assert(ids_view(ids@).len() == 0);
        }
    }
}

} // verus!
