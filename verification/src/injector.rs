//! Injection of input content into output blocks, with the per-region options
//! `:offset`, `:trim` and `:indent`.
use vstd::prelude::*;

use crate::text::{
    append_chars, blank, chars_of, is_blank, is_ws, join, join_chars, lemma_join_split, lemma_join_subrange, lemma_split_join,
    lemma_split_nonempty, lemma_split_pieces_free, lines, lines_of,
    repeat, seqs, slice_chars, split, split_chars, string_of, strip_cr,
};
use crate::number::{decimal, decimal_chars};
use crate::types::{first_match, find_match, kept_after_start, kept_before_end, MarkerBlock, MarkerConfig};

verus! {

/// Why an injection failed.
#[derive(Debug, PartialEq, Eq)]
pub enum InjectorError {
    /// The input block that matches an output block is empty.
    EmptyInputContent,
    /// The offset leaves no room between the kept lines; the bounds are the
    /// kept lines' numbers counted from 1.
    InvalidRange { begin: usize, end: usize },
    /// A line (counted from 1) of the injected text indents with both tabs and
    /// spaces, or with another character than the text's first indented line.
    MixedIndentChar { line_number: usize },
}

/// The text that describes an injection error.
pub open spec fn injector_message(e: InjectorError) -> Seq<char> {
    match e {
        InjectorError::EmptyInputContent => "empty input content"@,
        InjectorError::InvalidRange { begin, end } => "invalid range: ("@ + decimal(begin as nat)
            + ", "@ + decimal(end as nat) + ")"@,
        InjectorError::MixedIndentChar { line_number } => "line "@ + decimal(line_number as nat)
            + " mixes tabs and spaces in indentation"@,
    }
}

impl InjectorError {
    /// What the error says: `empty input content`, `invalid range: (begin, end)`,
    /// or `line N mixes tabs and spaces in indentation`.
    pub fn message(&self) -> (s: String)
        ensures
            s@ == injector_message(*self),
    {
        match self {
            InjectorError::EmptyInputContent => string_of(chars_of("empty input content").as_slice()),
            InjectorError::InvalidRange { begin, end } => {
                let mut v = chars_of("invalid range: (");
                append_chars(&mut v, decimal_chars(*begin).as_slice());
                append_chars(&mut v, chars_of(", ").as_slice());
                append_chars(&mut v, decimal_chars(*end).as_slice());
                append_chars(&mut v, chars_of(")").as_slice());
                string_of(v.as_slice())
            },
            InjectorError::MixedIndentChar { line_number } => {
                let mut v = chars_of("line ");
                append_chars(&mut v, decimal_chars(*line_number).as_slice());
                append_chars(&mut v, chars_of(" mixes tabs and spaces in indentation").as_slice());
                string_of(v.as_slice())
            },
        }
    }
}

// ---------------------------------------------------------------------------
// `:trim`
// ---------------------------------------------------------------------------

/// Leading pieces that are blank, never counting the last piece.
pub open spec fn lead_blank(parts: Seq<Seq<char>>) -> nat
    decreases parts.len(),
{
    if parts.len() >= 2 && is_blank(parts[0]) {
        1 + lead_blank(parts.drop_first())
    } else {
        0
    }
}

/// Trailing pieces that are blank, never counting the first piece.
pub open spec fn trail_blank(parts: Seq<Seq<char>>) -> nat
    decreases parts.len(),
{
    if parts.len() >= 2 && is_blank(parts.last()) {
        1 + trail_blank(parts.drop_last())
    } else {
        0
    }
}

/// The lines of `s` kept by `:trim`: blank lines are dropped from the start and
/// from the end (at least one line stays).
pub open spec fn trimmed_lines(s: Seq<char>) -> Seq<Seq<char>> {
    let parts = split(s, '\n');
    let rest = parts.skip(lead_blank(parts) as int);
    rest.take(rest.len() - trail_blank(rest))
}

/// `:trim`: the text without its leading and trailing blank lines (and without
/// a carriage return that ends it); a blank text becomes empty.
pub open spec fn trim_blank_lines_spec(s: Seq<char>) -> Seq<char> {
    let t = strip_cr(join(trimmed_lines(s), '\n'));
    if is_blank(t) {
        Seq::empty()
    } else {
        t
    }
}

proof fn lemma_lead_blank_step(p: Seq<Seq<char>>, a: int)
    requires
        0 <= a,
        a + 1 < p.len(),
        is_blank(p[a]),
    ensures
        lead_blank(p.skip(a)) == 1 + lead_blank(p.skip(a + 1)),
{
    assert(p.skip(a).drop_first() =~= p.skip(a + 1));
    assert(p.skip(a)[0] == p[a]);
}

proof fn lemma_trail_blank_step(p: Seq<Seq<char>>, m: int)
    requires
        2 <= m <= p.len(),
        is_blank(p[m - 1]),
    ensures
        trail_blank(p.take(m)) == 1 + trail_blank(p.take(m - 1)),
{
    assert(p.take(m).drop_last() =~= p.take(m - 1));
    assert(p.take(m).last() == p[m - 1]);
}

/// Removes leading and trailing blank lines (`:trim`).
pub fn trim_blank_lines(content: &[char]) -> (r: Vec<char>)
    ensures
        r@ == trim_blank_lines_spec(content@),
{
    let parts = split_chars(content, '\n');
    proof {
        lemma_split_nonempty(content@, '\n');
    }
    let ghost p = seqs(parts@);
    let n = parts.len();
    let mut a: usize = 0;
    assert(p.skip(0) =~= p);
    while a + 1 < n && blank(parts[a].as_slice())
        invariant
            n == parts.len(),
            p == seqs(parts@),
            n >= 1,
            a + 1 <= n,
            lead_blank(p) == a + lead_blank(p.skip(a as int)),
        decreases n - a,
    {
        proof {
            lemma_lead_blank_step(p, a as int);
        }
        a = a + 1;
    }
    assert(lead_blank(p.skip(a as int)) == 0);
    assert(p.skip(0) =~= p);
    let ghost rest = p.skip(a as int);
    let m0 = n - a;
    let mut m: usize = m0;
    assert(rest.take(m as int) =~= rest);
    while m >= 2 && blank(parts[a + m - 1].as_slice())
        invariant
            n == parts.len(),
            p == seqs(parts@),
            a + 1 <= n,
            rest == p.skip(a as int),
            rest.len() == n - a,
            1 <= m <= n - a,
            trail_blank(rest) == (n - a - m) + trail_blank(rest.take(m as int)),
        decreases m,
    {
        assert(rest[m - 1] == p[a + m - 1]);
        proof {
            lemma_trail_blank_step(rest, m as int);
        }
        m = m - 1;
    }
    assert(trail_blank(rest.take(m as int)) == 0);
    let mut kept: Vec<Vec<char>> = Vec::new();
    let mut i: usize = 0;
    while i < m
        invariant
            n == parts.len(),
            p == seqs(parts@),
            rest == p.skip(a as int),
            a + m <= n,
            i <= m,
            seqs(kept@) == rest.take(i as int),
        decreases m - i,
    {
        let piece = slice_chars(parts[a + i].as_slice(), 0, parts[a + i].len());
        assert(rest[i as int] == p[a + i]);
        assert(piece@ =~= rest[i as int]);
        let ghost prev = seqs(kept@);
        kept.push(piece);
        assert(seqs(kept@) =~= prev.push(rest[i as int]));
        i = i + 1;
        assert(rest.take(i as int) =~= rest.take(i - 1).push(rest[i - 1]));
    }
    assert(rest.take(m as int) == trimmed_lines(content@));
    let joined = join_chars(&kept, '\n');
    let t = if joined.len() > 0 && joined[joined.len() - 1] == '\r' {
        slice_chars(joined.as_slice(), 0, joined.len() - 1)
    } else {
        joined
    };
    assert(t@ =~= strip_cr(joined@));
    if blank(t.as_slice()) {
        Vec::new()
    } else {
        t
    }
}

// ---------------------------------------------------------------------------
// `:indent`
// ---------------------------------------------------------------------------

pub open spec fn is_indent_char(c: char) -> bool {
    c == ' ' || c == '\t'
}

/// Length of the run of spaces and tabs that starts a line.
pub open spec fn indent_width(l: Seq<char>) -> nat
    decreases l.len(),
{
    if l.len() > 0 && is_indent_char(l[0]) {
        1 + indent_width(l.drop_first())
    } else {
        0
    }
}

/// Whether the indentation of `l` holds a character other than `c`.
pub open spec fn mixes_with(l: Seq<char>, c: char) -> bool {
    exists|j: int| 0 <= j < indent_width(l) && l[j] != c
}

/// What reading the lines in order tells about their indentation: the character
/// the first indented line starts with, the least width of a non-blank line, and
/// the first non-blank line (from 0) whose indentation mixes characters.
pub struct IndentScan {
    pub indent_char: Option<char>,
    pub min_width: Option<nat>,
    pub mixed_line: Option<nat>,
}

pub open spec fn scan_indent(pieces: Seq<Seq<char>>) -> IndentScan
    decreases pieces.len(),
{
    if pieces.len() == 0 {
        IndentScan { indent_char: None, min_width: None, mixed_line: None }
    } else {
        let st = scan_indent(pieces.drop_last());
        let l = pieces.last();
        if st.mixed_line is Some || is_blank(l) {
            st
        } else {
            let c = match st.indent_char {
                Some(c) => Some(c),
                None => if indent_width(l) > 0 {
                    Some(l[0])
                } else {
                    None
                },
            };
            if c is Some && mixes_with(l, c->0) {
                IndentScan { mixed_line: Some((pieces.len() - 1) as nat), ..st }
            } else {
                let w = indent_width(l);
                IndentScan {
                    indent_char: c,
                    min_width: Some(
                        match st.min_width {
                            Some(m) => if w < m {
                                w
                            } else {
                                m
                            },
                            None => w,
                        },
                    ),
                    mixed_line: None,
                }
            }
        }
    }
}

/// A non-blank line re-indented: `width` copies of `ch`, then the line without
/// its old indentation.
pub open spec fn reindent(l: Seq<char>, ch: char, width: nat) -> Seq<char> {
    repeat(ch, width) + l.skip(indent_width(l) as int)
}

/// The width a non-blank line gets: the target plus its depth below the minimum.
pub open spec fn new_width(l: Seq<char>, target: nat, min: nat) -> nat {
    (target + (indent_width(l) - min)) as nat
}

pub open spec fn aligned_piece(l: Seq<char>, ch: char, target: nat, min: nat) -> Seq<char> {
    if is_blank(l) {
        l
    } else {
        reindent(l, ch, new_width(l, target, min))
    }
}

/// `:indent=target`: every non-blank line of `s` is re-indented so that the
/// least indentation becomes `target`, keeping the depth of the others; blank
/// lines stay as they are.
pub open spec fn align_indent_spec(s: Seq<char>, target: nat) -> Result<Seq<char>, InjectorError> {
    let pieces = split(s, '\n');
    let st = scan_indent(pieces);
    match st.mixed_line {
        Some(i) => Err(InjectorError::MixedIndentChar { line_number: (i + 1) as usize }),
        None => match st.min_width {
            None => Ok(s),
            Some(m) => {
                let ch = match st.indent_char {
                    Some(c) => c,
                    None => ' ',
                };
                Ok(
                    join(
                        Seq::new(pieces.len(), |k: int| aligned_piece(pieces[k], ch, target, m)),
                        '\n',
                    ),
                )
            },
        },
    }
}

/// Re-indenting stays within what a string can hold: every re-indented line,
/// in UTF-8, is at most `isize::MAX` bytes long.
pub open spec fn align_fits(s: Seq<char>, target: nat) -> bool {
    let pieces = split(s, '\n');
    let st = scan_indent(pieces);
    st.mixed_line is None ==> match st.min_width {
        None => true,
        Some(m) => forall|k: int|
            0 <= k < pieces.len() && !is_blank(pieces[k]) ==> new_width(pieces[k], target, m)
                + vstd::utf8::encode_utf8(#[trigger] pieces[k]).len() <= isize::MAX,
    }
}

proof fn lemma_indent_width_bound(l: Seq<char>)
    ensures
        indent_width(l) <= l.len(),
        forall|j: int| 0 <= j < indent_width(l) ==> is_indent_char(#[trigger] l[j]),
        indent_width(l) < l.len() ==> !is_indent_char(l[indent_width(l) as int]),
    decreases l.len(),
{
    if l.len() > 0 && is_indent_char(l[0]) {
        lemma_indent_width_bound(l.drop_first());
        assert forall|j: int| 0 <= j < indent_width(l) implies is_indent_char(#[trigger] l[j]) by {
            if j > 0 {
                assert(l[j] == l.drop_first()[j - 1]);
            }
        }
        if indent_width(l) < l.len() {
            assert(l[indent_width(l) as int] == l.drop_first()[indent_width(l) - 1]);
        }
    }
}

proof fn lemma_utf8_len_at_least(s: Seq<char>)
    ensures
        vstd::utf8::encode_utf8(s).len() >= s.len(),
    decreases s.len(),
{
    if s.len() > 0 {
        lemma_utf8_len_at_least(s.drop_first());
        assert(vstd::utf8::encode_scalar(s[0] as u32).len() >= 1);
    }
}

/// Width of the leading run of spaces and tabs.
fn leading_indent(l: &[char]) -> (w: usize)
    ensures
        w == indent_width(l@),
{
    let mut i: usize = 0;
    proof {
        lemma_indent_width_bound(l@);
    }
    while i < l.len() && (l[i] == ' ' || l[i] == '\t')
        invariant
            i <= l.len(),
            i <= indent_width(l@),
            indent_width(l@) <= l.len(),
            forall|j: int| 0 <= j < indent_width(l@) ==> is_indent_char(#[trigger] l@[j]),
            indent_width(l@) < l.len() ==> !is_indent_char(l@[indent_width(l@) as int]),
        decreases l.len() - i,
    {
        i = i + 1;
    }
    i
}

/// Re-bases the minimum indentation of `content` to `target_indent_width` (`:indent`).
pub fn align_indent(content: &[char], target_indent_width: usize) -> (r: Result<Vec<char>, InjectorError>)
    requires
        align_fits(content@, target_indent_width as nat),
        content@.len() < usize::MAX,
    ensures
        match r {
            Ok(v) => align_indent_spec(content@, target_indent_width as nat) == Ok::<
                Seq<char>,
                InjectorError,
            >(v@),
            Err(e) => align_indent_spec(content@, target_indent_width as nat) == Err::<
                Seq<char>,
                InjectorError,
            >(e),
        },
{
    let pieces = split_chars(content, '\n');
    let ghost p = seqs(pieces@);
    proof {
        lemma_split_nonempty(content@, '\n');
        lemma_split_len(content@, '\n');
    }
    let n = pieces.len();
    let mut indent_char: Option<char> = None;
    let mut min_width: Option<usize> = None;
    let mut i: usize = 0;
    assert(p.take(0) =~= Seq::<Seq<char>>::empty());
    while i < n
        invariant
            n == pieces.len(),
            p == seqs(pieces@),
            p == split(content@, '\n'),
            n <= content@.len() + 1,
            content@.len() < usize::MAX,
            i <= n,
            scan_indent(p.take(i as int)).mixed_line is None,
            scan_indent(p.take(i as int)).indent_char == indent_char,
            scan_indent(p.take(i as int)).min_width == (match min_width {
                Some(m) => Some(m as nat),
                None => None::<nat>,
            }),
        decreases n - i,
    {
        let l = &pieces[i];
        let ghost pre = p.take(i as int);
        assert(p.take(i + 1).drop_last() =~= pre);
        assert(p.take(i + 1).last() == l@);
        if !blank(l.as_slice()) {
            let w = leading_indent(l.as_slice());
            proof {
                lemma_indent_width_bound(l@);
            }
            let c: Option<char> = match indent_char {
                Some(c) => Some(c),
                None => if w > 0 {
                    Some(l[0])
                } else {
                    None
                },
            };
            match c {
                Some(ch) => {
                    let mut j: usize = 0;
                    #[verifier::loop_isolation(false)]
                    while j < w
                        invariant
                            j <= w,
                            w == indent_width(l@),
                            w <= l.len(),
                            forall|q: int| 0 <= q < j ==> l@[q] == ch,
                        decreases w - j,
                    {
                        if l[j] != ch {
                            assert(mixes_with(l@, ch));
                            assert(scan_indent(p.take(i + 1)).mixed_line == Some(i as nat));
                            proof {
                                lemma_scan_mixed_stays(p, i + 1);
                            }
                            return Err(InjectorError::MixedIndentChar { line_number: i + 1 });
                        }
                        j = j + 1;
                    }
                    assert(!mixes_with(l@, ch));
                },
                None => {
                    assert(!mixes_with(l@, ' ')) by {
                        assert(indent_width(l@) == 0);
                    }
                },
            }
            indent_char = c;
            min_width = match min_width {
                Some(m) => if w < m {
                    Some(w)
                } else {
                    Some(m)
                },
                None => Some(w),
            };
        }
        i = i + 1;
    }
    assert(p.take(n as int) =~= p);
    let m = match min_width {
        None => {
            let whole = slice_chars(content, 0, content.len());
            assert(whole@ =~= content@);
            return Ok(whole);
        },
        Some(m) => m,
    };
    let ch = match indent_char {
        Some(c) => c,
        None => ' ',
    };
    let ghost target = target_indent_width as nat;
    let ghost want = Seq::new(p.len(), |k: int| aligned_piece(p[k], ch, target, m as nat));
    let mut out: Vec<Vec<char>> = Vec::new();
    let mut k: usize = 0;
    while k < n
        invariant
            n == pieces.len(),
            p == seqs(pieces@),
            p == split(content@, '\n'),
            k <= n,
            scan_indent(p).mixed_line is None,
            scan_indent(p).min_width == Some(m as nat),
            align_fits(content@, target),
            target == target_indent_width,
            want == Seq::new(p.len(), |q: int| aligned_piece(p[q], ch, target, m as nat)),
            seqs(out@) == want.take(k as int),
        decreases n - k,
    {
        let l = &pieces[k];
        let piece = if blank(l.as_slice()) {
            slice_chars(l.as_slice(), 0, l.len())
        } else {
            let w = leading_indent(l.as_slice());
            proof {
                lemma_min_width_below(p, k as int);
                lemma_indent_width_bound(l@);
                lemma_utf8_len_at_least(l@);
                assert(!is_blank(p[k as int]));
            }
            let nw = target_indent_width + (w - m);
            let mut v: Vec<char> = Vec::new();
            let mut q: usize = 0;
            while q < nw
                invariant
                    q <= nw,
                    v@ == repeat(ch, q as nat),
                decreases nw - q,
            {
                v.push(ch);
                q = q + 1;
                assert(v@ =~= repeat(ch, q as nat));
            }
            let rest = slice_chars(l.as_slice(), w, l.len());
            append_chars(&mut v, rest.as_slice());
            assert(l@.skip(w as int) =~= l@.subrange(w as int, l@.len() as int));
            v
        };
        assert(piece@ =~= aligned_piece(p[k as int], ch, target, m as nat));
        let ghost prev = seqs(out@);
        out.push(piece);
        assert(seqs(out@) =~= prev.push(want[k as int]));
        k = k + 1;
        assert(want.take(k as int) =~= want.take(k - 1).push(want[k - 1]));
    }
    assert(want.take(n as int) =~= want);
    let joined = join_chars(&out, '\n');
    Ok(joined)
}

/// Once a line mixes indentation characters, reading more lines keeps that line.
proof fn lemma_scan_mixed_stays(p: Seq<Seq<char>>, i: int)
    requires
        0 <= i <= p.len(),
        scan_indent(p.take(i)).mixed_line is Some,
    ensures
        scan_indent(p).mixed_line == scan_indent(p.take(i)).mixed_line,
    decreases p.len() - i,
{
    if i < p.len() {
        assert(p.take(i + 1).drop_last() =~= p.take(i));
        lemma_scan_mixed_stays(p, i + 1);
    } else {
        assert(p.take(i) =~= p);
    }
}

/// The minimum width is at most the width of every non-blank line.
proof fn lemma_min_width_below(p: Seq<Seq<char>>, k: int)
    requires
        0 <= k < p.len(),
        !is_blank(p[k]),
        scan_indent(p).mixed_line is None,
    ensures
        scan_indent(p).min_width matches Some(m) && m <= indent_width(p[k]),
    decreases p.len(),
{
    let st = scan_indent(p.drop_last());
    if k == p.len() - 1 {
        if st.mixed_line is Some {
        }
    } else {
        if st.mixed_line is Some {
        } else {
            assert(p.drop_last()[k] == p[k]);
            lemma_min_width_below(p.drop_last(), k);
        }
    }
}

/// `split` yields at most one piece more than the text has characters.
pub proof fn lemma_split_len(s: Seq<char>, sep: char)
    ensures
        split(s, sep).len() <= s.len() + 1,
        forall|k: int| 0 <= k < split(s, sep).len() ==> (#[trigger] split(s, sep)[k]).len() <= s.len(),
    decreases s.len(),
{
    if s.len() > 0 {
        lemma_split_len(s.drop_last(), sep);
        lemma_split_nonempty(s.drop_last(), sep);
    }
}

// ---------------------------------------------------------------------------
// Injection
// ---------------------------------------------------------------------------

/// The text injected into a block: `:trim` first, then `:indent`.
pub open spec fn prepare_spec(s: Seq<char>, cfg: MarkerConfig) -> Result<Seq<char>, InjectorError> {
    let t = if cfg.trim {
        trim_blank_lines_spec(s)
    } else {
        s
    };
    match cfg.indent {
        Some(n) => align_indent_spec(t, n as nat),
        None => Ok(t),
    }
}

/// Preparing the text stays within what a string can hold.
pub open spec fn prepare_fits(s: Seq<char>, cfg: MarkerConfig) -> bool {
    let t = if cfg.trim {
        trim_blank_lines_spec(s)
    } else {
        s
    };
    match cfg.indent {
        Some(n) => align_fits(t, n as nat) && t.len() < usize::MAX,
        None => true,
    }
}

pub open spec fn plus_one_saturating(x: int) -> usize {
    if x >= usize::MAX {
        usize::MAX
    } else {
        (x + 1) as usize
    }
}

/// Injecting `s` into `block` of `lines`: the lines up to the begin marker and
/// `offset` lines after it, the prepared text as one element, then the lines
/// from `offset` lines before the end marker on.
#[verifier::opaque]
pub open spec fn inject_block_spec(lines: Seq<Seq<char>>, block: &MarkerBlock, s: Seq<char>) -> Result<
    Seq<Seq<char>>,
    InjectorError,
> {
    let kb = kept_before_end(block.span, block.config.offset);
    let ka = kept_after_start(block.span, block.config.offset);
    if kb >= ka {
        Err(InjectorError::InvalidRange { begin: plus_one_saturating(kb), end: plus_one_saturating(ka) })
    } else {
        match prepare_spec(s, block.config) {
            Err(e) => Err(e),
            Ok(t) => Ok(lines.take(kb + 1) + seq![t] + lines.skip(ka)),
        }
    }
}

/// Injecting into `block` does not index past the lines, and the prepared text fits.
#[verifier::opaque]
pub open spec fn inject_block_defined(n_lines: nat, block: &MarkerBlock, s: Seq<char>) -> bool {
    let kb = kept_before_end(block.span, block.config.offset);
    let ka = kept_after_start(block.span, block.config.offset);
    kb >= ka || (ka <= n_lines && prepare_fits(s, block.config))
}

/// One output block: injected from the first input block that matches it.
pub open spec fn inject_step(lines: Seq<Seq<char>>, out: &MarkerBlock, ins: Seq<MarkerBlock>) -> Result<
    Seq<Seq<char>>,
    InjectorError,
> {
    match first_match(ins, out) {
        None => Ok(lines),
        Some(j) => if ins[j].content@.len() == 0 {
            Err(InjectorError::EmptyInputContent)
        } else {
            inject_block_spec(lines, out, ins[j].content@)
        },
    }
}

pub open spec fn step_defined(lines: Seq<Seq<char>>, out: &MarkerBlock, ins: Seq<MarkerBlock>) -> bool {
    match first_match(ins, out) {
        None => true,
        Some(j) => ins[j].content@.len() == 0 || inject_block_defined(
            lines.len(),
            out,
            ins[j].content@,
        ),
    }
}

/// The output blocks are handled from the last to the first.
#[verifier::opaque]
pub open spec fn inject_lines(lines: Seq<Seq<char>>, outs: Seq<MarkerBlock>, ins: Seq<MarkerBlock>) -> Result<
    Seq<Seq<char>>,
    InjectorError,
>
    decreases outs.len(),
{
    if outs.len() == 0 {
        Ok(lines)
    } else {
        match inject_step(lines, &outs.last(), ins) {
            Err(e) => Err(e),
            Ok(l2) => inject_lines(l2, outs.drop_last(), ins),
        }
    }
}

#[verifier::opaque]
pub open spec fn inject_defined(lines: Seq<Seq<char>>, outs: Seq<MarkerBlock>, ins: Seq<MarkerBlock>) -> bool
    decreases outs.len(),
{
    outs.len() == 0 || (step_defined(lines, &outs.last(), ins) && match inject_step(
        lines,
        &outs.last(),
        ins,
    ) {
        Err(_) => true,
        Ok(l2) => inject_defined(l2, outs.drop_last(), ins),
    })
}

pub open spec fn ends_with_newline(s: Seq<char>) -> bool {
    s.len() > 0 && s.last() == '\n'
}

/// The text after injection: the injected lines joined with `\n`, with a final
/// newline when the original text had one.
pub open spec fn inject_spec(content: Seq<char>, outs: Seq<MarkerBlock>, ins: Seq<MarkerBlock>) -> Result<
    Seq<char>,
    InjectorError,
> {
    match inject_lines(lines(content), outs, ins) {
        Err(e) => Err(e),
        Ok(ls) => Ok(
            if ends_with_newline(content) {
                join(ls, '\n').push('\n')
            } else {
                join(ls, '\n')
            },
        ),
    }
}

/// Copies of `lines[from..to]`.
fn copy_lines(lines: &Vec<Vec<char>>, from: usize, to: usize, out: &mut Vec<Vec<char>>)
    requires
        from <= to <= lines.len(),
    ensures
        seqs(final(out)@) == seqs(old(out)@) + seqs(lines@).subrange(from as int, to as int),
{
    let mut i = from;
    while i < to
        invariant
            from <= i <= to <= lines.len(),
            seqs(out@) == seqs(old(out)@) + seqs(lines@).subrange(from as int, i as int),
        decreases to - i,
    {
        let l = slice_chars(lines[i].as_slice(), 0, lines[i].len());
        assert(l@ =~= lines[i as int]@);
        let ghost prev = seqs(out@);
        out.push(l);
        assert(seqs(out@) =~= prev.push(lines[i as int]@));
        i = i + 1;
        assert(seqs(out@) =~= seqs(old(out)@) + seqs(lines@).subrange(from as int, i as int));
    }
}

/// Injects `input` into `block` of `lines`.
pub fn inject_into_a_block(lines: &Vec<Vec<char>>, block: &MarkerBlock, input: &[char]) -> (r: Result<
    Vec<Vec<char>>,
    InjectorError,
>)
    requires
        inject_block_defined(lines.len() as nat, block, input@),
    ensures
        match r {
            Ok(v) => inject_block_spec(seqs(lines@), block, input@) == Ok::<
                Seq<Seq<char>>,
                InjectorError,
            >(seqs(v@)),
            Err(e) => inject_block_spec(seqs(lines@), block, input@) == Err::<
                Seq<Seq<char>>,
                InjectorError,
            >(e),
        },
{
    reveal(inject_block_spec);
    reveal(inject_block_defined);
    let kb = block.span.before_lines(block.config.offset);
    let ka = block.span.after_lines(block.config.offset);
    if kb >= ka {
        return Err(
            InjectorError::InvalidRange { begin: kb.saturating_add(1), end: ka.saturating_add(1) },
        );
    }
    let trimmed = if block.config.trim {
        trim_blank_lines(input)
    } else {
        slice_chars(input, 0, input.len())
    };
    assert(input@.subrange(0, input@.len() as int) =~= input@);
    let prepared = match block.config.indent {
        Some(n) => match align_indent(trimmed.as_slice(), n) {
            Ok(v) => v,
            Err(e) => {
                return Err(e);
            },
        },
        None => trimmed,
    };
    let mut out: Vec<Vec<char>> = Vec::new();
    copy_lines(lines, 0, kb + 1, &mut out);
    let ghost mid = seqs(out@);
    out.push(prepared);
    assert(seqs(out@) =~= mid.push(prepared@));
    copy_lines(lines, ka, lines.len(), &mut out);
    assert(seqs(lines@).subrange(0, kb + 1) =~= seqs(lines@).take(kb + 1));
    assert(seqs(lines@).subrange(ka as int, lines.len() as int) =~= seqs(lines@).skip(ka as int));
    assert(seqs(out@) =~= seqs(lines@).take(kb + 1) + seq![prepared@] + seqs(lines@).skip(ka as int));
    Ok(out)
}

/// Handles one output block: injects the first matching input block, if any.
fn inject_one(cur: &Vec<Vec<char>>, block: &MarkerBlock, input_blocks: &[MarkerBlock]) -> (r: Result<
    Vec<Vec<char>>,
    InjectorError,
>)
    requires
        step_defined(seqs(cur@), block, input_blocks@),
    ensures
        match r {
            Ok(v) => inject_step(seqs(cur@), block, input_blocks@) == Ok::<
                Seq<Seq<char>>,
                InjectorError,
            >(seqs(v@)),
            Err(e) => inject_step(seqs(cur@), block, input_blocks@) == Err::<
                Seq<Seq<char>>,
                InjectorError,
            >(e),
        },
{
    match find_match(input_blocks, block) {
        Some(j) => {
            let input = &input_blocks[j];
            let source = chars_of(input.content.as_str());
            assert(input_blocks@[j as int].content@ == source@);
            if source.len() == 0 {
                return Err(InjectorError::EmptyInputContent);
            }
            inject_into_a_block(cur, block, source.as_slice())
        },
        None => {
            let mut same: Vec<Vec<char>> = Vec::new();
            copy_lines(cur, 0, cur.len(), &mut same);
            assert(seqs(same@) =~= seqs(cur@));
            Ok(same)
        },
    }
}

proof fn lemma_inject_unfold(l: Seq<Seq<char>>, outs: Seq<MarkerBlock>, ins: Seq<MarkerBlock>)
    requires
        outs.len() > 0,
    ensures
        inject_lines(l, outs, ins) == (match inject_step(l, &outs.last(), ins) {
            Err(e) => Err(e),
            Ok(l2) => inject_lines(l2, outs.drop_last(), ins),
        }),
        inject_defined(l, outs, ins) == (step_defined(l, &outs.last(), ins) && match inject_step(
            l,
            &outs.last(),
            ins,
        ) {
            Err(_) => true,
            Ok(l2) => inject_defined(l2, outs.drop_last(), ins),
        }),
{
    reveal(inject_lines);
    reveal(inject_defined);
}

/// Injects the content of the matching input blocks into `output_blocks` of
/// `content`; output blocks without a matching input block are left as they are.
pub fn inject(content: &str, output_blocks: &[MarkerBlock], input_blocks: &[MarkerBlock]) -> (r: Result<
    String,
    InjectorError,
>)
    requires
        inject_defined(lines(content@), output_blocks@, input_blocks@),
    ensures
        match r {
            Ok(s) => inject_spec(content@, output_blocks@, input_blocks@) == Ok::<
                Seq<char>,
                InjectorError,
            >(s@),
            Err(e) => inject_spec(content@, output_blocks@, input_blocks@) == Err::<
                Seq<char>,
                InjectorError,
            >(e),
        },
{
    let chars = chars_of(content);
    let mut cur = lines_of(chars.as_slice());
    let ghost l0 = seqs(cur@);
    assert(l0 == lines(content@));
    let mut i = output_blocks.len();
    assert(output_blocks@.take(i as int) =~= output_blocks@);
    while i > 0
        invariant
            i <= output_blocks.len(),
            l0 == lines(content@),
            inject_lines(l0, output_blocks@, input_blocks@) == inject_lines(
                seqs(cur@),
                output_blocks@.take(i as int),
                input_blocks@,
            ),
            inject_defined(seqs(cur@), output_blocks@.take(i as int), input_blocks@),
        decreases i,
    {
        let block = &output_blocks[i - 1];
        let ghost outs = output_blocks@.take(i as int);
        assert(outs.last() == *block);
        assert(outs.drop_last() =~= output_blocks@.take(i - 1));
        proof {
            lemma_inject_unfold(seqs(cur@), outs, input_blocks@);
        }
        match inject_one(&cur, block, input_blocks) {
            Ok(next) => {
                cur = next;
            },
            Err(e) => {
                return Err(e);
            },
        }
        i = i - 1;
    }
    assert(output_blocks@.take(0) =~= Seq::<MarkerBlock>::empty());
    assert(inject_lines(seqs(cur@), Seq::<MarkerBlock>::empty(), input_blocks@) == Ok::<Seq<Seq<char>>, InjectorError>(seqs(cur@))) by {
        reveal(inject_lines);
    }
    let mut joined = join_chars(&cur, '\n');
    if chars.len() > 0 && chars[chars.len() - 1] == '\n' {
        joined.push('\n');
    }
    Ok(string_of(joined.as_slice()))
}

proof fn lemma_utf8_len_at_most(s: Seq<char>)
    ensures
        vstd::utf8::encode_utf8(s).len() <= 4 * s.len(),
    decreases s.len(),
{
    if s.len() > 0 {
        lemma_utf8_len_at_most(s.drop_first());
        assert(vstd::utf8::encode_scalar(s[0] as u32).len() <= 4);
    }
}

/// Re-indenting a text to `target` fits when `target` plus five times its
/// length fits in an `isize`.
proof fn lemma_align_fits_small(s: Seq<char>, target: nat)
    requires
        target + 5 * s.len() <= isize::MAX,
    ensures
        align_fits(s, target),
{
    let pieces = split(s, '\n');
    let st = scan_indent(pieces);
    lemma_split_len(s, '\n');
    if st.mixed_line is None {
        if let Some(m) = st.min_width {
            assert forall|k: int| 0 <= k < pieces.len() && !is_blank(pieces[k]) implies new_width(
                pieces[k],
                target,
                m,
            ) + vstd::utf8::encode_utf8(#[trigger] pieces[k]).len() <= isize::MAX by {
                lemma_min_width_below(pieces, k);
                lemma_indent_width_bound(pieces[k]);
                lemma_utf8_len_at_most(pieces[k]);
            }
        }
    }
}

/// Whether the text that `config` re-indents (`source`, trimmed first under
/// `:trim`) is at most an eighth of `isize::MAX` long and the width at most a
/// quarter of it; always so without `:indent`.
pub open spec fn prepared_small(source: Seq<char>, config: MarkerConfig) -> bool {
    match config.indent {
        None => true,
        Some(n) => {
            let t = if config.trim {
                trim_blank_lines_spec(source)
            } else {
                source
            };
            t.len() <= (isize::MAX as int) / 8 && n <= (isize::MAX as int) / 4
        },
    }
}

/// Whether one output block passes `step_fits`: no matching input, an empty
/// input, a range that fails anyway, or kept lines within `lines` and a small
/// prepared text.
pub open spec fn step_small(lines: Seq<Seq<char>>, out: &MarkerBlock, ins: Seq<MarkerBlock>) -> bool {
    match first_match(ins, out) {
        None => true,
        Some(j) => {
            let kb = kept_before_end(out.span, out.config.offset);
            let ka = kept_after_start(out.span, out.config.offset);
            ins[j].content@.len() == 0 || kb >= ka || (ka <= lines.len() && prepared_small(
                ins[j].content@,
                out.config,
            ))
        },
    }
}

/// Whether every output block, handled from the last as `inject` does, passes
/// `step_small` on the lines as they stand when it is reached (up to the first
/// injection that fails).
#[verifier::opaque]
pub open spec fn injection_small(lines: Seq<Seq<char>>, outs: Seq<MarkerBlock>, ins: Seq<MarkerBlock>) -> bool
    decreases outs.len(),
{
    outs.len() == 0 || (step_small(lines, &outs.last(), ins) && match inject_step(
        lines,
        &outs.last(),
        ins,
    ) {
        Err(_) => true,
        Ok(l2) => injection_small(l2, outs.drop_last(), ins),
    })
}

/// A sufficient test of `prepare_fits`: the text to re-indent is at most an
/// eighth of `isize::MAX` long and the width at most a quarter of it.
pub(crate) fn prepared_text_fits(source: &[char], config: MarkerConfig) -> (b: bool)
    ensures
        b == prepared_small(source@, config),
        b ==> prepare_fits(source@, config),
{
    match config.indent {
        None => true,
        Some(n) => {
            let t = if config.trim {
                trim_blank_lines(source)
            } else {
                slice_chars(source, 0, source.len())
            };
            assert(source@.subrange(0, source@.len() as int) =~= source@);
            if t.len() > (isize::MAX as usize) / 8 || n > (isize::MAX as usize) / 4 {
                return false;
            }
            proof {
                lemma_align_fits_small(t@, n as nat);
            }
            true
        },
    }
}

/// A sufficient test of `step_defined`: the kept lines lie within the text, and
/// a re-indented text stays small.
fn step_fits(cur: &Vec<Vec<char>>, block: &MarkerBlock, input_blocks: &[MarkerBlock]) -> (b: bool)
    ensures
        b == step_small(seqs(cur@), block, input_blocks@),
        b ==> step_defined(seqs(cur@), block, input_blocks@),
{
    reveal(inject_block_defined);
    let j = match find_match(input_blocks, block) {
        None => {
            return true;
        },
        Some(j) => j,
    };
    let source = chars_of(input_blocks[j].content.as_str());
    assert(input_blocks@[j as int].content@ == source@);
    if source.len() == 0 {
        return true;
    }
    let kb = block.span.before_lines(block.config.offset);
    let ka = block.span.after_lines(block.config.offset);
    if kb >= ka {
        return true;
    }
    if ka > cur.len() {
        return false;
    }
    prepared_text_fits(source.as_slice(), block.config)
}

/// Whether `inject` may be called on these arguments: every block that gets
/// content keeps lines within the text as it stands when the block is reached
/// (blocks are handled from the last), and re-indented texts stay within what
/// a string can hold. `true` only when it may; `false` as well for a text to
/// re-indent past an eighth of `isize::MAX`, or an indentation width past a
/// quarter of it.
pub fn injection_fits(content: &str, output_blocks: &[MarkerBlock], input_blocks: &[MarkerBlock]) -> (b: bool)
    ensures
        b == injection_small(lines(content@), output_blocks@, input_blocks@),
        b ==> inject_defined(lines(content@), output_blocks@, input_blocks@),
{
    let chars = chars_of(content);
    let mut cur = lines_of(chars.as_slice());
    let ghost l0 = seqs(cur@);
    let mut i = output_blocks.len();
    assert(output_blocks@.take(i as int) =~= output_blocks@);
    while i > 0
        invariant
            i <= output_blocks.len(),
            l0 == lines(content@),
            inject_defined(seqs(cur@), output_blocks@.take(i as int), input_blocks@) ==> inject_defined(
                l0,
                output_blocks@,
                input_blocks@,
            ),
            injection_small(seqs(cur@), output_blocks@.take(i as int), input_blocks@)
                == injection_small(l0, output_blocks@, input_blocks@),
        decreases i,
    {
        let block = &output_blocks[i - 1];
        let ghost outs = output_blocks@.take(i as int);
        assert(outs.last() == *block);
        assert(outs.drop_last() =~= output_blocks@.take(i - 1));
        proof {
            lemma_inject_unfold(seqs(cur@), outs, input_blocks@);
            reveal(injection_small);
        }
        if !step_fits(&cur, block, input_blocks) {
            return false;
        }
        match inject_one(&cur, block, input_blocks) {
            Ok(next) => {
                cur = next;
            },
            Err(_) => {
                return true;
            },
        }
        i = i - 1;
    }
    assert(output_blocks@.take(0) =~= Seq::<MarkerBlock>::empty());
    assert(inject_defined(seqs(cur@), Seq::<MarkerBlock>::empty(), input_blocks@)) by {
        reveal(inject_defined);
    }
    assert(injection_small(seqs(cur@), Seq::<MarkerBlock>::empty(), input_blocks@)) by {
        reveal(injection_small);
    }
    true
}

// ---------------------------------------------------------------------------
// Laws of `:indent`
// ---------------------------------------------------------------------------

/// The character the scan settles on indents.
proof fn lemma_scan_char(p: Seq<Seq<char>>)
    ensures
        scan_indent(p).indent_char matches Some(c) ==> is_indent_char(c),
    decreases p.len(),
{
    if p.len() > 0 {
        lemma_scan_char(p.drop_last());
        lemma_indent_width_bound(p.last());
    }
}

/// The minimum width is the width of some non-blank line.
proof fn lemma_min_width_reached(p: Seq<Seq<char>>)
    requires
        scan_indent(p).mixed_line is None,
        scan_indent(p).min_width is Some,
    ensures
        exists|k: int|
            0 <= k < p.len() && !is_blank(#[trigger] p[k]) && Some(indent_width(p[k]))
                == scan_indent(p).min_width,
    decreases p.len(),
{
    let st = scan_indent(p.drop_last());
    let l = p.last();
    let k = p.len() - 1;
    if st.mixed_line is Some {
        assert(false);
    } else if is_blank(l) {
        lemma_min_width_reached(p.drop_last());
        let j = choose|j: int|
            0 <= j < p.drop_last().len() && !is_blank(#[trigger] p.drop_last()[j]) && Some(
                indent_width(p.drop_last()[j]),
            ) == st.min_width;
        assert(p[j] == p.drop_last()[j]);
    } else {
        let w = indent_width(l);
        match st.min_width {
            None => {
                assert(p[k] == l);
            },
            Some(m) => {
                if w < m {
                    assert(p[k] == l);
                } else {
                    lemma_min_width_reached(p.drop_last());
                    let j = choose|j: int|
                        0 <= j < p.drop_last().len() && !is_blank(#[trigger] p.drop_last()[j])
                            && Some(indent_width(p.drop_last()[j])) == st.min_width;
                    assert(p[j] == p.drop_last()[j]);
                }
            },
        }
    }
}

proof fn lemma_indent_prefix(ch: char, w: nat, x: Seq<char>)
    requires
        is_indent_char(ch),
    ensures
        indent_width(repeat(ch, w) + x) == w + indent_width(x),
    decreases w,
{
    if w > 0 {
        assert((repeat(ch, w) + x).drop_first() =~= repeat(ch, (w - 1) as nat) + x);
        assert((repeat(ch, w) + x)[0] == ch);
        lemma_indent_prefix(ch, (w - 1) as nat, x);
    } else {
        assert(repeat(ch, w) + x =~= x);
    }
}

/// A non-blank line re-indented to `w` has width `w`, the same text after its
/// indentation, and is still not blank.
proof fn lemma_reindent(l: Seq<char>, ch: char, w: nat)
    requires
        is_indent_char(ch),
        !is_blank(l),
    ensures
        indent_width(reindent(l, ch, w)) == w,
        reindent(l, ch, w).skip(w as int) == l.skip(indent_width(l) as int),
        !is_blank(reindent(l, ch, w)),
{
    lemma_indent_width_bound(l);
    let iw = indent_width(l);
    let rest = l.skip(iw as int);
    let i = choose|i: int| 0 <= i < l.len() && !is_ws(#[trigger] l[i]);
    assert(i >= iw) by {
        if i < iw {
            assert(is_indent_char(l[i]));
        }
    }
    assert(iw < l.len());
    assert(rest[0] == l[iw as int]);
    assert(indent_width(rest) == 0);
    lemma_indent_prefix(ch, w, rest);
    let r = reindent(l, ch, w);
    assert(r.skip(w as int) =~= rest);
    assert(r[w + i - iw] == l[i]);
}

/// A line that re-indenting writes holds no newline.
proof fn lemma_aligned_piece_free(l: Seq<char>, ch: char, target: nat, min: nat)
    requires
        is_indent_char(ch),
        forall|j: int| 0 <= j < l.len() ==> l[j] != '\n',
    ensures
        forall|j: int|
            0 <= j < aligned_piece(l, ch, target, min).len() ==> aligned_piece(l, ch, target, min)[j]
                != '\n',
{
    if !is_blank(l) {
        lemma_indent_width_bound(l);
        let w = new_width(l, target, min);
        let r = reindent(l, ch, w);
        assert forall|j: int| 0 <= j < r.len() implies r[j] != '\n' by {
            if j < w {
                assert(r[j] == ch);
            } else {
                assert(r[j] == l[j - w + indent_width(l)]);
            }
        }
    }
}

/// `:indent=target` (when it succeeds): the text keeps its lines; blank lines
/// are unchanged; every other line keeps the text after its indentation, is
/// indented at least `target`, and keeps how much deeper it is than any other
/// non-blank line; and some non-blank line, if there is one, is indented
/// exactly `target`.
pub proof fn law_indent_rebases(s: Seq<char>, target: nat)
    ensures
        match align_indent_spec(s, target) {
            Ok(r) => {
                let ins = split(s, '\n');
                let outs = split(r, '\n');
                &&& outs.len() == ins.len()
                &&& forall|k: int| 0 <= k < ins.len() && is_blank(#[trigger] ins[k]) ==> outs[k] == ins[k]
                &&& forall|k: int|
                    0 <= k < ins.len() && !is_blank(#[trigger] ins[k]) ==> !is_blank(outs[k])
                        && outs[k].skip(indent_width(outs[k]) as int) == ins[k].skip(
                        indent_width(ins[k]) as int,
                    ) && indent_width(outs[k]) >= target
                &&& forall|j: int, k: int|
                    0 <= j < ins.len() && 0 <= k < ins.len() && !is_blank(#[trigger] ins[j])
                        && !is_blank(#[trigger] ins[k]) ==> indent_width(outs[j]) - indent_width(outs[k])
                        == indent_width(ins[j]) - indent_width(ins[k])
                &&& (exists|k: int| 0 <= k < ins.len() && !is_blank(#[trigger] ins[k])) ==> exists|k: int|
                    0 <= k < ins.len() && !is_blank(#[trigger] ins[k]) && indent_width(outs[k]) == target
            },
            Err(_) => true,
        },
{
    let pieces = split(s, '\n');
    let st = scan_indent(pieces);
    lemma_split_nonempty(s, '\n');
    lemma_split_pieces_free(s, '\n');
    lemma_join_split(s, '\n');
    if st.mixed_line is None {
        match st.min_width {
            None => {
                assert forall|k: int| 0 <= k < pieces.len() implies is_blank(#[trigger] pieces[k]) by {
                    if !is_blank(pieces[k]) {
                        lemma_min_width_below(pieces, k);
                    }
                }
            },
            Some(m) => {
                lemma_scan_char(pieces);
                let ch = match st.indent_char {
                    Some(c) => c,
                    None => ' ',
                };
                assert(is_indent_char(ch));
                let aligned = Seq::new(
                    pieces.len(),
                    |k: int| aligned_piece(pieces[k], ch, target, m),
                );
                assert forall|k: int, j: int|
                    0 <= k < aligned.len() && 0 <= j < aligned[k].len() implies aligned[k][j]
                    != '\n' by {
                    lemma_aligned_piece_free(pieces[k], ch, target, m);
                }
                lemma_split_join(aligned, '\n');
                let outs = split(join(aligned, '\n'), '\n');
                assert(outs == aligned);
                assert forall|k: int| 0 <= k < pieces.len() && !is_blank(#[trigger] pieces[k]) implies indent_width(
                    outs[k],
                ) == target + (indent_width(pieces[k]) - m) && m <= indent_width(pieces[k])
                    && !is_blank(outs[k]) && outs[k].skip(indent_width(outs[k]) as int)
                    == pieces[k].skip(indent_width(pieces[k]) as int) by {
                    lemma_min_width_below(pieces, k);
                    lemma_reindent(pieces[k], ch, new_width(pieces[k], target, m));
                }
                lemma_min_width_reached(pieces);
                if exists|k: int| 0 <= k < pieces.len() && !is_blank(#[trigger] pieces[k]) {
                    let k = choose|k: int|
                        0 <= k < pieces.len() && !is_blank(#[trigger] pieces[k]) && Some(
                            indent_width(pieces[k]),
                        ) == st.min_width;
                    assert(indent_width(outs[k]) == target);
                }
            },
        }
    }
}

// ---------------------------------------------------------------------------
// Law of `:trim`
// ---------------------------------------------------------------------------

proof fn lemma_lead_blank(parts: Seq<Seq<char>>)
    requires
        parts.len() >= 1,
    ensures
        lead_blank(parts) < parts.len(),
        lead_blank(parts) == parts.len() - 1 || !is_blank(parts[lead_blank(parts) as int]),
    decreases parts.len(),
{
    if parts.len() >= 2 && is_blank(parts[0]) {
        lemma_lead_blank(parts.drop_first());
        assert(parts[lead_blank(parts) as int] == parts.drop_first()[lead_blank(parts.drop_first()) as int]);
    }
}

proof fn lemma_trail_blank(parts: Seq<Seq<char>>)
    requires
        parts.len() >= 1,
    ensures
        trail_blank(parts) < parts.len(),
        trail_blank(parts) == parts.len() - 1 || !is_blank(parts[parts.len() - 1 - trail_blank(parts)]),
    decreases parts.len(),
{
    if parts.len() >= 2 && is_blank(parts.last()) {
        lemma_trail_blank(parts.drop_last());
        let t = trail_blank(parts.drop_last());
        assert(parts[parts.len() - 1 - trail_blank(parts)] == parts.drop_last()[parts.drop_last().len() - 1 - t]);
    }
}

proof fn lemma_strip_cr_not_blank(l: Seq<char>)
    requires
        !is_blank(l),
    ensures
        !is_blank(strip_cr(l)),
{
    let i = choose|i: int| 0 <= i < l.len() && !is_ws(#[trigger] l[i]);
    if l.len() > 0 && l.last() == '\r' {
        assert(i < l.len() - 1);
        assert(strip_cr(l)[i] == l[i]);
    }
}

/// `:trim` leaves either nothing or a text whose first and last lines are not blank.
pub proof fn law_trim_edges(s: Seq<char>)
    ensures
        ({
            let t = trim_blank_lines_spec(s);
            t.len() == 0 || (!is_blank(split(t, '\n')[0]) && !is_blank(split(t, '\n').last()))
        }),
{
    let parts = split(s, '\n');
    lemma_split_nonempty(s, '\n');
    lemma_split_pieces_free(s, '\n');
    lemma_lead_blank(parts);
    let lead = lead_blank(parts);
    let rest = parts.skip(lead as int);
    lemma_trail_blank(rest);
    let tb = trail_blank(rest);
    let tl = rest.take(rest.len() - tb);
    assert(tl == trimmed_lines(s));
    let j = join(tl, '\n');
    let t = strip_cr(j);
    assert forall|k: int, q: int| 0 <= k < tl.len() && 0 <= q < tl[k].len() implies tl[k][q] != '\n' by {
        assert(tl[k] == parts[k + lead]);
    }
    if !is_blank(t) {
        if tl.len() == 1 {
            assert(j == tl[0]);
            let one = seq![t];
            assert(join(one, '\n') == t);
            assert forall|k: int, q: int| 0 <= k < one.len() && 0 <= q < one[k].len() implies one[k][q] != '\n' by {
                assert(one[k][q] == tl[0][q]);
            }
            lemma_split_join(one, '\n');
        } else {
            assert(tl[0] == parts[lead as int]);
            assert(!is_blank(tl[0]));
            assert(tl.last() == rest[rest.len() - 1 - tb]);
            assert(!is_blank(tl.last()));
            let last = tl.last();
            assert(last.len() > 0);
            let tl2 = tl.update(tl.len() - 1, strip_cr(last));
            assert(tl2.drop_last() =~= tl.drop_last());
            assert(j == join(tl.drop_last(), '\n').push('\n') + last);
            assert(join(tl2, '\n') == join(tl.drop_last(), '\n').push('\n') + strip_cr(last));
            assert(j.last() == last.last());
            if last.last() == '\r' {
                assert(t =~= join(tl2, '\n'));
            } else {
                assert(t =~= join(tl2, '\n'));
            }
            assert forall|k: int, q: int| 0 <= k < tl2.len() && 0 <= q < tl2[k].len() implies tl2[k][q] != '\n' by {
                if k == tl2.len() - 1 {
                    assert(tl2[k][q] == last[q]);
                }
            }
            lemma_split_join(tl2, '\n');
            lemma_strip_cr_not_blank(last);
            assert(split(t, '\n') == tl2);
            assert(tl2[0] == tl[0]);
        }
    }
}

/// Injection replaces what lies between the kept lines: two texts that agree
/// up to the begin marker (and `offset` lines after it) and from `offset`
/// lines before the end marker on give the same result, whatever the block
/// held before.
pub proof fn law_injection_replaces_region(
    lines1: Seq<Seq<char>>,
    lines2: Seq<Seq<char>>,
    block: &MarkerBlock,
    s: Seq<char>,
)
    requires
        lines1.take(kept_before_end(block.span, block.config.offset) + 1) == lines2.take(
            kept_before_end(block.span, block.config.offset) + 1,
        ),
        lines1.skip(kept_after_start(block.span, block.config.offset)) == lines2.skip(
            kept_after_start(block.span, block.config.offset),
        ),
    ensures
        inject_block_spec(lines1, block, s) == inject_block_spec(lines2, block, s),
{
    reveal(inject_block_spec);
}

/// Injecting into a block keeps the lines up to the begin marker (and `offset`
/// lines after it) and those from `offset` lines before the end marker on, and
/// puts the prepared text between them as one element.
pub proof fn law_injection_keeps_surroundings(lines: Seq<Seq<char>>, block: &MarkerBlock, s: Seq<char>)
    ensures
        match inject_block_spec(lines, block, s) {
            Ok(r) => {
                let kb = kept_before_end(block.span, block.config.offset);
                let ka = kept_after_start(block.span, block.config.offset);
                &&& kb < ka
                &&& prepare_spec(s, block.config) == Ok::<Seq<char>, InjectorError>(
                    r[lines.take(kb + 1).len() as int],
                )
                &&& r.take(lines.take(kb + 1).len() as int) == lines.take(kb + 1)
                &&& r.skip(lines.take(kb + 1).len() + 1int) == lines.skip(ka)
            },
            Err(_) => true,
        },
{
    reveal(inject_block_spec);
    let kb = kept_before_end(block.span, block.config.offset);
    let ka = kept_after_start(block.span, block.config.offset);
    if let Ok(r) = inject_block_spec(lines, block, s) {
        let n = lines.take(kb + 1).len() as int;
        assert(r.take(n) =~= lines.take(kb + 1));
        assert(r.skip(n + 1) =~= lines.skip(ka));
    }
}

/// An offset fails exactly when it leaves nothing to replace: when the lines
/// kept on the two sides, `offset` each, take up all the lines between the
/// markers (twice the offset is more than their number).
pub proof fn law_offset_exceeding_content(lines: Seq<Seq<char>>, block: &MarkerBlock, s: Seq<char>)
    ensures
        (inject_block_spec(lines, block, s) matches Err(InjectorError::InvalidRange { .. }))
            <==> block.span.begin_marker + 2 * block.config.offset >= block.span.end_marker,
{
    reveal(inject_block_spec);
}

proof fn lemma_lead_blank_all(parts: Seq<Seq<char>>)
    ensures
        forall|q: int| 0 <= q < lead_blank(parts) ==> is_blank(#[trigger] parts[q]),
    decreases parts.len(),
{
    if parts.len() >= 2 && is_blank(parts[0]) {
        lemma_lead_blank_all(parts.drop_first());
        lemma_lead_blank(parts);
        assert forall|q: int| 0 <= q < lead_blank(parts) implies is_blank(#[trigger] parts[q]) by {
            if q > 0 {
                assert(parts[q] == parts.drop_first()[q - 1]);
            }
        }
    }
}

proof fn lemma_trail_blank_all(parts: Seq<Seq<char>>)
    ensures
        forall|q: int| parts.len() - trail_blank(parts) <= q < parts.len() ==> is_blank(#[trigger] parts[q]),
    decreases parts.len(),
{
    if parts.len() >= 2 && is_blank(parts.last()) {
        lemma_trail_blank_all(parts.drop_last());
        lemma_trail_blank(parts);
        assert forall|q: int| parts.len() - trail_blank(parts) <= q < parts.len() implies is_blank(
            #[trigger] parts[q],
        ) by {
            if q < parts.len() - 1 {
                assert(parts[q] == parts.drop_last()[q]);
            }
        }
    }
}

/// `:trim` on a text without carriage returns keeps exactly its lines from
/// the first line that is not blank to the last one, as they are: the blank
/// lines before and after them go, nothing else does.
pub proof fn law_trim_keeps_inner_lines(s: Seq<char>, a: int, b: int)
    requires
        forall|i: int| 0 <= i < s.len() ==> s[i] != '\r',
        0 <= a <= b < split(s, '\n').len(),
        !is_blank(split(s, '\n')[a]),
        !is_blank(split(s, '\n')[b]),
        forall|q: int| 0 <= q < a ==> is_blank(#[trigger] split(s, '\n')[q]),
        forall|q: int| b < q < split(s, '\n').len() ==> is_blank(#[trigger] split(s, '\n')[q]),
    ensures
        trim_blank_lines_spec(s) == join(split(s, '\n').subrange(a, b + 1), '\n'),
{
    let p = split(s, '\n');
    let n = p.len() as int;
    lemma_split_nonempty(s, '\n');
    lemma_join_split(s, '\n');
    lemma_lead_blank(p);
    lemma_lead_blank_all(p);
    let lead = lead_blank(p) as int;
    if lead < a {
        assert(is_blank(p[lead]));
    }
    if a < lead {
        assert(is_blank(p[a]));
    }
    assert(lead == a);
    let rest = p.skip(a);
    lemma_trail_blank(rest);
    lemma_trail_blank_all(rest);
    let tb = trail_blank(rest) as int;
    let m = rest.len() as int;
    if tb > n - 1 - b {
        assert(is_blank(rest[b - a]));
        assert(rest[b - a] == p[b]);
    }
    if tb < n - 1 - b {
        assert(!is_blank(rest[m - 1 - tb]));
        assert(rest[m - 1 - tb] == p[n - 1 - tb]);
        assert(is_blank(p[n - 1 - tb]));
    }
    assert(tb == n - 1 - b);
    let tl = rest.take(m - tb);
    assert(tl == trimmed_lines(s));
    assert(tl =~= p.subrange(a, b + 1));
    lemma_join_subrange(p, a, b + 1, '\n');
    let j0 = join(tl, '\n');
    let i0: int = if a == 0 {
        0
    } else {
        join(p.take(a), '\n').len() + 1int
    };
    assert(s.subrange(i0, i0 + j0.len()) == j0);
    assert forall|q: int| 0 <= q < j0.len() implies j0[q] != '\r' by {
        assert(j0[q] == s[i0 + q]);
    }
    assert(strip_cr(j0) == j0);
    lemma_join_subrange(tl, 0, 1, '\n');
    assert(tl.subrange(0, 1) =~= seq![tl[0]]);
    assert(join(seq![tl[0]], '\n') == tl[0]);
    assert(tl[0] == p[a]);
    let c = choose|c: int| 0 <= c < p[a].len() && !is_ws(#[trigger] p[a][c]);
    assert(j0[c] == p[a][c]);
    assert(!is_blank(j0));
}

/// `:trim` takes effect whether or not `:indent` is set: with `:trim` on, a
/// text is prepared as its trimmed form is with `:trim` off. With neither
/// option the text is injected as it is, and with `:trim` alone its trimmed
/// form is.
pub proof fn law_trim_applies_alone(s: Seq<char>, cfg: MarkerConfig)
    ensures
        cfg.trim ==> prepare_spec(s, cfg) == prepare_spec(
            trim_blank_lines_spec(s),
            (MarkerConfig { offset: cfg.offset, trim: false, indent: cfg.indent }),
        ),
        !cfg.trim && cfg.indent is None ==> prepare_spec(s, cfg) == Ok::<Seq<char>, InjectorError>(s),
        cfg.trim && cfg.indent is None ==> prepare_spec(s, cfg) == Ok::<Seq<char>, InjectorError>(
            trim_blank_lines_spec(s),
        ),
{
}

/// Injecting into a block with `:trim` and no `:indent` puts the trimmed
/// input, as one element, between the kept lines.
pub proof fn law_trim_without_indent_injects_trimmed(lines: Seq<Seq<char>>, block: &MarkerBlock, s: Seq<char>)
    requires
        block.config.trim,
        block.config.indent is None,
        kept_before_end(block.span, block.config.offset) < kept_after_start(
            block.span,
            block.config.offset,
        ),
    ensures
        inject_block_spec(lines, block, s) == Ok::<Seq<Seq<char>>, InjectorError>(
            lines.take(kept_before_end(block.span, block.config.offset) + 1) + seq![
                trim_blank_lines_spec(s),
            ] + lines.skip(kept_after_start(block.span, block.config.offset)),
        ),
{
    reveal(inject_block_spec);
}

/// `:trim` on a text without carriage returns gives a slice of it (nothing is
/// added), and trimming that slice again changes nothing.
pub proof fn law_trim_slice_and_settled(s: Seq<char>)
    requires
        forall|i: int| 0 <= i < s.len() ==> s[i] != '\r',
    ensures
        exists|i: int, j: int|
            0 <= i <= j <= s.len() && trim_blank_lines_spec(s) == s.subrange(i, j),
        trim_blank_lines_spec(trim_blank_lines_spec(s)) == trim_blank_lines_spec(s),
{
    let parts = split(s, '\n');
    lemma_split_nonempty(s, '\n');
    lemma_split_pieces_free(s, '\n');
    lemma_join_split(s, '\n');
    lemma_lead_blank(parts);
    let lead = lead_blank(parts);
    let rest = parts.skip(lead as int);
    lemma_trail_blank(rest);
    let tb = trail_blank(rest);
    let tl = rest.take(rest.len() - tb);
    assert(tl == trimmed_lines(s));
    assert(tl =~= parts.subrange(lead as int, parts.len() - tb));
    lemma_join_subrange(parts, lead as int, parts.len() - tb, '\n');
    let j0 = join(tl, '\n');
    let i0: int = if lead == 0 {
        0
    } else {
        join(parts.take(lead as int), '\n').len() + 1int
    };
    assert(s.subrange(i0, i0 + j0.len()) == j0);
    assert forall|q: int| 0 <= q < j0.len() implies j0[q] != '\r' by {
        assert(j0[q] == s[i0 + q]);
    }
    assert(strip_cr(j0) == j0);
    let empty = Seq::<char>::empty();
    if is_blank(j0) {
        assert(trim_blank_lines_spec(s) =~= s.subrange(0, 0));
        assert(split(empty, '\n') == seq![empty]);
        assert(trimmed_lines(empty) =~= seq![empty]);
        assert(join(seq![empty], '\n') == empty);
    } else {
        let r = j0;
        assert(trim_blank_lines_spec(s) == r);
        assert forall|k: int, q: int| 0 <= k < tl.len() && 0 <= q < tl[k].len() implies tl[k][q] != '\n' by {
            assert(tl[k] == parts[k + lead]);
        }
        lemma_split_join(tl, '\n');
        if tl.len() >= 2 {
            assert(tl[0] == parts[lead as int]);
            assert(!is_blank(tl[0]));
            assert(tl.last() == rest[rest.len() - 1 - tb]);
            assert(!is_blank(tl.last()));
        }
        assert(lead_blank(tl) == 0);
        assert(trail_blank(tl) == 0);
        assert(tl.skip(0) =~= tl);
        assert(tl.take(tl.len() as int) =~= tl);
        assert(trimmed_lines(r) == tl);
    }
}

/// The lines that re-indenting to `target` writes, given the scan's character
/// `ch` and least width `m`.
pub open spec fn aligned_pieces(p: Seq<Seq<char>>, ch: char, target: nat, m: nat) -> Seq<Seq<char>> {
    Seq::new(p.len(), |k: int| aligned_piece(p[k], ch, target, m))
}

/// One re-indented line: blank lines stay; others get width `new_width`, made
/// of `ch` only, and keep the text after their indentation.
proof fn lemma_aligned_piece(l: Seq<char>, ch: char, target: nat, m: nat)
    requires
        is_indent_char(ch),
        !is_blank(l) ==> m <= indent_width(l),
    ensures
        is_blank(aligned_piece(l, ch, target, m)) == is_blank(l),
        is_blank(l) ==> aligned_piece(l, ch, target, m) == l,
        !is_blank(l) ==> {
            let a = aligned_piece(l, ch, target, m);
            let w = new_width(l, target, m);
            &&& indent_width(a) == w
            &&& w == target + indent_width(l) - m
            &&& a.skip(w as int) == l.skip(indent_width(l) as int)
            &&& forall|j: int| 0 <= j < w ==> a[j] == ch
        },
{
    if !is_blank(l) {
        let w = new_width(l, target, m);
        lemma_reindent(l, ch, w);
        assert forall|j: int| 0 <= j < w implies reindent(l, ch, w)[j] == ch by {}
    }
}

/// What scanning the first `n` re-indented lines finds: no mixing, the
/// character `ch` if any (and none only while every non-blank line so far has
/// width 0), and as least width the least new width of the non-blank lines.
proof fn lemma_scan_aligned(p: Seq<Seq<char>>, ch: char, target: nat, m: nat, n: int)
    requires
        is_indent_char(ch),
        0 <= n <= p.len(),
        forall|k: int| 0 <= k < p.len() && !is_blank(#[trigger] p[k]) ==> m <= indent_width(p[k]),
    ensures
        ({
            let a = aligned_pieces(p, ch, target, m);
            let st = scan_indent(a.take(n));
            &&& st.mixed_line is None
            &&& (st.indent_char matches Some(c) ==> c == ch)
            &&& (st.indent_char is None ==> forall|k: int|
                0 <= k < n && !is_blank(#[trigger] p[k]) ==> new_width(p[k], target, m) == 0)
            &&& (st.min_width is None <==> forall|k: int| 0 <= k < n ==> is_blank(#[trigger] p[k]))
            &&& (st.min_width matches Some(mm) ==> (forall|k: int|
                0 <= k < n && !is_blank(#[trigger] p[k]) ==> mm <= new_width(p[k], target, m)) && exists|k: int|
                0 <= k < n && !is_blank(#[trigger] p[k]) && new_width(p[k], target, m) == mm)
        }),
    decreases n,
{
    let a = aligned_pieces(p, ch, target, m);
    if n == 0 {
        assert(a.take(0) =~= Seq::<Seq<char>>::empty());
    } else {
        lemma_scan_aligned(p, ch, target, m, n - 1);
        let an = a.take(n);
        assert(an.drop_last() =~= a.take(n - 1));
        assert(an.last() == a[n - 1]);
        let l = a[n - 1];
        lemma_aligned_piece(p[n - 1], ch, target, m);
        let st = scan_indent(a.take(n - 1));
        if !is_blank(l) {
            let w = new_width(p[n - 1], target, m);
            assert(!mixes_with(l, ch));
            if w > 0 {
                assert(l[0] == ch);
            }
        }
    }
}

/// With `s` re-indented to `target` as `r` (scan character `ch`, least width
/// `m`), the lines of `r` and what scanning them finds.
proof fn lemma_rebased_scan(s: Seq<char>, target: nat)
    requires
        align_indent_spec(s, target) is Ok,
        scan_indent(split(s, '\n')).min_width is Some,
    ensures
        ({
            let p = split(s, '\n');
            let st = scan_indent(p);
            let m = st.min_width->0;
            let ch = match st.indent_char {
                Some(c) => c,
                None => ' ',
            };
            let a = aligned_pieces(p, ch, target, m);
            let st2 = scan_indent(a);
            &&& is_indent_char(ch)
            &&& forall|k: int| 0 <= k < p.len() && !is_blank(#[trigger] p[k]) ==> m <= indent_width(p[k])
            &&& align_indent_spec(s, target) == Ok::<Seq<char>, InjectorError>(join(a, '\n'))
            &&& split(join(a, '\n'), '\n') == a
            &&& st2.mixed_line is None
            &&& st2.min_width == Some(target)
            &&& (st2.indent_char matches Some(c) ==> c == ch)
            &&& (st2.indent_char is None ==> forall|k: int|
                0 <= k < p.len() && !is_blank(#[trigger] p[k]) ==> new_width(p[k], target, m) == 0)
        }),
{
    let p = split(s, '\n');
    let st = scan_indent(p);
    let m = st.min_width->0;
    lemma_scan_char(p);
    let ch = match st.indent_char {
        Some(c) => c,
        None => ' ',
    };
    lemma_split_nonempty(s, '\n');
    lemma_split_pieces_free(s, '\n');
    assert forall|k: int| 0 <= k < p.len() && !is_blank(#[trigger] p[k]) implies m <= indent_width(p[k]) by {
        lemma_min_width_below(p, k);
    }
    let a = aligned_pieces(p, ch, target, m);
    assert forall|k: int, j: int| 0 <= k < a.len() && 0 <= j < a[k].len() implies a[k][j] != '\n' by {
        lemma_aligned_piece_free(p[k], ch, target, m);
    }
    lemma_split_join(a, '\n');
    lemma_scan_aligned(p, ch, target, m, p.len() as int);
    assert(a.take(p.len() as int) =~= a);
    lemma_min_width_reached(p);
    let k0 = choose|k: int|
        0 <= k < p.len() && !is_blank(#[trigger] p[k]) && Some(indent_width(p[k])) == st.min_width;
    assert(new_width(p[k0], target, m) == target);
    let st2 = scan_indent(a);
    let mm = st2.min_width->0;
    let k1 = choose|k: int|
        0 <= k < p.len() && !is_blank(#[trigger] p[k]) && new_width(p[k], target, m) == mm;
    assert(mm <= target);
    assert(mm >= target);
}

/// Re-indenting a re-indented text to the same width changes nothing.
pub proof fn law_indent_settled(s: Seq<char>, target: nat)
    ensures
        match align_indent_spec(s, target) {
            Ok(r) => align_indent_spec(r, target) == Ok::<Seq<char>, InjectorError>(r),
            Err(_) => true,
        },
{
    let p = split(s, '\n');
    let st = scan_indent(p);
    if st.mixed_line is None && st.min_width is Some {
        lemma_rebased_scan(s, target);
        let m = st.min_width->0;
        let ch = match st.indent_char {
            Some(c) => c,
            None => ' ',
        };
        let a = aligned_pieces(p, ch, target, m);
        let st2 = scan_indent(a);
        let ch2 = match st2.indent_char {
            Some(c) => c,
            None => ' ',
        };
        let a2 = aligned_pieces(a, ch2, target, target);
        assert forall|k: int| 0 <= k < a.len() implies #[trigger] a2[k] == a[k] by {
            lemma_aligned_piece(p[k], ch, target, m);
            if !is_blank(p[k]) {
                let w = new_width(p[k], target, m);
                assert(new_width(a[k], target, target) == w);
                assert(a2[k] == repeat(ch2, w) + a[k].skip(w as int));
                assert(a[k] =~= repeat(ch, w) + a[k].skip(w as int));
                if st2.indent_char is None {
                    assert(w == 0);
                }
                assert(repeat(ch2, w) =~= repeat(ch, w));
            }
        }
        assert(a2 =~= a);
    } else if st.mixed_line is None {
    }
}

/// Re-basing keeps relative indentation: re-indenting a text already re-based
/// to a width above 0 gives what re-indenting the original text gives.
pub proof fn law_indent_rebase_again(s: Seq<char>, first: nat, second: nat)
    requires
        first > 0,
    ensures
        match align_indent_spec(s, first) {
            Ok(r) => align_indent_spec(r, second) == align_indent_spec(s, second),
            Err(_) => true,
        },
{
    let p = split(s, '\n');
    let st = scan_indent(p);
    if st.mixed_line is None && st.min_width is Some {
        lemma_rebased_scan(s, first);
        lemma_rebased_scan(s, second);
        let m = st.min_width->0;
        let ch = match st.indent_char {
            Some(c) => c,
            None => ' ',
        };
        let a = aligned_pieces(p, ch, first, m);
        let st2 = scan_indent(a);
        let ch2 = match st2.indent_char {
            Some(c) => c,
            None => ' ',
        };
        let b = aligned_pieces(p, ch, second, m);
        let a2 = aligned_pieces(a, ch2, second, first);
        assert forall|k: int| 0 <= k < a.len() implies #[trigger] a2[k] == b[k] by {
            lemma_aligned_piece(p[k], ch, first, m);
            lemma_aligned_piece(p[k], ch, second, m);
            if !is_blank(p[k]) {
                let w = new_width(p[k], first, m);
                let w2 = new_width(p[k], second, m);
                assert(new_width(a[k], second, first) == w2);
                assert(st2.indent_char is Some);
                assert(a2[k] == repeat(ch2, w2) + a[k].skip(w as int));
                assert(b[k] == repeat(ch, w2) + p[k].skip(indent_width(p[k]) as int));
            }
        }
        assert(a2 =~= b);
    }
}

} // verus!
