//! What injection and checking say of each other over a whole file.
use vstd::prelude::*;

use crate::checker::{
    block_issue, check_sync_spec, derefs, expected_content, file_issues, first_match_ref,
    is_first_match_ref, lemma_same_role_same_match, no_cr_line_ends, IssueView,
};
use crate::injector::{
    inject_block_spec, inject_lines, inject_spec, inject_step, prepare_spec, InjectorError,
};
use crate::text::{
    join, lemma_join_concat, lemma_join_flatten, lemma_join_split, lemma_lines_free, lemma_lines_of_join,
    lemma_split_join, lemma_split_nonempty, lemma_split_pieces_free, lines, split, strip_cr,
};
use crate::types::{
    block_matches, first_match, kept_after_start, kept_before_end, BlockRole, MarkerBlock, ParsedFile,
};

verus! {

/// The pieces of a list of texts, each text cut at its newlines.
pub open spec fn flat(x: Seq<Seq<char>>) -> Seq<Seq<char>>
    decreases x.len(),
{
    if x.len() == 0 {
        Seq::empty()
    } else {
        flat(x.drop_last()) + split(x.last(), '\n')
    }
}

/// No text of the list holds a newline.
pub open spec fn newline_free(x: Seq<Seq<char>>) -> bool {
    forall|k: int, j: int| 0 <= k < x.len() && 0 <= j < x[k].len() ==> x[k][j] != '\n'
}

/// Cutting two lists of texts at their newlines cuts their concatenation.
proof fn lemma_flat_concat(x: Seq<Seq<char>>, y: Seq<Seq<char>>)
    ensures
        flat(x + y) == flat(x) + flat(y),
    decreases y.len(),
{
    if y.len() == 0 {
        assert(x + y =~= x);
        assert(flat(y) =~= Seq::<Seq<char>>::empty());
        assert(flat(x) + flat(y) =~= flat(x));
    } else {
        lemma_flat_concat(x, y.drop_last());
        assert((x + y).drop_last() =~= x + y.drop_last());
        assert((x + y).last() == y.last());
        assert(flat(x + y) =~= flat(x) + flat(y));
    }
}

/// The pieces hold no newline, and a nonempty list gives at least one piece.
proof fn lemma_flat_free(x: Seq<Seq<char>>)
    ensures
        newline_free(flat(x)),
        x.len() >= 1 ==> flat(x).len() >= 1,
    decreases x.len(),
{
    if x.len() > 0 {
        lemma_flat_free(x.drop_last());
        lemma_split_pieces_free(x.last(), '\n');
        lemma_split_nonempty(x.last(), '\n');
        let a = flat(x.drop_last());
        let b = split(x.last(), '\n');
        assert forall|k: int, j: int| 0 <= k < (a + b).len() && 0 <= j < (a + b)[k].len() implies (a
            + b)[k][j] != '\n' by {
            if k < a.len() {
                assert((a + b)[k] == a[k]);
            } else {
                assert((a + b)[k] == b[k - a.len()]);
            }
        }
    }
}

/// Texts without newlines are their own pieces.
proof fn lemma_flat_free_same(x: Seq<Seq<char>>)
    requires
        newline_free(x),
    ensures
        flat(x) == x,
    decreases x.len(),
{
    if x.len() > 0 {
        let d = x.drop_last();
        assert(newline_free(d)) by {
            assert forall|k: int, j: int| 0 <= k < d.len() && 0 <= j < d[k].len() implies d[k][j]
                != '\n' by {
                assert(d[k] == x[k]);
            }
        }
        lemma_flat_free_same(d);
        let l = x.last();
        let one = seq![l];
        assert(join(one, '\n') == l);
        assert forall|k: int, j: int| 0 <= k < one.len() && 0 <= j < one[k].len() implies one[k][j]
            != '\n' by {
            assert(one[k][j] == x[x.len() - 1][j]);
        }
        lemma_split_join(one, '\n');
        assert(flat(x) =~= x);
    }
}

/// Cutting the texts at their newlines keeps their join.
proof fn lemma_flat_join(x: Seq<Seq<char>>)
    requires
        x.len() >= 1,
    ensures
        join(flat(x), '\n') == join(x, '\n'),
    decreases x.len(),
{
    let l = x.last();
    lemma_join_split(l, '\n');
    lemma_split_nonempty(l, '\n');
    if x.len() == 1 {
        assert(flat(Seq::<Seq<char>>::empty()) =~= Seq::<Seq<char>>::empty());
        assert(x.drop_last() =~= Seq::<Seq<char>>::empty());
        assert(flat(x) =~= split(l, '\n'));
    } else {
        let d = x.drop_last();
        lemma_flat_join(d);
        lemma_flat_free(d);
        lemma_join_concat(flat(d), split(l, '\n'), '\n');
    }
}

/// Injecting the blocks of `x + y` is injecting those of `y`, then those of `x`.
proof fn lemma_inject_compose(l: Seq<Seq<char>>, x: Seq<MarkerBlock>, y: Seq<MarkerBlock>, ins: Seq<MarkerBlock>)
    ensures
        inject_lines(l, x + y, ins) == (match inject_lines(l, y, ins) {
            Err(e) => Err(e),
            Ok(l2) => inject_lines(l2, x, ins),
        }),
    decreases y.len(),
{
    reveal(inject_lines);
    if y.len() == 0 {
        assert(x + y =~= x);
    } else {
        assert((x + y).drop_last() =~= x + y.drop_last());
        assert((x + y).last() == y.last());
        match inject_step(l, &y.last(), ins) {
            Err(_) => {},
            Ok(l2) => {
                lemma_inject_compose(l2, x, y.drop_last(), ins);
            },
        }
    }
}

/// Blocks in order: each begin marker before its end marker, each end marker
/// before the next begin marker.
pub open spec fn blocks_in_order(outs: Seq<MarkerBlock>) -> bool {
    &&& forall|k: int| 0 <= k < outs.len() ==> #[trigger] outs[k].span.begin_marker < outs[k].span.end_marker
    &&& forall|k: int, q: int| 0 <= k < q < outs.len() ==> #[trigger] outs[k].span.end_marker
        < #[trigger] outs[q].span.begin_marker
}

/// Blocks that end before the end of `x` do not see what follows it.
proof fn lemma_inject_suffix(x: Seq<Seq<char>>, r: Seq<Seq<char>>, outs: Seq<MarkerBlock>, ins: Seq<MarkerBlock>)
    requires
        blocks_in_order(outs),
        forall|k: int| 0 <= k < outs.len() ==> #[trigger] outs[k].span.end_marker < x.len(),
    ensures
        inject_lines(x + r, outs, ins) == (match inject_lines(x, outs, ins) {
            Err(e) => Err(e),
            Ok(z) => Ok::<Seq<Seq<char>>, InjectorError>(z + r),
        }),
    decreases outs.len(),
{
    reveal(inject_lines);
    if outs.len() > 0 {
        let b = outs.last();
        assert(b == outs[outs.len() - 1]);
        reveal(inject_block_spec);
        match inject_step(x, &b, ins) {
            Err(_) => {},
            Ok(x2) => {
                match first_match(ins, &b) {
                    None => {
                        assert(x2 == x);
                        assert(inject_step(x + r, &b, ins) == Ok::<Seq<Seq<char>>, InjectorError>(x2 + r));
                    },
                    Some(j) => {
                        let kb = kept_before_end(b.span, b.config.offset);
                        let ka = kept_after_start(b.span, b.config.offset);
                        let t = prepare_spec(ins[j].content@, b.config)->Ok_0;
                        assert(kb < ka);
                        assert(x2 == x.take(kb + 1) + seq![t] + x.skip(ka));
                        assert((x + r).take(kb + 1) =~= x.take(kb + 1));
                        assert((x + r).skip(ka) =~= x.skip(ka) + r);
                        assert(x.take(kb + 1) + seq![t] + (x.skip(ka) + r) =~= x2 + r);
                        assert(inject_step(x + r, &b, ins) == Ok::<Seq<Seq<char>>, InjectorError>(x2 + r));
                    },
                }
                let d = outs.drop_last();
                assert forall|k: int| 0 <= k < d.len() implies #[trigger] d[k].span.end_marker < x2.len() by {
                    assert(d[k] == outs[k]);
                    assert(outs[k].span.end_marker < outs[outs.len() - 1].span.begin_marker);
                }
                assert(blocks_in_order(d)) by {
                    assert forall|k: int, q: int| 0 <= k < q < d.len() implies #[trigger] d[k].span.end_marker
                        < #[trigger] d[q].span.begin_marker by {
                        assert(d[k] == outs[k] && d[q] == outs[q]);
                    }
                    assert forall|k: int| 0 <= k < d.len() implies #[trigger] d[k].span.begin_marker
                        < d[k].span.end_marker by {
                        assert(d[k] == outs[k]);
                    }
                }
                lemma_inject_suffix(x2, r, d, ins);
            },
        }
        if inject_step(x, &b, ins) is Err {
            assert(inject_step(x + r, &b, ins) == inject_step(x, &b, ins));
        }
    } else {
    }
}

/// Blocks that begin at or after line `q` leave the lines before it alone.
proof fn lemma_inject_prefix_kept(l: Seq<Seq<char>>, q: int, outs: Seq<MarkerBlock>, ins: Seq<MarkerBlock>)
    requires
        blocks_in_order(outs),
        0 <= q <= l.len(),
        forall|k: int| 0 <= k < outs.len() ==> q <= #[trigger] outs[k].span.begin_marker,
        forall|k: int| 0 <= k < outs.len() ==> #[trigger] outs[k].span.end_marker < l.len(),
    ensures
        inject_lines(l, outs, ins) matches Ok(z) ==> z.len() >= q && z.take(q) == l.take(q),
    decreases outs.len(),
{
    reveal(inject_lines);
    if outs.len() > 0 {
        let b = outs.last();
        assert(b == outs[outs.len() - 1]);
        reveal(inject_block_spec);
        if let Ok(l2) = inject_step(l, &b, ins) {
            match first_match(ins, &b) {
                None => {},
                Some(j) => {
                    let kb = kept_before_end(b.span, b.config.offset);
                    let ka = kept_after_start(b.span, b.config.offset);
                    let t = prepare_spec(ins[j].content@, b.config)->Ok_0;
                    assert(l2 == l.take(kb + 1) + seq![t] + l.skip(ka));
                    assert(l2.take(q) =~= l.take(q));
                },
            }
            let d = outs.drop_last();
            assert forall|k: int| 0 <= k < d.len() implies #[trigger] d[k].span.end_marker < l2.len() by {
                assert(d[k] == outs[k]);
                assert(outs[k].span.end_marker < outs[outs.len() - 1].span.begin_marker);
            }
            assert forall|k: int| 0 <= k < d.len() implies q <= #[trigger] d[k].span.begin_marker by {
                assert(d[k] == outs[k]);
            }
            assert(blocks_in_order(d)) by {
                assert forall|k: int, p: int| 0 <= k < p < d.len() implies #[trigger] d[k].span.end_marker
                    < #[trigger] d[p].span.begin_marker by {
                    assert(d[k] == outs[k] && d[p] == outs[p]);
                }
                assert forall|k: int| 0 <= k < d.len() implies #[trigger] d[k].span.begin_marker
                    < d[k].span.end_marker by {
                    assert(d[k] == outs[k]);
                }
            }
            lemma_inject_prefix_kept(l2, q, d, ins);
            if let Ok(z) = inject_lines(l2, d, ins) {
                assert(z.take(q) =~= l2.take(q).take(q));
            }
        }
    }
}

/// A run of blocks in order is in order.
proof fn lemma_order_sub(outs: Seq<MarkerBlock>, a: int, b: int)
    requires
        blocks_in_order(outs),
        0 <= a <= b <= outs.len(),
    ensures
        blocks_in_order(outs.subrange(a, b)),
{
    let d = outs.subrange(a, b);
    assert forall|k: int, p: int| 0 <= k < p < d.len() implies #[trigger] d[k].span.end_marker
        < #[trigger] d[p].span.begin_marker by {
        assert(d[k] == outs[k + a] && d[p] == outs[p + a]);
    }
    assert forall|k: int| 0 <= k < d.len() implies #[trigger] d[k].span.begin_marker < d[k].span.end_marker by {
        assert(d[k] == outs[k + a]);
    }
}

/// The injected lines around block `k`: what injecting the blocks before it
/// makes of the lines before its begin marker, then its begin marker and the
/// kept lines, its injected text, the kept lines and its end marker, then the
/// rest.
proof fn lemma_inject_around(
    l: Seq<Seq<char>>,
    outs: Seq<MarkerBlock>,
    ins: Seq<MarkerBlock>,
    k: int,
    j: int,
) -> (y: Seq<Seq<char>>)
    requires
        blocks_in_order(outs),
        0 <= k < outs.len(),
        forall|q: int| 0 <= q < outs.len() ==> #[trigger] outs[q].span.end_marker < l.len(),
        inject_lines(l, outs, ins) is Ok,
        first_match(ins, &outs[k]) == Some(j),
    ensures
        ({
            let b = outs[k];
            let bm = b.span.begin_marker as int;
            let em = b.span.end_marker as int;
            let o = b.config.offset as int;
            let t = prepare_spec(ins[j].content@, b.config)->Ok_0;
            &&& prepare_spec(ins[j].content@, b.config) is Ok
            &&& bm + o < em - o
            &&& inject_lines(l.take(bm), outs.take(k), ins) is Ok
            &&& inject_lines(l, outs, ins)->Ok_0 == inject_lines(l.take(bm), outs.take(k), ins)->Ok_0
                + l.subrange(bm, bm + o + 1) + seq![t] + l.subrange(em - o, em + 1) + y
        }),
{
    reveal(inject_block_spec);
    let b = outs[k];
    let bm = b.span.begin_marker as int;
    let em = b.span.end_marker as int;
    let o1 = outs.take(k);
    let o2 = outs.skip(k + 1);
    let one = seq![b];
    assert(outs =~= (o1 + one) + o2);
    lemma_inject_compose(l, o1 + one, o2, ins);
    lemma_order_sub(outs, k + 1, outs.len() as int);
    assert(o2 =~= outs.subrange(k + 1, outs.len() as int));
    let q = em + 1;
    assert forall|p: int| 0 <= p < o2.len() implies q <= #[trigger] o2[p].span.begin_marker by {
        assert(o2[p] == outs[p + k + 1]);
        assert(outs[k].span.end_marker < outs[p + k + 1].span.begin_marker);
    }
    assert forall|p: int| 0 <= p < o2.len() implies #[trigger] o2[p].span.end_marker < l.len() by {
        assert(o2[p] == outs[p + k + 1]);
    }
    lemma_inject_prefix_kept(l, q, o2, ins);
    let z2 = inject_lines(l, o2, ins)->Ok_0;
    lemma_inject_compose(z2, o1, one, ins);
    assert(inject_lines(z2, one, ins) == (match inject_step(z2, &b, ins) {
        Err(e) => Err(e),
        Ok(w) => inject_lines(w, Seq::<MarkerBlock>::empty(), ins),
    })) by {
        reveal(inject_lines);
        assert(one.drop_last() =~= Seq::<MarkerBlock>::empty());
    }
    assert(forall|w: Seq<Seq<char>>| inject_lines(w, Seq::<MarkerBlock>::empty(), ins) == Ok::<
        Seq<Seq<char>>,
        InjectorError,
    >(w)) by {
        reveal(inject_lines);
    }
    let o = b.config.offset as int;
    let kb = kept_before_end(b.span, b.config.offset);
    let ka = kept_after_start(b.span, b.config.offset);
    let t = prepare_spec(ins[j].content@, b.config)->Ok_0;
    let w = z2.take(kb + 1) + seq![t] + z2.skip(ka);
    assert(inject_step(z2, &b, ins) == Ok::<Seq<Seq<char>>, InjectorError>(w));
    assert(kb == bm + o && ka == em - o);
    let x = w.take(bm);
    let r = w.skip(bm);
    assert(w =~= x + r);
    assert(x =~= l.take(bm));
    lemma_order_sub(outs, 0, k);
    assert(o1 =~= outs.subrange(0, k));
    assert forall|p: int| 0 <= p < o1.len() implies #[trigger] o1[p].span.end_marker < x.len() by {
        assert(o1[p] == outs[p]);
        assert(outs[p].span.end_marker < outs[k].span.begin_marker);
    }
    lemma_inject_suffix(x, r, o1, ins);
    let y = z2.skip(q);
    assert(z2.len() >= q && z2.take(q) == l.take(q));
    assert(kb + 1 <= q && ka <= q);
    assert(z2.take(kb + 1) =~= l.take(kb + 1)) by {
        assert forall|i: int| 0 <= i < kb + 1 implies #[trigger] z2.take(kb + 1)[i] == l.take(kb + 1)[i] by {
            assert(z2.take(q)[i] == l.take(q)[i]);
        }
    }
    assert(z2.skip(ka) =~= l.subrange(ka, q) + y) by {
        assert forall|i: int| 0 <= i < q - ka implies #[trigger] z2.skip(ka)[i] == l.subrange(ka, q)[i] by {
            assert(z2.take(q)[ka + i] == l.take(q)[ka + i]);
        }
    }
    assert(r =~= l.subrange(bm, bm + o + 1) + seq![t] + l.subrange(em - o, em + 1) + y);
    let x1 = inject_lines(l.take(bm), o1, ins)->Ok_0;
    assert(inject_lines(l, outs, ins)->Ok_0 == x1 + l.subrange(bm, bm + o + 1) + seq![t] + l.subrange(
        em - o,
        em + 1,
    ) + y);
    y
}

/// Some input that matches gives a first input that matches.
proof fn lemma_first_of_matches(ins: Seq<MarkerBlock>, out: &MarkerBlock, q: int) -> (m: int)
    requires
        0 <= q < ins.len(),
        block_matches(&ins[q], out),
    ensures
        0 <= m <= q,
        block_matches(&ins[m], out),
        forall|p: int| 0 <= p < m ==> !block_matches(&ins[p], out),
    decreases q,
{
    if exists|p: int| 0 <= p < q && block_matches(&ins[p], out) {
        let p = choose|p: int| 0 <= p < q && block_matches(&ins[p], out);
        lemma_first_of_matches(ins, out, p)
    } else {
        q
    }
}

/// Looking for an input among references to blocks finds what looking among
/// the blocks finds.
#[verifier::spinoff_prover]
proof fn lemma_first_match_refs(refs: Seq<&MarkerBlock>, ins: Seq<MarkerBlock>, out: &MarkerBlock)
    requires
        derefs(refs) == ins,
    ensures
        first_match_ref(refs, out) == first_match(ins, out),
{
    assert forall|q: int| 0 <= q < ins.len() implies #[trigger] block_matches(refs[q], out)
        == block_matches(&ins[q], out) by {
        assert(ins[q] == *refs[q]);
    }
    if exists|q: int| 0 <= q < ins.len() && block_matches(&ins[q], out) {
        let q = choose|q: int| 0 <= q < ins.len() && block_matches(&ins[q], out);
        let m = lemma_first_of_matches(ins, out, q);
        assert(0 <= m < ins.len() && block_matches(&ins[m], out) && forall|p: int|
            0 <= p < m ==> !block_matches(&ins[p], out));
        let c = first_match(ins, out)->0;
        assert(c == m) by {
            if c < m {
                assert(block_matches(&ins[c], out));
            } else if m < c {
                assert(!block_matches(&ins[m], out));
            }
        }
        assert forall|p: int| 0 <= p < m implies !block_matches(#[trigger] refs[p], out) by {
            assert(!block_matches(&ins[p], out));
        }
        assert(is_first_match_ref(refs, out, m));
        let c2 = first_match_ref(refs, out)->0;
        assert(c2 == m) by {
            if c2 < m {
                assert(block_matches(refs[c2], out));
            } else if m < c2 {
                assert(!block_matches(refs[m], out));
            }
        }
    } else {
        if exists|q: int| is_first_match_ref(refs, out, q) {
            let c2 = choose|q: int| is_first_match_ref(refs, out, q);
            assert(block_matches(refs[c2], out));
            assert(block_matches(&ins[c2], out));
        }
    }
}

/// A file none of whose blocks has an issue has none.
proof fn lemma_file_issues_none(
    lt: Seq<Seq<char>>,
    blocks: Seq<MarkerBlock>,
    refs: Seq<&MarkerBlock>,
    path: Seq<char>,
)
    requires
        forall|k: int| 0 <= k < blocks.len() ==> block_issue(lt, #[trigger] &blocks[k], refs, path)
            == Ok::<Option<IssueView>, InjectorError>(None),
    ensures
        file_issues(lt, blocks, refs, path) == Ok::<Seq<IssueView>, InjectorError>(Seq::empty()),
    decreases blocks.len(),
{
    if blocks.len() > 0 {
        let d = blocks.drop_last();
        assert forall|k: int| 0 <= k < d.len() implies block_issue(lt, #[trigger] &d[k], refs, path)
            == Ok::<Option<IssueView>, InjectorError>(None) by {
            assert(d[k] == blocks[k]);
        }
        lemma_file_issues_none(lt, d, refs, path);
        assert(blocks.last() == blocks[blocks.len() - 1]);
    }
}

/// The line at which the begin marker of block `k` stands once the blocks
/// before it are injected: the number of lines that injecting them makes of
/// the lines before it.
pub open spec fn relocated_begin(l: Seq<Seq<char>>, outs: Seq<MarkerBlock>, ins: Seq<MarkerBlock>, k: int) -> int {
    flat(inject_lines(l.take(outs[k].span.begin_marker as int), outs.take(k), ins)->Ok_0).len() as int
}

/// What a file read back after injection holds of block `k`, when injection
/// gave that block content: the block keeps its role and options, its begin
/// marker is relocated, its end marker follows the kept lines and the lines
/// of the injected text (none of which ends with a carriage return), and it
/// holds the lines between its markers.
pub open spec fn block_read_back(
    file: ParsedFile,
    ins: Seq<MarkerBlock>,
    after: ParsedFile,
    k: int,
) -> bool {
    let b = file.blocks@[k];
    let a = after.blocks@[k];
    &&& a.role == b.role
    &&& a.config == b.config
    &&& (b.role matches BlockRole::Output { id: Some(_) }) ==> match first_match(ins, &b) {
        Some(j) => {
            let t = prepare_spec(ins[j].content@, b.config)->Ok_0;
            &&& no_cr_line_ends(t)
            &&& a.span.begin_marker == relocated_begin(lines(file.content@), file.blocks@, ins, k)
            &&& a.span.end_marker == a.span.begin_marker + 2 * b.config.offset + 1 + split(t, '\n').len()
            &&& a.content@ == join(
                lines(after.content@).subrange(a.span.begin_marker + 1, a.span.end_marker as int),
                '\n',
            )
        },
        None => true,
    }
}

/// The premises of `law_injected_file_in_sync`.
pub open spec fn injected_and_read_back(
    file: ParsedFile,
    ins: Seq<MarkerBlock>,
    refs: Seq<&MarkerBlock>,
    after: ParsedFile,
) -> bool {
    &&& derefs(refs) == ins
    &&& blocks_in_order(file.blocks@)
    &&& forall|k: int| 0 <= k < file.blocks@.len() ==> #[trigger] file.blocks@[k].span.end_marker < lines(
        file.content@,
    ).len()
    &&& inject_spec(file.content@, file.blocks@, ins) == Ok::<Seq<char>, InjectorError>(after.content@)
    &&& after.blocks@.len() == file.blocks@.len()
    &&& forall|k: int| 0 <= k < file.blocks@.len() ==> #[trigger] block_read_back(file, ins, after, k)
}

/// Pieces of the injected lines around a block, cut at their newlines.
proof fn lemma_flat_around(
    x1: Seq<Seq<char>>,
    pa: Seq<Seq<char>>,
    t: Seq<char>,
    pb: Seq<Seq<char>>,
    y: Seq<Seq<char>>,
)
    requires
        newline_free(pa),
        newline_free(pb),
    ensures
        flat(x1 + pa + seq![t] + pb + y) == flat(x1) + pa + split(t, '\n') + pb + flat(y),
{
    lemma_flat_free_same(pa);
    lemma_flat_free_same(pb);
    assert(flat(Seq::<Seq<char>>::empty()) =~= Seq::<Seq<char>>::empty());
    assert(seq![t].drop_last() =~= Seq::<Seq<char>>::empty());
    assert(flat(seq![t]) =~= split(t, '\n'));
    lemma_flat_concat(x1, pa);
    lemma_flat_concat(x1 + pa, seq![t]);
    lemma_flat_concat(x1 + pa + seq![t], pb);
    lemma_flat_concat(x1 + pa + seq![t] + pb, y);
}

/// The lines of the text that injection writes are the pieces of the
/// injected lines, but for the last piece.
proof fn lemma_lines_of_flat(text: Seq<char>, lf: Seq<Seq<char>>)
    requires
        lf.len() >= 1,
        text == join(lf, '\n') || text == join(lf, '\n').push('\n'),
    ensures
        lines(text).len() >= flat(lf).len() - 1,
        forall|i: int| 0 <= i < flat(lf).len() - 1 ==> #[trigger] lines(text)[i] == strip_cr(flat(lf)[i]),
{
    lemma_flat_join(lf);
    lemma_flat_free(lf);
    let f = flat(lf);
    lemma_lines_of_join(f);
    assert forall|i: int| 0 <= i < f.len() - 1 implies #[trigger] lines(text)[i] == strip_cr(f[i]) by {
        if text == join(lf, '\n') {
            assert(lines(join(f, '\n'))[i] == strip_cr(f[i]));
        } else {
            assert(lines(join(f, '\n').push('\n'))[i] == strip_cr(f[i]));
        }
    }
}

/// After injection, the lines of the file read back hold, between the kept
/// lines of block `k`, the lines of its injected text.
proof fn lemma_read_back_lines(
    file: ParsedFile,
    ins: Seq<MarkerBlock>,
    refs: Seq<&MarkerBlock>,
    after: ParsedFile,
    k: int,
    j: int,
)
    requires
        injected_and_read_back(file, ins, refs, after),
        0 <= k < file.blocks@.len(),
        file.blocks@[k].role matches BlockRole::Output { id: Some(_) },
        first_match(ins, &file.blocks@[k]) == Some(j),
    ensures
        ({
            let b = file.blocks@[k];
            let a = after.blocks@[k];
            let o = b.config.offset as int;
            let t = prepare_spec(ins[j].content@, b.config)->Ok_0;
            let lt = lines(after.content@);
            &&& prepare_spec(ins[j].content@, b.config) is Ok
            &&& a.span.end_marker <= lt.len()
            &&& lt.subrange(a.span.begin_marker + o + 1, a.span.end_marker - o) == split(t, '\n')
        }),
{
    let b = file.blocks@[k];
    let a = after.blocks@[k];
    assert(block_read_back(file, ins, after, k));
    let l = lines(file.content@);
    let outs = file.blocks@;
    assert(inject_lines(l, outs, ins) is Ok);
    let lf = inject_lines(l, outs, ins)->Ok_0;
    let y = lemma_inject_around(l, outs, ins, k, j);
    let bm = b.span.begin_marker as int;
    let em = b.span.end_marker as int;
    let o = b.config.offset as int;
    let t = prepare_spec(ins[j].content@, b.config)->Ok_0;
    let x1 = inject_lines(l.take(bm), outs.take(k), ins)->Ok_0;
    let pa = l.subrange(bm, bm + o + 1);
    let pb = l.subrange(em - o, em + 1);
    let sp = split(t, '\n');
    lemma_split_nonempty(t, '\n');
    lemma_lines_free(file.content@);
    assert(newline_free(pa)) by {
        assert forall|p: int, q: int| 0 <= p < pa.len() && 0 <= q < pa[p].len() implies pa[p][q] != '\n' by {
            assert(pa[p] == l[bm + p]);
        }
    }
    assert(newline_free(pb)) by {
        assert forall|p: int, q: int| 0 <= p < pb.len() && 0 <= q < pb[p].len() implies pb[p][q] != '\n' by {
            assert(pb[p] == l[em - o + p]);
        }
    }
    lemma_flat_around(x1, pa, t, pb, y);
    let f = flat(lf);
    let fx = flat(x1);
    assert(f == fx + pa + sp + pb + flat(y));
    let b2 = fx.len() as int;
    assert(a.span.begin_marker == b2);
    let e2 = b2 + 2 * o + 1 + sp.len();
    assert(a.span.end_marker == e2);
    assert(f.len() >= e2 + 1);
    assert(lf.len() >= 1);
    lemma_lines_of_flat(after.content@, lf);
    let lt = lines(after.content@);
    assert forall|i: int| 0 <= i < sp.len() implies lt[b2 + o + 1 + i] == #[trigger] sp[i] by {
        assert(f[b2 + o + 1 + i] == sp[i]);
        assert(lt[b2 + o + 1 + i] == strip_cr(f[b2 + o + 1 + i]));
        assert(block_read_back(file, ins, after, k));
        assert(strip_cr(sp[i]) == sp[i]);
    }
    assert(lt.subrange(b2 + o + 1, e2 - o) =~= sp);
}

/// A block whose text between the kept lines is what injection writes is in
/// sync with that input.
proof fn lemma_block_lines_in_sync(lt: Seq<Seq<char>>, a: &MarkerBlock, s: Seq<char>)
    requires
        prepare_spec(s, a.config) is Ok,
        a.span.end_marker == a.span.begin_marker + 2 * a.config.offset + 1 + split(
            prepare_spec(s, a.config)->Ok_0,
            '\n',
        ).len(),
        a.span.end_marker <= lt.len(),
        lt.subrange(
            a.span.begin_marker + a.config.offset + 1,
            a.span.end_marker - a.config.offset,
        ) == split(prepare_spec(s, a.config)->Ok_0, '\n'),
        a.content@ == join(lt.subrange(a.span.begin_marker + 1, a.span.end_marker as int), '\n'),
    ensures
        inject_block_spec(lt, a, s) matches Ok(inj) && expected_content(inj, a) == a.content@,
{
    reveal(inject_block_spec);
    let t = prepare_spec(s, a.config)->Ok_0;
    let sp = split(t, '\n');
    lemma_split_nonempty(t, '\n');
    lemma_join_split(t, '\n');
    let b2 = a.span.begin_marker as int;
    let e2 = a.span.end_marker as int;
    let o = a.config.offset as int;
    let ka2 = e2 - o;
    let injected2 = lt.take(b2 + o + 1) + seq![t] + lt.skip(ka2);
    assert(inject_block_spec(lt, a, s) == Ok::<Seq<Seq<char>>, InjectorError>(injected2));
    let pa2 = lt.subrange(b2 + 1, b2 + o + 1);
    let pb2 = lt.subrange(ka2, e2);
    assert(injected2.subrange(b2 + 1, b2 + 2 * o + 2) =~= pa2 + seq![t] + pb2);
    assert(lt.subrange(b2 + 1, e2) =~= pa2 + sp + pb2);
    lemma_join_flatten(pa2, sp, pb2, '\n');
    assert(expected_content(injected2, a) == a.content@);
}

/// Each block of a file that injection has just written is in sync.
proof fn lemma_block_in_sync(
    file: ParsedFile,
    ins: Seq<MarkerBlock>,
    refs: Seq<&MarkerBlock>,
    after: ParsedFile,
    k: int,
)
    requires
        injected_and_read_back(file, ins, refs, after),
        0 <= k < file.blocks@.len(),
    ensures
        block_issue(lines(after.content@), &after.blocks@[k], refs, after.path@) == Ok::<
            Option<IssueView>,
            InjectorError,
        >(None),
{
    let b = file.blocks@[k];
    let a = after.blocks@[k];
    assert(block_read_back(file, ins, after, k));
    lemma_same_role_same_match(refs, &b, &a);
    lemma_first_match_refs(refs, ins, &b);
    if (b.role matches BlockRole::Output { id: Some(_) }) && first_match(ins, &b) is Some {
        let j = first_match(ins, &b)->0;
        assert(ins[j] == *refs[j]);
        lemma_read_back_lines(file, ins, refs, after, k, j);
        lemma_block_lines_in_sync(lines(after.content@), &a, refs[j].content@);
    }
}

/// A whole file that injection has just written is in sync. Take the blocks of
/// a file, in order and within its lines, inject the inputs into them, and
/// read the text back: each block keeps its role and options, and each block
/// that `check` compares is relocated as injection moved it and holds the
/// lines between its markers. Then `check_sync` reports no issue for the file.
pub proof fn law_injected_file_in_sync(
    file: ParsedFile,
    ins: Seq<MarkerBlock>,
    refs: Seq<&MarkerBlock>,
    after: ParsedFile,
)
    requires
        injected_and_read_back(file, ins, refs, after),
    ensures
        check_sync_spec(refs, seq![after]) == Ok::<Seq<IssueView>, InjectorError>(Seq::empty()),
{
    let lt = lines(after.content@);
    assert forall|k: int| 0 <= k < after.blocks@.len() implies block_issue(
        lt,
        #[trigger] &after.blocks@[k],
        refs,
        after.path@,
    ) == Ok::<Option<IssueView>, InjectorError>(None) by {
        lemma_block_in_sync(file, ins, refs, after, k);
    }
    lemma_file_issues_none(lt, after.blocks@, refs, after.path@);
    let files = seq![after];
    assert(check_sync_spec(refs, Seq::<ParsedFile>::empty()) == Ok::<Seq<IssueView>, InjectorError>(
        Seq::empty(),
    ));
    assert(files.drop_last() =~= Seq::<ParsedFile>::empty());
    assert(files.last() == after);
    assert(Seq::<IssueView>::empty() + Seq::<IssueView>::empty() =~= Seq::<IssueView>::empty());
}

} // verus!
