//! Checks on the files and blocks taken part in an injection: input ids must
//! exist and be unique.
use vstd::prelude::*;

use crate::checker::derefs;
use crate::text::{chars_of, seqs, slice_chars, string_of};
use crate::types::{ids_view, BlockRole, MarkerBlock, ParsedFile};

verus! {

/// Why the files or blocks of an injection are not acceptable.
#[derive(Debug)]
pub enum ValidatorError {
    FileNotExist { path: String },
    BinaryFile { path: String },
    MissingInputID { id: String },
    DuplicatedInputID { id: String },
}

pub enum ValidatorErrorView {
    FileNotExist { path: Seq<char> },
    BinaryFile { path: Seq<char> },
    MissingInputID { id: Seq<char> },
    DuplicatedInputID { id: Seq<char> },
}

impl View for ValidatorError {
    type V = ValidatorErrorView;

    open spec fn view(&self) -> ValidatorErrorView {
        match self {
            ValidatorError::FileNotExist { path } => ValidatorErrorView::FileNotExist { path: path@ },
            ValidatorError::BinaryFile { path } => ValidatorErrorView::BinaryFile { path: path@ },
            ValidatorError::MissingInputID { id } => ValidatorErrorView::MissingInputID { id: id@ },
            ValidatorError::DuplicatedInputID { id } => ValidatorErrorView::DuplicatedInputID {
                id: id@,
            },
        }
    }
}

/// The ids an input block provides (none for an output block).
pub open spec fn block_input_ids(b: MarkerBlock) -> Seq<Seq<char>> {
    match b.role {
        BlockRole::Input { ids } => ids_view(ids@),
        _ => Seq::empty(),
    }
}

/// The id an output block asks for, if it has one.
pub open spec fn block_output_ids(b: MarkerBlock) -> Seq<Seq<char>> {
    match b.role {
        BlockRole::Output { id: Some(i) } => seq![i@],
        _ => Seq::empty(),
    }
}

/// The ids provided by input blocks, in order.
pub open spec fn input_ids(blocks: Seq<MarkerBlock>) -> Seq<Seq<char>>
    decreases blocks.len(),
{
    if blocks.len() == 0 {
        Seq::empty()
    } else {
        input_ids(blocks.drop_last()) + block_input_ids(blocks.last())
    }
}

/// The ids asked for by output blocks, in order.
pub open spec fn output_ids(blocks: Seq<MarkerBlock>) -> Seq<Seq<char>>
    decreases blocks.len(),
{
    if blocks.len() == 0 {
        Seq::empty()
    } else {
        output_ids(blocks.drop_last()) + block_output_ids(blocks.last())
    }
}

pub open spec fn files_input_ids(files: Seq<ParsedFile>) -> Seq<Seq<char>>
    decreases files.len(),
{
    if files.len() == 0 {
        Seq::empty()
    } else {
        files_input_ids(files.drop_last()) + input_ids(files.last().blocks@)
    }
}

pub open spec fn files_output_ids(files: Seq<ParsedFile>) -> Seq<Seq<char>>
    decreases files.len(),
{
    if files.len() == 0 {
        Seq::empty()
    } else {
        files_output_ids(files.drop_last()) + output_ids(files.last().blocks@)
    }
}

/// Index of the first id of `wanted` that `provided` lacks.
pub open spec fn first_missing(wanted: Seq<Seq<char>>, provided: Seq<Seq<char>>) -> Option<int> {
    if exists|k: int| 0 <= k < wanted.len() && !provided.contains(wanted[k]) {
        Some(
            choose|k: int|
                0 <= k < wanted.len() && !provided.contains(wanted[k]) && forall|q: int|
                    0 <= q < k ==> provided.contains(wanted[q]),
        )
    } else {
        None
    }
}

/// Whether the id at `j` repeats an earlier one.
pub open spec fn repeats_at(ids: Seq<Seq<char>>, j: int) -> bool {
    exists|i: int| 0 <= i < j < ids.len() && ids[i] == ids[j]
}

/// Index of the first id that repeats an earlier one.
pub open spec fn first_repeat(ids: Seq<Seq<char>>) -> Option<int> {
    if exists|j: int| repeats_at(ids, j) {
        Some(choose|j: int| repeats_at(ids, j) && forall|q: int| 0 <= q < j ==> !repeats_at(ids, q))
    } else {
        None
    }
}

fn same_seq(a: &Vec<char>, b: &Vec<char>) -> (r: bool)
    ensures
        r == (a@ == b@),
{
    if a.len() != b.len() {
        return false;
    }
    let mut i: usize = 0;
    while i < a.len()
        invariant
            i <= a.len() == b.len(),
            forall|k: int| 0 <= k < i ==> a@[k] == b@[k],
        decreases a.len() - i,
    {
        if a[i] != b[i] {
            return false;
        }
        i = i + 1;
    }
    assert(a@ =~= b@);
    true
}

fn push_ids_of(block: &MarkerBlock, input: bool, out: &mut Vec<Vec<char>>)
    ensures
        seqs(final(out)@) == seqs(old(out)@) + (if input {
            block_input_ids(*block)
        } else {
            block_output_ids(*block)
        }),
{
    let ghost start = seqs(out@);
    match &block.role {
        BlockRole::Input { ids } => {
            if input {
                let mut i: usize = 0;
                while i < ids.len()
                    invariant
                        i <= ids.len(),
                        seqs(out@) == start + ids_view(ids@).take(i as int),
                    decreases ids.len() - i,
                {
                    let c = chars_of(ids[i].as_str());
                    let ghost prev = seqs(out@);
                    out.push(c);
                    assert(seqs(out@) =~= prev.push(ids@[i as int]@));
                    i = i + 1;
                    assert(ids_view(ids@).take(i as int) =~= ids_view(ids@).take(i - 1).push(
                        ids@[i - 1]@,
                    ));
                    assert(seqs(out@) =~= start + ids_view(ids@).take(i as int));
                }
                assert(ids_view(ids@).take(ids.len() as int) =~= ids_view(ids@));
            } else {
                assert(seqs(out@) =~= start + Seq::<Seq<char>>::empty());
            }
        },
        BlockRole::Output { id } => {
            match id {
                Some(i) => {
                    if !input {
                        let c = chars_of(i.as_str());
                        out.push(c);
                        assert(seqs(out@) =~= start + seq![i@]);
                    } else {
                        assert(seqs(out@) =~= start + Seq::<Seq<char>>::empty());
                    }
                },
                None => {
                    assert(seqs(out@) =~= start + Seq::<Seq<char>>::empty());
                },
            }
        },
    }
}

fn collect_ids(blocks: &Vec<MarkerBlock>, input: bool, out: &mut Vec<Vec<char>>)
    ensures
        seqs(final(out)@) == seqs(old(out)@) + (if input {
            input_ids(blocks@)
        } else {
            output_ids(blocks@)
        }),
{
    let ghost start = seqs(out@);
    let mut b: usize = 0;
    assert(blocks@.take(0) =~= Seq::<MarkerBlock>::empty());
    assert(seqs(out@) =~= start + Seq::<Seq<char>>::empty());
    while b < blocks.len()
        invariant
            b <= blocks.len(),
            seqs(out@) == start + (if input {
                input_ids(blocks@.take(b as int))
            } else {
                output_ids(blocks@.take(b as int))
            }),
        decreases blocks.len() - b,
    {
        assert(blocks@.take(b + 1).drop_last() =~= blocks@.take(b as int));
        assert(blocks@.take(b + 1).last() == blocks@[b as int]);
        push_ids_of(&blocks[b], input, out);
        b = b + 1;
        if input {
            assert(seqs(out@) =~= start + input_ids(blocks@.take(b as int)));
        } else {
            assert(seqs(out@) =~= start + output_ids(blocks@.take(b as int)));
        }
    }
    assert(blocks@.take(blocks.len() as int) =~= blocks@);
}

fn collect_file_ids(files: &[ParsedFile], input: bool) -> (out: Vec<Vec<char>>)
    ensures
        seqs(out@) == (if input {
            files_input_ids(files@)
        } else {
            files_output_ids(files@)
        }),
{
    let mut out: Vec<Vec<char>> = Vec::new();
    let mut f: usize = 0;
    assert(files@.take(0) =~= Seq::<ParsedFile>::empty());
    assert(seqs(out@) =~= Seq::<Seq<char>>::empty());
    while f < files.len()
        invariant
            f <= files.len(),
            seqs(out@) == (if input {
                files_input_ids(files@.take(f as int))
            } else {
                files_output_ids(files@.take(f as int))
            }),
        decreases files.len() - f,
    {
        assert(files@.take(f + 1).drop_last() =~= files@.take(f as int));
        assert(files@.take(f + 1).last() == files@[f as int]);
        collect_ids(&files[f].blocks, input, &mut out);
        f = f + 1;
    }
    assert(files@.take(files.len() as int) =~= files@);
    out
}

fn contains_seq(v: &Vec<Vec<char>>, x: &Vec<char>) -> (r: bool)
    ensures
        r == seqs(v@).contains(x@),
{
    let mut i: usize = 0;
    while i < v.len()
        invariant
            i <= v.len(),
            forall|k: int| 0 <= k < i ==> seqs(v@)[k] != x@,
        decreases v.len() - i,
    {
        if same_seq(&v[i], x) {
            assert(seqs(v@)[i as int] == x@);
            return true;
        }
        i = i + 1;
    }
    false
}

proof fn lemma_first_missing_at(wanted: Seq<Seq<char>>, provided: Seq<Seq<char>>, k: int)
    requires
        0 <= k < wanted.len(),
        !provided.contains(wanted[k]),
        forall|q: int| 0 <= q < k ==> provided.contains(wanted[q]),
    ensures
        first_missing(wanted, provided) == Some(k),
{
    let c = choose|m: int|
        0 <= m < wanted.len() && !provided.contains(wanted[m]) && forall|q: int|
            0 <= q < m ==> provided.contains(wanted[q]);
    assert(0 <= c < wanted.len() && !provided.contains(wanted[c]));
    if c < k {
        assert(provided.contains(wanted[c]));
    } else if c > k {
        assert(provided.contains(wanted[k]));
    }
}

proof fn lemma_first_repeat_at(ids: Seq<Seq<char>>, j: int)
    requires
        repeats_at(ids, j),
        forall|q: int| 0 <= q < j ==> !repeats_at(ids, q),
    ensures
        first_repeat(ids) == Some(j),
{
    let c = choose|m: int| repeats_at(ids, m) && forall|q: int| 0 <= q < m ==> !repeats_at(ids, q);
    assert(repeats_at(ids, c));
    assert(0 <= c);
    if c < j {
        assert(!repeats_at(ids, c));
    } else if c > j {
        assert(!repeats_at(ids, j));
    }
}

/// Every id that an output block of `output_files` asks for must be provided by
/// an input block of `input_files`; the first one that is not is reported.
pub fn validate_missing_ids(output_files: &[ParsedFile], input_files: &[ParsedFile]) -> (r: Result<
    (),
    ValidatorError,
>)
    ensures
        match first_missing(files_output_ids(output_files@), files_input_ids(input_files@)) {
            None => r is Ok,
            Some(k) => r matches Err(e) && e@ == (ValidatorErrorView::MissingInputID {
                id: files_output_ids(output_files@)[k],
            }),
        },
{
    let wanted = collect_file_ids(output_files, false);
    let provided = collect_file_ids(input_files, true);
    let ghost w = seqs(wanted@);
    let ghost p = seqs(provided@);
    let mut k: usize = 0;
    while k < wanted.len()
        invariant
            k <= wanted.len(),
            w == seqs(wanted@),
            p == seqs(provided@),
            w == files_output_ids(output_files@),
            p == files_input_ids(input_files@),
            forall|q: int| 0 <= q < k ==> p.contains(w[q]),
        decreases wanted.len() - k,
    {
        if !contains_seq(&provided, &wanted[k]) {
            proof {
                lemma_first_missing_at(w, p, k as int);
            }
            let id = string_of(wanted[k].as_slice());
            assert(id@ == w[k as int]);
            return Err(ValidatorError::MissingInputID { id });
        }
        k = k + 1;
    }
    assert(!(exists|m: int| 0 <= m < w.len() && !p.contains(w[m])));
    Ok(())
}

fn repeated_before(ids: &Vec<Vec<char>>, j: usize) -> (r: bool)
    requires
        j < ids.len(),
    ensures
        r == repeats_at(seqs(ids@), j as int),
{
    let ghost all = seqs(ids@);
    let mut i: usize = 0;
    while i < j
        invariant
            i <= j < ids.len(),
            all == seqs(ids@),
            forall|x: int| 0 <= x < i ==> all[x] != all[j as int],
        decreases j - i,
    {
        if same_seq(&ids[i], &ids[j]) {
            assert(all[i as int] == all[j as int]);
            return true;
        }
        i = i + 1;
    }
    false
}

/// No id may be provided twice by the input blocks; the first repeated id is reported.
pub fn validate_duplicated_input_ids(input_blocks: &[&MarkerBlock]) -> (r: Result<(), ValidatorError>)
    ensures
        match first_repeat(input_ids(derefs(input_blocks@))) {
            None => r is Ok,
            Some(j) => r matches Err(e) && e@ == (ValidatorErrorView::DuplicatedInputID {
                id: input_ids(derefs(input_blocks@))[j],
            }),
        },
{
    let ghost bs = derefs(input_blocks@);
    let mut ids: Vec<Vec<char>> = Vec::new();
    let mut b: usize = 0;
    assert(bs.take(0) =~= Seq::<MarkerBlock>::empty());
    assert(seqs(ids@) =~= Seq::<Seq<char>>::empty());
    while b < input_blocks.len()
        invariant
            b <= input_blocks.len(),
            bs == derefs(input_blocks@),
            seqs(ids@) == input_ids(bs.take(b as int)),
        decreases input_blocks.len() - b,
    {
        assert(bs.take(b + 1).drop_last() =~= bs.take(b as int));
        assert(bs.take(b + 1).last() == *input_blocks@[b as int]);
        push_ids_of(input_blocks[b], true, &mut ids);
        b = b + 1;
    }
    assert(bs.take(input_blocks.len() as int) =~= bs);
    let ghost all = seqs(ids@);
    let mut j: usize = 0;
    while j < ids.len()
        invariant
            j <= ids.len(),
            all == seqs(ids@),
            all == input_ids(bs),
            bs == derefs(input_blocks@),
            forall|q: int| 0 <= q < j ==> !repeats_at(all, q),
        decreases ids.len() - j,
    {
        if repeated_before(&ids, j) {
            proof {
                lemma_first_repeat_at(all, j as int);
            }
            let id = string_of(ids[j].as_slice());
            assert(id@ == all[j as int]);
            return Err(ValidatorError::DuplicatedInputID { id });
        }
        j = j + 1;
    }
    assert forall|q: int| !repeats_at(all, q) by {
        if 0 <= q < all.len() {
            assert(!repeats_at(all, q));
        }
    }
    Ok(())
}

/// A file is treated as binary when its bytes hold a NUL byte.
pub open spec fn is_binary_spec(bytes: Seq<u8>) -> bool {
    exists|i: int| 0 <= i < bytes.len() && bytes[i] == 0
}

/// Whether the bytes of a file make it a binary file.
pub fn looks_binary(bytes: &[u8]) -> (b: bool)
    ensures
        b == is_binary_spec(bytes@),
{
    let mut i: usize = 0;
    while i < bytes.len()
        invariant
            i <= bytes.len(),
            forall|k: int| 0 <= k < i ==> bytes@[k] != 0,
        decreases bytes.len() - i,
    {
        if bytes[i] == 0 {
            return true;
        }
        i = i + 1;
    }
    false
}


// ---------------------------------------------------------------------------
// Laws: which ids are missing and which are repeated
// ---------------------------------------------------------------------------

/// Whether block `b` is an input block that lists `id`.
pub open spec fn provides_id(b: MarkerBlock, id: Seq<char>) -> bool {
    match b.role {
        BlockRole::Input { ids } => exists|q: int| 0 <= q < ids@.len() && #[trigger] ids@[q]@ == id,
        _ => false,
    }
}

/// Whether block `b` is an output block that asks for `id`.
pub open spec fn asks_for_id(b: MarkerBlock, id: Seq<char>) -> bool {
    match b.role {
        BlockRole::Output { id: Some(i) } => i@ == id,
        _ => false,
    }
}

/// Whether some input block of some file of `files` lists `id`.
pub open spec fn files_provide(files: Seq<ParsedFile>, id: Seq<char>) -> bool {
    exists|f: int, b: int|
        0 <= f < files.len() && 0 <= b < files[f].blocks@.len() && #[trigger] provides_id(
            files[f].blocks@[b],
            id,
        )
}

/// Whether some output block of some file of `files` asks for `id`.
pub open spec fn files_ask(files: Seq<ParsedFile>, id: Seq<char>) -> bool {
    exists|f: int, b: int|
        0 <= f < files.len() && 0 <= b < files[f].blocks@.len() && #[trigger] asks_for_id(
            files[f].blocks@[b],
            id,
        )
}

proof fn lemma_contains_concat(x: Seq<Seq<char>>, y: Seq<Seq<char>>, id: Seq<char>)
    ensures
        (x + y).contains(id) <==> (x.contains(id) || y.contains(id)),
{
    if (x + y).contains(id) {
        let i = choose|i: int| 0 <= i < (x + y).len() && (x + y)[i] == id;
        if i < x.len() {
            assert(x[i] == id);
        } else {
            assert(y[i - x.len()] == id);
        }
    }
    if x.contains(id) {
        let i = choose|i: int| 0 <= i < x.len() && x[i] == id;
        assert((x + y)[i] == id);
    }
    if y.contains(id) {
        let i = choose|i: int| 0 <= i < y.len() && y[i] == id;
        assert((x + y)[i + x.len()] == id);
    }
}

proof fn lemma_block_ids_contain(b: MarkerBlock, id: Seq<char>)
    ensures
        block_input_ids(b).contains(id) <==> provides_id(b, id),
        block_output_ids(b).contains(id) <==> asks_for_id(b, id),
{
    match b.role {
        BlockRole::Input { ids } => {
            if block_input_ids(b).contains(id) {
                let i = choose|i: int| 0 <= i < block_input_ids(b).len() && block_input_ids(b)[i] == id;
                assert(ids@[i]@ == id);
            }
            if provides_id(b, id) {
                let q = choose|q: int| 0 <= q < ids@.len() && #[trigger] ids@[q]@ == id;
                assert(block_input_ids(b)[q] == id);
            }
        },
        BlockRole::Output { id: Some(i) } => {
            if asks_for_id(b, id) {
                assert(block_output_ids(b)[0] == id);
            }
        },
        _ => {},
    }
}

/// The ids that `input_ids` collects from blocks are exactly the ids that
/// their input blocks list, and those that `output_ids` collects are exactly
/// the ids their output blocks ask for.
pub proof fn law_block_ids_collected(blocks: Seq<MarkerBlock>, id: Seq<char>)
    ensures
        input_ids(blocks).contains(id) <==> exists|b: int|
            0 <= b < blocks.len() && #[trigger] provides_id(blocks[b], id),
        output_ids(blocks).contains(id) <==> exists|b: int|
            0 <= b < blocks.len() && #[trigger] asks_for_id(blocks[b], id),
    decreases blocks.len(),
{
    if blocks.len() > 0 {
        let d = blocks.drop_last();
        let l = blocks.last();
        law_block_ids_collected(d, id);
        lemma_block_ids_contain(l, id);
        lemma_contains_concat(input_ids(d), block_input_ids(l), id);
        lemma_contains_concat(output_ids(d), block_output_ids(l), id);
        assert(l == blocks[blocks.len() - 1]);
        if exists|b: int| 0 <= b < d.len() && #[trigger] provides_id(d[b], id) {
            let b = choose|b: int| 0 <= b < d.len() && #[trigger] provides_id(d[b], id);
            assert(provides_id(blocks[b], id));
        }
        if exists|b: int| 0 <= b < blocks.len() && #[trigger] provides_id(blocks[b], id) {
            let b = choose|b: int| 0 <= b < blocks.len() && #[trigger] provides_id(blocks[b], id);
            if b < d.len() {
                assert(provides_id(d[b], id));
            }
        }
        if exists|b: int| 0 <= b < d.len() && #[trigger] asks_for_id(d[b], id) {
            let b = choose|b: int| 0 <= b < d.len() && #[trigger] asks_for_id(d[b], id);
            assert(asks_for_id(blocks[b], id));
        }
        if exists|b: int| 0 <= b < blocks.len() && #[trigger] asks_for_id(blocks[b], id) {
            let b = choose|b: int| 0 <= b < blocks.len() && #[trigger] asks_for_id(blocks[b], id);
            if b < d.len() {
                assert(asks_for_id(d[b], id));
            }
        }
    }
}

/// The ids collected from files are exactly those that their input blocks list
/// (for `files_input_ids`) or their output blocks ask for (for
/// `files_output_ids`), whatever file the block stands in.
pub proof fn law_file_ids_collected(files: Seq<ParsedFile>, id: Seq<char>)
    ensures
        files_input_ids(files).contains(id) <==> files_provide(files, id),
        files_output_ids(files).contains(id) <==> files_ask(files, id),
    decreases files.len(),
{
    if files.len() > 0 {
        let d = files.drop_last();
        let l = files.last();
        let n = files.len() - 1;
        assert(l == files[n]);
        law_file_ids_collected(d, id);
        law_block_ids_collected(l.blocks@, id);
        lemma_contains_concat(files_input_ids(d), input_ids(l.blocks@), id);
        lemma_contains_concat(files_output_ids(d), output_ids(l.blocks@), id);
        if files_provide(d, id) {
            let (f, b) = choose|f: int, b: int|
                0 <= f < d.len() && 0 <= b < d[f].blocks@.len() && #[trigger] provides_id(d[f].blocks@[b], id);
            assert(d[f] == files[f]);
            assert(provides_id(files[f].blocks@[b], id));
        }
        if exists|b: int| 0 <= b < l.blocks@.len() && #[trigger] provides_id(l.blocks@[b], id) {
            let b = choose|b: int| 0 <= b < l.blocks@.len() && #[trigger] provides_id(l.blocks@[b], id);
            assert(provides_id(files[n].blocks@[b], id));
        }
        if files_provide(files, id) {
            let (f, b) = choose|f: int, b: int|
                0 <= f < files.len() && 0 <= b < files[f].blocks@.len() && #[trigger] provides_id(
                    files[f].blocks@[b],
                    id,
                );
            if f < n {
                assert(d[f] == files[f]);
                assert(provides_id(d[f].blocks@[b], id));
            } else {
                assert(provides_id(l.blocks@[b], id));
            }
        }
        if files_ask(d, id) {
            let (f, b) = choose|f: int, b: int|
                0 <= f < d.len() && 0 <= b < d[f].blocks@.len() && #[trigger] asks_for_id(d[f].blocks@[b], id);
            assert(d[f] == files[f]);
            assert(asks_for_id(files[f].blocks@[b], id));
        }
        if exists|b: int| 0 <= b < l.blocks@.len() && #[trigger] asks_for_id(l.blocks@[b], id) {
            let b = choose|b: int| 0 <= b < l.blocks@.len() && #[trigger] asks_for_id(l.blocks@[b], id);
            assert(asks_for_id(files[n].blocks@[b], id));
        }
        if files_ask(files, id) {
            let (f, b) = choose|f: int, b: int|
                0 <= f < files.len() && 0 <= b < files[f].blocks@.len() && #[trigger] asks_for_id(
                    files[f].blocks@[b],
                    id,
                );
            if f < n {
                assert(d[f] == files[f]);
                assert(asks_for_id(d[f].blocks@[b], id));
            } else {
                assert(asks_for_id(l.blocks@[b], id));
            }
        }
    }
}

proof fn lemma_some_missing_first(w: Seq<Seq<char>>, p: Seq<Seq<char>>, k: int)
    requires
        0 <= k < w.len(),
        !p.contains(w[k]),
    ensures
        exists|m: int|
            0 <= m < w.len() && !p.contains(w[m]) && forall|q: int| 0 <= q < m ==> p.contains(w[q]),
    decreases k,
{
    if exists|q: int| 0 <= q < k && !p.contains(w[q]) {
        let q = choose|q: int| 0 <= q < k && !p.contains(w[q]);
        lemma_some_missing_first(w, p, q);
    } else {
        assert(forall|q: int| 0 <= q < k ==> p.contains(w[q]));
    }
}

/// `validate_missing_ids` fails exactly when some output block of the output
/// files asks for an id that no input block of any input file lists, and the
/// id it reports is such an id.
pub proof fn law_missing_ids(output_files: Seq<ParsedFile>, input_files: Seq<ParsedFile>)
    ensures
        first_missing(files_output_ids(output_files), files_input_ids(input_files)) is None <==> (
        forall|id: Seq<char>| #[trigger]
            files_ask(output_files, id) ==> files_provide(input_files, id)),
        first_missing(files_output_ids(output_files), files_input_ids(input_files)) matches Some(k)
            ==> files_ask(output_files, files_output_ids(output_files)[k]) && !files_provide(
            input_files,
            files_output_ids(output_files)[k],
        ),
{
    let w = files_output_ids(output_files);
    let p = files_input_ids(input_files);
    if first_missing(w, p) is None {
        assert forall|id: Seq<char>| #[trigger] files_ask(output_files, id) implies files_provide(
            input_files,
            id,
        ) by {
            law_file_ids_collected(output_files, id);
            law_file_ids_collected(input_files, id);
            let k = choose|k: int| 0 <= k < w.len() && w[k] == id;
            assert(p.contains(w[k]));
        }
    }
    if forall|id: Seq<char>| #[trigger] files_ask(output_files, id) ==> files_provide(input_files, id) {
        assert forall|k: int| 0 <= k < w.len() implies p.contains(w[k]) by {
            law_file_ids_collected(output_files, w[k]);
            law_file_ids_collected(input_files, w[k]);
            assert(w.contains(w[k]));
            assert(files_ask(output_files, w[k]));
        }
    }
    if first_missing(w, p) is Some {
        let k0 = choose|k: int| 0 <= k < w.len() && !p.contains(w[k]);
        lemma_some_missing_first(w, p, k0);
        let k = first_missing(w, p)->0;
        assert(0 <= k < w.len() && !p.contains(w[k]));
        law_file_ids_collected(output_files, w[k]);
        law_file_ids_collected(input_files, w[k]);
        assert(w.contains(w[k]));
    }
}

proof fn lemma_some_repeat_first(ids: Seq<Seq<char>>, j: int)
    requires
        repeats_at(ids, j),
    ensures
        exists|m: int| repeats_at(ids, m) && forall|q: int| 0 <= q < m ==> !repeats_at(ids, q),
    decreases j,
{
    if exists|q: int| 0 <= q < j && repeats_at(ids, q) {
        let q = choose|q: int| 0 <= q < j && repeats_at(ids, q);
        lemma_some_repeat_first(ids, q);
    } else {
        assert(forall|q: int| 0 <= q < j ==> !repeats_at(ids, q));
    }
}

/// `validate_duplicated_input_ids` accepts the input blocks exactly when the
/// ids they list are pairwise different, and the id it reports is listed at
/// two places.
pub proof fn law_duplicated_ids(blocks: Seq<MarkerBlock>)
    ensures
        first_repeat(input_ids(blocks)) is None <==> (forall|i: int, j: int|
            0 <= i < j < input_ids(blocks).len() ==> #[trigger] input_ids(blocks)[i]
                != #[trigger] input_ids(blocks)[j]),
        first_repeat(input_ids(blocks)) matches Some(j) ==> 0 <= j < input_ids(blocks).len() && exists|
            i: int,
        |
            0 <= i < j && #[trigger] input_ids(blocks)[i] == input_ids(blocks)[j],
{
    let ids = input_ids(blocks);
    if first_repeat(ids) is None {
        assert forall|i: int, j: int| 0 <= i < j < ids.len() implies #[trigger] ids[i] != #[trigger] ids[j] by {
            if ids[i] == ids[j] {
                assert(repeats_at(ids, j));
            }
        }
    }
    if forall|i: int, j: int| 0 <= i < j < ids.len() ==> #[trigger] ids[i] != #[trigger] ids[j] {
        assert forall|j: int| !repeats_at(ids, j) by {
            if repeats_at(ids, j) {
                let i = choose|i: int| 0 <= i < j < ids.len() && ids[i] == ids[j];
                assert(ids[i] != ids[j]);
            }
        }
    }
    if first_repeat(ids) is Some {
        let j0 = choose|j: int| repeats_at(ids, j);
        lemma_some_repeat_first(ids, j0);
        let j = first_repeat(ids)->0;
        assert(repeats_at(ids, j));
        let i = choose|i: int| 0 <= i < j < ids.len() && ids[i] == ids[j];
        assert(0 <= i < j && ids[i] == ids[j]);
    }
}


proof fn lemma_input_ids_concat(x: Seq<MarkerBlock>, y: Seq<MarkerBlock>)
    ensures
        input_ids(x + y) == input_ids(x) + input_ids(y),
    decreases y.len(),
{
    if y.len() == 0 {
        assert(x + y =~= x);
        assert(input_ids(x) + input_ids(y) =~= input_ids(x));
    } else {
        lemma_input_ids_concat(x, y.drop_last());
        assert((x + y).drop_last() =~= x + y.drop_last());
        assert((x + y).last() == y.last());
        assert(input_ids(x + y) =~= input_ids(x) + input_ids(y));
    }
}

/// Two different input blocks that list the same id are refused by
/// `validate_duplicated_input_ids`.
pub proof fn law_shared_id_refused(blocks: Seq<MarkerBlock>, b1: int, b2: int, id: Seq<char>)
    requires
        0 <= b1 < b2 < blocks.len(),
        provides_id(blocks[b1], id),
        provides_id(blocks[b2], id),
    ensures
        first_repeat(input_ids(blocks)) is Some,
{
    let x = blocks.take(b2);
    let y = blocks.skip(b2);
    assert(blocks =~= x + y);
    lemma_input_ids_concat(x, y);
    let one = seq![blocks[b2]];
    let z = blocks.skip(b2 + 1);
    assert(y =~= one + z);
    lemma_input_ids_concat(one, z);
    assert(one.drop_last() =~= Seq::<MarkerBlock>::empty());
    assert(input_ids(Seq::<MarkerBlock>::empty()) =~= Seq::<Seq<char>>::empty());
    assert(one.last() == blocks[b2]);
    assert(input_ids(one) =~= block_input_ids(blocks[b2]));
    law_block_ids_collected(x, id);
    assert(x[b1] == blocks[b1]);
    assert(input_ids(x).contains(id));
    lemma_block_ids_contain(blocks[b2], id);
    let ids = input_ids(blocks);
    let xi = input_ids(x);
    let i = choose|i: int| 0 <= i < xi.len() && xi[i] == id;
    let bi = block_input_ids(blocks[b2]);
    let q = choose|q: int| 0 <= q < bi.len() && bi[q] == id;
    let j = xi.len() + q;
    assert(ids == xi + (bi + input_ids(z)));
    assert(ids[i] == id);
    assert(ids[j] == id);
    assert(repeats_at(ids, j));
}

} // verus!
