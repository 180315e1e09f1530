//! Character-level text model: splitting, joining, lines, whitespace and trimming.
//!
//! Every executable helper here works on `Vec<char>` and is specified against
//! the `Seq<char>` functions of this module, which describe the behaviour of the
//! corresponding `str` operations (`split`, `lines`, `join`, `trim`, ...).
use vstd::prelude::*;

verus! {

/// Unicode `White_Space`, the set that `char::is_whitespace` accepts.
pub open spec fn is_ws(c: char) -> bool {
    ||| c == '\t'
    ||| c == '\n'
    ||| c == '\u{0B}'
    ||| c == '\u{0C}'
    ||| c == '\r'
    ||| c == ' '
    ||| c == '\u{85}'
    ||| c == '\u{A0}'
    ||| c == '\u{1680}'
    ||| ('\u{2000}' <= c && c <= '\u{200A}')
    ||| c == '\u{2028}'
    ||| c == '\u{2029}'
    ||| c == '\u{202F}'
    ||| c == '\u{205F}'
    ||| c == '\u{3000}'
}

/// A text is blank when it holds whitespace only (so `trim()` leaves it empty).
pub open spec fn is_blank(s: Seq<char>) -> bool {
    forall|i: int| 0 <= i < s.len() ==> is_ws(#[trigger] s[i])
}

/// `str::trim_start`.
pub open spec fn trim_start(s: Seq<char>) -> Seq<char>
    decreases s.len(),
{
    if s.len() > 0 && is_ws(s[0]) {
        trim_start(s.drop_first())
    } else {
        s
    }
}

/// `str::trim_end`.
pub open spec fn trim_end(s: Seq<char>) -> Seq<char>
    decreases s.len(),
{
    if s.len() > 0 && is_ws(s.last()) {
        trim_end(s.drop_last())
    } else {
        s
    }
}

/// `str::trim`.
pub open spec fn trim(s: Seq<char>) -> Seq<char> {
    trim_end(trim_start(s))
}

/// `str::split(sep)`, described one character at a time.
pub open spec fn split(s: Seq<char>, sep: char) -> Seq<Seq<char>>
    decreases s.len(),
{
    if s.len() == 0 {
        seq![Seq::<char>::empty()]
    } else {
        let p = split(s.drop_last(), sep);
        if s.last() == sep {
            p.push(Seq::<char>::empty())
        } else {
            p.update(p.len() - 1, p.last().push(s.last()))
        }
    }
}

/// `[String]::join(sep)` for a one-character separator.
pub open spec fn join(parts: Seq<Seq<char>>, sep: char) -> Seq<char>
    decreases parts.len(),
{
    if parts.len() == 0 {
        Seq::<char>::empty()
    } else if parts.len() == 1 {
        parts[0]
    } else {
        join(parts.drop_last(), sep).push(sep) + parts.last()
    }
}

/// Removes one trailing carriage return.
pub open spec fn strip_cr(l: Seq<char>) -> Seq<char> {
    if l.len() > 0 && l.last() == '\r' {
        l.drop_last()
    } else {
        l
    }
}

/// `str::lines`: lines end at `\n` or `\r\n`; the final line ending is optional.
pub open spec fn lines(s: Seq<char>) -> Seq<Seq<char>> {
    let parts = split(s, '\n');
    let body = parts.drop_last().map_values(|l: Seq<char>| strip_cr(l));
    if parts.last().len() == 0 {
        body
    } else {
        body.push(parts.last())
    }
}

/// `str::contains` for a pattern of characters.
pub open spec fn contains_at(s: Seq<char>, pat: Seq<char>, i: int) -> bool {
    0 <= i && i + pat.len() <= s.len() && s.subrange(i, i + pat.len()) == pat
}

pub open spec fn contains(s: Seq<char>, pat: Seq<char>) -> bool {
    exists|i: int| contains_at(s, pat, i)
}

/// Index of the first occurrence of `pat` in `s`, if any (`str::find`).
pub open spec fn find(s: Seq<char>, pat: Seq<char>) -> Option<int> {
    if contains(s, pat) {
        Some(choose|i: int| contains_at(s, pat, i) && forall|j: int| 0 <= j < i ==> !contains_at(s, pat, j))
    } else {
        None
    }
}

/// State of `str::split_whitespace` after reading `s`: finished tokens and the open one.
pub open spec fn ws_state(s: Seq<char>) -> (Seq<Seq<char>>, Seq<char>)
    decreases s.len(),
{
    if s.len() == 0 {
        (Seq::empty(), Seq::empty())
    } else {
        let (done, cur) = ws_state(s.drop_last());
        if is_ws(s.last()) {
            if cur.len() > 0 {
                (done.push(cur), Seq::empty())
            } else {
                (done, Seq::empty())
            }
        } else {
            (done, cur.push(s.last()))
        }
    }
}

/// `str::split_whitespace`.
pub open spec fn tokens(s: Seq<char>) -> Seq<Seq<char>> {
    let (done, cur) = ws_state(s);
    if cur.len() > 0 {
        done.push(cur)
    } else {
        done
    }
}

/// The character sequences held by a vector of character vectors.
pub open spec fn seqs(v: Seq<Vec<char>>) -> Seq<Seq<char>> {
    Seq::new(v.len(), |i: int| v[i]@)
}

/// Index of the first `c` in `s`.
pub open spec fn index_of(s: Seq<char>, c: char) -> Option<int>
    decreases s.len(),
{
    if s.len() == 0 {
        None
    } else {
        match index_of(s.drop_last(), c) {
            Some(i) => Some(i),
            None => if s.last() == c {
                Some(s.len() - 1)
            } else {
                None
            },
        }
    }
}

/// `ch` repeated `n` times.
pub open spec fn repeat(ch: char, n: nat) -> Seq<char> {
    Seq::new(n, |i: int| ch)
}

// ---------------------------------------------------------------------------
// Lemmas
// ---------------------------------------------------------------------------

pub proof fn lemma_split_nonempty(s: Seq<char>, sep: char)
    ensures
        split(s, sep).len() >= 1,
    decreases s.len(),
{
    if s.len() > 0 {
        lemma_split_nonempty(s.drop_last(), sep);
    }
}

/// No piece produced by `split` contains the separator.
pub proof fn lemma_split_pieces_free(s: Seq<char>, sep: char)
    ensures
        forall|k: int, j: int|
            0 <= k < split(s, sep).len() && 0 <= j < split(s, sep)[k].len()
                ==> split(s, sep)[k][j] != sep,
    decreases s.len(),
{
    if s.len() > 0 {
        lemma_split_pieces_free(s.drop_last(), sep);
        lemma_split_nonempty(s.drop_last(), sep);
    }
}

/// Joining the pieces of a split gives the text back.
pub proof fn lemma_join_split(s: Seq<char>, sep: char)
    ensures
        join(split(s, sep), sep) == s,
    decreases s.len(),
{
    if s.len() > 0 {
        let p = split(s.drop_last(), sep);
        lemma_join_split(s.drop_last(), sep);
        lemma_split_nonempty(s.drop_last(), sep);
        if s.last() == sep {
            assert(p.push(Seq::<char>::empty()).drop_last() =~= p);
            assert(s =~= s.drop_last().push(sep) + Seq::<char>::empty());
        } else {
            let q = p.update(p.len() - 1, p.last().push(s.last()));
            if p.len() == 1 {
                assert(s =~= s.drop_last().push(s.last()));
            } else {
                assert(q.drop_last() =~= p.drop_last());
                assert(join(p, sep) == join(p.drop_last(), sep).push(sep) + p.last());
                assert(s =~= s.drop_last().push(s.last()));
                assert(join(q, sep) =~= join(p, sep).push(s.last()));
            }
        }
    }
}

/// Splitting a join of separator-free pieces gives the pieces back.
pub proof fn lemma_split_join(parts: Seq<Seq<char>>, sep: char)
    requires
        parts.len() >= 1,
        forall|k: int, j: int| 0 <= k < parts.len() && 0 <= j < parts[k].len() ==> parts[k][j] != sep,
    ensures
        split(join(parts, sep), sep) == parts,
    decreases parts.len(), parts.last().len(),
{
    let l = parts.last();
    if l.len() > 0 {
        let shorter = parts.update(parts.len() - 1, l.drop_last());
        assert forall|k: int, j: int|
            0 <= k < shorter.len() && 0 <= j < shorter[k].len() implies shorter[k][j] != sep by {
            if k == parts.len() - 1 {
                assert(shorter[k][j] == parts[k][j]);
            }
        }
        lemma_split_join(shorter, sep);
        if parts.len() == 1 {
            assert(join(parts, sep) == l);
            assert(join(shorter, sep) == l.drop_last());
            assert(l.drop_last().push(l.last()) =~= l);
            assert(l[l.len() - 1] != sep);
            lemma_split_nonempty(l.drop_last(), sep);
            let p0 = split(l.drop_last(), sep);
            assert(p0 =~= seq![l.drop_last()]);
            assert(l.drop_last() =~= l.drop_last());
            assert(l.last() != sep);
            assert(p0.last() == l.drop_last());
            assert(split(l, sep) == p0.update(p0.len() - 1, p0.last().push(l.last())));
            let r = p0.update(p0.len() - 1, p0.last().push(l.last()));
            assert(r.len() == 1);
            assert(r[0] == l);
            assert(parts[0] == l);
            assert(r =~= parts);
        } else {
            assert(shorter.drop_last() =~= parts.drop_last());
            let j = join(parts, sep);
            assert(join(shorter, sep) == join(parts.drop_last(), sep).push(sep) + l.drop_last());
            assert(j =~= join(shorter, sep).push(l.last()));
            assert(j.drop_last() =~= join(shorter, sep));
            assert(l[l.len() - 1] != sep);
            assert(split(j, sep) =~= shorter.update(shorter.len() - 1, shorter.last().push(l.last())));
            assert(l.drop_last().push(l.last()) =~= l);
            assert(split(j, sep) =~= parts);
        }
    } else {
        if parts.len() == 1 {
            assert(join(parts, sep) == l);
            assert(l =~= Seq::<char>::empty());
            assert(split(l, sep) =~= parts);
        } else {
            let init = parts.drop_last();
            lemma_split_join(init, sep);
            let j = join(parts, sep);
            assert(j =~= join(init, sep).push(sep));
            assert(j.drop_last() =~= join(init, sep));
            assert(split(j, sep) =~= init.push(Seq::<char>::empty()));
            assert(parts.last() =~= Seq::<char>::empty());
            assert(init.push(Seq::<char>::empty()) =~= parts);
        }
    }
}

/// Joining two non-empty lists of pieces: the two joins with a separator between.
pub proof fn lemma_join_concat(x: Seq<Seq<char>>, y: Seq<Seq<char>>, sep: char)
    requires
        x.len() >= 1,
        y.len() >= 1,
    ensures
        join(x + y, sep) == join(x, sep).push(sep) + join(y, sep),
    decreases y.len(),
{
    let xy = x + y;
    if y.len() == 1 {
        assert(xy.drop_last() =~= x);
        assert(xy.last() == y[0]);
    } else {
        lemma_join_concat(x, y.drop_last(), sep);
        assert(xy.drop_last() =~= x + y.drop_last());
        assert(xy.last() == y.last());
        assert(join(xy, sep) =~= join(x, sep).push(sep) + join(y, sep));
    }
}

/// Replacing a piece by the pieces it joins leaves the join unchanged.
pub proof fn lemma_join_flatten(a: Seq<Seq<char>>, m: Seq<Seq<char>>, b: Seq<Seq<char>>, sep: char)
    requires
        m.len() >= 1,
    ensures
        join(a + seq![join(m, sep)] + b, sep) == join(a + m + b, sep),
{
    let one = seq![join(m, sep)];
    assert(join(one, sep) == join(m, sep));
    if b.len() >= 1 {
        lemma_join_concat(one, b, sep);
        lemma_join_concat(m, b, sep);
        if a.len() >= 1 {
            lemma_join_concat(a, one + b, sep);
            lemma_join_concat(a, m + b, sep);
            assert(a + one + b =~= a + (one + b));
            assert(a + m + b =~= a + (m + b));
        } else {
            assert(a + one + b =~= one + b);
            assert(a + m + b =~= m + b);
        }
    } else {
        if a.len() >= 1 {
            lemma_join_concat(a, one, sep);
            lemma_join_concat(a, m, sep);
            assert(a + one + b =~= a + one);
            assert(a + m + b =~= a + m);
        } else {
            assert(a + one + b =~= one);
            assert(a + m + b =~= m);
        }
    }
}

/// The join of a run of pieces is a slice of the join of all of them.
pub proof fn lemma_join_subrange(parts: Seq<Seq<char>>, a: int, b: int, sep: char)
    requires
        0 <= a < b <= parts.len(),
    ensures
        ({
            let i: int = if a == 0 {
                0
            } else {
                join(parts.take(a), sep).len() + 1int
            };
            let sub = join(parts.subrange(a, b), sep);
            &&& i + sub.len() <= join(parts, sep).len()
            &&& join(parts, sep).subrange(i, i + sub.len() as int) == sub
        }),
{
    let x = parts.take(a);
    let y = parts.subrange(a, b);
    let z = parts.skip(b);
    let sub = join(y, sep);
    if a == 0 {
        if b == parts.len() {
            assert(y =~= parts);
            assert(join(parts, sep).subrange(0, sub.len() as int) =~= sub);
        } else {
            assert(parts =~= y + z);
            lemma_join_concat(y, z, sep);
            assert(join(parts, sep).subrange(0, sub.len() as int) =~= sub);
        }
    } else {
        let i: int = join(x, sep).len() + 1int;
        if b == parts.len() {
            assert(parts =~= x + y);
            lemma_join_concat(x, y, sep);
            assert(join(parts, sep).subrange(i, i + sub.len() as int) =~= sub);
        } else {
            assert(parts =~= x + (y + z));
            lemma_join_concat(y, z, sep);
            lemma_join_concat(x, y + z, sep);
            assert(join(parts, sep).subrange(i, i + sub.len() as int) =~= sub);
        }
    }
}

/// Lines hold no newline.
pub proof fn lemma_lines_free(s: Seq<char>)
    ensures
        forall|k: int, j: int|
            0 <= k < lines(s).len() && 0 <= j < lines(s)[k].len() ==> lines(s)[k][j] != '\n',
{
    let parts = split(s, '\n');
    lemma_split_pieces_free(s, '\n');
    lemma_split_nonempty(s, '\n');
    assert forall|k: int, j: int|
        0 <= k < lines(s).len() && 0 <= j < lines(s)[k].len() implies lines(s)[k][j] != '\n' by {
        if k < parts.len() - 1 {
            assert(lines(s)[k] == strip_cr(parts[k]));
            assert(lines(s)[k][j] == parts[k][j]);
        } else {
            assert(lines(s)[k] == parts[k]);
        }
    }
}

/// The lines of a join of newline-free pieces, with a final newline or not:
/// every piece but the last, without its final carriage return.
pub proof fn lemma_lines_of_join(p: Seq<Seq<char>>)
    requires
        p.len() >= 1,
        forall|k: int, j: int| 0 <= k < p.len() && 0 <= j < p[k].len() ==> p[k][j] != '\n',
    ensures
        lines(join(p, '\n')).len() >= p.len() - 1,
        lines(join(p, '\n').push('\n')).len() >= p.len() - 1,
        forall|k: int| 0 <= k < p.len() - 1 ==> #[trigger] lines(join(p, '\n'))[k] == strip_cr(p[k]),
        forall|k: int|
            0 <= k < p.len() - 1 ==> #[trigger] lines(join(p, '\n').push('\n'))[k] == strip_cr(p[k]),
{
    lemma_split_join(p, '\n');
    let j = join(p, '\n');
    let t = j.push('\n');
    assert(t.drop_last() =~= j);
    assert(split(t, '\n') == p.push(Seq::<char>::empty()));
    assert(split(t, '\n').drop_last() =~= p);
}

// ---------------------------------------------------------------------------
// Executable helpers
// ---------------------------------------------------------------------------

/// `char::is_whitespace`.
pub fn is_whitespace_char(c: char) -> (b: bool)
    ensures
        b == is_ws(c),
{
    c == '\t' || c == '\n' || c == '\u{0B}' || c == '\u{0C}' || c == '\r' || c == ' ' || c
        == '\u{85}' || c == '\u{A0}' || c == '\u{1680}' || ('\u{2000}' <= c && c <= '\u{200A}')
        || c == '\u{2028}' || c == '\u{2029}' || c == '\u{202F}' || c == '\u{205F}' || c
        == '\u{3000}'
}

/// The characters of a string slice.
pub fn chars_of(s: &str) -> (v: Vec<char>)
    ensures
        v@ == s@,
{
    let mut v: Vec<char> = Vec::new();
    for c in it: s.chars()
        invariant
            v@ == it.seq().take(it.index() as int),
    {
        v.push(c);
    }
    v
}

/// Calls `String::push`. Claimed, not proved: the string afterwards is the old
/// one with `c` appended.
#[verifier::external_body]
fn push_char(s: &mut String, c: char)
    ensures
        final(s)@ == old(s)@.push(c),
{
    s.push(c);
}

/// A string holding the given characters.
pub fn string_of(v: &[char]) -> (s: String)
    ensures
        s@ == v@,
{
    let mut s = String::new();
    let mut i: usize = 0;
    while i < v.len()
        invariant
            i <= v.len(),
            s@ == v@.take(i as int),
        decreases v.len() - i,
    {
        push_char(&mut s, v[i]);
        i = i + 1;
        assert(v@.take(i as int) =~= v@.take(i - 1).push(v@[i - 1]));
    }
    assert(v@.take(v.len() as int) =~= v@);
    s
}

/// Whether every character is whitespace (`s.trim().is_empty()`).
pub fn blank(s: &[char]) -> (b: bool)
    ensures
        b == is_blank(s@),
{
    let mut i: usize = 0;
    while i < s.len()
        invariant
            i <= s.len(),
            forall|k: int| 0 <= k < i ==> is_ws(#[trigger] s@[k]),
        decreases s.len() - i,
    {
        if !is_whitespace_char(s[i]) {
            return false;
        }
        i = i + 1;
    }
    true
}

/// A copy of `s[from..to]`.
pub fn slice_chars(s: &[char], from: usize, to: usize) -> (r: Vec<char>)
    requires
        from <= to <= s.len(),
    ensures
        r@ == s@.subrange(from as int, to as int),
{
    let mut r: Vec<char> = Vec::new();
    let mut i = from;
    while i < to
        invariant
            from <= i <= to <= s.len(),
            r@ == s@.subrange(from as int, i as int),
        decreases to - i,
    {
        r.push(s[i]);
        i = i + 1;
        assert(r@ =~= s@.subrange(from as int, i as int));
    }
    r
}

/// Appends a copy of `src` to `dst`.
pub fn append_chars(dst: &mut Vec<char>, src: &[char])
    ensures
        final(dst)@ == old(dst)@ + src@,
{
    let mut i: usize = 0;
    while i < src.len()
        invariant
            i <= src.len(),
            dst@ == old(dst)@ + src@.take(i as int),
        decreases src.len() - i,
    {
        dst.push(src[i]);
        i = i + 1;
        assert(dst@ =~= old(dst)@ + src@.take(i as int));
    }
    assert(src@.take(src.len() as int) =~= src@);
}

/// `s.split(sep)`.
pub fn split_chars(s: &[char], sep: char) -> (parts: Vec<Vec<char>>)
    ensures
        seqs(parts@) == split(s@, sep),
{
    let mut parts: Vec<Vec<char>> = Vec::new();
    let mut cur: Vec<char> = Vec::new();
    let mut i: usize = 0;
    assert(s@.take(0) =~= Seq::<char>::empty());
    assert(seqs(parts@).push(cur@) =~= split(Seq::<char>::empty(), sep));
    while i < s.len()
        invariant
            i <= s.len(),
            seqs(parts@).push(cur@) == split(s@.take(i as int), sep),
        decreases s.len() - i,
    {
        let c = s[i];
        let ghost before = seqs(parts@).push(cur@);
        assert(s@.take(i + 1).drop_last() =~= s@.take(i as int));
        assert(s@.take(i + 1).last() == c);
        if c == sep {
            parts.push(cur);
            cur = Vec::new();
            assert(seqs(parts@).push(cur@) =~= before.push(Seq::<char>::empty()));
        } else {
            cur.push(c);
            assert(seqs(parts@).push(cur@) =~= before.update(
                before.len() - 1,
                before.last().push(c),
            ));
        }
        i = i + 1;
    }
    assert(s@.take(s.len() as int) =~= s@);
    let ghost fin = seqs(parts@).push(cur@);
    parts.push(cur);
    assert(seqs(parts@) =~= fin);
    parts
}

/// `parts.join(sep)`.
pub fn join_chars(parts: &Vec<Vec<char>>, sep: char) -> (r: Vec<char>)
    ensures
        r@ == join(seqs(parts@), sep),
{
    let mut r: Vec<char> = Vec::new();
    let mut i: usize = 0;
    while i < parts.len()
        invariant
            i <= parts.len(),
            r@ == join(seqs(parts@).take(i as int), sep),
        decreases parts.len() - i,
    {
        let ghost prev = seqs(parts@).take(i as int);
        if i > 0 {
            r.push(sep);
        }
        append_chars(&mut r, parts[i].as_slice());
        i = i + 1;
        let ghost nxt = seqs(parts@).take(i as int);
        assert(nxt.drop_last() =~= prev);
        assert(nxt.last() == parts[i - 1]@);
        if i == 1 {
            assert(r@ =~= nxt[0]);
        } else {
            assert(r@ =~= join(prev, sep).push(sep) + nxt.last());
        }
    }
    assert(seqs(parts@).take(parts.len() as int) =~= seqs(parts@));
    r
}

/// `s.split_whitespace()`.
pub fn tokens_of(s: &[char]) -> (toks: Vec<Vec<char>>)
    ensures
        seqs(toks@) == tokens(s@),
{
    let mut done: Vec<Vec<char>> = Vec::new();
    let mut cur: Vec<char> = Vec::new();
    let mut i: usize = 0;
    assert(s@.take(0) =~= Seq::<char>::empty());
    assert(seqs(done@) =~= Seq::<Seq<char>>::empty());
    while i < s.len()
        invariant
            i <= s.len(),
            ws_state(s@.take(i as int)) == (seqs(done@), cur@),
        decreases s.len() - i,
    {
        let c = s[i];
        assert(s@.take(i + 1).drop_last() =~= s@.take(i as int));
        assert(s@.take(i + 1).last() == c);
        if is_whitespace_char(c) {
            if cur.len() > 0 {
                let ghost prev = seqs(done@);
                let ghost cv = cur@;
                done.push(cur);
                assert(seqs(done@) =~= prev.push(cv));
                cur = Vec::new();
                assert(cur@ =~= Seq::<char>::empty());
            } else {
                assert(cur@ =~= Seq::<char>::empty());
            }
        } else {
            cur.push(c);
        }
        i = i + 1;
    }
    assert(s@.take(s.len() as int) =~= s@);
    if cur.len() > 0 {
        let ghost prev = seqs(done@);
        let ghost cv = cur@;
        done.push(cur);
        assert(seqs(done@) =~= prev.push(cv));
    }
    done
}

/// Index of the first `c` in `s`.
pub fn index_of_char(s: &[char], c: char) -> (r: Option<usize>)
    ensures
        match r {
            Some(i) => index_of(s@, c) == Some(i as int) && i < s.len() && s@[i as int] == c,
            None => index_of(s@, c) is None,
        },
{
    let mut i: usize = 0;
    assert(s@.take(0) =~= Seq::<char>::empty());
    while i < s.len()
        invariant
            i <= s.len(),
            index_of(s@.take(i as int), c) is None,
        decreases s.len() - i,
    {
        assert(s@.take(i + 1).drop_last() =~= s@.take(i as int));
        if s[i] == c {
            assert(index_of(s@.take(i + 1), c) == Some(i as int));
            proof {
                lemma_index_of_prefix(s@, c, i + 1);
            }
            return Some(i);
        }
        i = i + 1;
    }
    assert(s@.take(s.len() as int) =~= s@);
    None
}

/// A first occurrence in a prefix is the first occurrence in the whole.
pub proof fn lemma_index_of_prefix(s: Seq<char>, c: char, k: int)
    requires
        0 <= k <= s.len(),
        index_of(s.take(k), c) is Some,
    ensures
        index_of(s, c) == index_of(s.take(k), c),
    decreases s.len() - k,
{
    if k < s.len() {
        assert(s.take(k + 1).drop_last() =~= s.take(k));
        lemma_index_of_prefix(s, c, k + 1);
    } else {
        assert(s.take(k) =~= s);
    }
}

/// `s.lines()`.
pub fn lines_of(s: &[char]) -> (ls: Vec<Vec<char>>)
    ensures
        seqs(ls@) == lines(s@),
{
    let parts = split_chars(s, '\n');
    proof {
        lemma_split_nonempty(s@, '\n');
    }
    let n = parts.len();
    let mut ls: Vec<Vec<char>> = Vec::new();
    let mut k: usize = 0;
    let ghost body = seqs(parts@).drop_last().map_values(|l: Seq<char>| strip_cr(l));
    while k + 1 < n
        invariant
            n == parts.len(),
            n >= 1,
            k + 1 <= n,
            seqs(parts@) == split(s@, '\n'),
            body == seqs(parts@).drop_last().map_values(|l: Seq<char>| strip_cr(l)),
            seqs(ls@) == body.take(k as int),
        decreases n - k,
    {
        let p = &parts[k];
        let l = if p.len() > 0 && p[p.len() - 1] == '\r' {
            slice_chars(p.as_slice(), 0, p.len() - 1)
        } else {
            slice_chars(p.as_slice(), 0, p.len())
        };
        assert(l@ =~= strip_cr(seqs(parts@)[k as int]));
        assert(body[k as int] == strip_cr(seqs(parts@)[k as int]));
        let ghost prev = seqs(ls@);
        ls.push(l);
        assert(seqs(ls@) =~= prev.push(body[k as int]));
        k = k + 1;
        assert(seqs(ls@) =~= body.take(k as int));
    }
    assert(body.take(k as int) =~= body);
    let last = &parts[n - 1];
    if last.len() > 0 {
        let l = slice_chars(last.as_slice(), 0, last.len());
        assert(l@ =~= last@);
        ls.push(l);
        assert(seqs(ls@) =~= body.push(seqs(parts@).last()));
    }
    ls
}

} // verus!
