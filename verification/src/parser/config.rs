//! Options of a begin marker: whitespace-separated `:name` or `:name=value` tokens.
use vstd::prelude::*;

use crate::number::{parse_usize, parse_usize_spec};
use crate::parser::error::{ParseBoolFailure, ParserError, ParserErrorView};
use crate::text::{
    chars_of, index_of, index_of_char, is_whitespace_char, seqs, slice_chars, string_of, tokens,
    tokens_of, trim, trim_end, trim_start,
};
use crate::types::{default_config, MarkerConfig};

verus! {

pub open spec fn is_ascii_alpha(c: char) -> bool {
    ('a' <= c && c <= 'z') || ('A' <= c && c <= 'Z')
}

pub open spec fn lower_ascii(c: char) -> char {
    if 'A' <= c && c <= 'Z' {
        ((c as u32) + 32) as char
    } else {
        c
    }
}

pub open spec fn lower_ascii_seq(s: Seq<char>) -> Seq<char> {
    Seq::new(s.len(), |i: int| lower_ascii(s[i]))
}

/// Length of the run of ASCII letters that starts `s`.
pub open spec fn alpha_prefix_len(s: Seq<char>) -> nat
    decreases s.len(),
{
    if s.len() > 0 && is_ascii_alpha(s[0]) {
        1 + alpha_prefix_len(s.drop_first())
    } else {
        0
    }
}

pub open spec fn is_option_token(t: Seq<char>) -> bool {
    t.len() > 0 && t[0] == ':'
}

/// The name of an option: the ASCII letters after the colon, lowercased.
pub open spec fn option_name(opt: Seq<char>) -> Result<Seq<char>, ParserErrorView> {
    if !is_option_token(opt) {
        Err(ParserErrorView::InvalidOptionNameFormat { opt })
    } else if opt.len() == 1 {
        Err(ParserErrorView::MissingOptionName { opt })
    } else {
        let rest = opt.drop_first();
        Ok(lower_ascii_seq(rest.take(alpha_prefix_len(rest) as int)))
    }
}

/// What follows the first `=` of an option, if it has one.
pub open spec fn option_value(opt: Seq<char>) -> Option<Seq<char>> {
    match index_of(opt, '=') {
        Some(i) => Some(opt.skip(i + 1)),
        None => None,
    }
}

/// An integer option: the value after `=`, read as `str::parse::<usize>` does.
pub open spec fn int_option(opt: Seq<char>) -> Result<usize, ParserErrorView> {
    match option_value(opt) {
        None => Err(ParserErrorView::InvalidIntOptionFormat { opt }),
        Some(v) => match parse_usize_spec(v) {
            Ok(n) => Ok(n),
            Err(k) => Err(ParserErrorView::ParseIntError(k)),
        },
    }
}

pub open spec fn word_true() -> Seq<char> {
    seq!['t', 'r', 'u', 'e']
}

pub open spec fn word_false() -> Seq<char> {
    seq!['f', 'a', 'l', 's', 'e']
}

/// A boolean option: without `=` it takes `flag_value`; otherwise the trimmed
/// value must be `true` or `false` in any letter case (the texts that
/// `to_lowercase` turns into these words are exactly those).
pub open spec fn bool_option(opt: Seq<char>, flag_value: bool) -> Result<bool, ParserErrorView> {
    match option_value(opt) {
        None => Ok(flag_value),
        Some(v) => {
            let t = lower_ascii_seq(trim(v));
            if t == word_true() {
                Ok(true)
            } else if t == word_false() {
                Ok(false)
            } else {
                Err(ParserErrorView::ParseBoolError)
            }
        },
    }
}

/// Applies one option token to a configuration.
pub open spec fn apply_option(c: MarkerConfig, opt: Seq<char>) -> Result<MarkerConfig, ParserErrorView> {
    match option_name(opt) {
        Err(e) => Err(e),
        Ok(name) => if name == seq!['t', 'r', 'i', 'm'] {
            match bool_option(opt, true) {
                Ok(b) => Ok(MarkerConfig { trim: b, ..c }),
                Err(e) => Err(e),
            }
        } else if name == seq!['o', 'f', 'f', 's', 'e', 't'] {
            match int_option(opt) {
                Ok(n) => Ok(MarkerConfig { offset: n, ..c }),
                Err(e) => Err(e),
            }
        } else if name == seq!['i', 'n', 'd', 'e', 'n', 't'] {
            match int_option(opt) {
                Ok(n) => Ok(MarkerConfig { indent: Some(n), ..c }),
                Err(e) => Err(e),
            }
        } else {
            Err(ParserErrorView::InvalidOption { opt })
        },
    }
}

/// The options among `toks`, applied from left to right to the default
/// configuration; the first failing option stops.
pub open spec fn config_from_tokens(toks: Seq<Seq<char>>) -> Result<MarkerConfig, ParserErrorView>
    decreases toks.len(),
{
    if toks.len() == 0 {
        Ok(default_config())
    } else {
        match config_from_tokens(toks.drop_last()) {
            Err(e) => Err(e),
            Ok(c) => if is_option_token(toks.last()) {
                apply_option(c, toks.last())
            } else {
                Ok(c)
            },
        }
    }
}

/// The configuration written on a begin marker.
pub open spec fn extract_config_spec(comment: Seq<char>) -> Result<MarkerConfig, ParserErrorView> {
    config_from_tokens(tokens(comment))
}

pub open spec fn config_result_matches(
    r: Result<MarkerConfig, ParserError>,
    s: Result<MarkerConfig, ParserErrorView>,
) -> bool {
    match r {
        Ok(c) => s == Ok::<MarkerConfig, ParserErrorView>(c),
        Err(e) => s == Err::<MarkerConfig, ParserErrorView>(e@),
    }
}

fn lower_ascii_char(c: char) -> (r: char)
    ensures
        r == lower_ascii(c),
{
    if 'A' <= c && c <= 'Z' {
        let code: u8 = c as u8 + 32;
        code as char
    } else {
        c
    }
}

pub open spec fn word_of(c0: char, c1: char, c2: char, c3: char, c4: Option<char>, c5: Option<char>) -> Seq<char> {
    match (c4, c5) {
        (Some(x), Some(y)) => seq![c0, c1, c2, c3, x, y],
        (Some(x), None) => seq![c0, c1, c2, c3, x],
        _ => seq![c0, c1, c2, c3],
    }
}

fn is_word(s: &[char], c0: char, c1: char, c2: char, c3: char, c4: Option<char>, c5: Option<char>) -> (b: bool)
    ensures
        b == (s@ == word_of(c0, c1, c2, c3, c4, c5)),
{
    let ghost w = word_of(c0, c1, c2, c3, c4, c5);
    let n: usize = match (c4, c5) {
        (Some(_), Some(_)) => 6,
        (Some(_), None) => 5,
        _ => 4,
    };
    if s.len() != n {
        return false;
    }
    let ok = s[0] == c0 && s[1] == c1 && s[2] == c2 && s[3] == c3 && match c4 {
        Some(x) => s[4] == x,
        None => true,
    } && match (c4, c5) {
        (Some(_), Some(y)) => s[5] == y,
        _ => true,
    };
    if ok {
        assert(s@ =~= w);
    }
    ok
}

/// `s.trim()`.
pub fn trim_chars(s: &[char]) -> (r: Vec<char>)
    ensures
        r@ == trim(s@),
{
    let mut a: usize = 0;
    assert(s@.skip(0) =~= s@);
    while a < s.len() && is_whitespace_char(s[a])
        invariant
            a <= s.len(),
            trim_start(s@) == trim_start(s@.skip(a as int)),
        decreases s.len() - a,
    {
        assert(s@.skip(a as int).drop_first() =~= s@.skip(a + 1));
        a = a + 1;
    }
    let mut b: usize = s.len();
    let ghost t = s@.skip(a as int);
    assert(trim_start(s@) == t);
    assert(t.take(t.len() as int) =~= t);
    while b > a && is_whitespace_char(s[b - 1])
        invariant
            a <= b <= s.len(),
            t == s@.skip(a as int),
            trim_end(t) == trim_end(t.take(b - a)),
        decreases b,
    {
        assert(t.take(b - a).drop_last() =~= t.take(b - a - 1));
        assert(t.take(b - a).last() == s@[b - 1]);
        b = b - 1;
    }
    let r = slice_chars(s, a, b);
    assert(r@ =~= t.take(b - a));
    r
}

fn lower_ascii_chars(s: &[char]) -> (r: Vec<char>)
    ensures
        r@ == lower_ascii_seq(s@),
{
    let mut r: Vec<char> = Vec::new();
    let mut i: usize = 0;
    while i < s.len()
        invariant
            i <= s.len(),
            r@ == lower_ascii_seq(s@.take(i as int)),
        decreases s.len() - i,
    {
        r.push(lower_ascii_char(s[i]));
        i = i + 1;
        assert(r@ =~= lower_ascii_seq(s@.take(i as int)));
    }
    assert(s@.take(s.len() as int) =~= s@);
    r
}

fn alpha_prefix(s: &[char]) -> (n: usize)
    ensures
        n == alpha_prefix_len(s@),
        n <= s.len(),
{
    let mut i: usize = 0;
    assert(s@.skip(0) =~= s@);
    while i < s.len() && (('a' <= s[i] && s[i] <= 'z') || ('A' <= s[i] && s[i] <= 'Z'))
        invariant
            i <= s.len(),
            alpha_prefix_len(s@) == i + alpha_prefix_len(s@.skip(i as int)),
        decreases s.len() - i,
    {
        assert(s@.skip(i as int).drop_first() =~= s@.skip(i + 1));
        i = i + 1;
    }
    i
}

fn text(s: &[char]) -> (r: String)
    ensures
        r@ == s@,
{
    string_of(s)
}

/// The lowercased name of an option.
pub fn extract_name(opt: &[char]) -> (r: Result<Vec<char>, ParserError>)
    ensures
        match r {
            Ok(v) => option_name(opt@) == Ok::<Seq<char>, ParserErrorView>(v@),
            Err(e) => option_name(opt@) == Err::<Seq<char>, ParserErrorView>(e@),
        },
{
    if !(opt.len() > 0 && opt[0] == ':') {
        return Err(ParserError::InvalidOptionNameFormat { opt: text(opt) });
    }
    if opt.len() == 1 {
        return Err(ParserError::MissingOptionName { opt: text(opt) });
    }
    let rest = slice_chars(opt, 1, opt.len());
    assert(rest@ =~= opt@.drop_first());
    let end = alpha_prefix(rest.as_slice());
    let name = slice_chars(rest.as_slice(), 0, end);
    assert(name@ =~= rest@.take(end as int));
    Ok(lower_ascii_chars(name.as_slice()))
}

fn value_of(opt: &[char]) -> (r: Option<Vec<char>>)
    ensures
        match r {
            Some(v) => option_value(opt@) == Some(v@),
            None => option_value(opt@) is None,
        },
{
    match index_of_char(opt, '=') {
        Some(i) => {
            let v = slice_chars(opt, i + 1, opt.len());
            assert(v@ =~= opt@.skip(i + 1));
            Some(v)
        },
        None => None,
    }
}

/// An integer option value.
pub fn extract_int(opt: &[char]) -> (r: Result<usize, ParserError>)
    ensures
        match r {
            Ok(n) => int_option(opt@) == Ok::<usize, ParserErrorView>(n),
            Err(e) => int_option(opt@) == Err::<usize, ParserErrorView>(e@),
        },
{
    match value_of(opt) {
        None => Err(ParserError::InvalidIntOptionFormat { opt: text(opt) }),
        Some(v) => match parse_usize(v.as_slice()) {
            Ok(n) => Ok(n),
            Err(k) => Err(ParserError::ParseIntError(k)),
        },
    }
}

/// A boolean option value; `flag_value` when the option has no `=`.
pub fn extract_bool(opt: &[char], flag_value: bool) -> (r: Result<bool, ParserError>)
    ensures
        match r {
            Ok(b) => bool_option(opt@, flag_value) == Ok::<bool, ParserErrorView>(b),
            Err(e) => bool_option(opt@, flag_value) == Err::<bool, ParserErrorView>(e@),
        },
{
    match value_of(opt) {
        None => Ok(flag_value),
        Some(v) => {
            let t = trim_chars(v.as_slice());
            let l = lower_ascii_chars(t.as_slice());
            if is_word(l.as_slice(), 't', 'r', 'u', 'e', None, None) {
                Ok(true)
            } else if is_word(l.as_slice(), 'f', 'a', 'l', 's', Some('e'), None) {
                Ok(false)
            } else {
                Err(ParserError::ParseBoolError(ParseBoolFailure))
            }
        },
    }
}

/// Applies one option token to `config`.
pub fn extract_value(opt: &[char], config: &mut MarkerConfig) -> (r: Result<(), ParserError>)
    ensures
        match r {
            Ok(()) => apply_option(*old(config), opt@) == Ok::<MarkerConfig, ParserErrorView>(
                *final(config),
            ),
            Err(e) => apply_option(*old(config), opt@) == Err::<MarkerConfig, ParserErrorView>(
                e@,
            ) && *final(config) == *old(config),
        },
{
    let name = match extract_name(opt) {
        Ok(n) => n,
        Err(e) => {
            return Err(e);
        },
    };
    if is_word(name.as_slice(), 't', 'r', 'i', 'm', None, None) {
        match extract_bool(opt, true) {
            Ok(b) => {
                config.trim = b;
                Ok(())
            },
            Err(e) => Err(e),
        }
    } else if is_word(
        name.as_slice(),
        'o',
        'f',
        'f',
        's',
        Some('e'),
        Some('t'),
    ) {
        match extract_int(opt) {
            Ok(n) => {
                config.offset = n;
                Ok(())
            },
            Err(e) => Err(e),
        }
    } else if is_word(
        name.as_slice(),
        'i',
        'n',
        'd',
        'e',
        Some('n'),
        Some('t'),
    ) {
        match extract_int(opt) {
            Ok(n) => {
                config.indent = Some(n);
                Ok(())
            },
            Err(e) => Err(e),
        }
    } else {
        Err(ParserError::InvalidOption { opt: text(opt) })
    }
}

/// The configuration written on a begin marker comment.
pub fn extract_config(comment: &str) -> (r: Result<MarkerConfig, ParserError>)
    ensures
        config_result_matches(r, extract_config_spec(comment@)),
{
    let chars = chars_of(comment);
    let toks = tokens_of(chars.as_slice());
    let ghost ts = seqs(toks@);
    let mut config = MarkerConfig::default();
    let mut i: usize = 0;
    assert(ts.take(0) =~= Seq::<Seq<char>>::empty());
    while i < toks.len()
        invariant
            i <= toks.len(),
            ts == seqs(toks@),
            ts == tokens(comment@),
            config_from_tokens(ts.take(i as int)) == Ok::<MarkerConfig, ParserErrorView>(config),
        decreases toks.len() - i,
    {
        let t = &toks[i];
        assert(ts.take(i + 1).drop_last() =~= ts.take(i as int));
        assert(ts.take(i + 1).last() == t@);
        if t.len() > 0 && t[0] == ':' {
            match extract_value(t.as_slice(), &mut config) {
                Ok(()) => {},
                Err(e) => {
                    proof {
                        lemma_config_error(ts, i + 1);
                    }
                    return Err(e);
                },
            }
        }
        i = i + 1;
    }
    assert(ts.take(toks.len() as int) =~= ts);
    Ok(config)
}

proof fn lemma_config_error(toks: Seq<Seq<char>>, k: int)
    requires
        0 <= k <= toks.len(),
        config_from_tokens(toks.take(k)) is Err,
    ensures
        config_from_tokens(toks) == config_from_tokens(toks.take(k)),
    decreases toks.len() - k,
{
    if k < toks.len() {
        assert(toks.take(k + 1).drop_last() =~= toks.take(k));
        lemma_config_error(toks, k + 1);
    } else {
        assert(toks.take(k) =~= toks);
    }
}

/// Applying two options with different names in either order succeeds in
/// both orders or in neither, and gives the same configuration.
proof fn lemma_options_commute(c: MarkerConfig, a: Seq<char>, b: Seq<char>)
    requires
        option_name(a) is Ok,
        option_name(b) is Ok,
        option_name(a) != option_name(b),
    ensures
        (match apply_option(c, a) {
            Ok(c1) => apply_option(c1, b) is Ok,
            Err(_) => false,
        }) <==> (match apply_option(c, b) {
            Ok(c2) => apply_option(c2, a) is Ok,
            Err(_) => false,
        }),
        match (apply_option(c, a), apply_option(c, b)) {
            (Ok(c1), Ok(c2)) => match (apply_option(c1, b), apply_option(c2, a)) {
                (Ok(x), Ok(y)) => x == y,
                _ => true,
            },
            _ => true,
        },
{
}

/// Options may be written in any order: swapping two neighbouring options with
/// different names leaves the configuration of a marker the same (and an
/// error an error).
pub proof fn law_option_order(toks: Seq<Seq<char>>, i: int)
    requires
        0 <= i < toks.len() - 1,
        is_option_token(toks[i]),
        is_option_token(toks[i + 1]),
        option_name(toks[i]) is Ok,
        option_name(toks[i + 1]) is Ok,
        option_name(toks[i]) != option_name(toks[i + 1]),
    ensures
        ({
            let swapped = toks.update(i, toks[i + 1]).update(i + 1, toks[i]);
            &&& (config_from_tokens(toks) is Ok <==> config_from_tokens(swapped) is Ok)
            &&& (config_from_tokens(toks) is Ok ==> config_from_tokens(toks) == config_from_tokens(
                swapped,
            ))
        }),
    decreases toks.len(),
{
    let swapped = toks.update(i, toks[i + 1]).update(i + 1, toks[i]);
    if i + 2 < toks.len() {
        let shorter = toks.drop_last();
        assert(swapped.drop_last() =~= shorter.update(i, shorter[i + 1]).update(i + 1, shorter[i]));
        law_option_order(shorter, i);
        assert(swapped.last() == toks.last());
        let sd = swapped.drop_last();
        assert(config_from_tokens(sd) is Ok <==> config_from_tokens(shorter) is Ok);
        if config_from_tokens(shorter) is Ok {
            assert(config_from_tokens(sd) == config_from_tokens(shorter));
        }
    } else {
        let prefix = toks.take(i);
        assert(toks.drop_last().drop_last() =~= prefix);
        assert(swapped.drop_last().drop_last() =~= prefix);
        assert(toks.drop_last().last() == toks[i]);
        assert(swapped.drop_last().last() == toks[i + 1]);
        assert(swapped.last() == toks[i]);
        match config_from_tokens(prefix) {
            Ok(c) => {
                lemma_options_commute(c, toks[i], toks[i + 1]);
                assert(config_from_tokens(toks.drop_last()) == apply_option(c, toks[i]));
                assert(config_from_tokens(swapped.drop_last()) == apply_option(c, toks[i + 1]));
            },
            Err(_) => {
                assert(config_from_tokens(toks.drop_last()) is Err);
                assert(config_from_tokens(swapped.drop_last()) is Err);
            },
        }
    }
}

} // verus!
