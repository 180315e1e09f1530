//! Decimal numbers: reading a `usize` the way `str::parse::<usize>` does, and
//! writing one in decimal.
use vstd::prelude::*;

verus! {

/// Why a decimal number could not be read (the kinds of `std::num::IntErrorKind`
/// that an unsigned parse can produce).
#[derive(Debug, Clone, Copy, PartialEq, Eq)]
pub enum IntErrorKind {
    /// The text is empty.
    Empty,
    /// The text holds a character that is not a decimal digit.
    InvalidDigit,
    /// The value does not fit in a `usize`.
    PosOverflow,
}

pub open spec fn is_digit(c: char) -> bool {
    '0' <= c && c <= '9'
}

pub open spec fn digit_value(c: char) -> nat {
    (c as int - '0' as int) as nat
}

/// The character of a decimal digit.
pub open spec fn digit_char(d: nat) -> char {
    if d == 0 {
        '0'
    } else if d == 1 {
        '1'
    } else if d == 2 {
        '2'
    } else if d == 3 {
        '3'
    } else if d == 4 {
        '4'
    } else if d == 5 {
        '5'
    } else if d == 6 {
        '6'
    } else if d == 7 {
        '7'
    } else if d == 8 {
        '8'
    } else {
        '9'
    }
}

/// The decimal rendering of `n` (no sign, no leading zeros).
pub open spec fn decimal(n: nat) -> Seq<char>
    decreases n,
{
    if n < 10 {
        seq![digit_char(n)]
    } else {
        decimal(n / 10).push(digit_char(n % 10))
    }
}

/// Reading the digits of `d` from left to right, as `from_str` does: the first
/// character that is not a digit, or the first digit that makes the value exceed
/// `usize::MAX`, stops the scan with the matching error.
pub open spec fn scan_digits(d: Seq<char>) -> Result<nat, IntErrorKind>
    decreases d.len(),
{
    if d.len() == 0 {
        Ok(0)
    } else {
        match scan_digits(d.drop_last()) {
            Err(e) => Err(e),
            Ok(v) => if !is_digit(d.last()) {
                Err(IntErrorKind::InvalidDigit)
            } else if v * 10 + digit_value(d.last()) > usize::MAX {
                Err(IntErrorKind::PosOverflow)
            } else {
                Ok(v * 10 + digit_value(d.last()))
            },
        }
    }
}

/// `s.parse::<usize>()`: an optional `+`, then decimal digits.
pub open spec fn parse_usize_spec(s: Seq<char>) -> Result<usize, IntErrorKind> {
    if s.len() == 0 {
        Err(IntErrorKind::Empty)
    } else if (s[0] == '+' || s[0] == '-') && s.len() == 1 {
        Err(IntErrorKind::InvalidDigit)
    } else {
        let d = if s[0] == '+' {
            s.drop_first()
        } else {
            s
        };
        match scan_digits(d) {
            Ok(v) => Ok(v as usize),
            Err(e) => Err(e),
        }
    }
}

fn digit_to_char(d: usize) -> (c: char)
    requires
        d < 10,
    ensures
        c == digit_char(d as nat),
        is_digit(c),
        digit_value(c) == d,
{
    match d {
        0 => '0',
        1 => '1',
        2 => '2',
        3 => '3',
        4 => '4',
        5 => '5',
        6 => '6',
        7 => '7',
        8 => '8',
        _ => '9',
    }
}

/// The decimal digits of `n`.
pub fn decimal_chars(n: usize) -> (v: Vec<char>)
    ensures
        v@ == decimal(n as nat),
    decreases n,
{
    if n < 10 {
        let c = digit_to_char(n);
        let mut v = Vec::new();
        v.push(c);
        assert(v@ =~= seq![digit_char(n as nat)]);
        v
    } else {
        let mut v = decimal_chars(n / 10);
        let c = digit_to_char(n % 10);
        v.push(c);
        v
    }
}

/// `s.parse::<usize>()`.
pub fn parse_usize(s: &[char]) -> (r: Result<usize, IntErrorKind>)
    ensures
        r == parse_usize_spec(s@),
{
    if s.len() == 0 {
        return Err(IntErrorKind::Empty);
    }
    if (s[0] == '+' || s[0] == '-') && s.len() == 1 {
        return Err(IntErrorKind::InvalidDigit);
    }
    let start: usize = if s[0] == '+' {
        1
    } else {
        0
    };
    let ghost d = s@.subrange(start as int, s.len() as int);
    assert(d =~= if s@[0] == '+' {
        s@.drop_first()
    } else {
        s@
    });
    let mut v: usize = 0;
    let mut i: usize = start;
    assert(d.take(0) =~= Seq::<char>::empty());
    while i < s.len()
        invariant
            start <= i <= s.len(),
            d == s@.subrange(start as int, s.len() as int),
            s.len() > 0,
            !((s@[0] == '+' || s@[0] == '-') && s.len() == 1),
            d == (if s@[0] == '+' {
                s@.drop_first()
            } else {
                s@
            }),
            scan_digits(d.take(i - start)) == Ok::<nat, IntErrorKind>(v as nat),
        decreases s.len() - i,
    {
        let c = s[i];
        let ghost k = i - start;
        assert(d.take(k + 1).drop_last() =~= d.take(k));
        assert(d.take(k + 1).last() == c);
        if !('0' <= c && c <= '9') {
            assert(scan_digits(d.take(k + 1)) == Err::<nat, IntErrorKind>(IntErrorKind::InvalidDigit));
            assert(scan_digits(d) == scan_digits(d.take(k + 1))) by {
                lemma_scan_prefix_error(d, k + 1);
            }
            return Err(IntErrorKind::InvalidDigit);
        }
        let x: usize = (c as u32 - '0' as u32) as usize;
        assert(x == digit_value(c));
        if v > (usize::MAX - x) / 10 {
            assert(v * 10 + x > usize::MAX) by (nonlinear_arith)
                requires
                    v > (usize::MAX - x) / 10,
                    x < 10,
            ;
            assert(scan_digits(d.take(k + 1)) == Err::<nat, IntErrorKind>(IntErrorKind::PosOverflow));
            assert(scan_digits(d) == scan_digits(d.take(k + 1))) by {
                lemma_scan_prefix_error(d, k + 1);
            }
            return Err(IntErrorKind::PosOverflow);
        }
        assert(v * 10 + x <= usize::MAX) by (nonlinear_arith)
            requires
                v <= (usize::MAX - x) / 10,
                x < 10,
        ;
        v = v * 10 + x;
        i = i + 1;
    }
    assert(d.take(s.len() - start) =~= d);
    Ok(v)
}

/// Once a prefix of the digits fails, the whole scan fails the same way.
proof fn lemma_scan_prefix_error(d: Seq<char>, k: int)
    requires
        0 <= k <= d.len(),
        scan_digits(d.take(k)) is Err,
    ensures
        scan_digits(d) == scan_digits(d.take(k)),
    decreases d.len() - k,
{
    if k < d.len() {
        assert(d.take(k + 1).drop_last() =~= d.take(k));
        lemma_scan_prefix_error(d, k + 1);
    } else {
        assert(d.take(k) =~= d);
    }
}

proof fn lemma_decimal_digits(n: nat)
    ensures
        decimal(n).len() >= 1,
        forall|i: int| 0 <= i < decimal(n).len() ==> is_digit(#[trigger] decimal(n)[i]),
        n <= usize::MAX ==> scan_digits(decimal(n)) == Ok::<nat, IntErrorKind>(n),
    decreases n,
{
    if n >= 10 {
        lemma_decimal_digits(n / 10);
        let p = decimal(n / 10);
        assert(decimal(n).drop_last() =~= p);
        assert(digit_value(digit_char(n % 10)) == n % 10);
        assert((n / 10) * 10 + n % 10 == n);
        assert(decimal(n).last() == digit_char(n % 10));
        if n <= usize::MAX {
            assert(scan_digits(decimal(n)) == Ok::<nat, IntErrorKind>(n));
        }
    } else {
        assert(digit_value(digit_char(n)) == n);
        assert(decimal(n).drop_last() =~= Seq::<char>::empty());
        assert(scan_digits(Seq::<char>::empty()) == Ok::<nat, IntErrorKind>(0));
        assert(decimal(n).last() == digit_char(n));
        assert(scan_digits(decimal(n)) == Ok::<nat, IntErrorKind>(n));
    }
}

/// Reading back what `decimal_chars` writes gives the number again.
pub proof fn law_decimal_roundtrip(n: usize)
    ensures
        parse_usize_spec(decimal(n as nat)) == Ok::<usize, IntErrorKind>(n),
{
    lemma_decimal_digits(n as nat);
    let s = decimal(n as nat);
    assert(is_digit(s[0]));
}

} // verus!
