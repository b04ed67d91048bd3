//! Unsigned decimal numerals: reading them as `usize::from_str` does, and writing them.

use vstd::prelude::*;

verus! {

/// Why a numeral was refused, as `usize::from_str` reports it.
#[derive(Debug, Clone, Copy, PartialEq, Eq, Structural)]
pub enum IntFault {
    /// Nothing to read.
    Empty,
    /// A character that is not a decimal digit, or a lone sign.
    InvalidDigit,
    /// The value does not fit in a `usize`.
    PosOverflow,
}

/// Whether `c` is one of `0` to `9`.
pub open spec fn is_digit(c: char) -> bool {
    ('0' as int) <= (c as int) <= ('9' as int)
}

/// The value of a decimal digit.
pub open spec fn digit_value(c: char) -> int {
    (c as int) - ('0' as int)
}

/// Read the digits left to right, stopping at the first that is not one, or at the first
/// that takes the value past `usize::MAX`.
pub open spec fn digits_value(s: Seq<char>) -> Result<nat, IntFault>
    decreases s.len(),
{
    if s.len() == 0 {
        Ok(0)
    } else {
        match digits_value(s.drop_last()) {
            Err(e) => Err(e),
            Ok(v) => if !is_digit(s.last()) {
                Err(IntFault::InvalidDigit)
            } else if v * 10 + digit_value(s.last()) > usize::MAX {
                Err(IntFault::PosOverflow)
            } else {
                Ok((v * 10 + digit_value(s.last())) as nat)
            },
        }
    }
}

/// A numeral read as `usize::from_str` reads it: an optional `+`, then digits.
pub open spec fn numeral_value(s: Seq<char>) -> Result<nat, IntFault> {
    if s.len() == 0 {
        Err(IntFault::Empty)
    } else if s.len() == 1 && (s[0] == '+' || s[0] == '-') {
        Err(IntFault::InvalidDigit)
    } else if s[0] == '+' {
        digits_value(s.drop_first())
    } else {
        digits_value(s)
    }
}

/// The digit character for `d` in `0..10`.
pub open spec fn digit_char(d: nat) -> char {
    ((d + ('0' as int)) as u8) as char
}

/// The decimal numeral of `n`, with no leading zeros.
pub open spec fn decimal(n: nat) -> Seq<char>
    decreases n,
{
    if n < 10 {
        seq![digit_char(n)]
    } else {
        decimal(n / 10).push(digit_char(n % 10))
    }
}

fn read_digits(s: &Vec<char>, start: usize) -> (r: Result<usize, IntFault>)
    requires
        start <= s@.len(),
    ensures
        match r {
            Ok(v) => digits_value(s@.skip(start as int)) == Ok::<nat, IntFault>(v as nat),
            Err(e) => digits_value(s@.skip(start as int)) == Err::<nat, IntFault>(e),
        },
{
    let ghost d = s@.skip(start as int);
    let mut v: usize = 0;
    let mut i: usize = start;
    assert(d.take(0) =~= Seq::<char>::empty());
    while i < s.len()
        invariant
            start <= i <= s@.len(),
            d == s@.skip(start as int),
            digits_value(d.take(i - start)) == Ok::<nat, IntFault>(v as nat),
        decreases s.len() - i,
    {
        let ghost k = (i - start) as int;
        assert(d.take(k + 1).drop_last() =~= d.take(k));
        assert(d.take(k + 1).last() == s@[i as int]);
        let c = s[i];
        if !('0' <= c && c <= '9') {
            proof {
                lemma_fault_extends(d, k + 1);
            }
            return Err(IntFault::InvalidDigit);
        }
        let dv = (c as u32 - '0' as u32) as usize;
        assert(dv == digit_value(c));
        if v > (usize::MAX - dv) / 10 {
            assert(v * 10 + dv > usize::MAX) by (nonlinear_arith)
                requires
                    v > (usize::MAX - dv) / 10,
                    dv <= 9,
            ;
            proof {
                lemma_fault_extends(d, k + 1);
            }
            return Err(IntFault::PosOverflow);
        }
        assert(v * 10 + dv <= usize::MAX) by (nonlinear_arith)
            requires
                v <= (usize::MAX - dv) / 10,
                dv <= 9,
        ;
        v = v * 10 + dv;
        i = i + 1;
    }
    assert(d.take(i - start) =~= d);
    Ok(v)
}

/// Once a prefix is refused, the whole numeral is refused the same way.
proof fn lemma_fault_extends(d: Seq<char>, j: int)
    requires
        0 <= j <= d.len(),
        digits_value(d.take(j)) is Err,
    ensures
        digits_value(d) == digits_value(d.take(j)),
    decreases d.len() - j,
{
    if j == d.len() {
        assert(d.take(j) =~= d);
    } else {
        assert(d.take(j + 1).drop_last() =~= d.take(j));
        lemma_fault_extends(d, j + 1);
    }
}

/// Read `s` as `usize::from_str` does: an optional `+`, then decimal digits.
pub fn parse_usize(s: &Vec<char>) -> (r: Result<usize, IntFault>)
    ensures
        match r {
            Ok(v) => numeral_value(s@) == Ok::<nat, IntFault>(v as nat),
            Err(e) => numeral_value(s@) == Err::<nat, IntFault>(e),
        },
{
    if s.len() == 0 {
        return Err(IntFault::Empty);
    }
    if s.len() == 1 && (s[0] == '+' || s[0] == '-') {
        return Err(IntFault::InvalidDigit);
    }
    if s[0] == '+' {
        assert(s@.skip(1) =~= s@.drop_first());
        read_digits(s, 1)
    } else {
        assert(s@.skip(0) =~= s@);
        read_digits(s, 0)
    }
}

/// The one-character string of a digit.
fn digit_str(d: usize) -> (s: &'static str)
    requires
        d < 10,
    ensures
        s@ == seq![digit_char(d as nat)],
{
    proof {
        reveal_strlit("0");
        reveal_strlit("1");
        reveal_strlit("2");
        reveal_strlit("3");
        reveal_strlit("4");
        reveal_strlit("5");
        reveal_strlit("6");
        reveal_strlit("7");
        reveal_strlit("8");
        reveal_strlit("9");
    }
    if d == 0 {
        "0"
    } else if d == 1 {
        "1"
    } else if d == 2 {
        "2"
    } else if d == 3 {
        "3"
    } else if d == 4 {
        "4"
    } else if d == 5 {
        "5"
    } else if d == 6 {
        "6"
    } else if d == 7 {
        "7"
    } else if d == 8 {
        "8"
    } else {
        "9"
    }
}

/// The decimal numeral of `n`.
pub fn decimal_string(n: usize) -> (s: String)
    ensures
        s@ == decimal(n as nat),
    decreases n,
{
    if n < 10 {
        String::from_str(digit_str(n))
    } else {
        let mut s = decimal_string(n / 10);
        s.append(digit_str(n % 10));
        s
    }
}

/// A numeral written by `decimal` reads back as the number it was written from.
pub proof fn law_decimal_reads_back(n: nat)
    requires
        n <= usize::MAX,
    ensures
        numeral_value(decimal(n)) == Ok::<nat, IntFault>(n),
        decimal(n).len() > 0,
        forall|i: int| 0 <= i < decimal(n).len() ==> is_digit(#[trigger] decimal(n)[i]),
    decreases n,
{
    lemma_decimal_digits(n);
    let s = decimal(n);
    assert(s[0] != '+' && s[0] != '-') by {
        assert(is_digit(s[0]));
    }
}

proof fn lemma_decimal_digits(n: nat)
    requires
        n <= usize::MAX,
    ensures
        digits_value(decimal(n)) == Ok::<nat, IntFault>(n),
        decimal(n).len() > 0,
        forall|i: int| 0 <= i < decimal(n).len() ==> is_digit(#[trigger] decimal(n)[i]),
    decreases n,
{
    if n < 10 {
        assert(seq![digit_char(n)].drop_last() =~= Seq::<char>::empty());
        assert(digits_value(Seq::<char>::empty()) == Ok::<nat, IntFault>(0));
        assert(digit_value(digit_char(n)) == n);
    } else {
        let q = n / 10;
        let r = n % 10;
        assert(q * 10 + r == n) by (nonlinear_arith)
            requires
                q == n / 10,
                r == n % 10,
        ;
        lemma_decimal_digits(q);
        let s = decimal(n);
        assert(s.drop_last() =~= decimal(q));
        assert(digit_value(digit_char(r)) == r);
        assert(s.last() == digit_char(r));
        assert(digits_value(s) == Ok::<nat, IntFault>(n));
        assert forall|i: int| 0 <= i < s.len() implies is_digit(#[trigger] s[i]) by {
            if i < s.len() - 1 {
                assert(s[i] == decimal(q)[i]);
            }
        }
    }
}

} // verus!
