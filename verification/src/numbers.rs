//! Decimal numbers in text: reading them as `str::parse` does for unsigned
//! integers, and writing them.
use vstd::prelude::*;
use vstd::string::StrSliceExecFns;
use vstd::utf8::{encode_utf8, is_ascii_chars, is_ascii_chars_encode_utf8, encode_utf8_decode_utf8};
use crate::text::{sbytes, push_ascii};

verus! {

/// `c` is an ASCII decimal digit.
pub open spec fn is_digit(c: char) -> bool {
    '0' <= c <= '9'
}

/// The value of a string of decimal digits.
pub open spec fn digits_value(s: Seq<char>) -> nat
    decreases s.len(),
{
    if s.len() == 0 {
        0
    } else {
        digits_value(s.drop_last()) * 10 + (s.last() as nat - '0' as nat) as nat
    }
}

/// The digits after an optional leading `+`.
pub open spec fn unsigned_digits(s: Seq<char>) -> Seq<char> {
    if s.len() > 0 && s[0] == '+' {
        s.drop_first()
    } else {
        s
    }
}

/// The value of an unsigned decimal number as `str::parse` reads one: an
/// optional `+`, then one or more ASCII digits and nothing else.
pub open spec fn unsigned_value(s: Seq<char>) -> Option<nat> {
    let d = unsigned_digits(s);
    if d.len() > 0 && (forall|i: int| 0 <= i < d.len() ==> is_digit(#[trigger] d[i])) {
        Some(digits_value(d))
    } else {
        None
    }
}

/// `s.parse::<u64>().ok()`: the value when `s` is an unsigned decimal
/// number that fits.
pub fn parse_u64(s: &str) -> (r: Option<u64>)
    ensures
        match unsigned_value(s@) {
            Some(v) => if v <= u64::MAX {
                r == Some(v as u64)
            } else {
                r is None
            },
            None => r is None,
        },
{
    let n = s.unicode_len();
    let mut i: usize = 0;
    if n > 0 && s.get_char(0) == '+' {
        i = 1;
    }
    let ghost d = unsigned_digits(s@);
    proof {
        assert(d =~= s@.subrange(i as int, n as int));
    }
    if i == n {
        return None;
    }
    let mut value: u64 = 0;
    let mut fits = true;
    let ghost mut exact: nat = 0;
    while i < n
        invariant
            n == s@.len(),
            d == unsigned_digits(s@),
            d.len() > 0,
            d =~= s@.subrange(n - d.len(), n as int),
            n - d.len() <= i <= n,
            forall|k: int| 0 <= k < i - (n - d.len()) ==> is_digit(#[trigger] d[k]),
            exact == digits_value(d.subrange(0, i - (n - d.len()))),
            fits ==> value == exact,
            !fits ==> exact > u64::MAX,
        decreases n - i,
    {
        let c = s.get_char(i);
        let ghost j = i - (n - d.len());
        proof {
            assert(d[j] == c);
        }
        if !('0' <= c && c <= '9') {
            return None;
        }
        let digit = (c as u32 - '0' as u32) as u64;
        proof {
            let pre = d.subrange(0, j);
            let next = d.subrange(0, j + 1);
            assert(next.drop_last() =~= pre);
            assert(next.last() == c);
            assert(digits_value(next) == digits_value(pre) * 10 + digit);
            exact = digits_value(next);
        }
        if fits {
            match value.checked_mul(10) {
                Some(m) => match m.checked_add(digit) {
                    Some(a) => {
                        value = a;
                    },
                    None => {
                        fits = false;
                    },
                },
                None => {
                    fits = false;
                    assert(exact >= value * 10) by (nonlinear_arith)
                        requires
                            exact == value * 10 + digit,
                            digit >= 0,
                    ;
                },
            }
        } else {
            assert(exact > u64::MAX) by (nonlinear_arith)
                requires
                    exact == digits_value(d.subrange(0, j)) * 10 + digit,
                    digits_value(d.subrange(0, j)) > u64::MAX,
                    digit >= 0,
            ;
        }
        i += 1;
    }
    proof {
        assert(d.subrange(0, d.len() as int) =~= d);
    }
    if fits {
        Some(value)
    } else {
        None
    }
}

/// `s.parse::<usize>().ok()`: the value when `s` is an unsigned decimal
/// number that fits.
pub fn parse_usize(s: &str) -> (r: Option<usize>)
    ensures
        match unsigned_value(s@) {
            Some(v) => if v <= usize::MAX {
                r == Some(v as usize)
            } else {
                r is None
            },
            None => r is None,
        },
{
    match parse_u64(s) {
        Some(v) => {
            if v <= usize::MAX as u64 {
                Some(v as usize)
            } else {
                None
            }
        },
        None => None,
    }
}

/// The decimal digits of `n`, most significant first.
pub open spec fn decimal(n: nat) -> Seq<u8>
    decreases n,
{
    if n < 10 {
        seq![(0x30 + n) as u8]
    } else {
        decimal(n / 10).push((0x30 + n % 10) as u8)
    }
}

/// The text of one decimal digit.
fn digit_text(d: u64) -> (t: &'static str)
    requires
        d < 10,
    ensures
        vstd::utf8::is_ascii_chars(t@),
        crate::text::bytes(t) == seq![(0x30 + d) as u8],
{
    let t = if d == 0 {
        "0"
    } else if d == 1 {
        "1"
    } else if d == 2 {
        "2"
    } else if d == 3 {
        "3"
    } else if d == 4 {
        "4"
    } else if d == 5 {
        "5"
    } else if d == 6 {
        "6"
    } else if d == 7 {
        "7"
    } else if d == 8 {
        "8"
    } else {
        "9"
    };
    proof {
        reveal_strlit("0");
        reveal_strlit("1");
        reveal_strlit("2");
        reveal_strlit("3");
        reveal_strlit("4");
        reveal_strlit("5");
        reveal_strlit("6");
        reveal_strlit("7");
        reveal_strlit("8");
        reveal_strlit("9");
        assert(vstd::utf8::is_ascii_chars(t@));
        vstd::utf8::is_ascii_chars_encode_utf8(t@);
        assert(crate::text::bytes(t) =~= seq![(0x30 + d) as u8]);
    }
    t
}

/// Appends the decimal digits of `n` to `out`.
pub fn push_decimal(out: &mut String, n: u64)
    ensures
        sbytes(final(out)) == sbytes(old(out)) + decimal(n as nat),
    decreases n,
{
    if n >= 10 {
        push_decimal(out, n / 10);
    }
    push_ascii(out, digit_text(n % 10));
    proof {
        if n >= 10 {
            assert(decimal(n as nat) == decimal((n / 10) as nat).push((0x30 + n % 10) as u8));
        }
    }
}

/// The decimal text of a number is made of ASCII digits only, at least one.
pub proof fn decimal_is_digits(n: nat)
    ensures
        decimal(n).len() > 0,
        forall|i: int| 0 <= i < decimal(n).len() ==> 0x30 <= #[trigger] decimal(n)[i] <= 0x39,
    decreases n,
{
    if n >= 10 {
        decimal_is_digits(n / 10);
        assert forall|i: int| 0 <= i < decimal(n).len() implies 0x30 <= #[trigger] decimal(n)[i] <= 0x39 by {
            if i < decimal(n / 10).len() {
                assert(decimal(n)[i] == decimal(n / 10)[i]);
            }
        }
    }
}

/// The character of the decimal digit `d`.
pub open spec fn digit_char(d: nat) -> char {
    (0x30 + d) as char
}

/// The decimal digits of `n`, as characters.
pub open spec fn decimal_chars(n: nat) -> Seq<char>
    decreases n,
{
    if n < 10 {
        seq![digit_char(n)]
    } else {
        decimal_chars(n / 10).push(digit_char(n % 10))
    }
}

proof fn lemma_decimal_chars(n: nat)
    ensures
        decimal_chars(n).len() == decimal(n).len(),
        forall|i: int| 0 <= i < decimal_chars(n).len() ==> is_digit(#[trigger] decimal_chars(n)[i]),
        forall|i: int| 0 <= i < decimal_chars(n).len() ==> (#[trigger] decimal_chars(n)[i]) as u8 == decimal(n)[i],
        digits_value(decimal_chars(n)) == n,
    decreases n,
{
    assert('0' as nat == 0x30);
    if n < 10 {
        assert(decimal_chars(n).last() as nat == 0x30 + n);
        assert(decimal_chars(n).drop_last() =~= Seq::<char>::empty());
        assert(digits_value(Seq::<char>::empty()) == 0);
    } else {
        lemma_decimal_chars(n / 10);
        let c = decimal_chars(n);
        assert(c.drop_last() =~= decimal_chars(n / 10));
        assert(c.last() as nat == 0x30 + n % 10);
        assert(digits_value(c) == (n / 10) * 10 + n % 10);
        assert forall|i: int| 0 <= i < c.len() implies is_digit(#[trigger] c[i]) && c[i] as u8 == decimal(n)[i] by {
            if i < c.len() - 1 {
                assert(c[i] == decimal_chars(n / 10)[i]);
                assert(decimal(n)[i] == decimal(n / 10)[i]);
            }
        }
    }
}

/// What `push_decimal` writes, `parse_u64` reads back: text whose UTF-8
/// encoding is the decimal form of `n` is an unsigned number of value `n`.
pub proof fn decimal_reads_back(n: nat, t: Seq<char>)
    requires
        encode_utf8(t) == decimal(n),
    ensures
        unsigned_value(t) == Some(n),
{
    let c = decimal_chars(n);
    lemma_decimal_chars(n);
    assert(is_ascii_chars(c));
    is_ascii_chars_encode_utf8(c);
    assert(encode_utf8(c) =~= decimal(n));
    encode_utf8_decode_utf8(c);
    encode_utf8_decode_utf8(t);
    assert(t == c);
    assert(unsigned_digits(t) == t);
}

} // verus!
