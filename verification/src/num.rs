//! Decimal text for signed 64-bit integers: a specification of the digit
//! strings, a verified formatter and a verified parser, and the round-trip
//! facts that the protocol codec relies on.

use vstd::prelude::*;

verus! {

/// A decimal digit in the wire text.
pub open spec fn is_digit(c: char) -> bool {
    48 <= c as u32 <= 57
}

/// The digit character for a value between 0 and 9.
pub open spec fn digit_char(d: int) -> char {
    ((d + 48) as u32) as char
}

/// The value of a digit character.
pub open spec fn digit_value(c: char) -> int {
    c as u32 - 48
}

/// Decimal digits of a non-negative integer, most significant first.
pub open spec fn dec_digits(n: int) -> Seq<char>
    decreases n,
{
    if n < 10 {
        seq![digit_char(n)]
    } else {
        dec_digits(n / 10).push(digit_char(n % 10))
    }
}

/// Wire text of a signed integer: an optional minus sign, then digits.
pub open spec fn int_chars(n: int) -> Seq<char> {
    if n < 0 {
        seq!['-'] + dec_digits(-n)
    } else {
        dec_digits(n)
    }
}

/// The value of a non-empty all-digit string, most significant first;
/// `None` when the string is empty or holds a non-digit.
pub open spec fn parse_digits(s: Seq<char>) -> Option<int>
    decreases s.len(),
{
    if s.len() == 0 {
        None
    } else if !is_digit(s.last()) {
        None
    } else if s.len() == 1 {
        Some(digit_value(s[0]))
    } else {
        match parse_digits(s.drop_last()) {
            Some(v) => Some(v * 10 + digit_value(s.last())),
            None => None,
        }
    }
}

/// The value of a signed decimal string: an optional minus sign, then at
/// least one digit. Unbounded: range checks are the parser's business.
pub open spec fn parse_int(s: Seq<char>) -> Option<int> {
    if s.len() >= 1 && s[0] == '-' {
        match parse_digits(s.subrange(1, s.len() as int)) {
            Some(v) => Some(-v),
            None => None,
        }
    } else {
        parse_digits(s)
    }
}

/// Whether a parsed value exists and fits a signed 64-bit integer.
pub open spec fn parses_to_i64(s: Seq<char>) -> bool {
    match parse_int(s) {
        Some(v) => i64::MIN <= v <= i64::MAX,
        None => false,
    }
}

pub proof fn lemma_digit_char_value(d: int)
    requires
        0 <= d <= 9,
    ensures
        is_digit(digit_char(d)),
        digit_char(d) as u32 == d + 48,
        digit_value(digit_char(d)) == d,
{
    if d == 0 {
        vstd::utf8::char_u32_cast('0', 48);
    } else if d == 1 {
        vstd::utf8::char_u32_cast('1', 49);
    } else if d == 2 {
        vstd::utf8::char_u32_cast('2', 50);
    } else if d == 3 {
        vstd::utf8::char_u32_cast('3', 51);
    } else if d == 4 {
        vstd::utf8::char_u32_cast('4', 52);
    } else if d == 5 {
        vstd::utf8::char_u32_cast('5', 53);
    } else if d == 6 {
        vstd::utf8::char_u32_cast('6', 54);
    } else if d == 7 {
        vstd::utf8::char_u32_cast('7', 55);
    } else if d == 8 {
        vstd::utf8::char_u32_cast('8', 56);
    } else {
        vstd::utf8::char_u32_cast('9', 57);
    }
}

/// Digit strings are never empty and hold digits only.
pub proof fn lemma_dec_digits_wf(n: int)
    requires
        n >= 0,
    ensures
        dec_digits(n).len() >= 1,
        forall|i: int| 0 <= i < dec_digits(n).len() ==> is_digit(#[trigger] dec_digits(n)[i]),
    decreases n,
{
    if n < 10 {
        lemma_digit_char_value(n);
    } else {
        lemma_dec_digits_wf(n / 10);
        lemma_digit_char_value(n % 10);
    }
}

/// Parsing the digits of `n` gives back `n`.
pub proof fn lemma_parse_dec_digits(n: int)
    requires
        n >= 0,
    ensures
        parse_digits(dec_digits(n)) == Some(n),
    decreases n,
{
    if n < 10 {
        lemma_digit_char_value(n);
    } else {
        lemma_parse_dec_digits(n / 10);
        lemma_digit_char_value(n % 10);
        let s = dec_digits(n);
        assert(s.drop_last() =~= dec_digits(n / 10));
        lemma_dec_digits_wf(n / 10);
    }
}

/// Parsing the wire text of `n` gives back `n`.
pub proof fn lemma_parse_int_chars(n: int)
    ensures
        parse_int(int_chars(n)) == Some(n),
{
    if n < 0 {
        lemma_parse_dec_digits(-n);
        lemma_dec_digits_wf(-n);
        let s = int_chars(n);
        assert(s[0] == '-');
        assert(s.subrange(1, s.len() as int) =~= dec_digits(-n));
    } else {
        lemma_parse_dec_digits(n);
        lemma_dec_digits_wf(n);
        let s = int_chars(n);
        if s[0] == '-' {
            assert(is_digit(s[0]));
            assert('-' as u32 == 45);
        }
    }
}

/// Digit text never holds a line feed.
pub proof fn lemma_digits_no_lf(n: int)
    requires
        n >= 0,
    ensures
        forall|k: int| 0 <= k < dec_digits(n).len() ==> dec_digits(n)[k] != '\n',
{
    lemma_dec_digits_wf(n);
    vstd::utf8::char_u32_cast('\n', 10);
    assert forall|k: int| 0 <= k < dec_digits(n).len() implies dec_digits(n)[k] != '\n' by {
        assert(is_digit(dec_digits(n)[k]));
    }
}

/// Integer text never holds a line feed.
pub proof fn lemma_int_chars_no_lf(i: int)
    ensures
        forall|k: int| 0 <= k < int_chars(i).len() ==> int_chars(i)[k] != '\n',
{
    vstd::utf8::char_u32_cast('\n', 10);
    vstd::utf8::char_u32_cast('-', 45);
    if i < 0 {
        lemma_digits_no_lf(-i);
        assert forall|k: int| 0 <= k < int_chars(i).len() implies int_chars(i)[k] != '\n' by {
            if k > 0 {
                assert(int_chars(i)[k] == dec_digits(-i)[k - 1]);
            }
        }
    } else {
        lemma_digits_no_lf(i);
    }
}

/// A string that parses holds digits only.
pub proof fn lemma_parse_digits_all_digits(s: Seq<char>)
    requires
        parse_digits(s) is Some,
    ensures
        forall|i: int| 0 <= i < s.len() ==> is_digit(#[trigger] s[i]),
    decreases s.len(),
{
    if s.len() > 1 {
        lemma_parse_digits_all_digits(s.drop_last());
        assert forall|i: int| 0 <= i < s.len() implies is_digit(#[trigger] s[i]) by {
            if i < s.len() - 1 {
                assert(s.drop_last()[i] == s[i]);
            }
        }
    }
}

/// A parsed digit string is non-negative.
pub proof fn lemma_parse_digits_nonneg(s: Seq<char>)
    requires
        parse_digits(s) is Some,
    ensures
        parse_digits(s)->Some_0 >= 0,
    decreases s.len(),
{
    if s.len() > 1 {
        lemma_parse_digits_nonneg(s.drop_last());
    }
}

/// Extending a digit string can only grow its value.
pub proof fn lemma_parse_digits_prefix_le(s: Seq<char>, i: int, j: int)
    requires
        0 <= i <= j <= s.len(),
        parse_digits(s.subrange(0, i)) is Some,
        parse_digits(s.subrange(0, j)) is Some,
    ensures
        parse_digits(s.subrange(0, i))->Some_0 <= parse_digits(s.subrange(0, j))->Some_0,
    decreases j - i,
{
    if i < j {
        let t = s.subrange(0, j);
        assert(t.drop_last() =~= s.subrange(0, j - 1));
        if j - 1 == i {
            // one step: value at j is value at i times ten plus a digit
            if j >= 2 {
                lemma_parse_digits_nonneg(s.subrange(0, i));
            }
        } else {
            if j - 1 >= 1 {
                lemma_parse_digits_prefix_le(s, i, j - 1);
                lemma_parse_digits_nonneg(s.subrange(0, j - 1));
            }
        }
    }
}

/// The one-character string for a digit value.
fn digit_str(d: u8) -> (s: &'static str)
    requires
        d < 10,
    ensures
        s@ =~= seq![digit_char(d as int)],
{
    proof {
        reveal_strlit("0");
        reveal_strlit("1");
        reveal_strlit("2");
        reveal_strlit("3");
        reveal_strlit("4");
        reveal_strlit("5");
        reveal_strlit("6");
        reveal_strlit("7");
        reveal_strlit("8");
        reveal_strlit("9");
        lemma_digit_char_value(d as int);
        vstd::utf8::char_u32_cast('0', 48);
        vstd::utf8::char_u32_cast('1', 49);
        vstd::utf8::char_u32_cast('2', 50);
        vstd::utf8::char_u32_cast('3', 51);
        vstd::utf8::char_u32_cast('4', 52);
        vstd::utf8::char_u32_cast('5', 53);
        vstd::utf8::char_u32_cast('6', 54);
        vstd::utf8::char_u32_cast('7', 55);
        vstd::utf8::char_u32_cast('8', 56);
        vstd::utf8::char_u32_cast('9', 57);
    }
    match d {
        0 => "0",
        1 => "1",
        2 => "2",
        3 => "3",
        4 => "4",
        5 => "5",
        6 => "6",
        7 => "7",
        8 => "8",
        _ => "9",
    }
}

/// Decimal text of an unsigned 64-bit integer.
pub fn u64_to_string(n: u64) -> (s: String)
    ensures
        s@ == dec_digits(n as int),
    decreases n,
{
    if n < 10 {
        let s = digit_str(n as u8).to_owned();
        proof {
            assert(s@ =~= dec_digits(n as int));
        }
        s
    } else {
        let mut s = u64_to_string(n / 10);
        s.append(digit_str((n % 10) as u8));
        proof {
            assert(s@ =~= dec_digits(n as int));
        }
        s
    }
}

/// Decimal text of a signed 64-bit integer, with a leading minus sign when
/// negative.
pub fn i64_to_string(n: i64) -> (s: String)
    ensures
        s@ == int_chars(n as int),
{
    if n >= 0 {
        u64_to_string(n as u64)
    } else {
        let mag: u64 = (-(n as i128)) as u64;
        let mut s = "-".to_owned();
        proof {
            reveal_strlit("-");
        }
        s.append(u64_to_string(mag).as_str());
        proof {
            assert(s@ =~= int_chars(n as int));
        }
        s
    }
}

/// Parses signed decimal text into a 64-bit integer: an optional minus
/// sign, then at least one digit. Returns `None` when the text is not of
/// that shape or its value does not fit.
pub fn parse_i64(s: &str) -> (r: Option<i64>)
    ensures
        match r {
            Some(v) => parse_int(s@) == Some(v as int),
            None => !parses_to_i64(s@),
        },
{
    let n = s.unicode_len();
    if n == 0 {
        return None;
    }
    let neg = s.get_char(0) == '-';
    let start: usize = if neg {
        1
    } else {
        0
    };
    if start == n {
        return None;
    }
    let ghost digits = s@.subrange(start as int, n as int);
    let mut acc: i64 = 0;
    let mut i: usize = start;
    while i < n
        invariant
            start <= i <= n,
            n == s@.len(),
            start == if neg {
                1int
            } else {
                0int
            },
            start < n,
            neg ==> s@[0] == '-',
            !neg ==> !(s@.len() >= 1 && s@[0] == '-'),
            digits == s@.subrange(start as int, n as int),
            i > start ==> parse_digits(s@.subrange(start as int, i as int)) == Some(
                if neg {
                    -(acc as int)
                } else {
                    acc as int
                },
            ),
            i == start ==> acc == 0,
            neg ==> acc <= 0,
            !neg ==> acc >= 0,
        decreases n - i,
    {
        let c = s.get_char(i);
        let u = c as u32;
        if u < 48 || u > 57 {
            proof {
                if !neg {
                    assert(digits =~= s@);
                }
                if parse_digits(digits) is Some {
                    lemma_parse_digits_all_digits(digits);
                    assert(digits[i - start] == s@[i as int]);
                }
            }
            return None;
        }
        let d = (u - 48) as i64;
        let ghost pref = s@.subrange(start as int, i as int);
        let ghost pref1 = s@.subrange(start as int, i + 1 as int);
        proof {
            assert(pref1.drop_last() =~= pref);
            assert(pref1.last() == s@[i as int]);
        }
        let next = if neg {
            match acc.checked_mul(10) {
                Some(a) => a.checked_sub(d),
                None => None,
            }
        } else {
            match acc.checked_mul(10) {
                Some(a) => a.checked_add(d),
                None => None,
            }
        };
        match next {
            Some(a) => {
                acc = a;
            },
            None => {
                proof {
                    lemma_overflow_out_of_range(s@, neg, start as int, i as int, acc as int,
                        d as int);
                }
                return None;
            },
        }
        i += 1;
    }
    proof {
        assert(s@.subrange(start as int, n as int) == digits);
        if neg {
            assert(parse_int(s@) == Some(-(-(acc as int))));
        } else {
            assert(digits =~= s@);
        }
    }
    Some(acc)
}

/// Parses unsigned decimal text: at least one digit and nothing else.
/// Returns `None` when the text is not of that shape or its value does
/// not fit a machine word.
pub fn parse_usize(s: &str) -> (r: Option<usize>)
    ensures
        match r {
            Some(v) => parse_digits(s@) == Some(v as int),
            None => match parse_digits(s@) {
                Some(v) => v > usize::MAX,
                None => true,
            },
        },
{
    let n = s.unicode_len();
    if n == 0 {
        return None;
    }
    let mut acc: usize = 0;
    let mut i: usize = 0;
    while i < n
        invariant
            i <= n,
            n == s@.len(),
            i > 0 ==> parse_digits(s@.subrange(0, i as int)) == Some(acc as int),
            i == 0 ==> acc == 0,
        decreases n - i,
    {
        let c = s.get_char(i);
        let u = c as u32;
        if u < 48 || u > 57 {
            proof {
                if parse_digits(s@) is Some {
                    lemma_parse_digits_all_digits(s@);
                }
            }
            return None;
        }
        let d = (u - 48) as usize;
        let ghost pref1 = s@.subrange(0, i + 1int);
        proof {
            assert(pref1.drop_last() =~= s@.subrange(0, i as int));
            assert(pref1.last() == s@[i as int]);
        }
        let next = match acc.checked_mul(10) {
            Some(a) => a.checked_add(d),
            None => None,
        };
        match next {
            Some(a) => {
                acc = a;
            },
            None => {
                proof {
                    assert(parse_digits(pref1) == Some(acc * 10 + d));
                    if parse_digits(s@) is Some {
                        assert(s@.subrange(0, s@.len() as int) =~= s@);
                        lemma_parse_digits_prefix_le(s@, i + 1, s@.len() as int);
                    }
                }
                return None;
            },
        }
        i += 1;
    }
    proof {
        assert(s@.subrange(0, n as int) =~= s@);
    }
    Some(acc)
}

/// When the running value already leaves the 64-bit range, the whole
/// string's value does too.
proof fn lemma_overflow_out_of_range(s: Seq<char>, neg: bool, start: int, i: int, acc: int, d: int)
    requires
        0 <= start <= i < s.len(),
        start == if neg {
            1int
        } else {
            0int
        },
        neg ==> s[0] == '-',
        !neg ==> !(s.len() >= 1 && s[0] == '-'),
        is_digit(s[i]),
        d == digit_value(s[i]),
        i > start ==> parse_digits(s.subrange(start, i)) == Some(
            if neg {
                -acc
            } else {
                acc
            },
        ),
        i == start ==> acc == 0,
        neg ==> acc <= 0,
        !neg ==> acc >= 0,
        neg ==> !(i64::MIN <= acc * 10 - d),
        !neg ==> !(acc * 10 + d <= i64::MAX),
    ensures
        !parses_to_i64(s),
{
    let tail = s.subrange(start, s.len() as int);
    let pref1 = s.subrange(start, i + 1);
    assert(pref1.drop_last() =~= s.subrange(start, i));
    assert(pref1.last() == s[i]);
    let v1: int = if neg {
        acc * 10 - d
    } else {
        acc * 10 + d
    };
    assert(parse_digits(pref1) == Some(if neg {
        -v1
    } else {
        v1
    }));
    if parse_int(s) is Some {
        if neg {
            assert(parse_digits(tail) is Some);
            lemma_parse_digits_prefix_suffix(s, start, i + 1);
            assert(parse_digits(tail)->Some_0 >= -v1);
            assert(parse_int(s) == Some(-parse_digits(tail)->Some_0));
            assert(parse_int(s)->Some_0 <= v1);
            assert(v1 < i64::MIN);
        } else {
            assert(tail =~= s);
            assert(parse_digits(tail) is Some);
            lemma_parse_digits_prefix_suffix(s, start, i + 1);
            assert(parse_digits(tail)->Some_0 >= v1);
            assert(v1 > i64::MAX);
        }
    }
}

/// Prefix bound restated on a shared base string.
proof fn lemma_parse_digits_prefix_suffix(s: Seq<char>, start: int, j: int)
    requires
        0 <= start <= j <= s.len(),
        parse_digits(s.subrange(start, j)) is Some,
        parse_digits(s.subrange(start, s.len() as int)) is Some,
    ensures
        parse_digits(s.subrange(start, j))->Some_0 <= parse_digits(
            s.subrange(start, s.len() as int),
        )->Some_0,
{
    let t = s.subrange(start, s.len() as int);
    assert(t.subrange(0, j - start) =~= s.subrange(start, j));
    assert(t.subrange(0, t.len() as int) =~= t);
    lemma_parse_digits_prefix_le(t, j - start, t.len() as int);
}

} // verus!

