//! Decimal text: what a typed answer means as a number, and how a number is
//! written out.

use vstd::prelude::*;
use vstd::std_specs::iter::IteratorSpec;
use vstd::string::StringExecFns;

verus! {

/// Code points with the Unicode property White_Space.
pub open spec fn is_white_space(c: char) -> bool {
    let n = c as u32;
    ||| 0x09 <= n <= 0x0D
    ||| n == 0x20
    ||| n == 0x85
    ||| n == 0xA0
    ||| n == 0x1680
    ||| 0x2000 <= n <= 0x200A
    ||| n == 0x2028
    ||| n == 0x2029
    ||| n == 0x202F
    ||| n == 0x205F
    ||| n == 0x3000
}

/// `s` without its leading white space.
pub open spec fn trim_start(s: Seq<char>) -> Seq<char>
    decreases s.len(),
{
    if s.len() > 0 && is_white_space(s[0]) {
        trim_start(s.skip(1))
    } else {
        s
    }
}

/// `s` without its trailing white space.
pub open spec fn trim_end(s: Seq<char>) -> Seq<char>
    decreases s.len(),
{
    if s.len() > 0 && is_white_space(s.last()) {
        trim_end(s.drop_last())
    } else {
        s
    }
}

/// `s` without leading and trailing white space.
pub open spec fn trim(s: Seq<char>) -> Seq<char> {
    trim_end(trim_start(s))
}

/// One of the ten ASCII digits.
pub open spec fn is_digit(c: char) -> bool {
    '0' as u32 <= c as u32 <= '9' as u32
}

/// The value of an ASCII digit.
pub open spec fn digit_value(c: char) -> nat {
    (c as u32 - '0' as u32) as nat
}

/// The ASCII digit for a value below ten.
pub open spec fn digit_char(n: nat) -> char {
    ('0' as u32 + n) as u8 as char
}

pub open spec fn all_digits(s: Seq<char>) -> bool {
    forall|i: int| 0 <= i < s.len() ==> is_digit(#[trigger] s[i])
}

/// The number that a run of digits denotes, most significant digit first.
pub open spec fn digits_value(s: Seq<char>) -> nat
    decreases s.len(),
{
    if s.len() == 0 {
        0
    } else {
        10 * digits_value(s.drop_last()) + digit_value(s.last())
    }
}

/// An unsigned decimal number: an optional `+`, then one or more digits and
/// nothing else, with a value that fits in a `usize`.
pub open spec fn parse_unsigned(s: Seq<char>) -> Option<usize> {
    let digits = if s.len() > 0 && s[0] == '+' {
        s.skip(1)
    } else {
        s
    };
    if digits.len() > 0 && all_digits(digits) && digits_value(digits) <= usize::MAX {
        Some(digits_value(digits) as usize)
    } else {
        None
    }
}

/// What a typed line means as a number: white space around it is ignored.
pub open spec fn parse_answer(line: Seq<char>) -> Option<usize> {
    parse_unsigned(trim(line))
}

/// A number in decimal, without sign or leading zeros.
pub open spec fn decimal(n: nat) -> Seq<char>
    decreases n,
{
    if n < 10 {
        seq![digit_char(n)]
    } else {
        decimal(n / 10).push(digit_char(n % 10))
    }
}

/// A longer run of digits denotes no smaller number than its beginning.
pub proof fn lemma_digits_value_prefix(s: Seq<char>, k: int)
    requires
        0 <= k <= s.len(),
    ensures
        digits_value(s.take(k)) <= digits_value(s),
    decreases s.len(),
{
    if k == s.len() {
        assert(s.take(k) =~= s);
    } else {
        assert(s.drop_last().take(k) =~= s.take(k));
        lemma_digits_value_prefix(s.drop_last(), k);
    }
}

fn white_space(c: char) -> (out: bool)
    ensures
        out == is_white_space(c),
{
    let n: u32 = c as u32;
    (0x09 <= n && n <= 0x0D) || n == 0x20 || n == 0x85 || n == 0xA0 || n == 0x1680 || (0x2000 <= n
        && n <= 0x200A) || n == 0x2028 || n == 0x2029 || n == 0x202F || n == 0x205F || n == 0x3000
}

fn chars_of(line: &str) -> (out: Vec<char>)
    ensures
        out@ == line@,
{
    broadcast use vstd::string::group_string_axioms;

    let mut out: Vec<char> = Vec::new();
    let mut rest = line.chars();
    let ghost mut taken: int = 0;
    loop
        invariant
            0 <= taken <= line@.len(),
            out@ == line@.take(taken),
            rest.remaining() == line@.skip(taken),
        ensures
            out@ == line@,
        decreases line@.len() - taken,
    {
        let ghost before = rest;
        match rest.next() {
            Some(c) => {
                out.push(c);
                proof {
                    assert(before.remaining()[0] == line@[taken]);
                    assert(line@.skip(taken).drop_first() =~= line@.skip(taken + 1));
                    assert(line@.take(taken).push(c) =~= line@.take(taken + 1));
                    taken = taken + 1;
                }
            },
            None => {
                proof {
                    assert(line@.take(taken) =~= line@);
                }
                break ;
            },
        }
    }
    out
}

/// Reads a typed line as a number.
pub fn read_answer(line: &str) -> (out: Option<usize>)
    ensures
        out == parse_answer(line@),
{
    let chars = chars_of(line);
    let n: usize = chars.len();
    let mut start: usize = 0;
    assert(chars@.skip(0) =~= chars@);
    while start < n && white_space(chars[start])
        invariant
            start <= n,
            n == chars@.len(),
            trim_start(chars@) == trim_start(chars@.skip(start as int)),
        decreases n - start,
    {
        proof {
            assert(chars@.skip(start as int).skip(1) =~= chars@.skip(start + 1));
        }
        start += 1;
    }
    assert(trim_start(chars@) == chars@.skip(start as int));
    let mut end: usize = n;
    proof {
        assert(chars@.skip(start as int) =~= chars@.subrange(start as int, end as int));
    }
    while end > start && white_space(chars[end - 1])
        invariant
            start <= end <= n,
            n == chars@.len(),
            trim(chars@) == trim_end(chars@.subrange(start as int, end as int)),
        decreases end - start,
    {
        proof {
            assert(chars@.subrange(start as int, end as int).drop_last() =~= chars@.subrange(
                start as int,
                end - 1,
            ));
        }
        end -= 1;
    }
    let ghost body = chars@.subrange(start as int, end as int);
    assert(trim(chars@) == body);
    let mut first: usize = start;
    if first < end && chars[first] == '+' {
        first += 1;
    }
    let ghost digits = chars@.subrange(first as int, end as int);
    proof {
        if first > start {
            assert(body.skip(1) =~= digits);
        } else {
            assert(body =~= digits);
        }
    }
    if first == end {
        return None;
    }
    let mut value: usize = 0;
    let mut i: usize = first;
    while i < end
        invariant
            first <= i <= end <= n,
            n == chars@.len(),
            digits == chars@.subrange(first as int, end as int),
            all_digits(digits.take(i - first)),
            value == digits_value(digits.take(i - first)),
            parse_answer(line@) == parse_unsigned(body),
            parse_unsigned(body) == (if all_digits(digits) && digits_value(digits) <= usize::MAX {
                Some(digits_value(digits) as usize)
            } else {
                None
            }),
        decreases end - i,
    {
        let c: char = chars[i];
        let code: u32 = c as u32;
        proof {
            assert(digits[i - first] == c);
            assert(digits.take(i - first + 1).drop_last() =~= digits.take(i - first));
            assert(digits.take(i - first + 1).last() == c);
        }
        if code < 48 || code > 57 {
            assert(!is_digit(digits[i - first]));
            return None;
        }
        let digit: usize = (code - 48) as usize;
        proof {
            lemma_digits_value_prefix(digits, i - first + 1);
        }
        let tens = match value.checked_mul(10) {
            Some(tens) => tens,
            None => {
                return None;
            },
        };
        value = match tens.checked_add(digit) {
            Some(value) => value,
            None => {
                return None;
            },
        };
        i += 1;
    }
    assert(digits.take(end - first) =~= digits);
    Some(value)
}

/// Appends `n` in decimal to `out`.
pub fn push_decimal(out: &mut String, n: usize)
    ensures
        final(out)@ == old(out)@ + decimal(n as nat),
    decreases n,
{
    if n >= 10 {
        push_decimal(out, n / 10);
    }
    out.append(digit_str((n % 10) as u8));
    proof {
        let ghost start = old(out)@;
        if n >= 10 {
            assert(final(out)@ =~= start + decimal(n as nat / 10).push(digit_char(n as nat % 10)));
        } else {
            assert(final(out)@ =~= start + seq![digit_char(n as nat)]);
        }
    }
}

fn digit_str(n: u8) -> (out: &'static str)
    requires
        n < 10,
    ensures
        out@ == seq![digit_char(n as nat)],
{
    proof {
        reveal_strlit("0");
        reveal_strlit("1");
        reveal_strlit("2");
        reveal_strlit("3");
        reveal_strlit("4");
        reveal_strlit("5");
        reveal_strlit("6");
        reveal_strlit("7");
        reveal_strlit("8");
        reveal_strlit("9");
    }
    let out = match n {
        0 => "0",
        1 => "1",
        2 => "2",
        3 => "3",
        4 => "4",
        5 => "5",
        6 => "6",
        7 => "7",
        8 => "8",
        _ => "9",
    };
    assert(out@ =~= seq![digit_char(n as nat)]);
    out
}

} // verus!
