//! Decimal numbers written in text and read from it.

use vstd::prelude::*;

verus! {

/// The character of the digit `d`.
pub open spec fn digit_char(d: nat) -> char {
    (48 + d) as char
}

/// `n` in decimal, without leading zeros.
pub open spec fn decimal(n: nat) -> Seq<char>
    decreases n,
{
    if n < 10 {
        seq![digit_char(n)]
    } else {
        decimal(n / 10).push(digit_char(n % 10))
    }
}

fn digit_text(d: u64) -> (r: &'static str)
    requires
        d < 10,
    ensures
        r@ == seq![digit_char(d as nat)],
{
    proof {
        reveal_strlit("0");
        reveal_strlit("1");
        reveal_strlit("2");
        reveal_strlit("3");
        reveal_strlit("4");
        reveal_strlit("5");
        reveal_strlit("6");
        reveal_strlit("7");
        reveal_strlit("8");
        reveal_strlit("9");
    }
    let r = match d {
        0 => "0",
        1 => "1",
        2 => "2",
        3 => "3",
        4 => "4",
        5 => "5",
        6 => "6",
        7 => "7",
        8 => "8",
        _ => "9",
    };
    assert(r@ =~= seq![digit_char(d as nat)]);
    r
}

/// Writes `n` in decimal at the end of `out`.
pub fn append_decimal(out: &mut String, n: u64)
    ensures
        final(out)@ == old(out)@ + decimal(n as nat),
    decreases n,
{
    if n >= 10 {
        append_decimal(out, n / 10);
        out.append(digit_text(n % 10));
        assert(out@ =~= old(out)@ + decimal(n as nat));
    } else {
        out.append(digit_text(n));
    }
}

/// Whether `c` is one of the ten ASCII digits.
pub open spec fn is_digit(c: char) -> bool {
    '0' <= c <= '9'
}

/// The number that the decimal digits `s` stand for.
pub open spec fn digits_value(s: Seq<char>) -> nat
    decreases s.len(),
{
    if s.len() == 0 {
        0
    } else {
        (digits_value(s.drop_last()) * 10 + (s.last() as int - 48)) as nat
    }
}

/// Whether `s` holds digits only.
pub open spec fn all_digits(s: Seq<char>) -> bool {
    forall|i: int| 0 <= i < s.len() ==> is_digit(#[trigger] s[i])
}

/// `s` without the `+` that may stand before its digits.
pub open spec fn after_sign(s: Seq<char>) -> Seq<char> {
    if s.len() > 0 && s[0] == '+' {
        s.drop_first()
    } else {
        s
    }
}

/// The machine integer that `s` spells: an optional `+`, then at least one
/// digit and nothing else, with a value that fits.
pub open spec fn parsed_usize(s: Seq<char>) -> Option<usize> {
    let digits = after_sign(s);
    if digits.len() > 0 && all_digits(digits) && digits_value(digits) <= usize::MAX {
        Some(digits_value(digits) as usize)
    } else {
        None
    }
}

proof fn lemma_prefix_value(s: Seq<char>, n: int)
    requires
        0 <= n <= s.len(),
        all_digits(s),
    ensures
        digits_value(s.take(n)) <= digits_value(s),
    decreases s.len(),
{
    if n == s.len() {
        assert(s.take(n) =~= s);
    } else {
        let t = s.drop_last();
        lemma_prefix_value(t, n);
        assert(t.take(n) =~= s.take(n));
        assert(is_digit(s[s.len() - 1]));
    }
}

/// Reads a machine integer as `parsed_usize` says.
pub fn parse_usize(text: &str) -> (r: Option<usize>)
    ensures
        r == parsed_usize(text@),
{
    let n: usize = text.unicode_len();
    let skip: usize = if n > 0 && text.get_char(0) == '+' {
        1
    } else {
        0
    };
    if n == skip {
        return None;
    }
    let ghost digits = after_sign(text@);
    assert(digits =~= text@.skip(skip as int));
    let mut value: usize = 0;
    let mut i: usize = 0;
    assert(digits.take(0) =~= Seq::<char>::empty());
    for c in it: text.chars()
        invariant
            it.seq() == text@,
            i == it.index(),
            n == text@.len(),
            skip < n,
            skip == 0 || skip == 1,
            digits == text@.skip(skip as int),
            digits == after_sign(text@),
            i < skip ==> value == 0,
            i >= skip ==> value == digits_value(digits.take(i - skip)),
            forall|j: int| 0 <= j < i - skip ==> is_digit(#[trigger] digits[j]),
            i == 0 ==> value == 0,
    {
        if i >= skip {
            let ghost k: int = i - skip;
            assert(digits[k] == c);
            if !('0' <= c && c <= '9') {
                return None;
            }
            assert(digits.take(k + 1).drop_last() =~= digits.take(k));
            assert(digits.take(k + 1).last() == c);
            let d: usize = (c as u32 - 48) as usize;
            let shifted: Option<usize> = value.checked_mul(10);
            let grown: Option<usize> = match shifted {
                Some(v) => v.checked_add(d),
                None => None,
            };
            match grown {
                Some(v) => {
                    value = v;
                },
                None => {
                    proof {
                        if all_digits(digits) {
                            lemma_prefix_value(digits, k + 1);
                        }
                    }
                    return None;
                },
            }
        } else {
            assert(digits.take(0) =~= Seq::<char>::empty());
        }
        i = i + 1;
    }
    assert(digits.take(n - skip) =~= digits);
    Some(value)
}

/// A number is written digit by digit: the digits of its tens, and then its ones.
pub proof fn decimal_is_written_digit_by_digit(n: nat, d: nat)
    requires
        d < 10,
    ensures
        decimal(d).len() == 1,
        decimal(d)[0] as int == '0' as int + d,
        n > 0 ==> decimal(10 * n + d).drop_last() == decimal(n),
        n > 0 ==> decimal(10 * n + d).last() as int == '0' as int + d,
{
    if n > 0 {
        assert((10 * n + d) / 10 == n);
        assert((10 * n + d) % 10 == d);
        assert(decimal(10 * n + d).drop_last() =~= decimal(n));
    }
}

/// One more digit makes a number ten times as large, and adds the digit.
pub proof fn digits_count_by_tens(s: Seq<char>, c: char)
    requires
        '0' <= c <= '9',
    ensures
        digits_value(Seq::empty()) == 0,
        digits_value(s.push(c)) == 10 * digits_value(s) + (c as int - '0' as int),
{
    assert(s.push(c).drop_last() =~= s);
}

/// Digits are read as the number that they spell if a machine integer can hold it, with
/// a `+` before them or without. A text without digits, or with anything else in it, is
/// no number.
pub proof fn only_digits_are_read(s: Seq<char>)
    ensures
        s.len() > 0 && (forall|i: int| 0 <= i < s.len() ==> '0' <= #[trigger] s[i] <= '9') ==> {
            &&& digits_value(s) <= usize::MAX ==> parsed_usize(s) == Some(
                digits_value(s) as usize,
            )
            &&& digits_value(s) > usize::MAX ==> parsed_usize(s) is None
            &&& parsed_usize(seq!['+'] + s) == parsed_usize(s)
        },
        s.len() == 0 ==> parsed_usize(s) is None && parsed_usize(seq!['+'] + s) is None,
        forall|i: int|
            0 < i < s.len() && !('0' <= #[trigger] s[i] <= '9') ==> parsed_usize(s) is None,
        s.len() > 0 && s[0] != '+' && !('0' <= s[0] <= '9') ==> parsed_usize(s) is None,
{
    let signed = seq!['+'] + s;
    assert(after_sign(signed) =~= s);
    if s.len() > 0 && '0' <= s[0] <= '9' {
        assert(after_sign(s) == s);
    }
    assert forall|i: int|
        0 < i < s.len() && !('0' <= #[trigger] s[i] <= '9') implies parsed_usize(s) is None by {
        let digits = after_sign(s);
        if s[0] == '+' {
            assert(digits[i - 1] == s[i]);
        } else {
            assert(digits[i] == s[i]);
        }
    }
    if s.len() > 0 && s[0] != '+' {
        assert(after_sign(s)[0] == s[0]);
    }
}

proof fn lemma_decimal_value(n: nat)
    ensures
        decimal(n).len() > 0,
        all_digits(decimal(n)),
        digits_value(decimal(n)) == n,
    decreases n,
{
    if n >= 10 {
        lemma_decimal_value(n / 10);
        assert(decimal(n).drop_last() =~= decimal(n / 10));
    } else {
        assert(decimal(n).drop_last() =~= Seq::empty());
        assert(digits_value(decimal(n).drop_last()) == 0);
    }
}

/// A number that was written is read back.
pub proof fn written_number_is_read_back(n: usize)
    ensures
        parsed_usize(decimal(n as nat)) == Some(n),
{
    lemma_decimal_value(n as nat);
    assert(is_digit(decimal(n as nat)[0]));
}

} // verus!
