//! Unsigned integers written in decimal, as `to_string` prints them and as
//! `str::parse` reads them.
use vstd::prelude::*;

verus! {

/// Whether `c` is one of the ASCII digits `0` to `9`.
pub open spec fn is_digit(c: char) -> bool {
    '0' <= c && c <= '9'
}

/// The value of an ASCII digit.
pub open spec fn digit_value(c: char) -> nat {
    (c as int - '0' as int) as nat
}

/// The ASCII digit that stands for `d` (for `d < 10`).
pub open spec fn digit_char(d: nat) -> char {
    (d + '0' as int) as char
}

/// Whether every character of `s` is an ASCII digit.
pub open spec fn all_digits(s: Seq<char>) -> bool {
    forall|i: int| 0 <= i < s.len() ==> #[trigger] is_digit(s[i])
}

/// The number that a string of digits denotes, most significant digit first.
pub open spec fn digits_value(s: Seq<char>) -> nat
    decreases s.len(),
{
    if s.len() == 0 {
        0
    } else {
        digits_value(s.drop_last()) * 10 + digit_value(s.last())
    }
}

/// The text after an optional leading `+`.
pub open spec fn unsigned_digits(s: Seq<char>) -> Seq<char> {
    if s.len() > 0 && s[0] == '+' {
        s.drop_first()
    } else {
        s
    }
}

/// The value of an unsigned integer literal in the grammar of `str::parse`
/// for unsigned types: an optional `+` followed by one or more ASCII digits.
/// `None` for any other text.
pub open spec fn unsigned_text_value(s: Seq<char>) -> Option<nat> {
    let digits = unsigned_digits(s);
    if digits.len() > 0 && all_digits(digits) {
        Some(digits_value(digits))
    } else {
        None
    }
}

/// What parsing `s` as an unsigned integer no larger than `max` gives.
pub open spec fn bounded_text_value(s: Seq<char>, max: nat) -> Option<nat> {
    match unsigned_text_value(s) {
        Some(v) => if v <= max { Some(v) } else { None },
        None => None,
    }
}

/// The shortest decimal writing of `n`, as `to_string` prints it.
pub open spec fn decimal_text(n: nat) -> Seq<char>
    decreases n,
{
    if n < 10 {
        seq![digit_char(n)]
    } else {
        decimal_text(n / 10).push(digit_char(n % 10))
    }
}

proof fn lemma_digit_char(d: nat)
    requires
        d < 10,
    ensures
        is_digit(digit_char(d)),
        digit_value(digit_char(d)) == d,
        digit_char(d) != '+',
{
}

proof fn lemma_decimal_text_digits(n: nat)
    ensures
        decimal_text(n).len() > 0,
        all_digits(decimal_text(n)),
        digits_value(decimal_text(n)) == n,
        decimal_text(n)[0] != '+',
    decreases n,
{
    lemma_digit_char(n % 10);
    assert(digits_value(Seq::<char>::empty()) == 0);
    if n < 10 {
        assert(seq![digit_char(n)].drop_last() =~= Seq::<char>::empty());
        assert(digits_value(seq![digit_char(n)]) == digit_value(digit_char(n)));
    } else {
        lemma_decimal_text_digits(n / 10);
        let s = decimal_text(n);
        assert(s.drop_last() =~= decimal_text(n / 10));
        assert(digits_value(s) == digits_value(decimal_text(n / 10)) * 10 + n % 10);
        assert forall|i: int| 0 <= i < s.len() implies #[trigger] is_digit(s[i]) by {
            if i < s.len() - 1 {
                assert(s[i] == decimal_text(n / 10)[i]);
            }
        }
    }
}

/// What `to_string` prints is made of digits only.
pub proof fn lemma_decimal_text_all_digits(n: nat)
    ensures
        all_digits(decimal_text(n)),
{
    lemma_decimal_text_digits(n);
}

/// Reading back what `to_string` prints gives the number that was printed.
pub proof fn lemma_decimal_round_trip(n: nat)
    ensures
        unsigned_text_value(decimal_text(n)) == Some(n),
{
    lemma_decimal_text_digits(n);
}

proof fn lemma_digits_value_prefix(s: Seq<char>, i: int)
    requires
        0 <= i <= s.len(),
    ensures
        digits_value(s.take(i)) <= digits_value(s),
    decreases s.len() - i,
{
    if i < s.len() {
        lemma_digits_value_prefix(s, i + 1);
        assert(s.take(i + 1).drop_last() =~= s.take(i));
        assert(digits_value(s.take(i + 1)) == digits_value(s.take(i)) * 10 + digit_value(
            s.take(i + 1).last(),
        ));
    } else {
        assert(s.take(i) =~= s);
    }
}

/// Appends the decimal writing of `n` to `out`.
pub(crate) fn push_decimal(out: &mut String, n: u64)
    ensures
        final(out)@ == old(out)@ + decimal_text(n as nat),
    decreases n,
{
    if n >= 10 {
        push_decimal(out, n / 10);
    }
    let d: usize = (n % 10) as usize;
    let digits = "0123456789";
    proof {
        reveal_strlit("0123456789");
    }
    let piece = digits.substring_char(d, d + 1);
    assert(piece@ =~= seq![digit_char(d as nat)]);
    out.append(piece);
    assert(out@ =~= old(out)@ + decimal_text(n as nat));
}

/// The decimal writing of `n`, as `n.to_string()` gives it.
pub fn u64_to_string(n: u64) -> (text: String)
    ensures
        text@ == decimal_text(n as nat),
{
    let mut out = String::new();
    push_decimal(&mut out, n);
    assert(out@ =~= decimal_text(n as nat));
    out
}

/// Parses `s` as an unsigned integer no larger than `max`, with the grammar
/// of `str::parse` for unsigned types.
fn parse_bounded(s: &str, max: u64) -> (value: Option<u64>)
    ensures
        value matches Some(v) ==> bounded_text_value(s@, max as nat) == Some(v as nat),
        value is None ==> bounded_text_value(s@, max as nat) is None,
{
    let len: usize = s.unicode_len();
    let mut start: usize = 0;
    if len > 0 && s.get_char(0) == '+' {
        start = 1;
    }
    let ghost digits: Seq<char> = unsigned_digits(s@);
    assert(digits =~= s@.subrange(start as int, len as int));
    if start == len {
        return None;
    }
    let mut acc: u64 = 0;
    let mut i: usize = start;
    while i < len
        invariant
            start <= i <= len,
            len == s@.len(),
            start < len,
            digits =~= s@.subrange(start as int, len as int),
            digits == unsigned_digits(s@),
            all_digits(digits.take(i - start)),
            acc as nat == digits_value(digits.take(i - start)),
            acc <= max,
        decreases len - i,
    {
        let c = s.get_char(i);
        assert(digits[i - start] == c);
        if !('0' <= c && c <= '9') {
            assert(!is_digit(digits[i - start]));
            return None;
        }
        let ghost k: int = i - start;
        assert(digits.take(k + 1).drop_last() =~= digits.take(k));
        assert(digits.take(k + 1).last() == c);
        let d: u64 = (c as u32 - '0' as u32) as u64;
        assert(d as nat == digit_value(c));
        if d > max || acc > (max - d) / 10 {
            proof {
                assert(digits_value(digits.take(k + 1)) == acc * 10 + d);
                assert(acc * 10 + d > max) by (nonlinear_arith)
                    requires
                        d > max || acc > (max - d) / 10,
                ;
                lemma_digits_value_prefix(digits, k + 1);
                assert(digits.take(len - start) =~= digits);
            }
            return None;
        }
        proof {
            assert(acc * 10 + d <= max) by (nonlinear_arith)
                requires
                    acc <= (max - d) / 10,
                    d <= 9,
            ;
            assert forall|j: int| 0 <= j < k + 1 implies #[trigger] is_digit(digits.take(k + 1)[j]) by {
                if j < k {
                    assert(digits.take(k + 1)[j] == digits.take(k)[j]);
                }
            }
        }
        acc = acc * 10 + d;
        i = i + 1;
    }
    assert(digits.take(len - start) =~= digits);
    Some(acc)
}

/// What `s.parse::<u64>()` gives: the value of an optional `+` followed by
/// decimal digits, or `None` for any other text and for values above
/// `u64::MAX`.
pub fn parse_u64(s: &str) -> (value: Option<u64>)
    ensures
        value matches Some(v) ==> bounded_text_value(s@, u64::MAX as nat) == Some(v as nat),
        value is None ==> bounded_text_value(s@, u64::MAX as nat) is None,
{
    parse_bounded(s, u64::MAX)
}

/// What `s.parse::<u32>()` gives: the value of an optional `+` followed by
/// decimal digits, or `None` for any other text and for values above
/// `u32::MAX`.
pub fn parse_u32(s: &str) -> (value: Option<u32>)
    ensures
        value matches Some(v) ==> bounded_text_value(s@, u32::MAX as nat) == Some(v as nat),
        value is None ==> bounded_text_value(s@, u32::MAX as nat) is None,
{
    match parse_bounded(s, u32::MAX as u64) {
        Some(v) => Some(v as u32),
        None => None,
    }
}

} // verus!
