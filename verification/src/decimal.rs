//! Identifiers written in decimal.
//!
//! An identifier is rendered as plain decimal digits, without sign or
//! padding. It is read back from an optional `+` followed by decimal digits;
//! leading zeros are accepted.

use vstd::prelude::*;
use vstd::string::StringExecFns;

verus! {

/// Why a text is not an identifier.
#[derive(Debug, Clone, Copy, PartialEq, Eq)]
pub enum NumberError {
    /// The text is empty, a lone sign, or holds something other than digits.
    Malformed,
    /// The digits name a number beyond `usize::MAX`.
    TooLarge,
}

/// `c` is one of `0` to `9`.
pub open spec fn is_digit(c: char) -> bool {
    '0' <= c && c <= '9'
}

/// The number that the digit `c` stands for; 0 for any other character.
pub open spec fn digit_value(c: char) -> nat {
    if is_digit(c) {
        (c as int - '0' as int) as nat
    } else {
        0
    }
}

/// The digit that stands for `d`.
pub open spec fn digit_char(d: nat) -> char
    recommends
        d < 10,
{
    (d + '0' as nat) as char
}

/// The number that `s` denotes when read as decimal digits, most
/// significant first.
pub open spec fn decimal_value(s: Seq<char>) -> nat
    decreases s.len(),
{
    if s.len() == 0 {
        0
    } else {
        decimal_value(s.drop_last()) * 10 + digit_value(s.last())
    }
}

/// The first `k` characters of `s` are digits and the next one, if there is
/// one, is not.
pub open spec fn is_digit_run(s: Seq<char>, k: int) -> bool {
    &&& 0 <= k <= s.len()
    &&& forall|j: int| 0 <= j < k ==> is_digit(#[trigger] s[j])
    &&& k < s.len() ==> !is_digit(s[k])
}

/// The number of digits that `s` begins with.
pub open spec fn digit_run(s: Seq<char>) -> int {
    choose|k: int| is_digit_run(s, k)
}

/// `n` in decimal digits, without leading zeros.
pub open spec fn decimal(n: nat) -> Seq<char>
    decreases n,
{
    if n < 10 {
        seq![digit_char(n)]
    } else {
        decimal(n / 10).push(digit_char(n % 10))
    }
}

/// `s` without a leading `+`.
pub open spec fn unsigned_part(s: Seq<char>) -> Seq<char> {
    if s.len() > 0 && s[0] == '+' {
        s.skip(1)
    } else {
        s
    }
}

/// The identifier that `s` denotes.
///
/// The text is read from the left. It is too large as soon as the digits
/// read so far exceed `usize::MAX`, whatever follows them; otherwise it is
/// malformed if it is empty, a lone `+`, or holds a character that is not a
/// digit.
pub open spec fn number(s: Seq<char>) -> Result<nat, NumberError> {
    let body = unsigned_part(s);
    if body.len() == 0 {
        Err(NumberError::Malformed)
    } else if decimal_value(body.take(digit_run(body))) > usize::MAX {
        Err(NumberError::TooLarge)
    } else if digit_run(body) < body.len() {
        Err(NumberError::Malformed)
    } else {
        Ok(decimal_value(body))
    }
}

/// Every sequence begins with a run of digits, possibly empty.
pub proof fn lemma_digit_run_exists(s: Seq<char>, from: int)
    requires
        0 <= from <= s.len(),
        forall|j: int| 0 <= j < from ==> is_digit(#[trigger] s[j]),
    ensures
        is_digit_run(s, digit_run(s)),
        from <= digit_run(s),
    decreases s.len() - from,
{
    if from < s.len() && is_digit(s[from]) {
        lemma_digit_run_exists(s, from + 1);
    } else {
        assert(is_digit_run(s, from));
        lemma_digit_run_unique(s, from, digit_run(s));
    }
}

/// A sequence has one run of leading digits.
pub proof fn lemma_digit_run_unique(s: Seq<char>, a: int, b: int)
    requires
        is_digit_run(s, a),
        is_digit_run(s, b),
    ensures
        a == b,
{
    if a < b {
        assert(is_digit(s[a]));
    }
    if b < a {
        assert(is_digit(s[b]));
    }
}

/// A longer prefix denotes no smaller number.
pub proof fn lemma_decimal_value_grows(s: Seq<char>, a: int, b: int)
    requires
        0 <= a <= b <= s.len(),
    ensures
        decimal_value(s.take(a)) <= decimal_value(s.take(b)),
    decreases b - a,
{
    if a < b {
        lemma_decimal_value_grows(s, a, b - 1);
        assert(s.take(b).drop_last() == s.take(b - 1));
    }
}

/// The decimal digits of a number are digits, and denote it.
pub proof fn lemma_decimal_digits(n: nat)
    ensures
        decimal(n).len() > 0,
        forall|j: int| 0 <= j < decimal(n).len() ==> is_digit(#[trigger] decimal(n)[j]),
        decimal_value(decimal(n)) == n,
    decreases n,
{
    if n < 10 {
        assert(decimal(n).drop_last() == Seq::<char>::empty());
        assert(decimal_value(decimal(n).drop_last()) == 0);
    } else {
        lemma_decimal_digits(n / 10);
        assert(decimal(n).drop_last() == decimal(n / 10));
    }
}

/// A number that fits is read back from its decimal digits.
pub proof fn lemma_number_of_decimal(n: nat)
    requires
        n <= usize::MAX,
    ensures
        number(decimal(n)) == Ok::<nat, NumberError>(n),
{
    let s = decimal(n);
    lemma_decimal_digits(n);
    assert(is_digit(s[0]));
    assert(unsigned_part(s) == s);
    assert(is_digit_run(s, s.len() as int));
    lemma_digit_run_exists(s, 0);
    lemma_digit_run_unique(s, s.len() as int, digit_run(s));
    assert(s.take(s.len() as int) == s);
}

/// A text denotes only numbers that fit in `usize`.
pub proof fn lemma_number_fits(s: Seq<char>)
    ensures
        number(s) matches Ok(n) ==> n <= usize::MAX,
{
    let body = unsigned_part(s);
    lemma_digit_run_exists(body, 0);
    assert(body.take(body.len() as int) == body);
}

/// The number that a digit stands for.
fn digit_of(c: char) -> (d: Option<usize>)
    ensures
        match d {
            Some(d) => is_digit(c) && d == digit_value(c),
            None => !is_digit(c),
        },
{
    if '0' <= c && c <= '9' {
        Some((c as u32 - '0' as u32) as usize)
    } else {
        None
    }
}

/// Reads the identifier that `text` denotes.
pub fn parse_number(text: &[char]) -> (r: Result<usize, NumberError>)
    ensures
        match r {
            Ok(n) => number(text@) == Ok::<nat, NumberError>(n as nat),
            Err(e) => number(text@) == Err::<nat, NumberError>(e),
        },
{
    let end = text.len();
    let start: usize = if end > 0 && text[0] == '+' {
        1
    } else {
        0
    };
    let ghost body = unsigned_part(text@);
    assert(body == text@.subrange(start as int, end as int));
    if start == end {
        return Err(NumberError::Malformed);
    }
    let mut acc: usize = 0;
    let mut i: usize = start;
    while i < end
        invariant
            start <= i <= end,
            start < end,
            end == text.len(),
            body == unsigned_part(text@),
            body == text@.subrange(start as int, end as int),
            forall|j: int| 0 <= j < i - start ==> is_digit(#[trigger] body[j]),
            acc == decimal_value(body.take(i - start)),
        decreases end - i,
    {
        let ghost k = i - start;
        match digit_of(text[i]) {
            None => {
                proof {
                    assert(is_digit_run(body, k));
                    lemma_digit_run_exists(body, k);
                    lemma_digit_run_unique(body, k, digit_run(body));
                }
                return Err(NumberError::Malformed);
            },
            Some(d) => {
                proof {
                    assert(body.take(k + 1).drop_last() == body.take(k));
                    assert(decimal_value(body.take(k + 1)) == acc * 10 + d);
                }
                if acc > (usize::MAX - d) / 10 {
                    proof {
                        lemma_digit_run_exists(body, k + 1);
                        lemma_decimal_value_grows(body, k + 1, digit_run(body));
                    }
                    return Err(NumberError::TooLarge);
                }
                acc = acc * 10 + d;
            },
        }
        i += 1;
    }
    proof {
        assert(is_digit_run(body, body.len() as int));
        lemma_digit_run_exists(body, body.len() as int);
        assert(body.take(body.len() as int) == body);
    }
    Ok(acc)
}

/// The one-character string of a digit.
fn digit_str(d: usize) -> (s: &'static str)
    requires
        d < 10,
    ensures
        s@ == seq![digit_char(d as nat)],
{
    proof {
        reveal_strlit("0");
        reveal_strlit("1");
        reveal_strlit("2");
        reveal_strlit("3");
        reveal_strlit("4");
        reveal_strlit("5");
        reveal_strlit("6");
        reveal_strlit("7");
        reveal_strlit("8");
        reveal_strlit("9");
    }
    let s = match d {
        0 => "0",
        1 => "1",
        2 => "2",
        3 => "3",
        4 => "4",
        5 => "5",
        6 => "6",
        7 => "7",
        8 => "8",
        _ => "9",
    };
    assert(s@ =~= seq![digit_char(d as nat)]);
    s
}

/// Appends `n` in decimal digits to `out`.
pub fn push_decimal(out: &mut String, n: usize)
    ensures
        final(out)@ == old(out)@ + decimal(n as nat),
    decreases n,
{
    if n >= 10 {
        push_decimal(out, n / 10);
    }
    out.append(digit_str(n % 10));
    proof {
        if n < 10 {
            assert(old(out)@ + seq![digit_char(n as nat)] =~= old(out)@ + decimal(n as nat));
        } else {
            assert((old(out)@ + decimal((n / 10) as nat)) + seq![digit_char((n % 10) as nat)]
                =~= old(out)@ + decimal(n as nat));
        }
    }
}

} // verus!
