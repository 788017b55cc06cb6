//! Decimal text of integers: the grammar by which tokens and path segments are
//! read as numbers, and the text in which numbers are written.

use crate::strings::chars_of;
use vstd::prelude::*;

verus! {

/// Whether `c` is one of the ASCII digits `0` to `9`.
pub open spec fn is_digit(c: char) -> bool {
    48 <= c as int && c as int <= 57
}

/// The number that a digit stands for; 0 for any other character.
pub open spec fn digit_value(c: char) -> nat {
    if is_digit(c) {
        (c as int - 48) as nat
    } else {
        0
    }
}

/// Whether `s` is a non-empty run of ASCII digits.
pub open spec fn all_digits(s: Seq<char>) -> bool {
    s.len() > 0 && forall|i: int| 0 <= i < s.len() ==> is_digit(#[trigger] s[i])
}

/// The number written by a run of digits, most significant digit first.
pub open spec fn digits_value(s: Seq<char>) -> nat
    decreases s.len(),
{
    if s.len() == 0 {
        0
    } else {
        digits_value(s.drop_last()) * 10 + digit_value(s.last())
    }
}

/// The integer that `s` writes: an optional `+` or `-` sign followed by one
/// or more digits and nothing else.
pub open spec fn signed_decimal(s: Seq<char>) -> Option<int> {
    if s.len() > 0 && s[0] == '-' {
        if all_digits(s.skip(1)) {
            Some(-(digits_value(s.skip(1)) as int))
        } else {
            None
        }
    } else if s.len() > 0 && s[0] == '+' {
        if all_digits(s.skip(1)) {
            Some(digits_value(s.skip(1)) as int)
        } else {
            None
        }
    } else if all_digits(s) {
        Some(digits_value(s) as int)
    } else {
        None
    }
}

/// The natural number that `s` writes: an optional `+` sign followed by one
/// or more digits and nothing else.
pub open spec fn unsigned_decimal(s: Seq<char>) -> Option<nat> {
    if s.len() > 0 && s[0] == '+' {
        if all_digits(s.skip(1)) {
            Some(digits_value(s.skip(1)))
        } else {
            None
        }
    } else if all_digits(s) {
        Some(digits_value(s))
    } else {
        None
    }
}

/// The sequence index that a path segment writes, if it writes one that fits
/// the machine's index type.
pub open spec fn index_of_text(s: Seq<char>) -> Option<usize> {
    match unsigned_decimal(s) {
        Some(v) => if v <= usize::MAX {
            Some(v as usize)
        } else {
            None
        },
        None => None,
    }
}

/// A longer run of digits never writes a smaller number than its prefix.
pub proof fn lemma_digits_value_prefix(s: Seq<char>, k: int)
    requires
        0 <= k <= s.len(),
    ensures
        digits_value(s.take(k)) <= digits_value(s),
    decreases s.len(),
{
    if k == s.len() {
        assert(s.take(k) =~= s);
    } else {
        lemma_digits_value_prefix(s.drop_last(), k);
        assert(s.drop_last().take(k) =~= s.take(k));
    }
}

/// Reads a path segment as a sequence index.
pub fn parse_index(s: &str) -> (r: Option<usize>)
    ensures
        r == index_of_text(s@),
{
    let cs: Vec<char> = chars_of(s);
    let n: usize = cs.len();
    let mut i: usize = 0;
    if n > 0 && cs[0] == '+' {
        i = 1;
    }
    if i == n {
        return None;
    }
    let start: usize = i;
    let ghost body = s@.skip(start as int);
    assert(unsigned_decimal(s@) == if all_digits(body) {
        Some(digits_value(body))
    } else {
        None::<nat>
    }) by {
        assert(s@.skip(0) =~= s@);
    }
    let mut acc: usize = 0;
    while i < n
        invariant
            start <= i <= n,
            cs@ == s@,
            n == s@.len(),
            body == s@.skip(start as int),
            unsigned_decimal(s@) == if all_digits(body) {
                Some(digits_value(body))
            } else {
                None::<nat>
            },
            forall|j: int| 0 <= j < i - start ==> is_digit(#[trigger] body[j]),
            acc == digits_value(body.take(i - start)),
        decreases n - i,
    {
        let c: char = cs[i];
        if !(c >= '0' && c <= '9') {
            assert(!is_digit(body[i - start]));
            return None;
        }
        let d: usize = (c as u32 - 48) as usize;
        proof {
            assert(body.take(i - start + 1).drop_last() =~= body.take(i - start));
            assert(body.take(i - start + 1).last() == c);
            assert(digits_value(body.take(i - start + 1)) == acc * 10 + d);
            lemma_digits_value_prefix(body, i - start + 1);
        }
        let shifted: usize = match acc.checked_mul(10) {
            Some(m) => m,
            None => { return None; },
        };
        acc = match shifted.checked_add(d) {
            Some(m) => m,
            None => { return None; },
        };
        i = i + 1;
    }
    proof {
        assert(body.take(n - start) =~= body);
    }
    Some(acc)
}

/// The signed 128-bit integer that a token writes, if it writes one.
pub open spec fn int128_of_text(s: Seq<char>) -> Option<i128> {
    match signed_decimal(s) {
        Some(v) => if i128::MIN <= v <= i128::MAX {
            Some(v as i128)
        } else {
            None
        },
        None => None,
    }
}

/// The digit that writes a number below ten.
pub open spec fn digit_char(d: nat) -> char {
    (48 + d) as char
}

/// The digits that write `n`, without leading zeros.
pub open spec fn digits_text(n: nat) -> Seq<char>
    decreases n,
{
    if n < 10 {
        seq![digit_char(n)]
    } else {
        digits_text(n / 10).push(digit_char(n % 10))
    }
}

/// The decimal text of an integer: its digits, after a `-` if it is negative.
pub open spec fn decimal_text(v: int) -> Seq<char> {
    if v < 0 {
        seq!['-'] + digits_text((-v) as nat)
    } else {
        digits_text(v as nat)
    }
}

/// The digits written for a number are digits, and write that number.
pub proof fn lemma_digits_text_value(n: nat)
    ensures
        all_digits(digits_text(n)),
        digits_value(digits_text(n)) == n,
    decreases n,
{
    if n < 10 {
        assert(digits_text(n).drop_last() =~= Seq::<char>::empty());
        assert(digits_value(digits_text(n).drop_last()) == 0);
    } else {
        lemma_digits_text_value(n / 10);
        assert(digits_text(n).drop_last() =~= digits_text(n / 10));
    }
}

/// Reading the decimal text of an integer gives that integer back.
pub proof fn lemma_decimal_text_read_back(v: int)
    ensures
        signed_decimal(decimal_text(v)) == Some(v),
{
    if v < 0 {
        lemma_digits_text_value((-v) as nat);
        assert(decimal_text(v).skip(1) =~= digits_text((-v) as nat));
    } else {
        lemma_digits_text_value(v as nat);
        let t = digits_text(v as nat);
        assert(is_digit(t[0]));
    }
}

/// Reads a token as a signed 128-bit integer by `cosmwasm_std::Int128`'s `FromStr`,
/// which hands the text to `i128`'s own: an optional sign, then decimal digits only,
/// the number within the type's range. Any other text gives `None`.
#[verifier::external_body]
pub(crate) fn parse_int128(s: &str) -> (r: Option<i128>)
    ensures
        r == int128_of_text(s@),
{
    match s.parse::<cosmwasm_std::Int128>() {
        Ok(v) => Some(v.i128()),
        Err(_) => None,
    }
}

/// Writes a signed 128-bit integer by `cosmwasm_std::Int128`'s `Display`, which is
/// `i128`'s own: the decimal digits without leading zeros, after a `-` for a
/// negative number.
#[verifier::external_body]
pub(crate) fn int128_to_string(v: i128) -> (r: String)
    ensures
        r@ == decimal_text(v as int),
{
    cosmwasm_std::Int128::new(v).to_string()
}

} // verus!
