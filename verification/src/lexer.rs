//! Lexical classifier: decides whether a token is a Number, a String
//! (bare identifier), or a Pointer (`@`-prefixed identifier).
//!
//! The three predicates are mutually exclusive; `lemma_token_classes_exclusive`
//! states that law.

use vstd::prelude::*;

use crate::chars::digit_val;
use crate::chars::exec_is_alnum;
use crate::chars::exec_is_digit;
use crate::chars::exec_is_letter;
use crate::chars::is_alnum_char;
use crate::chars::is_digit_char;
use crate::chars::is_letter_char;

verus! {

/// Every character of `s` is an ASCII digit.
pub open spec fn all_digits(s: Seq<char>) -> bool {
    forall|i: int| 0 <= i < s.len() ==> is_digit_char(s[i])
}

/// The numeric value of a run of digit characters, most significant first.
pub open spec fn digits_val(s: Seq<char>) -> int
    decreases s.len(),
{
    if s.len() == 0 {
        0
    } else {
        digits_val(s.drop_last()) * 10 + digit_val(s.last())
    }
}

/// Number token: optional leading `-`, then one or more digits, with a
/// value that fits a 64-bit signed integer.
pub open spec fn is_number_tok(s: Seq<char>) -> bool {
    if s.len() == 0 {
        false
    } else if s[0] == '-' {
        let d = s.skip(1);
        d.len() > 0 && all_digits(d) && digits_val(d) <= 0x8000000000000000
    } else {
        all_digits(s) && digits_val(s) <= 0x7fffffffffffffff
    }
}

/// The signed value of a number token.
pub open spec fn number_val(s: Seq<char>) -> int {
    if s.len() > 0 && s[0] == '-' {
        -digits_val(s.skip(1))
    } else {
        digits_val(s)
    }
}

/// String token: a letter followed by letters and digits only.
pub open spec fn is_string_tok(s: Seq<char>) -> bool {
    s.len() > 0 && is_letter_char(s[0]) && (forall|i: int|
        0 <= i < s.len() ==> is_alnum_char(s[i]))
}

/// Pointer token: `@` followed by a string token.
pub open spec fn is_pointer_tok(s: Seq<char>) -> bool {
    s.len() > 0 && s[0] == '@' && is_string_tok(s.skip(1))
}

/// No token is in two classes at once: a number starts with a digit or
/// `-`, a string with a letter, a pointer with `@`.
pub proof fn lemma_token_classes_exclusive(s: Seq<char>)
    ensures
        !(is_number_tok(s) && is_string_tok(s)),
        !(is_number_tok(s) && is_pointer_tok(s)),
        !(is_string_tok(s) && is_pointer_tok(s)),
{
    if s.len() > 0 {
        if is_number_tok(s) && s[0] != '-' {
            assert(is_digit_char(s[0]));
        }
    }
}

/// The value of a digit run is never negative.
proof fn lemma_digits_val_nonneg(s: Seq<char>)
    requires
        all_digits(s),
    ensures
        digits_val(s) >= 0,
    decreases s.len(),
{
    if s.len() > 0 {
        assert(all_digits(s.drop_last()));
        lemma_digits_val_nonneg(s.drop_last());
    }
}

/// Extending a digit run never shrinks its value.
proof fn lemma_digits_val_prefix_le(s: Seq<char>, j: int)
    requires
        all_digits(s),
        0 <= j <= s.len(),
    ensures
        digits_val(s.take(j)) <= digits_val(s),
    decreases s.len() - j,
{
    if j == s.len() {
        assert(s.take(j) =~= s);
    } else {
        assert(s.take(j + 1).drop_last() =~= s.take(j));
        assert(all_digits(s.take(j)));
        lemma_digits_val_nonneg(s.take(j));
        assert(digits_val(s.take(j + 1)) == digits_val(s.take(j)) * 10 + digit_val(s[j]));
        lemma_digits_val_prefix_le(s, j + 1);
    }
}

/// Parses a number token into its value; `None` exactly when the token is
/// not a number (wrong shape, or out of the 64-bit range).
pub fn parse_i64(s: &str) -> (r: Option<i64>)
    ensures
        r is Some <==> is_number_tok(s@),
        r is Some ==> r->0 as int == number_val(s@),
{
    let n = s.unicode_len();
    if n == 0 {
        return None;
    }
    let neg = s.get_char(0) == '-';
    let start: usize = if neg {
        1
    } else {
        0
    };
    if start >= n {
        return None;
    }
    let ghost digits = s@.skip(start as int);
    assert(digits =~= s@.subrange(start as int, n as int));
    let mut acc: i64 = 0;
    let mut i: usize = start;
    while i < n
        invariant
            start <= i <= n,
            n == s@.len(),
            start < n,
            neg == (s@[0] == '-'),
            start == if neg {
                1int
            } else {
                0int
            },
            digits == s@.subrange(start as int, n as int),
            all_digits(digits.take(i - start)),
            acc as int == -digits_val(digits.take(i - start)),
        decreases n - i,
    {
        let c = s.get_char(i);
        assert(digits[i - start] == s@[i as int]);
        if !exec_is_digit(c) {
            assert(!all_digits(digits));
            return None;
        }
        let d = (c as u32 - '0' as u32) as i64;
        proof {
            assert(all_digits(digits.take(i + 1 - start))) by {
                assert(forall|k: int|
                    0 <= k < i + 1 - start ==> digits.take(i + 1 - start)[k] == digits[k]);
            }
            assert(digits.take(i + 1 - start).drop_last() =~= digits.take(i - start));
            assert(digits_val(digits.take(i + 1 - start)) == digits_val(digits.take(i - start))
                * 10 + digit_val(digits[i - start]));
        }
        let step = match acc.checked_mul(10) {
            Some(m) => m.checked_sub(d),
            None => None,
        };
        match step {
            Some(next) => {
                acc = next;
            },
            None => {
                proof {
                    let p = digits.take(i + 1 - start);
                    lemma_digits_val_nonneg(digits.take(i - start));
                    assert(digits_val(p) > 0x8000000000000000);
                    if all_digits(digits) {
                        lemma_digits_val_prefix_le(digits, i + 1 - start);
                        assert(digits_val(digits) > 0x8000000000000000);
                    }
                    if neg {
                        assert(digits =~= s@.skip(1));
                    } else {
                        assert(digits =~= s@);
                    }
                    assert(!is_number_tok(s@));
                }
                return None;
            },
        }
        i = i + 1;
    }
    proof {
        assert(digits.take(n - start) =~= digits);
        if neg {
            assert(digits =~= s@.skip(1));
        } else {
            assert(digits =~= s@);
        }
    }
    if neg {
        assert(is_number_tok(s@));
        Some(acc)
    } else {
        if acc == i64::MIN {
            assert(digits_val(digits) == 0x8000000000000000);
            assert(!is_number_tok(s@));
            return None;
        }
        Some(-acc)
    }
}

/// Checks whether `s` is a Number token (`-?[0-9]+`, in 64-bit range).
pub fn check_numeric(s: &str) -> (b: bool)
    ensures
        b == is_number_tok(s@),
{
    parse_i64(s).is_some()
}

/// Checks whether `s` is a String token (letter, then letters/digits).
pub fn check_string(s: &str) -> (b: bool)
    ensures
        b == is_string_tok(s@),
{
    let n = s.unicode_len();
    if n == 0 {
        return false;
    }
    if !exec_is_letter(s.get_char(0)) {
        return false;
    }
    let mut i: usize = 0;
    while i < n
        invariant
            0 <= i <= n,
            n == s@.len(),
            forall|k: int| 0 <= k < i ==> is_alnum_char(s@[k]),
        decreases n - i,
    {
        if !exec_is_alnum(s.get_char(i)) {
            return false;
        }
        i = i + 1;
    }
    true
}

/// Checks whether `s` is a Pointer token (`@` followed by a String token).
pub fn check_pointer(s: &str) -> (b: bool)
    ensures
        b == is_pointer_tok(s@),
{
    let n = s.unicode_len();
    if n < 2 {
        return false;
    }
    if s.get_char(0) != '@' {
        return false;
    }
    let rest = s.substring_char(1, n);
    assert(rest@ =~= s@.skip(1));
    check_string(rest)
}

} // verus!
