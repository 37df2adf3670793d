//! Small verified text utilities: comparison, slicing into owned strings,
//! and exact decimal parsing of 64-bit integers.

use vstd::prelude::*;
use vstd::string::StrSliceExecFns;
use vstd::string::StringExecFns;

verus! {

/// Whether two string slices hold the same characters.
pub fn str_eq(a: &str, b: &str) -> (r: bool)
    ensures
        r == (a@ == b@),
{
    let na: usize = a.unicode_len();
    let nb: usize = b.unicode_len();
    if na != nb {
        return false;
    }
    let mut i: usize = 0;
    while i < na
        invariant
            i <= na,
            na == a@.len(),
            nb == b@.len(),
            na == nb,
            forall|j: int| 0 <= j < i ==> a@[j] == b@[j],
        decreases na - i,
    {
        if a.get_char(i) != b.get_char(i) {
            return false;
        }
        i = i + 1;
    }
    proof {
        assert(a@ =~= b@);
    }
    true
}

/// An owned copy of `s[from..to]`, counted in characters.
pub fn substring(s: &str, from: usize, to: usize) -> (r: String)
    requires
        from <= to <= s@.len(),
    ensures
        r@ == s@.subrange(from as int, to as int),
{
    let piece: &str = s.substring_char(from, to);
    piece.to_owned()
}

/// Whether `c` is a decimal digit.
pub open spec fn is_digit(c: char) -> bool {
    '0' <= c && c <= '9'
}

/// The value of one digit.
pub open spec fn digit_val(c: char) -> int {
    c as int - '0' as int
}

/// Whether every character of `s` is a digit.
pub open spec fn all_digits(s: Seq<char>) -> bool {
    forall|i: int| 0 <= i < s.len() ==> is_digit(#[trigger] s[i])
}

/// The value of a digit string read in base ten.
pub open spec fn dec_val(s: Seq<char>) -> int
    decreases s.len(),
{
    if s.len() == 0 {
        0
    } else {
        dec_val(s.drop_last()) * 10 + digit_val(s.last())
    }
}

/// Whether `s` is valid decimal text for an `i64`: an optional minus sign,
/// then at least one digit, with the value representable.
pub open spec fn valid_i64_text(s: Seq<char>) -> bool {
    if s.len() > 0 && s[0] == '-' {
        let digits = s.drop_first();
        digits.len() > 0 && all_digits(digits) && -dec_val(digits) >= i64::MIN as int
    } else {
        s.len() > 0 && all_digits(s) && dec_val(s) <= i64::MAX as int
    }
}

/// The value the text denotes; meaningful when [`valid_i64_text`] holds.
pub open spec fn i64_text_val(s: Seq<char>) -> int {
    if s.len() > 0 && s[0] == '-' {
        -dec_val(s.drop_first())
    } else {
        dec_val(s)
    }
}

/// A digit string's value is non-negative.
pub proof fn lemma_dec_val_nonneg(s: Seq<char>)
    requires
        all_digits(s),
    ensures
        dec_val(s) >= 0,
    decreases s.len(),
{
    if s.len() > 0 {
        assert(all_digits(s.drop_last())) by {
            assert(forall|i: int|
                0 <= i < s.len() - 1 ==> s.drop_last()[i] == #[trigger] s[i]);
        }
        lemma_dec_val_nonneg(s.drop_last());
    }
}

/// A digit string's value only grows as digits are appended: the value of a
/// prefix never exceeds the value of the whole.
pub proof fn lemma_dec_val_prefix(s: Seq<char>, j: int)
    requires
        all_digits(s),
        0 <= j <= s.len(),
    ensures
        dec_val(s.take(j)) <= dec_val(s),
    decreases s.len() - j,
{
    if j < s.len() {
        lemma_dec_val_prefix(s, j + 1);
        let p = s.take(j + 1);
        assert(p.drop_last() =~= s.take(j));
        assert(all_digits(s.take(j))) by {
            assert(forall|i: int| 0 <= i < j ==> s.take(j)[i] == #[trigger] s[i]);
        }
        lemma_dec_val_nonneg(s.take(j));
        assert(dec_val(p) == dec_val(s.take(j)) * 10 + digit_val(p.last()));
        assert(dec_val(s.take(j)) * 10 >= dec_val(s.take(j)));
    } else {
        assert(s.take(j) =~= s);
    }
}

/// Parses decimal text as an `i64`: `Some` exactly for valid text, with the
/// exact value.
pub fn parse_i64_str(s: &str) -> (r: Option<i64>)
    ensures
        r is Some <==> valid_i64_text(s@),
        r matches Some(n) ==> n as int == i64_text_val(s@),
{
    let n: usize = s.unicode_len();
    if n == 0 {
        return None;
    }
    let neg: bool = s.get_char(0) == '-';
    let start: usize = if neg {
        1
    } else {
        0
    };
    if start >= n {
        return None;
    }
    let ghost digits = if neg {
        s@.drop_first()
    } else {
        s@
    };
    let mut acc: u64 = 0;
    let mut i: usize = start;
    while i < n
        invariant
            start <= i <= n,
            n == s@.len(),
            start == if neg { 1int } else { 0int },
            neg == (s@[0] == '-'),
            start < n,
            digits == if neg { s@.drop_first() } else { s@ },
            digits.len() == n - start,
            forall|j: int| 0 <= j < i - start ==> is_digit(#[trigger] digits[j]),
            forall|j: int| 0 <= j < digits.len() ==> digits[j] == s@[j + start],
            acc as int == dec_val(digits.take(i - start)),
        decreases n - i,
    {
        let c: char = s.get_char(i);
        if !('0' <= c && c <= '9') {
            proof {
                assert(digits[i - start] == s@[i - start + start]);
                assert(!is_digit(digits[i - start]));
                assert(!all_digits(digits));
            }
            return None;
        }
        let d: u64 = (c as u32) as u64 - ('0' as u32) as u64;
        if acc > (u64::MAX - 9) / 10 {
            // The value read so far already exceeds any representable i64;
            // more digits only grow it.
            proof {
                let k = i - start;
                assert(all_digits(digits.take(k + 1))) by {
                    assert(forall|j: int|
                        0 <= j < k + 1 ==> digits.take(k + 1)[j] == #[trigger] digits[j]);
                }
                assert(digits.take(k + 1).drop_last() =~= digits.take(k));
                assert(dec_val(digits.take(k + 1)) == acc as int * 10 + digit_val(c));
                assert(dec_val(digits.take(k + 1)) > 9223372036854775808int);
                if all_digits(digits) {
                    lemma_dec_val_prefix(digits, k + 1);
                    assert(dec_val(digits) > i64::MAX as int);
                    assert(dec_val(digits) > -(i64::MIN as int));
                    assert(!valid_i64_text(s@));
                } else {
                    assert(!valid_i64_text(s@));
                }
            }
            return None;
        }
        acc = acc * 10 + d;
        proof {
            let k = i - start;
            assert(digits.take(k + 1).drop_last() =~= digits.take(k));
            assert(digits.take(k + 1).last() == c);
        }
        i = i + 1;
    }
    proof {
        assert(digits.take(n - start) =~= digits);
    }
    if neg {
        if acc > 9223372036854775808u64 {
            return None;
        }
        if acc == 0 {
            return Some(0i64);
        }
        let v: i64 = -((acc - 1) as i64) - 1;
        Some(v)
    } else {
        if acc > 9223372036854775807u64 {
            return None;
        }
        Some(acc as i64)
    }
}

} // verus!
