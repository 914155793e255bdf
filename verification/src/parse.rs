//! Unsigned decimal parsing for the numeric command-line options.

use vstd::prelude::*;

verus! {

/// Whether `c` is an ASCII decimal digit.
pub open spec fn is_digit(c: u8) -> bool {
    48 <= c <= 57
}

/// The digits of a number: the text with one leading plus sign, if
/// any, removed.
pub open spec fn digit_seq(s: Seq<u8>) -> Seq<u8> {
    if s.len() >= 1 && s[0] == 43 {
        s.subrange(1, s.len() as int)
    } else {
        s
    }
}

/// Whether every byte of `s` is an ASCII decimal digit.
pub open spec fn all_digits(s: Seq<u8>) -> bool {
    forall|i: int| 0 <= i < s.len() ==> is_digit(s[i])
}

/// The value of a digit string read in base ten.
pub open spec fn dec_value(s: Seq<u8>) -> int
    decreases s.len(),
{
    if s.len() == 0 {
        0
    } else {
        dec_value(s.drop_last()) * 10 + (s.last() - 48)
    }
}

/// Whether `s` names a number that fits in `usize`: an optional
/// leading plus sign, then one or more decimal digits, with a value of
/// at most `usize::MAX`.
pub open spec fn valid_number(s: Seq<u8>) -> bool {
    &&& digit_seq(s).len() >= 1
    &&& all_digits(digit_seq(s))
    &&& dec_value(digit_seq(s)) <= usize::MAX
}

/// Why a piece of text is not a number.
#[derive(Clone, Copy, Debug, PartialEq, Eq, Structural)]
pub enum NumError {
    /// The text is empty.
    Empty,
    /// A byte other than a decimal digit stands where digits belong.
    InvalidDigit,
    /// The digits name a value above `usize::MAX`.
    TooLarge,
}

/// The error a piece of invalid number text gets.
pub open spec fn num_error_of(s: Seq<u8>) -> NumError {
    if s.len() == 0 {
        NumError::Empty
    } else if !(digit_seq(s).len() >= 1 && all_digits(digit_seq(s))) {
        NumError::InvalidDigit
    } else {
        NumError::TooLarge
    }
}

/// A string of digits names a value no smaller than zero.
proof fn lemma_dec_value_nonneg(s: Seq<u8>)
    requires
        all_digits(s),
    ensures
        dec_value(s) >= 0,
    decreases s.len(),
{
    if s.len() > 0 {
        assert(all_digits(s.drop_last()));
        lemma_dec_value_nonneg(s.drop_last());
    }
}

/// Reading one more digit on the right multiplies the value by ten
/// and adds the digit.
proof fn lemma_dec_value_step(s: Seq<u8>, k: int)
    requires
        0 <= k < s.len(),
    ensures
        dec_value(s.take(k + 1)) == dec_value(s.take(k)) * 10 + (s[k] - 48),
{
    assert(s.take(k + 1).drop_last() =~= s.take(k));
    assert(s.take(k + 1).last() == s[k]);
}

/// A longer prefix of a digit string never names a smaller value.
proof fn lemma_dec_value_take_mono(s: Seq<u8>, j: int, k: int)
    requires
        0 <= j <= k <= s.len(),
        all_digits(s),
    ensures
        dec_value(s.take(j)) <= dec_value(s.take(k)),
    decreases k - j,
{
    if j < k {
        lemma_dec_value_take_mono(s, j, k - 1);
        assert(all_digits(s.take(k - 1)));
        lemma_dec_value_nonneg(s.take(k - 1));
        lemma_dec_value_step(s, k - 1);
    }
}

/// Reads `s` as an unsigned decimal number: an optional leading plus
/// sign, then one or more digits. Returns the value exactly when `s`
/// is valid number text, and says why not otherwise.
pub fn parse_usize(s: &Vec<u8>) -> (r: Result<usize, NumError>)
    ensures
        match r {
            Ok(v) => valid_number(s@) && v as int == dec_value(digit_seq(s@)),
            Err(e) => !valid_number(s@) && e == num_error_of(s@),
        },
{
    if s.len() == 0 {
        return Err(NumError::Empty);
    }
    let start: usize = if s[0] == 43 {
        1
    } else {
        0
    };
    let ghost t = digit_seq(s@);
    proof {
        assert(t =~= s@.subrange(start as int, s@.len() as int));
    }
    if s.len() == start {
        return Err(NumError::InvalidDigit);
    }
    let mut i: usize = start;
    while i < s.len()
        invariant
            start <= i <= s@.len(),
            s@.len() >= 1,
            t == digit_seq(s@),
            t == s@.subrange(start as int, s@.len() as int),
            forall|j: int| start <= j < i ==> is_digit(s@[j]),
        decreases s@.len() - i,
    {
        let c = s[i];
        if c < 48 || c > 57 {
            proof {
                assert(t[i - start] == s@[i as int]);
                assert(!all_digits(t));
            }
            return Err(NumError::InvalidDigit);
        }
        i = i + 1;
    }
    proof {
        assert(forall|j: int| 0 <= j < t.len() ==> t[j] == s@[j + start]);
        assert(all_digits(t));
    }
    let mut acc: usize = 0;
    let mut k: usize = start;
    while k < s.len()
        invariant
            start <= k <= s@.len(),
            t == digit_seq(s@),
            t == s@.subrange(start as int, s@.len() as int),
            all_digits(t),
            s@.len() >= 1,
            t.len() >= 1,
            acc as int == dec_value(t.take(k - start)),
        decreases s@.len() - k,
    {
        let c = s[k];
        proof {
            assert(t[k - start] == s@[k as int]);
            assert(is_digit(c));
        }
        let d = (c - 48) as usize;
        let shifted = match acc.checked_mul(10) {
            Some(m) => m.checked_add(d),
            None => None,
        };
        match shifted {
            Some(v) => {
                proof {
                    lemma_dec_value_step(t, k - start);
                }
                acc = v;
            },
            None => {
                proof {
                    lemma_dec_value_step(t, k - start);
                    lemma_dec_value_take_mono(t, k - start + 1, t.len() as int);
                    assert(t.take(t.len() as int) =~= t);
                }
                return Err(NumError::TooLarge);
            },
        }
        k = k + 1;
    }
    proof {
        assert(t.take(t.len() as int) =~= t);
    }
    Ok(acc)
}

/// Resolves one optional numeric option as the command line hands it
/// over: absent means absent, present text must read as a number, and
/// anything else is the reported error.
pub fn parse_num(s: Option<Vec<u8>>) -> (r: Result<Option<usize>, NumError>)
    ensures
        match s {
            None => r == Ok::<Option<usize>, NumError>(None),
            Some(text) => match r {
                Ok(v) => valid_number(text@) && (v matches Some(n) && n as int == dec_value(
                    digit_seq(text@),
                )),
                Err(e) => !valid_number(text@) && e == num_error_of(text@),
            },
        },
{
    match s {
        None => Ok(None),
        Some(text) => match parse_usize(&text) {
            Ok(v) => Ok(Some(v)),
            Err(e) => Err(e),
        },
    }
}

} // verus!
