//! Text building: decimal numerals and message assembly.

use vstd::prelude::*;
use vstd::string::StringExecFns;

verus! {

/// The decimal digit `d` as a character.
pub open spec fn digit_char(d: nat) -> char {
    (48 + d) as char
}

/// The decimal numeral of `n`, without leading zeros.
pub open spec fn decimal(n: nat) -> Seq<char>
    decreases n,
{
    if n < 10 {
        seq![digit_char(n)]
    } else {
        decimal(n / 10).push(digit_char(n % 10))
    }
}

/// The one-character text of a digit.
fn digit(d: u64) -> (s: &'static str)
    requires
        d < 10,
    ensures
        s@ == seq![digit_char(d as nat)],
{
    proof {
        reveal_strlit("0");
        reveal_strlit("1");
        reveal_strlit("2");
        reveal_strlit("3");
        reveal_strlit("4");
        reveal_strlit("5");
        reveal_strlit("6");
        reveal_strlit("7");
        reveal_strlit("8");
        reveal_strlit("9");
    }
    let s = if d == 0 {
        "0"
    } else if d == 1 {
        "1"
    } else if d == 2 {
        "2"
    } else if d == 3 {
        "3"
    } else if d == 4 {
        "4"
    } else if d == 5 {
        "5"
    } else if d == 6 {
        "6"
    } else if d == 7 {
        "7"
    } else if d == 8 {
        "8"
    } else {
        "9"
    };
    assert(s@ =~= seq![digit_char(d as nat)]);
    s
}

/// Appends the decimal numeral of `n`.
pub fn push_decimal(out: &mut String, n: u64)
    ensures
        final(out)@ == old(out)@ + decimal(n as nat),
    decreases n,
{
    if n >= 10 {
        push_decimal(out, n / 10);
    }
    out.append(digit(n % 10));
}

/// The decimal numeral of `n`.
pub fn decimal_text(n: u64) -> (s: String)
    ensures
        s@ == decimal(n as nat),
{
    let mut s = String::new();
    push_decimal(&mut s, n);
    s
}

// ---------------------------------------------------------------------------
// Reading numerals
// ---------------------------------------------------------------------------

/// An ASCII digit.
pub open spec fn is_digit(b: u8) -> bool {
    48 <= b <= 57
}

/// Every octet is an ASCII digit.
pub open spec fn all_digits(s: Seq<u8>) -> bool {
    forall|i: int| 0 <= i < s.len() ==> is_digit(#[trigger] s[i])
}

/// The number a string of digits spells.
pub open spec fn numeral(s: Seq<u8>) -> nat
    decreases s.len(),
{
    if s.len() == 0 {
        0
    } else {
        10 * numeral(s.drop_last()) + (s.last() - 48) as nat
    }
}

/// The number an unsigned decimal of at most `max` spells: digits, with at most
/// one plus sign in front of them. Nothing else is a number.
pub open spec fn parsed(s: Seq<u8>, max: nat) -> Option<nat> {
    let digits = if s.len() > 0 && s[0] == 43 {
        s.drop_first()
    } else {
        s
    };
    if digits.len() > 0 && all_digits(digits) && numeral(digits) <= max {
        Some(numeral(digits))
    } else {
        None
    }
}

/// More digits never make a number smaller.
pub proof fn lemma_numeral_grows(s: Seq<u8>, k: int)
    requires
        0 <= k <= s.len(),
        all_digits(s),
    ensures
        numeral(s.take(k)) <= numeral(s),
    decreases s.len() - k,
{
    if k < s.len() {
        lemma_numeral_grows(s, k + 1);
        assert(s.take(k + 1).drop_last() =~= s.take(k));
        assert(is_digit(s[k]));
    } else {
        assert(s.take(k) =~= s);
    }
}

/// Reads an unsigned decimal of at most `max`.
pub fn parse_decimal(s: &[u8], max: u64) -> (r: Option<u64>)
    ensures
        match r {
            Some(n) => parsed(s@, max as nat) == Some(n as nat),
            None => parsed(s@, max as nat) is None,
        },
{
    let from: usize = if s.len() > 0 && s[0] == 43 {
        1
    } else {
        0
    };
    let ghost digits = s@.skip(from as int);
    proof {
        if from == 1 {
            assert(s@.drop_first() =~= digits);
        } else {
            assert(s@ =~= digits);
        }
    }
    if s.len() == from {
        return None;
    }
    let mut n: u64 = 0;
    let mut i: usize = from;
    assert(digits.take(0) =~= Seq::empty());
    while i < s.len()
        invariant
            from <= i <= s@.len(),
            digits == s@.skip(from as int),
            digits.len() > 0,
            parsed(s@, max as nat) == (if all_digits(digits) && numeral(digits) <= max {
                Some(numeral(digits))
            } else {
                None
            }),
            forall|k: int| 0 <= k < i - from ==> is_digit(#[trigger] digits[k]),
            n == numeral(digits.take(i - from)),
            n <= max,
        decreases s@.len() - i,
    {
        let b = s[i];
        let ghost k = (i - from) as int;
        assert(digits[k] == b);
        if b < 48 || b > 57 {
            return None;
        }
        proof {
            assert(digits.take(k + 1).drop_last() =~= digits.take(k));
            if all_digits(digits) {
                lemma_numeral_grows(digits, k + 1);
            }
        }
        let next: u128 = n as u128 * 10 + (b - 48) as u128;
        if next > max as u128 {
            return None;
        }
        n = next as u64;
        i += 1;
    }
    assert(digits.take(i - from) =~= digits);
    Some(n)
}

/// The numeral of a string of digits, held at `cap`; `None` for the empty
/// string and for anything but digits.
pub fn parse_capped(s: &[u8], cap: u64) -> (r: Option<u64>)
    ensures
        match r {
            Some(n) => s@.len() > 0 && all_digits(s@) && n == (if numeral(s@) > cap {
                cap as nat
            } else {
                numeral(s@)
            }),
            None => s@.len() == 0 || !all_digits(s@),
        },
{
    if s.len() == 0 {
        return None;
    }
    let mut n: u64 = 0;
    let mut i: usize = 0;
    assert(s@.take(0) =~= Seq::empty());
    while i < s.len()
        invariant
            i <= s@.len(),
            forall|k: int| 0 <= k < i ==> is_digit(#[trigger] s@[k]),
            n == (if numeral(s@.take(i as int)) > cap {
                cap as nat
            } else {
                numeral(s@.take(i as int))
            }),
        decreases s@.len() - i,
    {
        let b = s[i];
        if b < 48 || b > 57 {
            return None;
        }
        assert(s@.take(i + 1).drop_last() =~= s@.take(i as int));
        let next: u128 = n as u128 * 10 + (b - 48) as u128;
        n = if next > cap as u128 {
            cap
        } else {
            next as u64
        };
        i += 1;
    }
    assert(s@.take(i as int) =~= s@);
    Some(n)
}

/// The text that octets are read as where they need not be valid: what
/// `String::from_utf8_lossy` makes of them.
pub uninterp spec fn lossy(b: Seq<u8>) -> Seq<char>;

/// Calls `String::from_utf8_lossy`. The contract gives its result the name
/// [`lossy`], and claims of it that octets which are valid UTF-8 come back as
/// the text they encode. What stands in place of an invalid sequence is left
/// unsaid.
#[verifier::external_body]
pub(crate) fn lossy_text(b: &[u8]) -> (s: String)
    ensures
        s@ == lossy(b@),
        vstd::utf8::valid_utf8(b@) ==> vstd::utf8::encode_utf8(s@) == b@,
{
    String::from_utf8_lossy(b).into_owned()
}

proof fn lemma_decimal_digits(n: nat)
    ensures
        decimal(n).len() > 0,
        forall|i: int| 0 <= i < decimal(n).len() ==> '0' <= (#[trigger] decimal(n)[i]) <= '9',
        n > 0 ==> decimal(n)[0] != '0',
    decreases n,
{
    if n >= 10 {
        lemma_decimal_digits(n / 10);
        assert(decimal(n)[0] == decimal(n / 10)[0]);
    }
}

proof fn lemma_numeral_of_decimal(n: nat, s: Seq<u8>)
    requires
        s.len() == decimal(n).len(),
        forall|i: int| 0 <= i < s.len() ==> #[trigger] s[i] == decimal(n)[i] as u8,
    ensures
        numeral(s) == n,
        all_digits(s),
    decreases n,
{
    lemma_decimal_digits(n);
    if n < 10 {
        assert(s.drop_last() =~= Seq::empty());
        assert(numeral(s.drop_last()) == 0);
    } else {
        let init = s.drop_last();
        lemma_decimal_digits(n / 10);
        assert forall|i: int| 0 <= i < init.len() implies #[trigger] init[i] == decimal(n / 10)[i]
            as u8 by {
            assert(init[i] == s[i]);
            assert(decimal(n)[i] == decimal(n / 10)[i]);
        }
        lemma_numeral_of_decimal(n / 10, init);
    }
    assert forall|i: int| 0 <= i < s.len() implies is_digit(#[trigger] s[i]) by {
        assert('0' <= decimal(n)[i] <= '9');
    }
}

/// A number is read back from the text it is written as: only digits, no zero in
/// front, and the same number; and it is parsed wherever it fits.
pub proof fn numbers_round_trip(n: nat, max: nat)
    ensures
        ({
            let s = vstd::utf8::encode_utf8(decimal(n));
            &&& s.len() == decimal(n).len()
            &&& s.len() > 0
            &&& all_digits(s)
            &&& numeral(s) == n
            &&& n > 0 ==> s[0] != 48
            &&& parsed(s, max) == (if n <= max {
                Some(n)
            } else {
                None
            })
        }),
{
    lemma_decimal_digits(n);
    let text = decimal(n);
    assert(vstd::utf8::is_ascii_chars(text)) by {
        assert forall|i: int| 0 <= i < text.len() implies '\0' <= #[trigger] text[i] <= '\u{7f}' by {
            assert('0' <= text[i] <= '9');
        }
    }
    vstd::utf8::is_ascii_chars_encode_utf8(text);
    let s = vstd::utf8::encode_utf8(text);
    lemma_numeral_of_decimal(n, s);
    assert(is_digit(s[0]));
    assert(text[0] as u8 == s[0]);
}

/// What is parsed is a run of digits, with at most one plus sign in front, and
/// its value is what the digits say: each digit counts for ten of the next.
pub proof fn a_number_is_its_digits(s: Seq<u8>, d: u8, max: nat)
    ensures
        parsed(s, max) is Some ==> s.len() > 0 && (all_digits(s) || (s[0] == 43 && s.len() > 1
            && all_digits(s.drop_first()))),
        parsed(s, max) is Some ==> parsed(s, max)->0 <= max,
        48 <= d <= 57 ==> numeral(s.push(d)) == 10 * numeral(s) + (d - 48),
        numeral(Seq::empty()) == 0,
{
    assert(s.push(d).drop_last() =~= s);
}

} // verus!
