//! Decimal text of lengths: how a length is written into a header and read
//! back from one.

use vstd::prelude::*;

verus! {

/// The ASCII digit for `d`, which is below ten.
pub open spec fn digit(d: nat) -> u8 {
    (48 + d) as u8
}

/// One of the ten ASCII digits.
pub open spec fn is_digit(b: u8) -> bool {
    48 <= b <= 57
}

/// The decimal text of `n`: no sign, no leading zero except for zero itself.
pub open spec fn decimal(n: nat) -> Seq<u8>
    decreases n,
{
    if n < 10 {
        seq![digit(n)]
    } else {
        decimal(n / 10).push(digit(n % 10))
    }
}

/// Every byte of `text` is a digit.
pub open spec fn all_digits(text: Seq<u8>) -> bool {
    forall|i: int| 0 <= i < text.len() ==> is_digit(#[trigger] text[i])
}

/// The number that a run of digits denotes, leading zeros allowed; zero for
/// the empty run.
pub open spec fn decimal_value(text: Seq<u8>) -> nat
    decreases text.len(),
{
    if text.len() == 0 {
        0
    } else {
        (decimal_value(text.drop_last()) * 10 + (text.last() - 48)) as nat
    }
}

/// What a length field denotes: an optional `+`, then at least one digit and
/// nothing else, the number being one that a `usize` can hold.
pub open spec fn parse_length(text: Seq<u8>) -> Option<nat> {
    let digits = if text.len() > 0 && text[0] == 43 {
        text.drop_first()
    } else {
        text
    };
    if digits.len() > 0 && all_digits(digits) && decimal_value(digits) <= usize::MAX {
        Some(decimal_value(digits))
    } else {
        None
    }
}

/// The decimal text of a number is made of digits and denotes that number.
pub proof fn lemma_decimal_round_trip(n: nat)
    ensures
        decimal(n).len() >= 1,
        all_digits(decimal(n)),
        decimal_value(decimal(n)) == n,
    decreases n,
{
    if n < 10 {
        let t = decimal(n);
        assert(t.drop_last() =~= Seq::<u8>::empty());
        assert(decimal_value(t.drop_last()) == 0);
    } else {
        lemma_decimal_round_trip(n / 10);
        let t = decimal(n);
        assert(t.drop_last() =~= decimal(n / 10));
        assert(t.last() == digit(n % 10));
    }
}

/// A length that fits the machine reads back from its decimal text.
pub proof fn lemma_parse_decimal(n: nat)
    requires
        n <= usize::MAX,
    ensures
        parse_length(decimal(n)) == Some(n),
{
    lemma_decimal_round_trip(n);
    assert(is_digit(decimal(n)[0]));
}

/// The value of a run of digits is at least the value of each of its prefixes.
proof fn lemma_value_grows(text: Seq<u8>, k: int)
    requires
        all_digits(text),
        0 <= k <= text.len(),
    ensures
        decimal_value(text.subrange(0, k)) <= decimal_value(text),
    decreases text.len(),
{
    if k == text.len() {
        assert(text.subrange(0, k) =~= text);
    } else {
        let shorter = text.drop_last();
        assert(shorter.subrange(0, k) =~= text.subrange(0, k));
        lemma_value_grows(shorter, k);
        assert(is_digit(text.last()));
    }
}

/// Writes `n` in decimal.
pub fn format_decimal(n: usize) -> (text: Vec<u8>)
    ensures
        text@ == decimal(n as nat),
{
    let mut text: Vec<u8> = Vec::new();
    let mut rest: usize = n;
    while rest >= 10
        invariant
            decimal(n as nat) == decimal(rest as nat) + text@,
        decreases rest,
    {
        let d: u8 = (rest % 10) as u8;
        let ghost tail = text@;
        text.insert(0, 48u8 + d);
        proof {
            let head = decimal((rest / 10) as nat);
            assert(d == digit((rest % 10) as nat) - 48);
            assert(decimal(rest as nat) == head.push(digit((rest % 10) as nat)));
            assert(text@ =~= seq![digit((rest % 10) as nat)] + tail);
            assert(head.push(digit((rest % 10) as nat)) + tail =~= head + text@);
        }
        rest = rest / 10;
    }
    let d: u8 = rest as u8;
    let ghost tail = text@;
    text.insert(0, 48u8 + d);
    proof {
        assert(text@ =~= seq![digit(rest as nat)] + tail);
    }
    text
}

/// Reads a length field.
pub fn read_length(text: &[u8]) -> (length: Option<usize>)
    ensures
        match length {
            Some(n) => parse_length(text@) == Some(n as nat),
            None => parse_length(text@) is None,
        },
{
    let len: usize = text.len();
    let start: usize = if len > 0 && text[0] == 43 {
        1
    } else {
        0
    };
    let ghost digits = text@.subrange(start as int, len as int);
    proof {
        if start == 1 {
            assert(digits =~= text@.drop_first());
        } else {
            assert(digits =~= text@);
        }
    }
    if start == len {
        return None;
    }
    let mut value: usize = 0;
    let mut i: usize = start;
    proof {
        assert(digits.subrange(0, 0) =~= Seq::<u8>::empty());
    }
    while i < len
        invariant
            start <= i <= len,
            len == text@.len(),
            digits == text@.subrange(start as int, len as int),
            digits == if text@.len() > 0 && text@[0] == 43 {
                text@.drop_first()
            } else {
                text@
            },
            all_digits(digits.subrange(0, i - start)),
            value == decimal_value(digits.subrange(0, i - start)),
        decreases len - i,
    {
        let b: u8 = text[i];
        let ghost k = i - start;
        let ghost seen = digits.subrange(0, k);
        let ghost next = digits.subrange(0, k + 1);
        proof {
            assert(next.drop_last() =~= seen);
            assert(next.last() == b);
            assert(digits[k] == b);
        }
        if b < 48 || b > 57 {
            assert(!is_digit(digits[k]));
            return None;
        }
        proof {
            assert forall|j: int| 0 <= j < next.len() implies is_digit(#[trigger] next[j]) by {
                if j < k {
                    assert(next[j] == seen[j]);
                }
            }
            if all_digits(digits) {
                lemma_value_grows(digits, k + 1);
            }
        }
        let step = match value.checked_mul(10) {
            Some(tens) => tens.checked_add((b - 48) as usize),
            None => None,
        };
        match step {
            Some(v) => {
                value = v;
            },
            None => {
                assert(decimal_value(next) == value * 10 + (b - 48));
                return None;
            },
        }
        i = i + 1;
    }
    proof {
        assert(digits.subrange(0, len - start) =~= digits);
    }
    Some(value)
}

} // verus!
