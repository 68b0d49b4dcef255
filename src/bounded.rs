//! Integers read from decimal text and held within declared inclusive
//! bounds, with a canonical decimal form.
use vstd::prelude::*;

use crate::error::{ValidationError, ValueKind, Violation};
use crate::text::push_char;

verus! {

/// The accumulator saturates here while digits are read: any larger
/// magnitude is already out of reach of an `i64`.
const MAGNITUDE_CAP: u128 = 0x1_0000_0000_0000_0000;

pub open spec fn is_digit(c: char) -> bool {
    '0' <= c && c <= '9'
}

pub open spec fn digit_value(c: char) -> int {
    c as u32 - '0' as u32
}

pub open spec fn digit_char(d: int) -> char {
    (d + '0' as u32) as u8 as char
}

pub open spec fn all_digits(s: Seq<char>) -> bool {
    forall|i: int| 0 <= i < s.len() ==> is_digit(#[trigger] s[i])
}

/// The number that a run of decimal digits denotes.
pub open spec fn digits_value(s: Seq<char>) -> int
    decreases s.len(),
{
    if s.len() == 0 {
        0
    } else {
        digits_value(s.drop_last()) * 10 + digit_value(s.last())
    }
}

/// The integer that `s` denotes: an optional `+` or `-` followed by one or
/// more decimal digits.
pub open spec fn decimal_value(s: Seq<char>) -> Option<int> {
    if s.len() == 0 {
        None
    } else {
        let signed = s[0] == '-' || s[0] == '+';
        let body = if signed { s.drop_first() } else { s };
        if body.len() > 0 && all_digits(body) {
            Some(if s[0] == '-' { -digits_value(body) } else { digits_value(body) })
        } else {
            None
        }
    }
}

pub open spec fn fits_i64(v: int) -> bool {
    i64::MIN <= v <= i64::MAX
}

/// What reading `s` against the inclusive bounds `min..=max` gives: the
/// integer, or the rule that `s` broke.
pub open spec fn integer_outcome(s: Seq<char>, min: int, max: int) -> Result<int, Violation> {
    if s.len() == 0 {
        Err(Violation::Empty)
    } else {
        match decimal_value(s) {
            Some(v) => if !fits_i64(v) {
                Err(Violation::NotAnInteger)
            } else if min <= v <= max {
                Ok(v)
            } else {
                Err(Violation::OutOfRange)
            },
            None => Err(Violation::NotAnInteger),
        }
    }
}

/// The shortest decimal digits of a natural number.
pub open spec fn natural_text(n: nat) -> Seq<char>
    decreases n,
{
    if n < 10 {
        seq![digit_char(n as int)]
    } else {
        natural_text(n / 10).push(digit_char(n as int % 10))
    }
}

/// The canonical decimal form of an integer: a `-` for negative numbers,
/// then the digits without leading zeros.
pub open spec fn decimal_text(v: int) -> Seq<char> {
    if v < 0 {
        seq!['-'] + natural_text((-v) as nat)
    } else {
        natural_text(v as nat)
    }
}

/// An integer known to lie within its declared inclusive bounds.
#[derive(Debug, Clone, Copy, PartialEq, Eq, Structural)]
pub struct BoundedInteger {
    value: i64,
    min: i64,
    max: i64,
}

impl BoundedInteger {
    pub closed spec fn value_spec(self) -> int {
        self.value as int
    }

    pub closed spec fn min_spec(self) -> int {
        self.min as int
    }

    pub closed spec fn max_spec(self) -> int {
        self.max as int
    }

    pub closed spec fn wf(self) -> bool {
        self.min <= self.value <= self.max
    }

    /// A bounded integer is determined by its value and its bounds.
    pub proof fn lemma_determined(self, other: BoundedInteger)
        requires
            self.value_spec() == other.value_spec(),
            self.min_spec() == other.min_spec(),
            self.max_spec() == other.max_spec(),
        ensures
            self == other,
    {
    }

    /// Reads `input` as a decimal integer and checks it against
    /// `min..=max`. Empty input, text that is not an integer and an integer
    /// out of bounds are told apart.
    pub fn new(input: &str, min: i64, max: i64) -> (r: Result<BoundedInteger, ValidationError>)
        ensures
            match r {
                Ok(b) => {
                    &&& b.wf()
                    &&& integer_outcome(input@, min as int, max as int) == Ok::<int, Violation>(b.value_spec())
                    &&& b.min_spec() == min
                    &&& b.max_spec() == max
                },
                Err(e) => {
                    &&& integer_outcome(input@, min as int, max as int) == Err::<int, Violation>(e.violation)
                    &&& e.input@ == input@
                    &&& e.kind == (ValueKind::Integer { min, max })
                },
            },
    {
        let s = Ghost(input@);
        let n = input.unicode_len();
        if n == 0 {
            return Err(ValidationError { kind: ValueKind::Integer { min, max }, input: String::from_str(input), violation: Violation::Empty });
        }
        let first = input.get_char(0);
        let negative = first == '-';
        let start: usize = if first == '-' || first == '+' { 1 } else { 0 };
        let ghost body = if start == 1 { s@.drop_first() } else { s@ };
        assert(body == s@.subrange(start as int, n as int));
        let mut acc: u128 = 0;
        let mut i: usize = start;
        while i < n
            invariant
                s@ == input@,
                n == s@.len(),
                n > 0,
                start <= i <= n,
                (start == 1) == (s@[0] == '-' || s@[0] == '+'),
                start == 0 || start == 1,
                negative == (s@[0] == '-'),
                body == s@.subrange(start as int, n as int),
                all_digits(s@.subrange(start as int, i as int)),
                digits_value(s@.subrange(start as int, i as int)) >= 0,
                acc as int == if digits_value(s@.subrange(start as int, i as int)) < MAGNITUDE_CAP {
                    digits_value(s@.subrange(start as int, i as int))
                } else {
                    MAGNITUDE_CAP as int
                },
            decreases n - i,
        {
            let c = input.get_char(i);
            if !('0' <= c && c <= '9') {
                assert(!all_digits(body)) by {
                    assert(body[i - start] == c);
                }
                return Err(ValidationError { kind: ValueKind::Integer { min, max }, input: String::from_str(input), violation: Violation::NotAnInteger });
            }
            let d = (c as u32 - '0' as u32) as u128;
            let ghost prev = s@.subrange(start as int, i as int);
            let ghost next = s@.subrange(start as int, i + 1);
            assert(next.drop_last() == prev);
            assert(next.last() == c);
            assert(digits_value(next) == digits_value(prev) * 10 + d);
            let grown = acc * 10 + d;
            acc = if grown > MAGNITUDE_CAP { MAGNITUDE_CAP } else { grown };
            assert(all_digits(next)) by {
                assert forall|j: int| 0 <= j < next.len() implies is_digit(#[trigger] next[j]) by {
                    if j < prev.len() {
                        assert(next[j] == prev[j]);
                    }
                }
            }
            i = i + 1;
        }
        assert(s@.subrange(start as int, n as int) == body);
        if start == n {
            return Err(ValidationError { kind: ValueKind::Integer { min, max }, input: String::from_str(input), violation: Violation::NotAnInteger });
        }
        let magnitude = acc as i128;
        let v: i128 = if negative { -magnitude } else { magnitude };
        if v < i64::MIN as i128 || v > i64::MAX as i128 {
            return Err(ValidationError { kind: ValueKind::Integer { min, max }, input: String::from_str(input), violation: Violation::NotAnInteger });
        }
        let v = v as i64;
        if v < min || v > max {
            return Err(ValidationError { kind: ValueKind::Integer { min, max }, input: String::from_str(input), violation: Violation::OutOfRange });
        }
        Ok(BoundedInteger { value: v, min, max })
    }

    pub fn value(&self) -> (r: i64)
        ensures
            r == self.value_spec(),
    {
        self.value
    }

    pub fn min(&self) -> (r: i64)
        ensures
            r == self.min_spec(),
    {
        self.min
    }

    pub fn max(&self) -> (r: i64)
        ensures
            r == self.max_spec(),
    {
        self.max
    }

    /// The canonical decimal form of the value.
    pub fn to_string(&self) -> (r: String)
        ensures
            r@ == decimal_text(self.value_spec()),
    {
        let mut out = String::new();
        if self.value < 0 {
            push_char(&mut out, '-');
            let magnitude = (-(self.value as i128)) as u64;
            push_natural(&mut out, magnitude);
        } else {
            push_natural(&mut out, self.value as u64);
        }
        out
    }
}

pub(crate) proof fn lemma_digit_char(d: int)
    requires
        0 <= d < 10,
    ensures
        is_digit(digit_char(d)),
        digit_value(digit_char(d)) == d,
{
    assert(digit_char(d) as u32 == d + 48);
}

pub(crate) proof fn lemma_natural_text(n: nat)
    ensures
        natural_text(n).len() > 0,
        all_digits(natural_text(n)),
        digits_value(natural_text(n)) == n,
    decreases n,
{
    if n < 10 {
        lemma_digit_char(n as int);
        assert(natural_text(n).drop_last() =~= Seq::<char>::empty());
        assert(digits_value(natural_text(n).drop_last()) == 0);
    } else {
        lemma_natural_text(n / 10);
        lemma_digit_char(n as int % 10);
        let t = natural_text(n);
        assert(t.drop_last() == natural_text(n / 10));
        assert(t.last() == digit_char(n as int % 10));
        assert(digits_value(t) == (n / 10) * 10 + n % 10);
        assert forall|i: int| 0 <= i < t.len() implies is_digit(#[trigger] t[i]) by {
            if i < t.len() - 1 {
                assert(t[i] == natural_text(n / 10)[i]);
            }
        }
    }
}

/// Reading the canonical decimal form of an in-bounds integer gives the
/// integer back.
pub proof fn lemma_integer_round_trip(v: int, min: int, max: int)
    requires
        fits_i64(v),
        min <= v <= max,
    ensures
        integer_outcome(decimal_text(v), min, max) == Ok::<int, Violation>(v),
{
    let n: nat = if v < 0 { (-v) as nat } else { v as nat };
    lemma_natural_text(n);
    let t = natural_text(n);
    lemma_digit_char(0);
    lemma_digit_char(9);
    assert(is_digit(t[0]));
    if v < 0 {
        let s = seq!['-'] + t;
        assert(s.drop_first() == t);
        assert(decimal_value(s) == Some(v));
    } else {
        assert(t[0] != '-' && t[0] != '+');
        assert(decimal_value(t) == Some(v));
    }
}

/// Appends the decimal digits of `n`.
pub(crate) fn push_natural(out: &mut String, n: u64)
    ensures
        final(out)@ == old(out)@ + natural_text(n as nat),
    decreases n,
{
    let ghost before = out@;
    if n >= 10 {
        push_natural(out, n / 10);
    }
    let d = (n % 10) as u8;
    push_char(out, (d + 48) as char);
    if n >= 10 {
        assert(before + natural_text(n as nat) =~= (before + natural_text((n / 10) as nat)).push(
            digit_char((n % 10) as int),
        ));
    }
}

} // verus!
