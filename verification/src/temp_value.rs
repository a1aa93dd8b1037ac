//! Fixed-point readings: a signed decimal with exactly one fractional digit,
//! kept as an integer number of tenths so that no arithmetic ever rounds.

use vstd::prelude::*;
use vstd::std_specs::convert::TryFromSpecImpl;
use vstd::std_specs::ops::AddSpecImpl;

verus! {

/// ASCII `-`.
pub const MINUS: u8 = 45;

/// ASCII `.`.
pub const DOT: u8 = 46;

/// ASCII `0`.
pub const ZERO: u8 = 48;

/// Largest magnitude, in tenths, that the value grammar can write (`99.9`).
pub const MAX_READING: i128 = 999;

/// Why a byte string is not a reading.
#[derive(Clone, Copy, Debug, PartialEq, Eq, Structural)]
pub enum ParseError {
    /// The bytes do not have the shape `-?d{1,2}.d`.
    Malformed,
}

/// A decimal number with exactly one fractional digit, held as a count of tenths.
///
/// A reading that was parsed lies within `-999..=999` tenths; sums of readings
/// use the same type and may be far larger.
#[derive(Clone, Copy, Debug, PartialEq, Eq, PartialOrd, Ord, Structural)]
pub struct TempValue(i128);

impl View for TempValue {
    type V = int;

    /// The number of tenths.
    closed spec fn view(&self) -> int {
        self.0 as int
    }
}

/// `b` is an ASCII decimal digit.
pub open spec fn is_digit(b: u8) -> bool {
    ZERO <= b <= ZERO + 9
}

/// The number that the ASCII digit `b` stands for.
pub open spec fn digit_value(b: u8) -> int {
    b - ZERO
}

/// The ASCII digit for `d`, where `0 <= d <= 9`.
pub open spec fn digit_byte(d: int) -> u8 {
    (ZERO + d) as u8
}

/// `s` starts with a minus sign.
pub open spec fn has_sign(s: Seq<u8>) -> bool {
    s.len() > 0 && s[0] == MINUS
}

/// `s` without its leading minus sign, if it has one.
pub open spec fn magnitude_part(s: Seq<u8>) -> Seq<u8> {
    if has_sign(s) {
        s.subrange(1, s.len() as int)
    } else {
        s
    }
}

/// `s` is one or two digits, a dot, and one digit.
pub open spec fn valid_magnitude(s: Seq<u8>) -> bool {
    ||| s.len() == 3 && is_digit(s[0]) && s[1] == DOT && is_digit(s[2])
    ||| s.len() == 4 && is_digit(s[0]) && is_digit(s[1]) && s[2] == DOT && is_digit(s[3])
}

/// The tenths written by a valid magnitude.
pub open spec fn magnitude_value(s: Seq<u8>) -> int {
    if s.len() == 3 {
        10 * digit_value(s[0]) + digit_value(s[2])
    } else {
        100 * digit_value(s[0]) + 10 * digit_value(s[1]) + digit_value(s[3])
    }
}

/// The value grammar: an optional `-`, one or two integer digits, `.`, one
/// fractional digit.
pub open spec fn valid_value(s: Seq<u8>) -> bool {
    valid_magnitude(magnitude_part(s))
}

/// The tenths that a valid value string denotes.
pub open spec fn value_of(s: Seq<u8>) -> int {
    if has_sign(s) {
        -magnitude_value(magnitude_part(s))
    } else {
        magnitude_value(magnitude_part(s))
    }
}

/// Among the valid value strings, those that are the display form of their
/// value: no `-0.0`, and no two-digit integer part that starts with `0`.
pub open spec fn canonical_value(s: Seq<u8>) -> bool {
    let m = magnitude_part(s);
    &&& valid_value(s)
    &&& m.len() == 4 ==> m[0] != ZERO
    &&& has_sign(s) ==> magnitude_value(m) != 0
}

/// The decimal digits of `n`, most significant first, without leading zeros
/// (`0` is written `0`).
pub open spec fn decimal_digits(n: nat) -> Seq<u8>
    decreases n,
{
    if n < 10 {
        seq![digit_byte(n as int)]
    } else {
        decimal_digits(n / 10).push(digit_byte((n % 10) as int))
    }
}

/// The display form of `tenths`: a minus sign if negative, the integer part
/// in decimal, a dot, and the one fractional digit.
pub open spec fn display_of(tenths: int) -> Seq<u8> {
    let m = if tenths < 0 {
        -tenths
    } else {
        tenths
    };
    let sign = if tenths < 0 {
        seq![MINUS]
    } else {
        Seq::<u8>::empty()
    };
    sign + decimal_digits((m / 10) as nat) + seq![DOT, digit_byte(m % 10)]
}

/// What parsing `s` gives.
pub closed spec fn parse_spec(s: Seq<u8>) -> Result<TempValue, ParseError> {
    if valid_value(s) {
        Ok(TempValue(value_of(s) as i128))
    } else {
        Err(ParseError::Malformed)
    }
}

/// `parse_spec` succeeds exactly on the value grammar, with the value denoted.
pub proof fn lemma_parse_spec(s: Seq<u8>)
    ensures
        valid_value(s) ==> parse_spec(s) is Ok && parse_spec(s)->Ok_0@ == value_of(s),
        !valid_value(s) ==> parse_spec(s) == Err::<TempValue, ParseError>(ParseError::Malformed),
        valid_value(s) ==> -MAX_READING <= value_of(s) <= MAX_READING,
{
}

/// The value whose tenths are those of `a` and `b` added.
pub closed spec fn sum_spec(a: TempValue, b: TempValue) -> TempValue {
    TempValue((a.0 + b.0) as i128)
}

/// Two values with the same number of tenths are the same value.
pub proof fn lemma_view_injective(a: TempValue, b: TempValue)
    ensures
        a@ == b@ ==> a == b,
{
}

fn is_digit_byte(b: u8) -> (r: bool)
    ensures
        r == is_digit(b),
{
    ZERO <= b && b <= ZERO + 9
}

fn digit_of(b: u8) -> (d: i128)
    requires
        is_digit(b),
    ensures
        d == digit_value(b),
{
    (b - ZERO) as i128
}

impl TempValue {
    /// The value of `tenths` tenths.
    pub fn from_tenths(tenths: i128) -> (v: TempValue)
        ensures
            v@ == tenths,
    {
        TempValue(tenths)
    }

    /// The number of tenths.
    pub fn tenths(&self) -> (t: i128)
        ensures
            t == self@,
    {
        self.0
    }

    /// The value lies in the range that the value grammar can write.
    pub open spec fn is_reading(&self) -> bool {
        -MAX_READING <= self@ <= MAX_READING
    }

    /// Decodes the value portion of a record straight from its ASCII digits.
    pub fn parse(bytes: &[u8]) -> (r: Result<TempValue, ParseError>)
        ensures
            r == parse_spec(bytes@),
            valid_value(bytes@) ==> r is Ok && r->Ok_0@ == value_of(bytes@) && r->Ok_0.is_reading(),
            !valid_value(bytes@) ==> r == Err::<TempValue, ParseError>(ParseError::Malformed),
    {
        let n = bytes.len();
        let negative = n > 0 && bytes[0] == MINUS;
        let start: usize = if negative {
            1
        } else {
            0
        };
        proof {
            if negative {
                assert(magnitude_part(bytes@).len() == n - 1);
                assert forall|i: int| 0 <= i < n - 1 implies magnitude_part(bytes@)[i] == bytes@[i + 1] by {}
            }
        }
        let magnitude: i128 = if n - start == 3 {
            let u = bytes[start];
            let f = bytes[start + 2];
            if is_digit_byte(u) && bytes[start + 1] == DOT && is_digit_byte(f) {
                10 * digit_of(u) + digit_of(f)
            } else {
                return Err(ParseError::Malformed);
            }
        } else if n - start == 4 {
            let d = bytes[start];
            let u = bytes[start + 1];
            let f = bytes[start + 3];
            if is_digit_byte(d) && is_digit_byte(u) && bytes[start + 2] == DOT && is_digit_byte(f) {
                100 * digit_of(d) + 10 * digit_of(u) + digit_of(f)
            } else {
                return Err(ParseError::Malformed);
            }
        } else {
            return Err(ParseError::Malformed);
        };
        if negative {
            Ok(TempValue(-magnitude))
        } else {
            Ok(TempValue(magnitude))
        }
    }

    /// The smaller of two values.
    pub fn min(self, other: TempValue) -> (m: TempValue)
        ensures
            m@ == if self@ <= other@ { self@ } else { other@ },
            m == self || m == other,
    {
        if self.0 <= other.0 {
            self
        } else {
            other
        }
    }

    /// The larger of two values.
    pub fn max(self, other: TempValue) -> (m: TempValue)
        ensures
            m@ == if self@ >= other@ { self@ } else { other@ },
            m == self || m == other,
    {
        if self.0 >= other.0 {
            self
        } else {
            other
        }
    }
}

impl core::ops::Add for TempValue {
    type Output = TempValue;

    /// The exact sum; the caller shows that it fits.
    fn add(self, rhs: TempValue) -> (sum: TempValue)
        ensures
            sum@ == self@ + rhs@,
    {
        TempValue(self.0 + rhs.0)
    }
}

impl AddSpecImpl for TempValue {
    open spec fn obeys_add_spec() -> bool {
        true
    }

    open spec fn add_req(self, rhs: TempValue) -> bool {
        i128::MIN <= self@ + rhs@ <= i128::MAX
    }

    open spec fn add_spec(self, rhs: TempValue) -> TempValue {
        sum_spec(self, rhs)
    }
}

impl Default for TempValue {
    fn default() -> (v: TempValue)
        ensures
            v@ == 0,
    {
        TempValue(0)
    }
}

impl<'a> TryFrom<&'a [u8]> for TempValue {
    type Error = ParseError;

    fn try_from(value: &'a [u8]) -> (r: Result<TempValue, ParseError>) {
        TempValue::parse(value)
    }
}

impl<'a> TryFromSpecImpl<&'a [u8]> for TempValue {
    open spec fn obeys_try_from_spec() -> bool {
        true
    }

    open spec fn try_from_spec(v: &'a [u8]) -> Result<TempValue, ParseError> {
        parse_spec(v@)
    }
}

/// Every reading survives being displayed and parsed again, and its display
/// form is canonical.
pub proof fn lemma_parse_inverts_display(tenths: int)
    requires
        -MAX_READING <= tenths <= MAX_READING,
    ensures
        canonical_value(display_of(tenths)),
        value_of(display_of(tenths)) == tenths,
{
    let m = if tenths < 0 {
        -tenths
    } else {
        tenths
    };
    let whole = (m / 10) as nat;
    let digits = decimal_digits(whole);
    let tail = seq![DOT, digit_byte(m % 10)];
    if whole < 10 {
        assert(digits =~= seq![digit_byte(whole as int)]);
    } else {
        assert(decimal_digits(whole / 10) =~= seq![digit_byte((whole / 10) as int)]);
        assert(digits =~= seq![digit_byte((whole / 10) as int), digit_byte((whole % 10) as int)]);
    }
    let body = digits + tail;
    let s = display_of(tenths);
    if tenths < 0 {
        assert(s =~= seq![MINUS] + body);
        assert(magnitude_part(s) =~= body);
    } else {
        assert(s =~= body);
        assert(magnitude_part(s) =~= body);
    }
}

/// Round trip: a canonical value string is the display form of the value it
/// denotes. The two valid shapes left out are the ones that write a value in
/// a second way: `-0.0`, and a two-digit integer part with a leading zero.
pub proof fn lemma_display_inverts_parse(s: Seq<u8>)
    requires
        canonical_value(s),
    ensures
        display_of(value_of(s)) == s,
{
    let body = magnitude_part(s);
    let m = magnitude_value(body);
    let whole = (m / 10) as nat;
    if body.len() == 3 {
        assert(whole == digit_value(body[0]));
        assert(decimal_digits(whole) =~= seq![body[0]]);
    } else {
        assert(whole == 10 * digit_value(body[0]) + digit_value(body[1]));
        assert(decimal_digits(whole / 10) =~= seq![body[0]]);
        assert(decimal_digits(whole) =~= seq![body[0], body[1]]);
    }
    assert(decimal_digits(whole) + seq![DOT, digit_byte(m % 10)] =~= body);
    if has_sign(s) {
        assert(seq![MINUS] + body =~= s);
        assert(display_of(value_of(s)) =~= seq![MINUS] + decimal_digits(whole) + seq![
            DOT,
            digit_byte(m % 10),
        ]);
    }
    assert(display_of(value_of(s)) =~= s);
}

/// Round trip through the parser: parsing a canonical value string and
/// displaying the result gives the string back.
pub proof fn lemma_round_trip(s: Seq<u8>)
    requires
        canonical_value(s),
    ensures
        parse_spec(s) is Ok,
        display_of(parse_spec(s)->Ok_0@) == s,
{
    lemma_display_inverts_parse(s);
}

fn push_decimal(out: &mut Vec<u8>, n: u128)
    ensures
        final(out)@ == old(out)@ + decimal_digits(n as nat),
    decreases n,
{
    if n >= 10 {
        push_decimal(out, n / 10);
    }
    out.push(ZERO + (n % 10) as u8);
}

impl TempValue {
    /// Appends the display form (`-?d+.d`) to `out`.
    pub fn write_to(&self, out: &mut Vec<u8>)
        ensures
            final(out)@ == old(out)@ + display_of(self@),
    {
        let magnitude: u128 = if self.0 >= 0 {
            self.0 as u128
        } else if self.0 == i128::MIN {
            0x8000_0000_0000_0000_0000_0000_0000_0000
        } else {
            (-self.0) as u128
        };
        if self.0 < 0 {
            out.push(MINUS);
        }
        push_decimal(out, magnitude / 10);
        out.push(DOT);
        out.push(ZERO + (magnitude % 10) as u8);
    }

    /// The display form: an optional sign, the integer part, a dot and exactly
    /// one fractional digit, recovered by dividing the tenths by ten.
    pub fn to_display_string(&self) -> (out: Vec<u8>)
        ensures
            out@ == display_of(self@),
    {
        let mut out: Vec<u8> = Vec::new();
        self.write_to(&mut out);
        out
    }
}

} // verus!
