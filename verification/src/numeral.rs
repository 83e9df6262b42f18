//! Numbers in text: reading single-precision numbers, writing integers.

use vstd::prelude::*;
use vstd::arithmetic::power::*;
use vstd::arithmetic::power2::*;
use vstd::string::*;
use crate::bignat::BigNat;
use crate::binary32::{self, Binary32, INFINITY_MAGNITUDE, round_quotient};
use crate::text::{self, chars_of, equal_but_case, to_lower};

verus! {

pub open spec fn is_digit(c: char) -> bool {
    '0' <= c <= '9'
}

pub open spec fn all_digits(s: Seq<char>) -> bool {
    forall|i: int| 0 <= i < s.len() ==> is_digit(#[trigger] s[i])
}

/// The number that a row of decimal digits stands for.
pub open spec fn digits_value(s: Seq<char>) -> nat
    decreases s.len(),
{
    if s.len() == 0 {
        0
    } else {
        10 * digits_value(s.drop_last()) + ((s.last() as u32) - ('0' as u32)) as nat
    }
}

/// The position of the first `c` in `s`, in either case; the length of `s`
/// where there is none.
pub open spec fn first_index(s: Seq<char>, c: char) -> nat
    decreases s.len(),
{
    if s.len() == 0 || text::lower(s[0]) == c {
        0
    } else {
        1 + first_index(s.drop_first(), c)
    }
}

/// Whether `s` starts with a minus sign.
pub open spec fn has_minus(s: Seq<char>) -> bool {
    s.len() > 0 && s[0] == '-'
}

/// `s` without a leading sign.
pub open spec fn unsigned(s: Seq<char>) -> Seq<char> {
    if s.len() > 0 && (s[0] == '-' || s[0] == '+') {
        s.drop_first()
    } else {
        s
    }
}

/// What stands before the first `c`.
pub open spec fn before(s: Seq<char>, c: char) -> Seq<char> {
    s.take(first_index(s, c) as int)
}

/// What stands behind the first `c`; nothing where there is none.
pub open spec fn behind(s: Seq<char>, c: char) -> Seq<char> {
    if first_index(s, c) < s.len() {
        s.skip(first_index(s, c) as int + 1)
    } else {
        Seq::empty()
    }
}

/// Whether `s` is a decimal number without a sign: digits, with a point
/// before, between or behind them if there is one, and then perhaps an `e`
/// with a signed whole number.
pub open spec fn is_decimal(s: Seq<char>) -> bool {
    let mantissa = before(s, 'e');
    let exponent = unsigned(behind(s, 'e'));
    &&& all_digits(before(mantissa, '.'))
    &&& all_digits(behind(mantissa, '.'))
    &&& before(mantissa, '.').len() + behind(mantissa, '.').len() > 0
    &&& first_index(s, 'e') < s.len() ==> exponent.len() > 0 && all_digits(exponent)
}

/// The digits of a decimal number, with the point left out.
pub open spec fn decimal_digits(s: Seq<char>) -> Seq<char> {
    let mantissa = before(s, 'e');
    before(mantissa, '.') + behind(mantissa, '.')
}

/// The power of ten by which the digits of a decimal number are multiplied.
pub open spec fn decimal_exponent(s: Seq<char>) -> int {
    let written = digits_value(unsigned(behind(s, 'e')));
    let signed_exponent = if has_minus(behind(s, 'e')) {
        -(written as int)
    } else {
        written as int
    };
    signed_exponent - behind(before(s, 'e'), '.').len()
}

/// The number nearest to `digits` times ten to the power `exponent`.
pub open spec fn of_decimal(negative: bool, digits: nat, exponent: int) -> Binary32 {
    if exponent >= 0 {
        binary32::rounded(negative, digits * pow(10, exponent as nat) as nat * binary32::one(), 1)
    } else {
        binary32::rounded(negative, digits * binary32::one(), pow(10, (-exponent) as nat) as nat)
    }
}

/// The number that `s` writes down: a decimal number, an infinity (`inf` or
/// `infinity`) or `nan`, letters in either case, with or without a sign.
/// `None` where it is none of these.
pub open spec fn numeral(s: Seq<char>) -> Option<Binary32> {
    let negative = has_minus(s);
    let body = unsigned(s);
    if text::same_but_case(body, "inf"@) || text::same_but_case(body, "infinity"@) {
        Some(binary32::signed(negative, INFINITY_MAGNITUDE as nat))
    } else if text::same_but_case(body, "nan"@) {
        Some(binary32::signed(negative, 0x7fc0_0000))
    } else if is_decimal(body) {
        Some(of_decimal(negative, digits_value(decimal_digits(body)), decimal_exponent(body)))
    } else {
        None
    }
}

// ---------------------------------------------------------------------------
// Reading
// ---------------------------------------------------------------------------

fn find(s: &str, c: char) -> (r: usize)
    ensures
        r == first_index(s@, c),
        r <= s@.len(),
{
    let chars: Vec<char> = chars_of(s);
    let n: usize = chars.len();
    assert(s@.skip(0) =~= s@);
    let mut i: usize = 0;
    while i < n
        invariant
            n == chars@.len(),
            chars@ == s@,
            i <= n,
            first_index(s@, c) == i + first_index(s@.skip(i as int), c),
        decreases n - i,
    {
        if to_lower(chars[i]) == c {
            return i;
        }
        assert(s@.skip(i as int).drop_first() =~= s@.skip(i as int + 1));
        i = i + 1;
    }
    n
}

fn text_before<'a>(s: &'a str, c: char) -> (r: &'a str)
    ensures
        r@ == before(s@, c),
{
    let k: usize = find(s, c);
    s.substring_char(0, k)
}

fn text_behind<'a>(s: &'a str, c: char) -> (r: &'a str)
    ensures
        r@ == behind(s@, c),
{
    let k: usize = find(s, c);
    let n: usize = s.unicode_len();
    if k < n {
        s.substring_char(k + 1, n)
    } else {
        assert(s@.subrange(n as int, n as int) =~= Seq::empty());
        s.substring_char(n, n)
    }
}

fn starts_with_minus(s: &str) -> (r: bool)
    ensures
        r == has_minus(s@),
{
    s.unicode_len() > 0 && s.get_char(0) == '-'
}

fn without_sign<'a>(s: &'a str) -> (r: &'a str)
    ensures
        r@ == unsigned(s@),
{
    let n: usize = s.unicode_len();
    if n > 0 && (s.get_char(0) == '-' || s.get_char(0) == '+') {
        s.substring_char(1, n)
    } else {
        s
    }
}

fn only_digits(s: &str) -> (r: bool)
    ensures
        r == all_digits(s@),
{
    let chars: Vec<char> = chars_of(s);
    let n: usize = chars.len();
    for i in 0..n
        invariant
            n == chars@.len(),
            chars@ == s@,
            forall|j: int| 0 <= j < i ==> is_digit(#[trigger] s@[j]),
    {
        if !('0' <= chars[i] && chars[i] <= '9') {
            assert(!is_digit(s@[i as int]));
            return false;
        }
    }
    true
}

/// `acc` followed by the digits `s`.
fn read_digits(acc: &BigNat, s: &str, Ghost(leading): Ghost<Seq<char>>) -> (r: BigNat)
    requires
        all_digits(s@),
        acc@ == digits_value(leading),
    ensures
        r@ == digits_value(leading + s@),
{
    let chars: Vec<char> = chars_of(s);
    let n: usize = chars.len();
    let mut r: BigNat = acc.duplicate();
    assert(leading + s@.take(0) =~= leading);
    for i in 0..n
        invariant
            n == chars@.len(),
            chars@ == s@,
            all_digits(s@),
            r@ == digits_value(leading + s@.take(i as int)),
    {
        assert(is_digit(s@[i as int]));
        let d: u32 = chars[i] as u32 - '0' as u32;
        assert((leading + s@.take(i as int + 1)).drop_last() =~= leading + s@.take(i as int));
        r = r.mul_add_small(10, d);
    }
    assert(s@.take(n as int) =~= s@);
    r
}

/// The value of a row of digits, or `10^30` where it is not smaller.
fn read_capped(s: &str) -> (r: u128)
    requires
        all_digits(s@),
    ensures
        r == if digits_value(s@) < 1_000_000_000_000_000_000_000_000_000_000 {
            digits_value(s@) as int
        } else {
            1_000_000_000_000_000_000_000_000_000_000
        },
{
    let chars: Vec<char> = chars_of(s);
    let n: usize = chars.len();
    let mut r: u128 = 0;
    for i in 0..n
        invariant
            n == chars@.len(),
            chars@ == s@,
            all_digits(s@),
            r == if digits_value(s@.take(i as int))
                < 1_000_000_000_000_000_000_000_000_000_000 {
                digits_value(s@.take(i as int)) as int
            } else {
                1_000_000_000_000_000_000_000_000_000_000
            },
    {
        assert(is_digit(s@[i as int]));
        let d: u32 = chars[i] as u32 - '0' as u32;
        assert(s@.take(i as int + 1).drop_last() =~= s@.take(i as int));
        r = 10 * r + d as u128;
        if r >= 1_000_000_000_000_000_000_000_000_000_000 {
            r = 1_000_000_000_000_000_000_000_000_000_000;
        }
    }
    assert(s@.take(n as int) =~= s@);
    r
}

/// Ten to the power `k` is at least two to the power `3 k`.
proof fn lemma_ten_above_eight(k: nat)
    ensures
        pow(10, k) >= pow2(3 * k),
        pow(10, k) > 0,
    decreases k,
{
    reveal(pow);
    lemma2_to64();
    if k > 0 {
        lemma_ten_above_eight((k - 1) as nat);
        lemma_pow2_adds((3 * k - 3) as nat, 3);
    }
}

proof fn lemma_digits_bound(s: Seq<char>)
    requires
        all_digits(s),
    ensures
        digits_value(s) < pow(10, s.len()),
    decreases s.len(),
{
    reveal(pow);
    if s.len() > 0 {
        assert(is_digit(s.last()));
        assert forall|i: int| 0 <= i < s.drop_last().len() implies is_digit(
            #[trigger] s.drop_last()[i],
        ) by {
            assert(is_digit(s[i]));
        }
        lemma_digits_bound(s.drop_last());
    }
}

/// A decimal number far above the format's range is read as infinity.
proof fn lemma_far_above(digits: nat, exponent: nat)
    requires
        digits > 0,
        exponent >= 43,
    ensures
        binary32::nearest(digits * pow(10, exponent) as nat * binary32::one(), 1) == INFINITY_MAGNITUDE,
{
    lemma_ten_above_eight(exponent);
    let p = pow(10, exponent) as nat;
    let num = digits * p * binary32::one();
    if 3 * exponent > 129 {
        lemma_pow2_strictly_increases(129, 3 * exponent);
    }
    assert(p >= pow2(129));
    assert(digits * p >= p) by (nonlinear_arith)
        requires
            digits > 0,
    ;
    lemma_pow2_pos(149);
    assert(num >= pow2(129) * binary32::one()) by (nonlinear_arith)
        requires
            num == (digits * p) * binary32::one(),
            digits * p >= pow2(129),
    ;
    lemma_pow2_adds(129, 149);
    lemma_pow2_adds(23, 254);
    lemma_pow2_strictly_increases(277, 278);
    lemma2_to64();
    let top = INFINITY_MAGNITUDE as nat;
    assert(top / 0x80_0000 == 255 && top % 0x80_0000 == 0);
    assert(binary32::units(top) == 0x80_0000 * pow2(254));
    assert(binary32::units(top) == pow2(277));
    binary32::lemma_units_step((top - 1) as nat);
    assert(binary32::rounds_to(num, 1, top));
    binary32::lemma_nearest_is(num, 1, top);
}

/// A decimal number far below the smallest of the format is read as zero.
proof fn lemma_far_below(digits: nat, len: nat, k: nat)
    requires
        digits < pow(10, len),
        k >= len + 51,
    ensures
        binary32::nearest(digits * binary32::one(), pow(10, k) as nat) == 0,
{
    let rest = (k - len) as nat;
    lemma_pow_adds(10, len, rest);
    lemma_ten_above_eight(rest);
    lemma_ten_above_eight(len);
    lemma_ten_above_eight(k);
    let den = pow(10, k) as nat;
    let head = pow(10, len) as nat;
    let tail = pow(10, rest) as nat;
    lemma_pow2_strictly_increases(150, 3 * rest);
    lemma_pow2_unfold(150);
    assert(2 * (digits * binary32::one()) < den) by (nonlinear_arith)
        requires
            den == head * tail,
            digits < head,
            tail > 2 * binary32::one(),
    ;
    assert(binary32::units(0) == 0 && binary32::units(1) == 1);
    assert((binary32::units(0) + binary32::units(1)) * den == den) by (nonlinear_arith)
        requires
            binary32::units(0) == 0,
            binary32::units(1) == 1,
    ;
    assert(binary32::rounds_to(digits * binary32::one(), den, 0));
    binary32::lemma_nearest_is(digits * binary32::one(), den, 0);
}

/// Reads a single-precision number.
pub fn parse(s: &str) -> (r: Option<Binary32>)
    ensures
        r == numeral(s@),
{
    let negative: bool = starts_with_minus(s);
    let body: &str = without_sign(s);
    if equal_but_case(body, "inf") || equal_but_case(body, "infinity") {
        return Some(
            Binary32::from_bits(
                if negative {
                    0x8000_0000 + INFINITY_MAGNITUDE
                } else {
                    INFINITY_MAGNITUDE
                },
            ),
        );
    }
    if equal_but_case(body, "nan") {
        return Some(
            Binary32::from_bits(
                if negative {
                    0xffc0_0000
                } else {
                    0x7fc0_0000
                },
            ),
        );
    }
    let mantissa: &str = text_before(body, 'e');
    let whole: &str = text_before(mantissa, '.');
    let fraction: &str = text_behind(mantissa, '.');
    if !only_digits(whole) || !only_digits(fraction) {
        return None;
    }
    let whole_len: usize = whole.unicode_len();
    let fraction_len: usize = fraction.unicode_len();
    if whole_len == 0 && fraction_len == 0 {
        return None;
    }
    let exponent: &str = text_behind(body, 'e');
    let exponent_digits: &str = without_sign(exponent);
    if find(body, 'e') < body.unicode_len() {
        if exponent_digits.unicode_len() == 0 || !only_digits(exponent_digits) {
            return None;
        }
    } else {
        assert(all_digits(exponent_digits@));
    }
    let zero: BigNat = BigNat::from_u32(0);
    let leading: BigNat = read_digits(&zero, whole, Ghost(Seq::empty()));
    assert(Seq::<char>::empty() + whole@ =~= whole@);
    let digits: BigNat = read_digits(&leading, fraction, Ghost(whole@));
    let written: u128 = read_capped(exponent_digits);
    Some(
        round_decimal(
            negative,
            &digits,
            starts_with_minus(exponent),
            written,
            whole_len,
            fraction_len,
            Ghost(body@),
        ),
    )
}

/// The number that the parts of the decimal number `body` stand for.
fn round_decimal(
    negative: bool,
    digits: &BigNat,
    negative_exponent: bool,
    written: u128,
    whole_len: usize,
    fraction_len: usize,
    Ghost(body): Ghost<Seq<char>>,
) -> (r: Binary32)
    requires
        is_decimal(body),
        digits@ == digits_value(decimal_digits(body)),
        negative_exponent == has_minus(behind(body, 'e')),
        ({
            let exact = digits_value(unsigned(behind(body, 'e')));
            written == if exact < 1_000_000_000_000_000_000_000_000_000_000 {
                exact as int
            } else {
                1_000_000_000_000_000_000_000_000_000_000
            }
        }),
        whole_len == before(before(body, 'e'), '.').len(),
        fraction_len == behind(before(body, 'e'), '.').len(),
    ensures
        r == of_decimal(negative, digits@, decimal_exponent(body)),
{
    let ghost exact = decimal_exponent(body);
    let unit: BigNat = BigNat::from_u32(1);
    proof {
        lemma_ten_above_eight(binary32::absolute(exact));
        let text = decimal_digits(body);
        assert(all_digits(text));
        lemma_digits_bound(text);
        assert(text.len() == whole_len + fraction_len);
    }
    let zero: BigNat = BigNat::from_u32(0);
    if digits.at_most(&zero) {
        proof {
            let p = pow(10, binary32::absolute(exact)) as nat;
            assert(0 * p == 0 && 0 * binary32::one() == 0) by (nonlinear_arith);
            assert(binary32::units(0) == 0);
            binary32::lemma_nearest_exact(0, 1, 0);
            binary32::lemma_nearest_exact(0, p, 0);
        }
        return Binary32::from_bits(
            if negative {
                0x8000_0000
            } else {
                0
            },
        );
    }
    let signed_exponent: i128 = if negative_exponent {
        -(written as i128)
    } else {
        written as i128
    };
    let e: i128 = signed_exponent - fraction_len as i128;
    if e >= 43 {
        proof {
            lemma_far_above(digits@, exact as nat);
        }
        return Binary32::from_bits(
            if negative {
                0x8000_0000 + INFINITY_MAGNITUDE
            } else {
                INFINITY_MAGNITUDE
            },
        );
    }
    if e >= 0 {
        let scaled: BigNat = digits.scale_by_ten(e as u128).shift_left(149);
        return round_quotient(negative, &scaled, &unit);
    }
    let len: i128 = whole_len as i128 + fraction_len as i128;
    if -e >= len + 51 {
        proof {
            lemma_far_below(digits@, len as nat, (-exact) as nat);
        }
        return Binary32::from_bits(
            if negative {
                0x8000_0000
            } else {
                0
            },
        );
    }
    assert(unit@ * pow(10, (-e) as nat) == pow(10, (-e) as nat)) by (nonlinear_arith)
        requires
            unit@ == 1,
    ;
    let den: BigNat = unit.scale_by_ten((-e) as u128);
    round_quotient(negative, &digits.shift_left(149), &den)
}

// ---------------------------------------------------------------------------
// Integers
// ---------------------------------------------------------------------------

/// Why a text is no integer of 64 bits.
#[derive(Debug, Clone, Copy, PartialEq, Eq, Structural)]
pub enum IntegerFault {
    Empty,
    InvalidDigit,
    TooLarge,
    TooSmall,
}

impl IntegerFault {
    /// The fault in words.
    pub open spec fn words(self) -> Seq<char> {
        match self {
            IntegerFault::Empty => "cannot parse integer from empty string"@,
            IntegerFault::InvalidDigit => "invalid digit found in string"@,
            IntegerFault::TooLarge => "number too large to fit in target type"@,
            IntegerFault::TooSmall => "number too small to fit in target type"@,
        }
    }

    /// The fault in words.
    pub fn text(self) -> (r: &'static str)
        ensures
            r@ == self.words(),
    {
        match self {
            IntegerFault::Empty => "cannot parse integer from empty string",
            IntegerFault::InvalidDigit => "invalid digit found in string",
            IntegerFault::TooLarge => "number too large to fit in target type",
            IntegerFault::TooSmall => "number too small to fit in target type",
        }
    }
}

/// The integer that a row of digits stands for under a sign. A character that
/// is no digit, and a value that leaves the range, are faults; the leftmost
/// one counts.
pub open spec fn signed_digits(s: Seq<char>, negative: bool) -> Result<int, IntegerFault>
    decreases s.len(),
{
    if s.len() == 0 {
        Ok(0)
    } else {
        match signed_digits(s.drop_last(), negative) {
            Err(fault) => Err(fault),
            Ok(leading) => {
                let d = (s.last() as u32) - ('0' as u32);
                let value = if negative {
                    10 * leading - d
                } else {
                    10 * leading + d
                };
                if !is_digit(s.last()) {
                    Err(IntegerFault::InvalidDigit)
                } else if value > i64::MAX {
                    Err(IntegerFault::TooLarge)
                } else if value < i64::MIN {
                    Err(IntegerFault::TooSmall)
                } else {
                    Ok(value)
                }
            },
        }
    }
}

/// The integer of 64 bits that `s` writes down: digits, with or without a sign.
pub open spec fn integer(s: Seq<char>) -> Result<int, IntegerFault> {
    if s.len() == 0 {
        Err(IntegerFault::Empty)
    } else if unsigned(s).len() == 0 {
        Err(IntegerFault::InvalidDigit)
    } else {
        signed_digits(unsigned(s), has_minus(s))
    }
}

/// Reads an integer of 64 bits.
pub fn parse_integer(s: &str) -> (r: Result<i64, IntegerFault>)
    ensures
        match r {
            Ok(n) => integer(s@) == Ok::<int, IntegerFault>(n as int),
            Err(fault) => integer(s@) == Err::<int, IntegerFault>(fault),
        },
{
    if s.unicode_len() == 0 {
        return Err(IntegerFault::Empty);
    }
    let negative: bool = starts_with_minus(s);
    let body: &str = without_sign(s);
    let chars: Vec<char> = chars_of(body);
    let n: usize = chars.len();
    if n == 0 {
        return Err(IntegerFault::InvalidDigit);
    }
    let mut value: i64 = 0;
    for i in 0..n
        invariant
            n == chars@.len(),
            chars@ == body@,
            body@ == unsigned(s@),
            negative == has_minus(s@),
            s@.len() > 0,
            n > 0,
            signed_digits(body@.take(i as int), negative) == Ok::<int, IntegerFault>(value as int),
    {
        assert(body@.take(i as int + 1).drop_last() =~= body@.take(i as int));
        if !('0' <= chars[i] && chars[i] <= '9') {
            proof {
                lemma_fault_stays(body@, negative, i as nat + 1);
            }
            return Err(IntegerFault::InvalidDigit);
        }
        let d: i128 = chars[i] as i128 - '0' as i128;
        let next: i128 = if negative {
            10 * (value as i128) - d
        } else {
            10 * (value as i128) + d
        };
        if next > i64::MAX as i128 {
            proof {
                lemma_fault_stays(body@, negative, i as nat + 1);
            }
            return Err(IntegerFault::TooLarge);
        }
        if next < i64::MIN as i128 {
            proof {
                lemma_fault_stays(body@, negative, i as nat + 1);
            }
            return Err(IntegerFault::TooSmall);
        }
        value = next as i64;
    }
    assert(body@.take(n as int) =~= body@);
    Ok(value)
}

/// A fault in the first `n` characters is the fault of the whole.
proof fn lemma_fault_stays(s: Seq<char>, negative: bool, n: nat)
    requires
        n <= s.len(),
        signed_digits(s.take(n as int), negative) is Err,
    ensures
        signed_digits(s, negative) == signed_digits(s.take(n as int), negative),
    decreases s.len(),
{
    if n < s.len() {
        assert(s.drop_last().take(n as int) =~= s.take(n as int));
        lemma_fault_stays(s.drop_last(), negative, n);
    } else {
        assert(s.take(n as int) =~= s);
    }
}

/// A row of digits is an integer of 64 bits exactly where its value is in the
/// range of these, and then it is that value.
pub proof fn law_signed_digits(s: Seq<char>, negative: bool)
    ensures
        ({
            let value = if negative {
                -(digits_value(s) as int)
            } else {
                digits_value(s) as int
            };
            &&& signed_digits(s, negative) is Ok <==> all_digits(s) && i64::MIN <= value <= i64::MAX
            &&& signed_digits(s, negative) matches Ok(n) ==> n == value
        }),
    decreases s.len(),
{
    if s.len() > 0 {
        let front = s.drop_last();
        law_signed_digits(front, negative);
        if all_digits(s) {
            assert(is_digit(s[s.len() - 1]));
            assert forall|i: int| 0 <= i < front.len() implies is_digit(#[trigger] front[i]) by {
                assert(is_digit(s[i]));
            }
        }
        if signed_digits(s, negative) is Ok {
            assert forall|i: int| 0 <= i < s.len() implies is_digit(#[trigger] s[i]) by {
                if i < front.len() {
                    assert(is_digit(front[i]));
                }
            }
        }
    }
}

// ---------------------------------------------------------------------------
// Writing
// ---------------------------------------------------------------------------

/// The digit for `d`, which is below 16.
pub open spec fn digit(d: nat) -> char {
    if d < 10 {
        (('0' as u32) + d) as char
    } else {
        (('a' as u32) + d - 10) as char
    }
}

/// `n` in decimal digits.
pub open spec fn decimal(n: nat) -> Seq<char>
    decreases n,
{
    if n < 10 {
        seq![digit(n)]
    } else {
        decimal(n / 10).push(digit(n % 10))
    }
}

/// `n`, which is below 256, in two hexadecimal digits.
pub open spec fn hex(n: nat) -> Seq<char> {
    seq![digit(n / 16), digit(n % 16)]
}

fn digit_text(d: u8) -> (r: &'static str)
    requires
        d < 16,
    ensures
        r@ == seq![digit(d as nat)],
{
    let all: &'static str = "0123456789abcdef";
    proof {
        reveal_strlit("0123456789abcdef");
    }
    let r: &'static str = all.substring_char(d as usize, d as usize + 1);
    assert(r@ =~= seq![digit(d as nat)]);
    r
}

/// Writes `n` in decimal digits.
pub fn write_decimal(n: u64) -> (r: String)
    ensures
        r@ == decimal(n as nat),
    decreases n,
{
    if n < 10 {
        let r: String = digit_text(n as u8).to_owned();
        r
    } else {
        let mut r: String = write_decimal(n / 10);
        let ghost head = r@;
        r.append(digit_text((n % 10) as u8));
        assert(r@ =~= head.push(digit((n % 10) as nat)));
        r
    }
}

/// Writes `n` in two hexadecimal digits.
pub fn write_hex(n: u8) -> (r: String)
    ensures
        r@ == hex(n as nat),
{
    let mut r: String = digit_text(n / 16).to_owned();
    r.append(digit_text(n % 16));
    assert(r@ =~= hex(n as nat));
    r
}

// ---------------------------------------------------------------------------
// Laws
// ---------------------------------------------------------------------------

/// Digits have the value of their place: a digit stands for itself, and digits
/// that others follow count ten times as much for each of these.
pub proof fn law_digits_value(c: char, a: Seq<char>, b: Seq<char>)
    ensures
        is_digit(c) ==> digits_value(seq![c]) == c as int - '0' as int,
        digits_value(a + b) == digits_value(a) * pow(10, b.len()) + digits_value(b),
    decreases b.len(),
{
    reveal(pow);
    reveal_with_fuel(digits_value, 2);
    assert(seq![c].drop_last() =~= Seq::empty());
    if b.len() == 0 {
        assert(a + b =~= a);
    } else {
        law_digits_value(c, a, b.drop_last());
        assert((a + b).drop_last() =~= a + b.drop_last());
        let v = digits_value(a);
        let p = pow(10, (b.len() - 1) as nat);
        assert(10 * (v * p) == v * (10 * p)) by (nonlinear_arith);
    }
}

/// A number is written in digits that have its value, without a leading zero.
pub proof fn law_decimal(n: nat)
    ensures
        decimal(n).len() > 0,
        all_digits(decimal(n)),
        digits_value(decimal(n)) == n,
        n > 0 ==> decimal(n)[0] != '0',
    decreases n,
{
    reveal_with_fuel(digits_value, 2);
    let s = decimal(n);
    if n < 10 {
        assert(s.drop_last() =~= Seq::empty());
    } else {
        law_decimal(n / 10);
        assert(s.drop_last() =~= decimal(n / 10));
        assert forall|i: int| 0 <= i < s.len() implies is_digit(#[trigger] s[i]) by {
            if i < s.len() - 1 {
                assert(is_digit(decimal(n / 10)[i]));
            }
        }
    }
}

/// The value of a hexadecimal digit.
pub open spec fn hex_value(c: char) -> int {
    if '0' <= c <= '9' {
        c as int - '0' as int
    } else {
        c as int - 'a' as int + 10
    }
}

/// A number below 256 is written in two hexadecimal digits that have its value.
pub proof fn law_hex(n: nat)
    requires
        n < 256,
    ensures
        hex(n).len() == 2,
        forall|i: int|
            0 <= i < 2 ==> '0' <= #[trigger] hex(n)[i] <= '9' || 'a' <= hex(n)[i] <= 'f',
        16 * hex_value(hex(n)[0]) + hex_value(hex(n)[1]) == n,
{
}

/// Digits, with or without a sign, are read as the integer of their value where
/// that has 64 bits, and as none where it has more.
pub proof fn law_integer(digits: Seq<char>)
    requires
        digits.len() > 0,
        all_digits(digits),
    ensures
        digits_value(digits) <= i64::MAX ==> integer(digits) == Ok::<int, IntegerFault>(
            digits_value(digits) as int,
        ) && integer(seq!['+'] + digits) == Ok::<int, IntegerFault>(digits_value(digits) as int),
        digits_value(digits) > i64::MAX ==> integer(digits) is Err && integer(
            seq!['+'] + digits,
        ) is Err,
        -digits_value(digits) >= i64::MIN ==> integer(seq!['-'] + digits) == Ok::<
            int,
            IntegerFault,
        >(-digits_value(digits)),
        -digits_value(digits) < i64::MIN ==> integer(seq!['-'] + digits) is Err,
{
    law_signed_digits(digits, false);
    law_signed_digits(digits, true);
    assert(is_digit(digits[0]));
    assert((seq!['+'] + digits).drop_first() =~= digits);
    assert((seq!['-'] + digits).drop_first() =~= digits);
}

/// Nothing else is read as an integer.
pub proof fn law_integer_only(s: Seq<char>)
    ensures
        integer(s) is Ok ==> s.len() > 0 && (all_digits(s) || (s.len() > 1 && (s[0] == '-' || s[0]
            == '+') && all_digits(s.drop_first()))),
{
    law_signed_digits(unsigned(s), has_minus(s));
}

proof fn lemma_no_index(s: Seq<char>, c: char)
    requires
        forall|i: int| 0 <= i < s.len() ==> text::lower(#[trigger] s[i]) != c,
    ensures
        first_index(s, c) == s.len(),
    decreases s.len(),
{
    if s.len() > 0 {
        assert(text::lower(s[0]) != c);
        let rest = s.drop_first();
        assert forall|i: int| 0 <= i < rest.len() implies text::lower(#[trigger] rest[i]) != c by {
            assert(text::lower(s[i + 1]) != c);
        }
        lemma_no_index(rest, c);
    }
}

proof fn lemma_index(a: Seq<char>, b: Seq<char>, c: char)
    requires
        forall|i: int| 0 <= i < a.len() ==> text::lower(#[trigger] a[i]) != c,
        text::lower(c) == c,
    ensures
        first_index(a.push(c) + b, c) == a.len(),
    decreases a.len(),
{
    let s = a.push(c) + b;
    if a.len() == 0 {
        assert(s[0] == c);
    } else {
        assert(text::lower(a[0]) != c);
        assert(s[0] == a[0]);
        let rest = a.drop_first();
        assert forall|i: int| 0 <= i < rest.len() implies text::lower(#[trigger] rest[i]) != c by {
            assert(text::lower(a[i + 1]) != c);
        }
        assert(s.drop_first() =~= rest.push(c) + b);
        lemma_index(rest, b, c);
    }
}

/// Whether `x` has the given sign and is the number of the format nearest to
/// `num / den`.
pub open spec fn is_nearest(x: Binary32, negative: bool, num: nat, den: nat) -> bool {
    x.negative() == negative && binary32::rounds_to(num * binary32::one(), den, x.magnitude())
}

proof fn lemma_unsigned_decimal(body: Seq<char>, whole: Seq<char>, fraction: Seq<char>)
    requires
        all_digits(whole),
        all_digits(fraction),
        whole.len() > 0,
        body == whole && fraction.len() == 0 || body == whole.push('.') + fraction,
    ensures
        is_decimal(body),
        decimal_digits(body) == whole + fraction,
        decimal_exponent(body) == -(fraction.len() as int),
        is_digit(body[0]),
{
    assert forall|i: int| 0 <= i < body.len() implies text::lower(#[trigger] body[i]) != 'e' by {
        if i < whole.len() {
            assert(is_digit(whole[i]));
            assert(body[i] == whole[i]);
        } else if i == whole.len() {
            assert(body[i] == '.');
        } else {
            assert(is_digit(fraction[i - whole.len() - 1]));
        }
    }
    lemma_no_index(body, 'e');
    assert(body.take(body.len() as int) =~= body);
    assert forall|i: int| 0 <= i < whole.len() implies text::lower(#[trigger] whole[i]) != '.' by {
        assert(is_digit(whole[i]));
    }
    assert(is_digit(whole[0]));
    if body == whole && fraction.len() == 0 {
        lemma_no_index(body, '.');
        assert(whole + fraction =~= whole);
        assert(decimal_digits(body) =~= whole + fraction);
    } else {
        lemma_index(whole, fraction, '.');
        assert(body.take(whole.len() as int) =~= whole);
        assert(body.skip(whole.len() as int + 1) =~= fraction);
        assert(body[0] == whole[0]);
    }
}

/// Decimal digits, with or without a point and more digits behind it, are read as
/// the number nearest to what they stand for; with a minus sign before them, as
/// its negative.
pub proof fn law_numeral(whole: Seq<char>, fraction: Seq<char>)
    requires
        whole.len() > 0,
        all_digits(whole),
        all_digits(fraction),
    ensures
        numeral(whole) matches Some(x) && is_nearest(x, false, digits_value(whole), 1),
        numeral(seq!['-'] + whole) matches Some(x) && is_nearest(x, true, digits_value(whole), 1),
        numeral(whole.push('.') + fraction) matches Some(x) && is_nearest(
            x,
            false,
            digits_value(whole + fraction),
            pow(10, fraction.len()) as nat,
        ),
        numeral(seq!['-'] + (whole.push('.') + fraction)) matches Some(x) && is_nearest(
            x,
            true,
            digits_value(whole + fraction),
            pow(10, fraction.len()) as nat,
        ),
{
    let none = Seq::<char>::empty();
    lemma_unsigned_decimal(whole, whole, none);
    assert(whole + none =~= whole);
    lemma_unsigned_numeral(whole, digits_value(whole), 0);
    let body = whole.push('.') + fraction;
    lemma_unsigned_decimal(body, whole, fraction);
    lemma_unsigned_numeral(body, digits_value(whole + fraction), fraction.len());
    reveal(pow);
    assert(pow(10, 0) == 1);
}

proof fn lemma_unsigned_numeral(body: Seq<char>, digits: nat, places: nat)
    requires
        body.len() > 0,
        is_digit(body[0]),
        is_decimal(body),
        digits_value(decimal_digits(body)) == digits,
        decimal_exponent(body) == -(places as int),
    ensures
        numeral(body) matches Some(x) && is_nearest(x, false, digits, pow(10, places) as nat),
        numeral(seq!['-'] + body) matches Some(x) && is_nearest(
            x,
            true,
            digits,
            pow(10, places) as nat,
        ),
{
    lemma_ten_above_eight(places);
    lemma_no_word(body);
    let p = pow(10, places) as nat;
    let num = digits * binary32::one();
    let minus = seq!['-'] + body;
    assert(minus[0] == '-');
    assert(minus.drop_first() =~= body);
    reveal(pow);
    binary32::lemma_nearest(num, p);
    binary32::lemma_signed(false, binary32::nearest(num, p));
    binary32::lemma_signed(true, binary32::nearest(num, p));
    if places == 0 {
        assert(p == 1);
        assert(digits * 1 * binary32::one() == num) by (nonlinear_arith)
            requires
                num == digits * binary32::one(),
        ;
        assert(digits * pow(10, 0) as nat * binary32::one() == num);
    }
}

/// Decimal digits with an `e` and more digits behind it are read as the number
/// nearest to the first times ten to the power of the second; with a minus sign
/// before the second, nearest to the first divided by it.
pub proof fn law_numeral_exponent(whole: Seq<char>, exponent: Seq<char>)
    requires
        whole.len() > 0,
        all_digits(whole),
        exponent.len() > 0,
        all_digits(exponent),
    ensures
        numeral(whole.push('e') + exponent) matches Some(x) && is_nearest(
            x,
            false,
            digits_value(whole) * pow(10, digits_value(exponent)) as nat,
            1,
        ),
        numeral(whole.push('e') + (seq!['-'] + exponent)) matches Some(x) && is_nearest(
            x,
            false,
            digits_value(whole),
            pow(10, digits_value(exponent)) as nat,
        ),
{
    let up = whole.push('e') + exponent;
    let down = whole.push('e') + (seq!['-'] + exponent);
    let power = digits_value(exponent);
    lemma_with_exponent(up, whole, exponent);
    lemma_with_exponent(down, whole, seq!['-'] + exponent);
    assert(is_digit(exponent[0]));
    assert((seq!['-'] + exponent)[0] == '-');
    assert((seq!['-'] + exponent).drop_first() =~= exponent);
    lemma_no_word(up);
    lemma_no_word(down);
    lemma_ten_above_eight(power);
    let p = pow(10, power) as nat;
    let digits = digits_value(whole);
    binary32::lemma_nearest(digits * p * binary32::one(), 1);
    binary32::lemma_signed(false, binary32::nearest(digits * p * binary32::one(), 1));
    binary32::lemma_nearest(digits * binary32::one(), p);
    binary32::lemma_signed(false, binary32::nearest(digits * binary32::one(), p));
    if power == 0 {
        reveal(pow);
        assert(p == 1);
        assert(digits * 1 * binary32::one() == digits * binary32::one()) by (nonlinear_arith);
    }
}

proof fn lemma_with_exponent(body: Seq<char>, whole: Seq<char>, exponent: Seq<char>)
    requires
        whole.len() > 0,
        all_digits(whole),
        body == whole.push('e') + exponent,
    ensures
        before(body, 'e') == whole,
        behind(body, 'e') == exponent,
        first_index(body, 'e') < body.len(),
        before(whole, '.') == whole,
        behind(whole, '.') == Seq::<char>::empty(),
        whole + Seq::<char>::empty() == whole,
        body[0] == whole[0],
        is_digit(body[0]),
{
    assert forall|i: int| 0 <= i < whole.len() implies text::lower(#[trigger] whole[i]) != 'e'
        && text::lower(whole[i]) != '.' by {
        assert(is_digit(whole[i]));
    }
    lemma_index(whole, exponent, 'e');
    lemma_no_index(whole, '.');
    assert(is_digit(whole[0]));
    assert(body.take(whole.len() as int) =~= whole);
    assert(body.skip(whole.len() as int + 1) =~= exponent);
    assert(whole.take(whole.len() as int) =~= whole);
    assert(whole + Seq::<char>::empty() =~= whole);
}

/// What starts with a digit is none of the words for numbers.
proof fn lemma_no_word(body: Seq<char>)
    requires
        body.len() > 0,
        is_digit(body[0]),
    ensures
        !text::same_but_case(body, "inf"@),
        !text::same_but_case(body, "infinity"@),
        !text::same_but_case(body, "nan"@),
{
    reveal_strlit("inf");
    reveal_strlit("infinity");
    reveal_strlit("nan");
    if text::same_but_case(body, "inf"@) {
        assert(text::lower(body[0]) == text::lower("inf"@[0]));
    }
    if text::same_but_case(body, "infinity"@) {
        assert(text::lower(body[0]) == text::lower("infinity"@[0]));
    }
    if text::same_but_case(body, "nan"@) {
        assert(text::lower(body[0]) == text::lower("nan"@[0]));
    }
}

} // verus!
