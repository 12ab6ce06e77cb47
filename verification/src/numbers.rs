//! Unsigned integers as text: decimal and hexadecimal digits, written and read.

use vstd::prelude::*;

use crate::text::chars_of;

verus! {

/// The upper-case digit for a value below sixteen.
pub open spec fn digit_char(d: nat) -> char
    recommends
        d < 16,
{
    if d < 10 {
        (0x30 + d) as char
    } else {
        (0x41 + (d - 10)) as char
    }
}

/// The value of a digit in the given radix, of either case.
pub open spec fn digit_value(c: char, radix: nat) -> Option<nat> {
    let u = c as u32;
    let v: int = if 0x30 <= u <= 0x39 {
        u - 0x30
    } else if 0x41 <= u <= 0x5a {
        u - 0x41 + 10
    } else if 0x61 <= u <= 0x7a {
        u - 0x61 + 10
    } else {
        radix as int
    };
    if v < radix {
        Some(v as nat)
    } else {
        None
    }
}

fn to_digit(d: u8) -> (c: char)
    requires
        d < 16,
    ensures
        c == digit_char(d as nat),
{
    if d < 10 {
        (0x30 + d) as char
    } else {
        (0x41 + (d - 10)) as char
    }
}

fn from_digit(c: char, radix: u8) -> (r: Option<u8>)
    ensures
        match r {
            Some(v) => digit_value(c, radix as nat) == Some(v as nat),
            None => digit_value(c, radix as nat) is None,
        },
{
    let u: u32 = c as u32;
    let v: u32 = if 0x30 <= u && u <= 0x39 {
        u - 0x30
    } else if 0x41 <= u && u <= 0x5a {
        u - 0x41 + 10
    } else if 0x61 <= u && u <= 0x7a {
        u - 0x61 + 10
    } else {
        radix as u32
    };
    if v < radix as u32 {
        Some(v as u8)
    } else {
        None
    }
}

/// The decimal digits of `n`, without leading zeros.
pub open spec fn decimal_text(n: nat) -> Seq<char>
    decreases n,
{
    if n < 10 {
        seq![digit_char(n)]
    } else {
        decimal_text(n / 10).push(digit_char(n % 10))
    }
}

/// `n` in decimal.
pub fn decimal(n: u64) -> (r: String)
    ensures
        r@ == decimal_text(n as nat),
    decreases n,
{
    let mut r: String = if n < 10 {
        String::new()
    } else {
        decimal(n / 10)
    };
    r.push(to_digit((n % 10) as u8));
    r
}

/// The four upper-case hexadecimal digits of `n`.
pub open spec fn hex4_text(n: nat) -> Seq<char>
    recommends
        n < 0x1_0000,
{
    seq![
        digit_char(n / 0x1000),
        digit_char(n / 0x100 % 0x10),
        digit_char(n / 0x10 % 0x10),
        digit_char(n % 0x10),
    ]
}

/// `n` as four upper-case hexadecimal digits.
pub fn hex4(n: u16) -> (r: String)
    ensures
        r@ == hex4_text(n as nat),
{
    let mut r: String = String::new();
    r.push(to_digit((n / 0x1000) as u8));
    r.push(to_digit((n / 0x100 % 0x10) as u8));
    r.push(to_digit((n / 0x10 % 0x10) as u8));
    r.push(to_digit((n % 0x10) as u8));
    r
}

/// Why a text is not an unsigned integer.
#[derive(Debug, Clone, Copy, PartialEq, Eq, Structural)]
pub enum ParseIntError {
    /// The text is empty.
    Empty,
    /// A character is not a digit of the radix.
    InvalidDigit,
    /// The number is too large.
    PosOverflow,
}

impl ParseIntError {
    pub open spec fn spec_message(self) -> Seq<char> {
        match self {
            ParseIntError::Empty => "cannot parse integer from empty string"@,
            ParseIntError::InvalidDigit => "invalid digit found in string"@,
            ParseIntError::PosOverflow => "number too large to fit in target type"@,
        }
    }

    /// The error in words.
    pub fn message(&self) -> (r: String)
        ensures
            r@ == self.spec_message(),
    {
        match self {
            ParseIntError::Empty => "cannot parse integer from empty string".to_owned(),
            ParseIntError::InvalidDigit => "invalid digit found in string".to_owned(),
            ParseIntError::PosOverflow => "number too large to fit in target type".to_owned(),
        }
    }
}

/// The number that a run of digits stands for. The digits are read from the
/// left, and the first one that is invalid or carries the number above `max`
/// decides the error.
pub open spec fn digits_value(s: Seq<char>, radix: nat, max: nat) -> Result<nat, ParseIntError>
    decreases s.len(),
{
    if s.len() == 0 {
        Ok(0)
    } else {
        match digits_value(s.drop_last(), radix, max) {
            Err(e) => Err(e),
            Ok(v) => match digit_value(s.last(), radix) {
                None => Err(ParseIntError::InvalidDigit),
                Some(d) => if v * radix + d > max {
                    Err(ParseIntError::PosOverflow)
                } else {
                    Ok(v * radix + d)
                },
            },
        }
    }
}

/// The number that a text stands for: digits, behind an optional plus sign.
pub open spec fn number_value(s: Seq<char>, radix: nat, max: nat) -> Result<nat, ParseIntError> {
    if s.len() == 0 {
        Err(ParseIntError::Empty)
    } else if s.len() == 1 && s[0] == '+' {
        Err(ParseIntError::InvalidDigit)
    } else if s[0] == '+' {
        digits_value(s.skip(1), radix, max)
    } else {
        digits_value(s, radix, max)
    }
}

/// An error at some digit is the error of the whole run.
proof fn lemma_digits_error(s: Seq<char>, n: int, radix: nat, max: nat)
    requires
        0 <= n <= s.len(),
        digits_value(s.take(n), radix, max) is Err,
    ensures
        digits_value(s, radix, max) == digits_value(s.take(n), radix, max),
    decreases s.len(),
{
    if n == s.len() {
        assert(s.take(n) == s);
    } else {
        assert(s.drop_last().take(n) == s.take(n));
        lemma_digits_error(s.drop_last(), n, radix, max);
    }
}

/// Reads an unsigned integer that is at most `max`.
pub fn parse_number(s: &str, radix: u8, max: u64) -> (r: Result<u64, ParseIntError>)
    ensures
        match r {
            Ok(v) => number_value(s@, radix as nat, max as nat) == Ok::<nat, ParseIntError>(
                v as nat,
            ),
            Err(e) => number_value(s@, radix as nat, max as nat) == Err::<nat, ParseIntError>(e),
        },
        r matches Ok(v) ==> v <= max,
{
    let h: Vec<char> = chars_of(s);
    if h.len() == 0 {
        return Err(ParseIntError::Empty);
    }
    if h.len() == 1 && h[0] == '+' {
        return Err(ParseIntError::InvalidDigit);
    }
    let start: usize = if h[0] == '+' {
        1
    } else {
        0
    };
    let ghost digits = s@.skip(start as int);
    assert(s@.skip(0) == s@);
    let mut v: u64 = 0;
    for i in start..h.len()
        invariant
            h@ == s@,
            start <= 1,
            start <= h.len(),
            digits == s@.skip(start as int),
            number_value(s@, radix as nat, max as nat) == digits_value(
                digits,
                radix as nat,
                max as nat,
            ),
            v <= max,
            digits_value(digits.take(i - start), radix as nat, max as nat) == Ok::<
                nat,
                ParseIntError,
            >(v as nat),
    {
        let ghost taken = digits.take(i - start + 1);
        assert(taken.drop_last() == digits.take(i - start));
        assert(taken.last() == h@[i as int]);
        match from_digit(h[i], radix) {
            None => {
                proof {
                    lemma_digits_error(digits, i - start + 1, radix as nat, max as nat);
                }
                return Err(ParseIntError::InvalidDigit);
            },
            Some(d) => {
                assert(0 <= v * radix <= 0xffff_ffff_ffff_ffff * 0xff) by (nonlinear_arith)
                    requires
                        0 <= v <= 0xffff_ffff_ffff_ffff,
                        0 <= radix <= 0xff,
                ;
                let next: u128 = (v as u128) * (radix as u128) + (d as u128);
                if next > max as u128 {
                    proof {
                        lemma_digits_error(digits, i - start + 1, radix as nat, max as nat);
                    }
                    return Err(ParseIntError::PosOverflow);
                }
                v = next as u64;
            },
        }
    }
    assert(digits.take(h.len() - start) == digits);
    Ok(v)
}

/// Reading back the four hexadecimal digits of a number gives the number.
pub proof fn lemma_hex4_round_trip(n: nat, max: nat)
    requires
        n < 0x1_0000,
        n <= max,
    ensures
        number_value(hex4_text(n), 16, max) == Ok::<nat, ParseIntError>(n),
{
    let s = hex4_text(n);
    let a = n / 0x1000;
    let b = n / 0x100 % 0x10;
    let c = n / 0x10 % 0x10;
    let d = n % 0x10;
    lemma_hex_digit(a);
    lemma_hex_digit(b);
    lemma_hex_digit(c);
    lemma_hex_digit(d);
    let s0 = Seq::<char>::empty();
    let s1 = s0.push(digit_char(a));
    let s2 = s1.push(digit_char(b));
    let s3 = s2.push(digit_char(c));
    assert(s =~= s3.push(digit_char(d)));
    assert(s.drop_last() =~= s3);
    assert(s3.drop_last() =~= s2);
    assert(s2.drop_last() =~= s1);
    assert(s1.drop_last() =~= s0);
    assert(n / 0x100 == a * 16 + b);
    assert(n / 0x10 == (a * 16 + b) * 16 + c);
    assert(n == ((a * 16 + b) * 16 + c) * 16 + d);
    assert(digits_value(s0, 16, max) == Ok::<nat, ParseIntError>(0));
    assert(digits_value(s1, 16, max) == Ok::<nat, ParseIntError>(a));
    assert(digits_value(s2, 16, max) == Ok::<nat, ParseIntError>(a * 16 + b));
    assert(digits_value(s3, 16, max) == Ok::<nat, ParseIntError>((a * 16 + b) * 16 + c));
    assert(digits_value(s, 16, max) == Ok::<nat, ParseIntError>(n));
    assert(s[0] == digit_char(a));
}

/// Hexadecimal digits are ASCII characters.
pub proof fn lemma_hex4_ascii(n: nat)
    requires
        n < 0x1_0000,
    ensures
        vstd::utf8::is_ascii_chars(hex4_text(n)),
{
    lemma_hex_digit(n / 0x1000);
    lemma_hex_digit(n / 0x100 % 0x10);
    lemma_hex_digit(n / 0x10 % 0x10);
    lemma_hex_digit(n % 0x10);
}

/// A hexadecimal digit is read back as its value.
proof fn lemma_hex_digit(v: nat)
    requires
        v < 16,
    ensures
        digit_value(digit_char(v), 16) == Some(v),
        digit_char(v) != '+',
        (digit_char(v) as u32) < 0x80,
{
}

// Laws

/// The digits of a number in decimal are digits, and add up to the number: each
/// is worth ten times the next. There is no zero in front but that of zero.
pub proof fn law_decimal_adds_up(n: nat)
    ensures
        decimal_text(n).len() > 0,
        forall|i: int|
            0 <= i < decimal_text(n).len() ==> 0x30 <= #[trigger] decimal_text(n)[i] as u32 <= 0x39,
        decimal_text(n).fold_left(0int, |v: int, c: char| v * 10 + (c as u32 - 0x30)) == n,
        n > 0 ==> decimal_text(n)[0] != '0',
        n == 0 ==> decimal_text(n) == seq!['0'],
    decreases n,
{
    let f = |v: int, c: char| v * 10 + (c as u32 - 0x30);
    let text = decimal_text(n);
    lemma_decimal_digit(n % 10);
    if n < 10 {
        lemma_decimal_digit(n);
        assert(text.drop_last() =~= Seq::<char>::empty());
        assert(Seq::<char>::empty().fold_left(0int, f) == 0);
        assert(text.fold_left(0int, f) == f(0int, digit_char(n)));
        if n == 0 {
            assert(text =~= seq!['0']);
        }
    } else {
        let front = decimal_text(n / 10);
        law_decimal_adds_up(n / 10);
        assert(text.drop_last() =~= front);
        assert(text.last() == digit_char(n % 10));
        assert(text.fold_left(0int, f) == f(front.fold_left(0int, f), digit_char(n % 10)));
        assert(text[0] == front[0]);
        assert forall|i: int| 0 <= i < text.len() implies 0x30 <= #[trigger] text[i] as u32
            <= 0x39 by {
            if i < front.len() {
                assert(text[i] == front[i]);
            }
        }
    }
}

proof fn lemma_decimal_digit(v: nat)
    requires
        v < 10,
    ensures
        digit_char(v) as u32 == 0x30 + v,
        digit_value(digit_char(v), 10) == Some(v),
        v > 0 ==> digit_char(v) != '0',
        digit_char(v) != '+',
{
}

proof fn lemma_decimal_read_back(n: nat, max: nat)
    requires
        n <= max,
    ensures
        digits_value(decimal_text(n), 10, max) == Ok::<nat, ParseIntError>(n),
        decimal_text(n).len() > 0,
        decimal_text(n)[0] != '+',
    decreases n,
{
    let text = decimal_text(n);
    lemma_decimal_digit(n % 10);
    if n < 10 {
        assert(text.drop_last() =~= Seq::<char>::empty());
        assert(digits_value(Seq::<char>::empty(), 10, max) == Ok::<nat, ParseIntError>(0));
    } else {
        lemma_decimal_read_back(n / 10, max);
        assert(text.drop_last() =~= decimal_text(n / 10));
        assert(text[0] == decimal_text(n / 10)[0]);
    }
}

/// A number that is written in decimal is read back.
pub proof fn law_decimal_read_back(n: nat, max: nat)
    requires
        n <= max,
    ensures
        number_value(decimal_text(n), 10, max) == Ok::<nat, ParseIntError>(n),
{
    lemma_decimal_read_back(n, max);
}

/// Every character is a decimal digit.
pub open spec fn are_digits(s: Seq<char>) -> bool {
    forall|i: int| 0 <= i < s.len() ==> 0x30 <= #[trigger] s[i] as u32 <= 0x39
}

/// What is read as a decimal number is digits, perhaps behind one plus sign, and
/// the number is what they add up to: each is worth ten times the next. Such
/// digits are read whatever they are, as long as the number is not too large.
pub proof fn law_number_adds_up(s: Seq<char>, max: nat)
    ensures
        ({
            let digits = if s.len() > 0 && s[0] == '+' {
                s.skip(1)
            } else {
                s
            };
            let sum = digits.fold_left(0int, |v: int, c: char| v * 10 + (c as u32 - 0x30));
            let all = digits.len() > 0 && are_digits(digits);
            &&& number_value(s, 10, max) is Ok ==> all && 0 <= sum <= max
            &&& all && sum <= max ==> number_value(s, 10, max) == Ok::<nat, ParseIntError>(
                sum as nat,
            )
            &&& all && sum > max ==> number_value(s, 10, max) == Err::<nat, ParseIntError>(
                ParseIntError::PosOverflow,
            )
        }),
{
    let digits = if s.len() > 0 && s[0] == '+' {
        s.skip(1)
    } else {
        s
    };
    lemma_digits_add_up(digits, max);
    if s.len() == 1 && s[0] == '+' {
        assert(digits.len() == 0);
    }
}

proof fn lemma_digit_of(c: char)
    ensures
        digit_value(c, 10) is Some <==> 0x30 <= c as u32 <= 0x39,
        digit_value(c, 10) matches Some(d) ==> d == c as u32 - 0x30,
{
}

proof fn lemma_digits_add_up(digits: Seq<char>, max: nat)
    ensures
        ({
            let f = |v: int, c: char| v * 10 + (c as u32 - 0x30);
            let sum = digits.fold_left(0int, f);
            let all = are_digits(digits);
            &&& digits_value(digits, 10, max) is Ok ==> all && sum <= max
            &&& all ==> sum >= 0
            &&& all && sum <= max ==> digits_value(digits, 10, max) == Ok::<nat, ParseIntError>(
                sum as nat,
            )
            &&& all && sum > max ==> digits_value(digits, 10, max) == Err::<nat, ParseIntError>(
                ParseIntError::PosOverflow,
            )
        }),
    decreases digits.len(),
{
    let f = |v: int, c: char| v * 10 + (c as u32 - 0x30);
    if digits.len() > 0 {
        let front = digits.drop_last();
        let last = digits[digits.len() - 1];
        lemma_digits_add_up(front, max);
        lemma_digit_of(last);
        assert(digits.fold_left(0int, f) == f(front.fold_left(0int, f), last));
        let all = are_digits(digits);
        let all_front = are_digits(front);
        if all {
            assert forall|i: int| 0 <= i < front.len() implies 0x30 <= #[trigger] front[i] as u32
                <= 0x39 by {
                assert(front[i] == digits[i]);
            }
            assert(0x30 <= digits[digits.len() - 1] as u32 <= 0x39);
        }
        if digits_value(digits, 10, max) is Ok {
            assert(all_front);
            assert forall|i: int| 0 <= i < digits.len() implies 0x30 <= #[trigger] digits[i] as u32
                <= 0x39 by {
                if i < front.len() {
                    assert(front[i] == digits[i]);
                }
            }
        }
    }
}

/// Four hexadecimal digits are upper-case digits, and add up to the number: each
/// is worth sixteen times the next.
pub proof fn law_hex4_adds_up(n: nat)
    requires
        n < 0x1_0000,
    ensures
        hex4_text(n).len() == 4,
        forall|i: int|
            0 <= i < 4 ==> {
                let u = #[trigger] hex4_text(n)[i] as u32;
                0x30 <= u <= 0x39 || 0x41 <= u <= 0x46
            },
        hex4_text(n).fold_left(
            0int,
            |v: int, c: char|
                v * 16 + if c as u32 <= 0x39 {
                    c as u32 - 0x30
                } else {
                    c as u32 - 0x41 + 10
                },
        ) == n,
{
    let f = |v: int, c: char|
        v * 16 + if c as u32 <= 0x39 {
            c as u32 - 0x30
        } else {
            c as u32 - 0x41 + 10
        };
    let a = n / 0x1000;
    let b = n / 0x100 % 0x10;
    let c = n / 0x10 % 0x10;
    let d = n % 0x10;
    lemma_upper_digit(a);
    lemma_upper_digit(b);
    lemma_upper_digit(c);
    lemma_upper_digit(d);
    let s = hex4_text(n);
    let s0 = Seq::<char>::empty();
    let s1 = s0.push(digit_char(a));
    let s2 = s1.push(digit_char(b));
    let s3 = s2.push(digit_char(c));
    assert(s =~= s3.push(digit_char(d)));
    assert(s.drop_last() =~= s3);
    assert(s3.drop_last() =~= s2);
    assert(s2.drop_last() =~= s1);
    assert(s1.drop_last() =~= s0);
    assert(s0.fold_left(0int, f) == 0);
    assert(s1.fold_left(0int, f) == f(0int, digit_char(a)));
    assert(s2.fold_left(0int, f) == f(s1.fold_left(0int, f), digit_char(b)));
    assert(s3.fold_left(0int, f) == f(s2.fold_left(0int, f), digit_char(c)));
    assert(s.fold_left(0int, f) == f(s3.fold_left(0int, f), digit_char(d)));
    assert(n / 0x100 == a * 16 + b);
    assert(n / 0x10 == (a * 16 + b) * 16 + c);
    assert(n == ((a * 16 + b) * 16 + c) * 16 + d);
}

proof fn lemma_upper_digit(v: nat)
    requires
        v < 16,
    ensures
        ({
            let u = digit_char(v) as u32;
            &&& 0x30 <= u <= 0x39 || 0x41 <= u <= 0x46
            &&& u <= 0x39 ==> u - 0x30 == v
            &&& u > 0x39 ==> u - 0x41 + 10 == v
        }),
{
}

/// The digits of a hexadecimal number: of either case, each worth sixteen times
/// the next.
pub proof fn law_hex_digit(c: char)
    ensures
        digit_value(c, 16) == (if 0x30 <= c as u32 <= 0x39 {
            Some((c as u32 - 0x30) as nat)
        } else if 0x41 <= c as u32 <= 0x46 {
            Some((c as u32 - 0x41 + 10) as nat)
        } else if 0x61 <= c as u32 <= 0x66 {
            Some((c as u32 - 0x61 + 10) as nat)
        } else {
            None
        }),
{
}

/// Appending a digit multiplies a number by the radix and adds the digit.
pub proof fn law_one_more_digit(s: Seq<char>, c: char, radix: nat, max: nat, v: nat)
    requires
        s.len() > 0,
        s != seq!['+'],
        number_value(s, radix, max) == Ok::<nat, ParseIntError>(v),
    ensures
        number_value(s.push(c), radix, max) == (match digit_value(c, radix) {
            None => Err::<nat, ParseIntError>(ParseIntError::InvalidDigit),
            Some(d) => if v * radix + d > max {
                Err(ParseIntError::PosOverflow)
            } else {
                Ok(v * radix + d)
            },
        }),
{
    let more = s.push(c);
    assert(more[0] == s[0]);
    if s.len() == 1 && s[0] == '+' {
        assert(s =~= seq!['+']);
    }
    if s[0] == '+' {
        assert(more.skip(1) =~= s.skip(1).push(c));
        assert(s.skip(1).push(c).drop_last() =~= s.skip(1));
    } else {
        assert(more.drop_last() =~= s);
    }
}

/// Why a text is no number: it is empty, it is a sign alone, or a character in
/// it is no digit. What follows a mistake does not change the error.
pub proof fn law_why_a_text_is_no_number(s: Seq<char>, c: char, radix: nat, max: nat)
    ensures
        number_value(Seq::<char>::empty(), radix, max) == Err::<nat, ParseIntError>(
            ParseIntError::Empty,
        ),
        number_value(seq!['+'], radix, max) == Err::<nat, ParseIntError>(
            ParseIntError::InvalidDigit,
        ),
        c != '+' ==> number_value(seq![c], radix, max) == number_value(seq!['+', c], radix, max),
        c != '+' && digit_value(c, radix) is None ==> number_value(seq![c], radix, max) == Err::<
            nat,
            ParseIntError,
        >(ParseIntError::InvalidDigit),
        c != '+' ==> (digit_value(c, radix) matches Some(d) ==> d <= max ==> number_value(
            seq![c],
            radix,
            max,
        ) == Ok::<nat, ParseIntError>(d)),
        s.len() > 0 && s != seq!['+'] && number_value(s, radix, max) is Err ==> number_value(
            s.push(c),
            radix,
            max,
        ) == number_value(s, radix, max),
{
    let one = seq![c];
    let signed = seq!['+', c];
    assert(digits_value(Seq::<char>::empty(), radix, max) == Ok::<nat, ParseIntError>(0));
    assert(one.drop_last() =~= Seq::<char>::empty());
    assert(signed.skip(1) =~= one);
    assert(0 * radix == 0);
    if s.len() > 0 && s != seq!['+'] {
        let more = s.push(c);
        assert(more[0] == s[0]);
        if s.len() == 1 && s[0] == '+' {
            assert(s =~= seq!['+']);
        }
        if s[0] == '+' {
            assert(more.skip(1) =~= s.skip(1).push(c));
            assert(s.skip(1).push(c).drop_last() =~= s.skip(1));
        } else {
            assert(more.drop_last() =~= s);
        }
    }
}

/// What is said of a text that is no number.
pub proof fn law_errors_in_words()
    ensures
        ParseIntError::Empty.spec_message() == "cannot parse integer from empty string"@,
        ParseIntError::InvalidDigit.spec_message() == "invalid digit found in string"@,
        ParseIntError::PosOverflow.spec_message() == "number too large to fit in target type"@,
{
}

/// The decimal digits are those from zero to nine.
pub proof fn law_decimal_digit(c: char)
    ensures
        digit_value(c, 10) == (if 0x30 <= c as u32 <= 0x39 {
            Some((c as u32 - 0x30) as nat)
        } else {
            None
        }),
{
}

} // verus!
