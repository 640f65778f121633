//! Numbers as text.

use vstd::prelude::*;

verus! {

/// The character of the digit `d` in bases up to sixteen, letters in lower case.
pub open spec fn digit(d: nat) -> char {
    if d < 10 {
        (48 + d) as char
    } else {
        (87 + d) as char
    }
}

/// The digits of `n` in the given base, without leading zeros.
pub open spec fn numeral(n: nat, base: nat) -> Seq<char>
    recommends
        2 <= base <= 16,
    decreases n,
{
    if base < 2 || n < base {
        seq![digit(n)]
    } else {
        proof {
            assert(n / base < n) by (nonlinear_arith)
                requires
                    2 <= base <= n,
            ;
        }
        numeral(n / base, base).push(digit(n % base))
    }
}

/// The decimal form of `n`.
pub open spec fn decimal(n: nat) -> Seq<char> {
    numeral(n, 10)
}

/// The hexadecimal form of `n`, with its `0x`.
pub open spec fn prefixed_hex(n: nat) -> Seq<char> {
    seq!['0', 'x'] + numeral(n, 16)
}

/// Whether `c` is a decimal digit.
pub open spec fn is_digit(c: char) -> bool {
    '0' <= c <= '9'
}

/// The number that a text of decimal digits stands for.
pub open spec fn decimal_value(s: Seq<char>) -> nat
    decreases s.len(),
{
    if s.len() == 0 {
        0
    } else {
        10 * decimal_value(s.drop_last()) + (s.last() as nat - 48) as nat
    }
}

/// The text without a leading plus sign.
pub open spec fn unsigned_part(s: Seq<char>) -> Seq<char> {
    if s.len() > 0 && s[0] == '+' {
        s.drop_first()
    } else {
        s
    }
}

/// The 32-bit number that a text stands for: at least one decimal digit,
/// behind an optional plus sign.
pub open spec fn parsed_u32(s: Seq<char>) -> Option<u32> {
    let digits = unsigned_part(s);
    if digits.len() > 0 && (forall|i: int|
        0 <= i < digits.len() ==> is_digit(#[trigger] digits[i])) && decimal_value(digits)
        <= u32::MAX {
        Some(decimal_value(digits) as u32)
    } else {
        None
    }
}

/// A decimal form has a digit, only digits, and stands for its number.
pub proof fn lemma_decimal_digits(n: nat)
    ensures
        decimal(n).len() > 0,
        forall|i: int| 0 <= i < decimal(n).len() ==> is_digit(#[trigger] decimal(n)[i]),
        decimal_value(decimal(n)) == n,
    decreases n,
{
    if n < 10 {
        assert(decimal(n) == seq![digit(n)]);
        assert(decimal(n).drop_last() =~= Seq::empty());
        assert(decimal_value(Seq::<char>::empty()) == 0);
    } else {
        lemma_decimal_digits(n / 10);
        assert(decimal(n).drop_last() =~= decimal(n / 10));
    }
}

/// Reading the decimal form of a 32-bit number gives the number back.
pub proof fn law_parse_decimal(n: u32)
    ensures
        parsed_u32(decimal(n as nat)) == Some(n),
{
    lemma_decimal_digits(n as nat);
    let s = decimal(n as nat);
    assert(is_digit(s[0]));
    assert(unsigned_part(s) == s);
}

/// Different numbers have different decimal forms.
pub proof fn law_decimal_injective(m: nat, n: nat)
    requires
        decimal(m) == decimal(n),
    ensures
        m == n,
{
    lemma_decimal_digits(m);
    lemma_decimal_digits(n);
}

/// The character of the digit `d`.
fn digit_char(d: u32) -> (c: char)
    requires
        d < 16,
    ensures
        c == digit(d as nat),
{
    if d < 10 {
        (48 + d as u8) as char
    } else {
        (87 + d as u8) as char
    }
}

/// The digits of `n` in the given base.
fn digits_of(n: u32, base: u32) -> (digits: Vec<char>)
    requires
        2 <= base <= 16,
    ensures
        digits@ == numeral(n as nat, base as nat),
    decreases n,
{
    if n < base {
        let mut digits: Vec<char> = Vec::new();
        digits.push(digit_char(n));
        assert(digits@ =~= numeral(n as nat, base as nat));
        digits
    } else {
        assert(n / base < n && n % base < base) by (nonlinear_arith)
            requires
                2 <= base <= n,
        ;
        let mut digits: Vec<char> = digits_of(n / base, base);
        digits.push(digit_char(n % base));
        digits
    }
}

/// The decimal form of `n`.
pub fn decimal_chars(n: u32) -> (digits: Vec<char>)
    ensures
        digits@ == decimal(n as nat),
{
    digits_of(n, 10)
}

/// The hexadecimal form of `n`, with its `0x`.
pub fn hex_chars(n: u32) -> (chars: Vec<char>)
    ensures
        chars@ == prefixed_hex(n as nat),
{
    let digits = digits_of(n, 16);
    let mut chars: Vec<char> = Vec::new();
    chars.push('0');
    chars.push('x');
    let mut i: usize = 0;
    while i < digits.len()
        invariant
            i <= digits.len(),
            chars@ == seq!['0', 'x'] + digits@.take(i as int),
        decreases digits.len() - i,
    {
        chars.push(digits[i]);
        i += 1;
        assert(digits@.take(i as int) =~= digits@.take(i - 1).push(digits@[i - 1]));
    }
    assert(digits@.take(i as int) =~= digits@);
    chars
}

proof fn lemma_decimal_value_monotone(s: Seq<char>, k: int)
    requires
        0 <= k <= s.len(),
        forall|i: int| 0 <= i < s.len() ==> is_digit(#[trigger] s[i]),
    ensures
        decimal_value(s.take(k)) <= decimal_value(s),
    decreases s.len() - k,
{
    if k < s.len() {
        lemma_decimal_value_monotone(s, k + 1);
        assert(s.take(k + 1).drop_last() =~= s.take(k));
        assert(is_digit(s[k]));
    } else {
        assert(s.take(k) =~= s);
    }
}

/// The 32-bit number that `chars` stands for, if it stands for one.
pub fn parse_u32(chars: &Vec<char>) -> (parsed: Option<u32>)
    ensures
        parsed == parsed_u32(chars@),
{
    let start: usize = if chars.len() > 0 && chars[0] == '+' {
        1
    } else {
        0
    };
    let ghost digits = unsigned_part(chars@);
    assert(digits =~= chars@.skip(start as int));
    if start == chars.len() {
        return None;
    }
    let mut value: u32 = 0;
    let mut i: usize = start;
    assert(digits.take(0) =~= Seq::empty());
    while i < chars.len()
        invariant
            start <= i <= chars.len(),
            digits == chars@.skip(start as int),
            digits == unsigned_part(chars@),
            value == decimal_value(digits.take(i - start)),
            forall|k: int| 0 <= k < i - start ==> is_digit(#[trigger] digits[k]),
        decreases chars.len() - i,
    {
        let c = chars[i];
        let ghost k = i - start;
        assert(digits[k] == c);
        assert(digits.take(k + 1).drop_last() =~= digits.take(k));
        if !('0' <= c && c <= '9') {
            assert(!is_digit(digits[k]));
            return None;
        }
        let next: u64 = 10 * value as u64 + (c as u32 - 48) as u64;
        assert(next == decimal_value(digits.take(k + 1)));
        if next > 0xffff_ffff {
            proof {
                if forall|j: int| 0 <= j < digits.len() ==> is_digit(#[trigger] digits[j]) {
                    lemma_decimal_value_monotone(digits, k + 1);
                }
            }
            return None;
        }
        value = next as u32;
        i += 1;
    }
    assert(digits.take(i - start) =~= digits);
    Some(value)
}

/// A decimal form is built digit by digit: one more digit makes ten times the number and
/// the digit. It has no leading zero.
pub proof fn law_decimal_forms_grow_digit_by_digit(n: nat, d: nat)
    requires
        d < 10,
    ensures
        n > 0 ==> decimal(10 * n + d) == decimal(n).push((48 + d) as char),
        decimal(d) == seq![(48 + d) as char],
        n > 0 ==> decimal(n)[0] != '0',
    decreases n,
{
    if n > 0 {
        let m = 10 * n + d;
        assert(m / 10 == n && m % 10 == d);
        assert(decimal(m) == decimal(n).push(digit(d)));
        if n < 10 {
            assert(decimal(n) == seq![digit(n)]);
            assert((48 + n) as char != '0');
        } else {
            law_decimal_forms_grow_digit_by_digit(n / 10, d);
            assert(decimal(n) == decimal(n / 10).push(digit(n % 10)));
            lemma_decimal_digits(n / 10);
        }
    }
}

/// A text is read as a number digit by digit: one more digit makes ten times the number
/// and the digit, as long as that fits 32 bits, and anything else makes it no number. A
/// plus sign in front does not count, and without a digit there is no number.
pub proof fn law_numbers_are_read_digit_by_digit(s: Seq<char>, c: char)
    ensures
        parsed_u32(Seq::empty()) is None,
        s.len() > 0 && s[0] != '+' ==> parsed_u32(seq!['+'] + s) == parsed_u32(s),
        !('0' <= c <= '9') && !(s.len() == 0 && c == '+') ==> parsed_u32(s.push(c)) is None,
        '0' <= c <= '9' ==> parsed_u32(seq![c]) == Some((c as u32 - 48) as u32),
        '0' <= c <= '9' && parsed_u32(s) is Some && 10 * parsed_u32(s)->0 + (c as u32 - 48)
            <= 0xffff_ffff ==> parsed_u32(s.push(c)) == Some(
            (10 * parsed_u32(s)->0 + (c as u32 - 48)) as u32,
        ),
        '0' <= c <= '9' && parsed_u32(s) is Some && 10 * parsed_u32(s)->0 + (c as u32 - 48)
            > 0xffff_ffff ==> parsed_u32(s.push(c)) is None,
{
    let whole = s.push(c);
    let one = seq![c];
    assert(one.drop_last() =~= Seq::empty());
    assert(one.last() == c);
    assert(decimal_value(one.drop_last()) == 0);
    if s.len() > 0 {
        let digits = unsigned_part(s);
        assert(unsigned_part(whole) =~= digits.push(c));
        assert(digits.push(c).drop_last() =~= digits);
        let more = digits.push(c);
        assert(more[more.len() - 1] == c);
        if parsed_u32(s) is Some && '0' <= c <= '9' {
            assert forall|i: int| 0 <= i < more.len() implies is_digit(#[trigger] more[i]) by {
                if i < digits.len() {
                    assert(more[i] == digits[i]);
                }
            }
        }
        let signed = seq!['+'] + s;
        assert(signed.drop_first() =~= s);
        assert(signed[0] == '+');
    } else {
        assert(whole =~= one);
        assert(whole[0] == c);
        assert(unsigned_part(one) == one || c == '+');
        if c != '+' {
            assert(unsigned_part(one)[0] == c);
        }
    }
}

/// The number that a text of hexadecimal digits stands for.
pub open spec fn hex_value(s: Seq<char>) -> nat
    decreases s.len(),
{
    if s.len() == 0 {
        0
    } else {
        let c = s.last() as nat;
        16 * hex_value(s.drop_last()) + (if c < 58 {
            (c - 48) as nat
        } else {
            (c - 87) as nat
        })
    }
}

/// A hexadecimal form is `0x` and then digits, small letters among them, that stand for
/// the number.
pub proof fn law_hex_forms_stand_for_their_numbers(n: nat)
    ensures
        prefixed_hex(n).len() > 2,
        prefixed_hex(n)[0] == '0' && prefixed_hex(n)[1] == 'x',
        hex_value(prefixed_hex(n).skip(2)) == n,
        forall|i: int|
            2 <= i < prefixed_hex(n).len() ==> '0' <= #[trigger] prefixed_hex(n)[i] <= '9' || 'a'
                <= prefixed_hex(n)[i] <= 'f',
        n > 0 ==> prefixed_hex(n)[2] != '0',
{
    lemma_hex_digits(n);
    let digits = numeral(n, 16);
    assert(prefixed_hex(n).skip(2) =~= digits);
    assert forall|i: int| 2 <= i < prefixed_hex(n).len() implies '0' <= #[trigger] prefixed_hex(n)[i]
        <= '9' || 'a' <= prefixed_hex(n)[i] <= 'f' by {
        assert(prefixed_hex(n)[i] == digits[i - 2]);
    }
}

proof fn lemma_hex_digits(n: nat)
    ensures
        numeral(n, 16).len() > 0,
        hex_value(numeral(n, 16)) == n,
        forall|i: int|
            0 <= i < numeral(n, 16).len() ==> '0' <= #[trigger] numeral(n, 16)[i] <= '9' || 'a'
                <= numeral(n, 16)[i] <= 'f',
        n > 0 ==> numeral(n, 16)[0] != '0',
    decreases n,
{
    if n < 16 {
        assert(numeral(n, 16) == seq![digit(n)]);
        assert(numeral(n, 16).drop_last() =~= Seq::empty());
        assert(hex_value(Seq::<char>::empty()) == 0);
    } else {
        lemma_hex_digits(n / 16);
        assert(numeral(n, 16) == numeral(n / 16, 16).push(digit(n % 16)));
        assert(numeral(n, 16).drop_last() =~= numeral(n / 16, 16));
    }
}

/// Writing a number and reading it gives the number back, and texts that are read as
/// numbers are those of digits, behind an optional plus sign.
pub proof fn law_numbers_are_written_and_read(
    n: u32,
    digits: Vec<char>,
    parsed: Option<u32>,
    text: &Vec<char>,
    read: Option<u32>,
)
    requires
        call_ensures(decimal_chars, (n,), digits),
        call_ensures(parse_u32, (&digits,), parsed),
        call_ensures(parse_u32, (text,), read),
    ensures
        parsed == Some(n),
        digits@.len() > 0,
        forall|i: int| 0 <= i < digits@.len() ==> '0' <= #[trigger] digits@[i] <= '9',
        n > 0 ==> digits@[0] != '0',
        read is Some ==> forall|i: int|
            #![trigger text@[i]]
            0 <= i < text@.len() ==> '0' <= text@[i] <= '9' || i == 0 && text@[i] == '+',
{
    law_parse_decimal(n);
    lemma_decimal_digits(n as nat);
    law_decimal_forms_grow_digit_by_digit(n as nat, 0);
    assert forall|i: int| 0 <= i < digits@.len() implies '0' <= #[trigger] digits@[i] <= '9' by {
        assert(is_digit(decimal(n as nat)[i]));
    }
    if read is Some {
        let all = unsigned_part(text@);
        assert forall|i: int|
            #![trigger text@[i]]
            0 <= i < text@.len() implies '0' <= text@[i] <= '9' || i == 0 && text@[i] == '+' by {
            if text@[0] == '+' {
                if i > 0 {
                    assert(is_digit(all[i - 1]));
                }
            } else {
                assert(is_digit(all[i]));
            }
        }
    }
}

} // verus!
