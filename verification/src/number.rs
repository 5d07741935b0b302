//! Whole numbers as text: written in decimal, and read back the way
//! `str::parse` reads an unsigned integer — an optional `+`, then at least
//! one decimal digit and nothing else, within the type's range.

use vstd::prelude::*;

use crate::text::push_char;

verus! {

/// The character of a decimal digit.
pub open spec fn digit_char(d: nat) -> char {
    ((d + 48) as u32) as char
}

/// `n` written in decimal, without leading zeros.
pub open spec fn decimal(n: nat) -> Seq<char>
    decreases n,
{
    if n < 10 {
        seq![digit_char(n)]
    } else {
        decimal(n / 10).push(digit_char(n % 10))
    }
}

/// `n` written in decimal, at least two digits: `{n:02}`.
pub open spec fn two_digits(n: nat) -> Seq<char> {
    if n < 10 {
        seq!['0'] + decimal(n)
    } else {
        decimal(n)
    }
}

/// Whether `c` is a decimal digit.
pub open spec fn is_digit(c: char) -> bool {
    '0' <= c <= '9'
}

/// The value of a digit character.
pub open spec fn digit_value(c: char) -> nat {
    ((c as u32) - 48) as nat
}

/// The value of a run of digits, most significant first.
pub open spec fn digits_value(text: Seq<char>) -> nat
    decreases text.len(),
{
    if text.len() == 0 {
        0
    } else {
        digits_value(text.drop_last()) * 10 + digit_value(text.last())
    }
}

/// What `str::parse::<u64>` reads from `text`: an optional `+`, then one or
/// more digits and nothing else, of a value that fits.
pub open spec fn whole_number(text: Seq<char>, max: nat) -> Option<nat> {
    let digits = unsigned(text);
    if digits.len() > 0 && all_digits(digits) && digits_value(digits) <= max {
        Some(digits_value(digits))
    } else {
        None
    }
}

/// `text` without one leading `+`.
pub open spec fn unsigned(text: Seq<char>) -> Seq<char> {
    if text.len() > 0 && text[0] == '+' {
        text.subrange(1, text.len() as int)
    } else {
        text
    }
}

/// Whether every character of `text` is a decimal digit.
pub open spec fn all_digits(text: Seq<char>) -> bool {
    forall|i: int| 0 <= i < text.len() ==> is_digit(#[trigger] text[i])
}

/// `n` written in decimal onto the end of `out`.
pub fn append_decimal(out: &mut String, n: u64)
    ensures
        final(out)@ == old(out)@ + decimal(n as nat),
    decreases n,
{
    if n < 10 {
        push_char(out, ((n as u8) + 48) as char);
        assert(final(out)@ =~= old(out)@ + decimal(n as nat));
    } else {
        append_decimal(out, n / 10);
        push_char(out, (((n % 10) as u8) + 48) as char);
        assert(final(out)@ =~= old(out)@ + decimal(n as nat));
    }
}

/// `n` in decimal, at least two digits, onto the end of `out`.
pub fn append_two_digits(out: &mut String, n: u64)
    ensures
        final(out)@ == old(out)@ + two_digits(n as nat),
{
    if n < 10 {
        push_char(out, '0');
        append_decimal(out, n);
        assert(final(out)@ =~= old(out)@ + two_digits(n as nat));
    } else {
        append_decimal(out, n);
    }
}

/// A value past `max` stays past it as more digits follow.
proof fn lemma_digits_grow(text: Seq<char>, at: int)
    requires
        0 < at <= text.len(),
        forall|i: int| 0 <= i < text.len() ==> is_digit(text[i]),
    ensures
        digits_value(text.take(at)) <= digits_value(text),
    decreases text.len() - at,
{
    if at < text.len() {
        lemma_digits_grow(text, at + 1);
        assert(text.take(at + 1).drop_last() == text.take(at));
    } else {
        assert(text.take(at) == text);
    }
}

/// The whole number `text` says, as `str::parse::<u64>` reads it.
pub fn parse_whole(text: &[char]) -> (value: Option<u64>)
    ensures
        match (value, whole_number(text@, u64::MAX as nat)) {
            (Some(read), Some(expected)) => read as nat == expected,
            (None, None) => true,
            _ => false,
        },
{
    let start: usize = if text.len() > 0 && text[0] == '+' { 1 } else { 0 };
    let ghost digits = text@.subrange(start as int, text@.len() as int);
    assert(digits == unsigned(text@));
    if start >= text.len() {
        return None;
    }
    let mut value: u64 = 0;
    let mut i: usize = start;
    while i < text.len()
        invariant
            start <= i <= text@.len(),
            start < text@.len(),
            digits == text@.subrange(start as int, text@.len() as int),
            digits == unsigned(text@),
            forall|j: int| start <= j < i ==> is_digit(text@[j]),
            value as nat == digits_value(digits.take(i - start)),
        decreases text@.len() - i,
    {
        let c = text[i];
        assert(digits[i - start] == c);
        if !('0' <= c && c <= '9') {
            assert(!is_digit(digits[i - start]));
            assert(!all_digits(digits));
            assert(whole_number(text@, u64::MAX as nat) is None);
            return None;
        }
        let d = ((c as u8) - 48) as u64;
        assert(digits.take(i - start + 1).drop_last() == digits.take(i - start));
        assert(d as nat == digit_value(c));
        if value > (u64::MAX - d) / 10 {
            proof {
                let so_far = digits_value(digits.take(i - start + 1));
                assert(so_far == value * 10 + d);
                assert(so_far > u64::MAX) by (nonlinear_arith)
                    requires
                        value > (u64::MAX - d) / 10,
                        so_far == value * 10 + d,
                        d <= 9,
                ;
                if all_digits(digits) {
                    lemma_digits_grow(digits, i - start + 1);
                    assert(digits_value(digits) > u64::MAX);
                }
                assert(whole_number(text@, u64::MAX as nat) is None);
            }
            return None;
        }
        value = value * 10 + d;
        i = i + 1;
    }
    assert(digits.take(text@.len() - start) == digits);
    Some(value)
}

/// A digit's character reads back as the digit.
pub proof fn lemma_digit_char(d: nat)
    requires
        d < 10,
    ensures
        is_digit(digit_char(d)),
        digit_value(digit_char(d)) == d,
        digit_char(d) != '+',
        digit_char(d) != ' ',
        digit_char(d) != '\n',
{
}

/// A number written in decimal is one or more digits whose value is the
/// number.
pub proof fn lemma_decimal(n: nat)
    ensures
        decimal(n).len() > 0,
        all_digits(decimal(n)),
        digits_value(decimal(n)) == n,
    decreases n,
{
    if n < 10 {
        lemma_digit_char(n);
        assert(decimal(n).drop_last() =~= Seq::<char>::empty());
        assert(digits_value(Seq::<char>::empty()) == 0);
    } else {
        lemma_decimal(n / 10);
        lemma_digit_char(n % 10);
        assert(decimal(n).drop_last() == decimal(n / 10));
        assert(decimal(n).last() == digit_char(n % 10));
        assert((n / 10) * 10 + n % 10 == n) by (nonlinear_arith);
        assert forall|i: int| 0 <= i < decimal(n).len() implies is_digit(#[trigger] decimal(n)[i]) by {
            if i < decimal(n / 10).len() {
                assert(decimal(n)[i] == decimal(n / 10)[i]);
            }
        }
    }
}

/// A number written in decimal reads back as itself: written and read, a
/// whole number within the range is what it was.
pub proof fn lemma_decimal_reads_back(n: nat, max: nat)
    requires
        n <= max,
    ensures
        whole_number(decimal(n), max) == Some(n),
{
    lemma_decimal(n);
    let d = decimal(n);
    assert(is_digit(d[0]));
    assert(unsigned(d) == d);
}


/// Ten to the power `n`.
pub open spec fn ten_to(n: nat) -> nat
    decreases n,
{
    if n == 0 {
        1
    } else {
        10 * ten_to((n - 1) as nat)
    }
}

/// A number below ten to the `width` is written in at most `width` digits.
pub proof fn lemma_decimal_fits(n: nat, width: nat)
    requires
        width > 0,
        n < ten_to(width),
    ensures
        decimal(n).len() <= width,
    decreases n,
{
    if n >= 10 {
        assert(width > 1) by {
            if width == 1 {
                assert(ten_to(1) == 10 * ten_to(0));
            }
        }
        assert(ten_to(width) == 10 * ten_to((width - 1) as nat));
        assert(n / 10 < ten_to((width - 1) as nat));
        lemma_decimal_fits(n / 10, (width - 1) as nat);
    }
}

/// `k` zeros.
pub open spec fn zeros(k: nat) -> Seq<char> {
    Seq::new(k, |i: int| '0')
}

/// Zeros in front of digits add nothing to their value.
pub proof fn lemma_zeros_add_nothing(k: nat, text: Seq<char>)
    ensures
        digits_value(zeros(k) + text) == digits_value(text),
        all_digits(text) ==> all_digits(zeros(k) + text),
    decreases k + text.len(),
{
    if text.len() == 0 {
        assert(zeros(k) + text =~= zeros(k));
        if k > 0 {
            assert(zeros(k).drop_last() =~= zeros((k - 1) as nat));
            lemma_zeros_add_nothing((k - 1) as nat, text);
            assert(zeros((k - 1) as nat) + text =~= zeros((k - 1) as nat));
            assert(digit_value(zeros(k).last()) == 0);
        }
    } else {
        assert((zeros(k) + text).drop_last() =~= zeros(k) + text.drop_last());
        assert((zeros(k) + text).last() == text.last());
        lemma_zeros_add_nothing(k, text.drop_last());
    }
    if all_digits(text) {
        assert forall|i: int| 0 <= i < (zeros(k) + text).len() implies is_digit(
            #[trigger] (zeros(k) + text)[i],
        ) by {
            if i >= k {
                assert((zeros(k) + text)[i] == text[i - k]);
            }
        }
    }
}

/// Digits of one length sort as the numbers they are: one run comes first
/// exactly when its value is smaller.
pub proof fn lemma_digits_order(x: Seq<char>, y: Seq<char>)
    requires
        x.len() == y.len(),
        all_digits(x),
        all_digits(y),
    ensures
        crate::text::precedes(x, y) <==> digits_value(x) < digits_value(y),
    decreases x.len(),
{
    if x.len() == 0 {
        assert(!crate::text::precedes(x, y));
    } else {
        let (front_x, front_y) = (x.drop_last(), y.drop_last());
        assert(all_digits(front_x)) by {
            assert forall|i: int| 0 <= i < front_x.len() implies is_digit(#[trigger] front_x[i]) by {
                assert(front_x[i] == x[i]);
            }
        }
        assert(all_digits(front_y)) by {
            assert forall|i: int| 0 <= i < front_y.len() implies is_digit(#[trigger] front_y[i]) by {
                assert(front_y[i] == y[i]);
            }
        }
        lemma_digits_order(front_x, front_y);
        lemma_digits_order(front_y, front_x);
        crate::text::lemma_precedes_total(front_x, front_y);
        assert(x == front_x.push(x.last()));
        assert(y == front_y.push(y.last()));
        crate::text::lemma_precedes_push(front_x, front_y, x.last(), y.last());
        assert(is_digit(x[x.len() - 1]) && is_digit(y[y.len() - 1]));
        let (c, d) = (x.last(), y.last());
        assert((c < d) <==> digit_value(c) < digit_value(d));
        assert(digit_value(c) <= 9 && digit_value(d) <= 9);
    }
}

} // verus!
