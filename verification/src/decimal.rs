//! Numbers as decimal text.
use vstd::prelude::*;

verus! {

/// The character of the decimal digit `digit`.
pub open spec fn digit_char(digit: int) -> char {
    (48 + digit) as u8 as char
}

/// The decimal digits of `value`, the most significant first.
pub open spec fn decimal_digits(value: nat) -> Seq<char>
    decreases value,
{
    if value < 10 {
        seq![digit_char(value as int)]
    } else {
        decimal_digits(value / 10).push(digit_char((value % 10) as int))
    }
}

/// The decimal digits of `value` behind as many zeros as it takes to fill
/// `width` characters.
pub open spec fn padded_decimal(value: nat, width: nat) -> Seq<char> {
    let digits = decimal_digits(value);
    if digits.len() >= width {
        digits
    } else {
        Seq::new((width - digits.len()) as nat, |i: int| '0') + digits
    }
}

/// Calls `String::push`: the character is appended to the text.
#[verifier::external_body]
pub(crate) fn push_char(text: &mut String, c: char)
    ensures
        final(text)@ == old(text)@.push(c),
{
    text.push(c)
}

/// The number of decimal digits of `value`.
pub fn decimal_len(value: u64) -> (len: usize)
    ensures
        len == decimal_digits(value as nat).len(),
        1 <= len <= 20,
{
    proof {
        reveal_with_fuel(pow10, 21);
        lemma_decimal_len(value as nat, 20);
    }
    let mut len: usize = 1;
    let mut rest = value;
    while rest >= 10
        invariant
            1 <= len,
            decimal_digits(value as nat).len() == decimal_digits(rest as nat).len() + len - 1,
            decimal_digits(value as nat).len() <= 20,
        decreases rest,
    {
        rest = rest / 10;
        len += 1;
    }
    len
}

/// The power of ten with the exponent `exponent`.
pub open spec fn pow10(exponent: nat) -> nat
    decreases exponent,
{
    if exponent == 0 {
        1
    } else {
        10 * pow10((exponent - 1) as nat)
    }
}

/// A number below the `digits`-th power of ten has at least one decimal
/// digit and at most `digits`.
pub proof fn lemma_decimal_len(value: nat, digits: nat)
    requires
        digits >= 1,
        value < pow10(digits),
    ensures
        1 <= decimal_digits(value).len() <= digits,
    decreases digits,
{
    if value >= 10 {
        assert(pow10(1) == 10) by {
            reveal_with_fuel(pow10, 2);
        }
        assert(digits >= 2);
        lemma_decimal_len(value / 10, (digits - 1) as nat);
    }
}

/// Appends the decimal digits of `value` to `text`.
pub fn push_digits(text: &mut String, value: u64)
    ensures
        final(text)@ == old(text)@ + decimal_digits(value as nat),
    decreases value,
{
    if value >= 10 {
        push_digits(text, value / 10);
    }
    let digit = (48 + (value % 10)) as u8;
    push_char(text, digit as char);
    assert(text@ =~= old(text)@ + decimal_digits(value as nat));
}

/// Appends `value` to `text` in decimal, with zeros in front of it if it has
/// fewer than `width` digits.
pub fn push_padded(text: &mut String, value: u64, width: usize)
    ensures
        final(text)@ == old(text)@ + padded_decimal(value as nat, width as nat),
{
    let len = decimal_len(value);
    let mut filled = len;
    while filled < width
        invariant
            len <= filled,
            filled == len || filled <= width,
            text@ == old(text)@ + Seq::new((filled - len) as nat, |i: int| '0'),
        decreases width - filled,
    {
        push_char(text, '0');
        filled += 1;
        assert(text@ =~= old(text)@ + Seq::new((filled - len) as nat, |i: int| '0'));
    }
    let ghost zeros = Seq::new((filled - len) as nat, |i: int| '0');
    push_digits(text, value);
    proof {
        let digits = decimal_digits(value as nat);
        assert(text@ == (old(text)@ + zeros) + digits);
        if len >= width {
            assert(zeros =~= Seq::<char>::empty());
            assert((old(text)@ + zeros) + digits =~= old(text)@ + digits);
        } else {
            assert(filled == width);
            assert((old(text)@ + zeros) + digits =~= old(text)@ + (zeros + digits));
        }
    }
}

/// Whether `first` comes before `second` in the order of texts: it is the
/// beginning of `second` and shorter, or at the first place where the two
/// differ it has the smaller character.
pub open spec fn text_before(first: Seq<char>, second: Seq<char>) -> bool {
    ||| first.len() < second.len() && second.take(first.len() as int) == first
    ||| exists|k: int|
        0 <= k < first.len() && k < second.len() && #[trigger] first.take(k) == second.take(k)
            && (first[k] as u32) < (second[k] as u32)
}

/// A number below the `width`-th power of ten fills exactly `width`
/// characters.
pub proof fn lemma_padded_len(value: nat, width: nat)
    requires
        width >= 1,
        value < pow10(width),
    ensures
        padded_decimal(value, width).len() == width,
{
    lemma_decimal_len(value, width);
}

/// The text of a number is the text of its tens, one character narrower,
/// and its last digit.
pub proof fn lemma_padded_step(value: nat, width: nat)
    requires
        width >= 2,
        value < pow10(width),
    ensures
        padded_decimal(value, width) == padded_decimal(value / 10, (width - 1) as nat).push(
            digit_char((value % 10) as int),
        ),
{
    let narrower = (width - 1) as nat;
    assert(pow10(width) == 10 * pow10(narrower));
    assert(value / 10 < pow10(narrower));
    lemma_decimal_len(value, width);
    lemma_decimal_len(value / 10, narrower);
    let digits = decimal_digits(value);
    let tens = decimal_digits(value / 10);
    let last = digit_char((value % 10) as int);
    if value < 10 {
        assert(value / 10 == 0);
        assert(tens =~= seq!['0']);
        assert(digits =~= seq![last]);
        assert(padded_decimal(value, width) =~= padded_decimal(0, narrower).push(last));
    } else {
        assert(digits == tens.push(last));
        assert(padded_decimal(value, width) =~= padded_decimal(value / 10, narrower).push(last));
    }
}

/// Of two numbers that fill the same width, the smaller comes first in the
/// order of texts: the place where their texts first differ is returned.
pub proof fn lemma_padded_order(smaller: nat, greater: nat, width: nat) -> (k: int)
    requires
        width >= 1,
        smaller < greater,
        greater < pow10(width),
    ensures
        0 <= k < width,
        padded_decimal(smaller, width).len() == width,
        padded_decimal(greater, width).len() == width,
        padded_decimal(smaller, width).take(k) == padded_decimal(greater, width).take(k),
        (padded_decimal(smaller, width)[k] as u32) < (padded_decimal(greater, width)[k] as u32),
    decreases width,
{
    lemma_padded_len(smaller, width);
    lemma_padded_len(greater, width);
    let first = padded_decimal(smaller, width);
    let second = padded_decimal(greater, width);
    if width == 1 {
        assert(pow10(1) == 10) by {
            reveal_with_fuel(pow10, 2);
        }
        assert(first =~= seq![digit_char(smaller as int)]);
        assert(second =~= seq![digit_char(greater as int)]);
        assert(first.take(0) =~= second.take(0));
        0
    } else {
        let narrower = (width - 1) as nat;
        assert(pow10(width) == 10 * pow10(narrower));
        lemma_padded_step(smaller, width);
        lemma_padded_step(greater, width);
        let tens = padded_decimal(smaller / 10, narrower);
        let other_tens = padded_decimal(greater / 10, narrower);
        lemma_padded_len(smaller / 10, narrower);
        lemma_padded_len(greater / 10, narrower);
        if smaller / 10 < greater / 10 {
            let k = lemma_padded_order(smaller / 10, greater / 10, narrower);
            assert(first.take(k) =~= tens.take(k));
            assert(second.take(k) =~= other_tens.take(k));
            k
        } else {
            assert(smaller / 10 == greater / 10);
            assert(first.take(width - 1) =~= tens);
            assert(second.take(width - 1) =~= other_tens);
            width - 1
        }
    }
}

/// Texts that begin alike and then hold two parts of which one comes first
/// at a place `k` are in the order of those parts, whatever follows.
pub proof fn lemma_text_before_in_part(
    beginning: Seq<char>,
    part: Seq<char>,
    rest: Seq<char>,
    other_part: Seq<char>,
    other_rest: Seq<char>,
    k: int,
)
    requires
        0 <= k < part.len(),
        k < other_part.len(),
        part.take(k) == other_part.take(k),
        (part[k] as u32) < (other_part[k] as u32),
    ensures
        text_before(beginning + part + rest, beginning + other_part + other_rest),
{
    let first = beginning + part + rest;
    let second = beginning + other_part + other_rest;
    let at = beginning.len() + k;
    assert(first.take(at) =~= beginning + part.take(k));
    assert(second.take(at) =~= beginning + other_part.take(k));
    assert(first[at] == part[k]);
    assert(second[at] == other_part[k]);
    assert(first.take(at) == second.take(at));
}

} // verus!
