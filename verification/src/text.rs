//! Text building blocks shared by ordinals, directory names and file names.

use vstd::prelude::*;

verus! {

/// `count` copies of `fill`.
pub open spec fn repeated(fill: char, count: nat) -> Seq<char> {
    Seq::new(count, |i: int| fill)
}

/// `text` right-aligned in a field of `width` characters, the gap on the left
/// filled with `fill`. Text that already has `width` characters or more is unchanged.
pub open spec fn pad_left(text: Seq<char>, fill: char, width: nat) -> Seq<char> {
    if text.len() >= width {
        text
    } else {
        repeated(fill, (width - text.len()) as nat) + text
    }
}

/// The character that writes a single decimal digit.
#[verifier::opaque]
pub open spec fn digit(value: nat) -> char {
    if value == 0 {
        '0'
    } else if value == 1 {
        '1'
    } else if value == 2 {
        '2'
    } else if value == 3 {
        '3'
    } else if value == 4 {
        '4'
    } else if value == 5 {
        '5'
    } else if value == 6 {
        '6'
    } else if value == 7 {
        '7'
    } else if value == 8 {
        '8'
    } else {
        '9'
    }
}

/// Decimal notation of `value`, most significant digit first, without leading zeros.
pub open spec fn decimal(value: nat) -> Seq<char>
    decreases value,
{
    if value < 10 {
        seq![digit(value)]
    } else {
        decimal(value / 10).push(digit(value % 10))
    }
}

/// `left` followed by `right`.
pub fn joined(left: &str, right: &str) -> (joined: String)
    ensures
        joined@ == left@ + right@,
{
    let mut joined = String::from_str(left);
    joined.append(right);
    joined
}

/// Pads `text` on the left with zeros up to `width` characters.
pub fn zero_padded(text: &str, width: usize) -> (padded: String)
    ensures
        padded@ == pad_left(text@, '0', width as nat),
{
    let length: usize = text.unicode_len();
    if length >= width {
        return String::from_str(text);
    }
    let missing: usize = width - length;
    let mut padded = String::new();
    let mut written: usize = 0;
    while written < missing
        invariant
            written <= missing,
            padded@ == repeated('0', written as nat),
        decreases missing - written,
    {
        proof {
            reveal_strlit("0");
        }
        padded.append("0");
        written += 1;
        assert(padded@ =~= repeated('0', written as nat));
    }
    padded.append(text);
    padded
}

/// The one-character text of a decimal digit.
fn digit_text(value: usize) -> (text: &'static str)
    requires
        value < 10,
    ensures
        text@ == seq![digit(value as nat)],
{
    proof {
        reveal(digit);
        reveal_strlit("0");
        reveal_strlit("1");
        reveal_strlit("2");
        reveal_strlit("3");
        reveal_strlit("4");
        reveal_strlit("5");
        reveal_strlit("6");
        reveal_strlit("7");
        reveal_strlit("8");
        reveal_strlit("9");
    }
    let text = if value == 0 {
        "0"
    } else if value == 1 {
        "1"
    } else if value == 2 {
        "2"
    } else if value == 3 {
        "3"
    } else if value == 4 {
        "4"
    } else if value == 5 {
        "5"
    } else if value == 6 {
        "6"
    } else if value == 7 {
        "7"
    } else if value == 8 {
        "8"
    } else {
        "9"
    };
    assert(text@ =~= seq![digit(value as nat)]);
    text
}

/// Writes `value` in decimal notation.
pub fn decimal_string(value: usize) -> (text: String)
    ensures
        text@ == decimal(value as nat),
    decreases value,
{
    if value < 10 {
        String::from_str(digit_text(value))
    } else {
        let mut text = decimal_string(value / 10);
        text.append(digit_text(value % 10));
        assert(text@ =~= decimal(value as nat));
        text
    }
}

/// The digit that a character writes; no character but the ten digits writes one.
pub open spec fn digit_value(c: char) -> Option<nat> {
    if c == '0' {
        Some(0)
    } else if c == '1' {
        Some(1)
    } else if c == '2' {
        Some(2)
    } else if c == '3' {
        Some(3)
    } else if c == '4' {
        Some(4)
    } else if c == '5' {
        Some(5)
    } else if c == '6' {
        Some(6)
    } else if c == '7' {
        Some(7)
    } else if c == '8' {
        Some(8)
    } else if c == '9' {
        Some(9)
    } else {
        None
    }
}

/// Whether `text` is made of digits only.
pub open spec fn all_digits(text: Seq<char>) -> bool {
    forall|i: int| 0 <= i < text.len() ==> digit_value(#[trigger] text[i]) is Some
}

/// The number that a run of digits writes in decimal notation; leading zeros
/// do not count.
pub open spec fn number_of(digits: Seq<char>) -> nat
    recommends
        all_digits(digits),
    decreases digits.len(),
{
    if digits.len() == 0 {
        0
    } else {
        number_of(digits.drop_last()) * 10 + digit_value(digits.last()).unwrap()
    }
}

/// Whether `left` sorts strictly before `right`, character by character.
pub open spec fn sorts_before(left: Seq<char>, right: Seq<char>) -> bool
    decreases left.len(),
{
    if right.len() == 0 {
        false
    } else if left.len() == 0 {
        true
    } else if left[0] != right[0] {
        left[0] < right[0]
    } else {
        sorts_before(left.drop_first(), right.drop_first())
    }
}

/// Padding never shortens: a padded text has at least `width` characters,
/// ends with the text it was made from, and has only the fill before it.
pub proof fn lemma_pad_left_shape(text: Seq<char>, fill: char, width: nat)
    ensures
        pad_left(text, fill, width).len() == if text.len() >= width {
            text.len()
        } else {
            width
        },
        pad_left(text, fill, width).subrange(
            pad_left(text, fill, width).len() - text.len(),
            pad_left(text, fill, width).len() as int,
        ) == text,
        forall|i: int|
            0 <= i < pad_left(text, fill, width).len() - text.len() ==> #[trigger] pad_left(
                text,
                fill,
                width,
            )[i] == fill,
{
    let padded = pad_left(text, fill, width);
    assert(padded.subrange(padded.len() - text.len(), padded.len() as int) =~= text);
}

/// Decimal notation can be read back: it is made of digits, at least one,
/// and they write the number it was made from.
pub proof fn lemma_decimal_reads_back(value: nat)
    ensures
        decimal(value).len() >= 1,
        all_digits(decimal(value)),
        number_of(decimal(value)) == value,
    decreases value,
{
    let last = value % 10;
    assert(digit_value(digit(last)) == Some(last)) by {
        reveal(digit);
    }
    assert(decimal(value).last() == digit(last));
    if value >= 10 {
        lemma_decimal_reads_back(value / 10);
        assert(decimal(value).drop_last() =~= decimal(value / 10));
    } else {
        assert(decimal(value).drop_last() =~= Seq::<char>::empty());
        assert(number_of(Seq::<char>::empty()) == 0);
    }
}

/// Zeros in front of a run of digits change nothing of the number it writes.
pub proof fn lemma_leading_zeros(count: nat, digits: Seq<char>)
    ensures
        number_of(repeated('0', count) + digits) == number_of(digits),
        all_digits(digits) ==> all_digits(repeated('0', count) + digits),
    decreases digits.len(), count,
{
    let padded = repeated('0', count) + digits;
    if digits.len() > 0 {
        lemma_leading_zeros(count, digits.drop_last());
        assert(padded.drop_last() =~= repeated('0', count) + digits.drop_last());
    } else if count > 0 {
        lemma_leading_zeros((count - 1) as nat, digits);
        assert(padded.drop_last() =~= repeated('0', (count - 1) as nat) + digits);
    }
}

/// A number written in decimal and padded with zeros can still be read back,
/// whatever the width.
pub proof fn lemma_zero_padded_decimal(value: nat, width: nat)
    ensures
        all_digits(pad_left(decimal(value), '0', width)),
        number_of(pad_left(decimal(value), '0', width)) == value,
{
    lemma_decimal_reads_back(value);
    if decimal(value).len() < width {
        lemma_leading_zeros((width - decimal(value).len()) as nat, decimal(value));
    }
}

/// No text sorts before itself.
pub proof fn lemma_sorts_before_irreflexive(text: Seq<char>)
    ensures
        !sorts_before(text, text),
    decreases text.len(),
{
    if text.len() > 0 {
        lemma_sorts_before_irreflexive(text.drop_first());
    }
}

/// A common beginning plays no part in the order of two texts.
pub proof fn lemma_sorts_before_prefix(prefix: Seq<char>, left: Seq<char>, right: Seq<char>)
    ensures
        sorts_before(prefix + left, prefix + right) == sorts_before(left, right),
    decreases prefix.len(),
{
    if prefix.len() == 0 {
        assert(prefix + left =~= left);
        assert(prefix + right =~= right);
    } else {
        let rest = prefix.drop_first();
        assert((prefix + left).drop_first() =~= rest + left);
        assert((prefix + right).drop_first() =~= rest + right);
        assert((prefix + left)[0] == (prefix + right)[0]);
        lemma_sorts_before_prefix(rest, left, right);
    }
}

/// Below a thousand, a number padded to three digits is its hundreds, its
/// tens and its units.
pub proof fn lemma_three_digits(value: nat)
    requires
        value < 1000,
    ensures
        pad_left(decimal(value), '0', 3) == seq![
            digit(value / 100),
            digit((value / 10) % 10),
            digit(value % 10),
        ],
{
    reveal_with_fuel(decimal, 3);
    assert(digit(0) == '0') by {
        reveal(digit);
    }
    let digits = seq![digit(value / 100), digit((value / 10) % 10), digit(value % 10)];
    if value < 10 {
        assert(decimal(value) =~= seq![digit(value)]);
        assert(pad_left(decimal(value), '0', 3) =~= digits);
    } else if value < 100 {
        assert(decimal(value) =~= seq![digit(value / 10), digit(value % 10)]);
        assert(pad_left(decimal(value), '0', 3) =~= digits);
    } else {
        assert((value / 10) / 10 == value / 100);
        assert(decimal(value) =~= digits);
        assert(pad_left(decimal(value), '0', 3) =~= digits);
    }
}

/// Digits sort as the numbers they write.
pub proof fn lemma_digits_sort(left: nat, right: nat)
    requires
        left < 10,
        right < 10,
    ensures
        left < right <==> digit(left) < digit(right),
        left == right <==> digit(left) == digit(right),
{
    reveal(digit);
}

/// Two texts that agree up to a position where the first has the smaller
/// character sort in that order.
pub proof fn lemma_sorts_before_at(left: Seq<char>, right: Seq<char>, position: int)
    requires
        0 <= position < left.len(),
        position < right.len(),
        forall|i: int| 0 <= i < position ==> left[i] == right[i],
        left[position] < right[position],
    ensures
        sorts_before(left, right),
    decreases position,
{
    if position > 0 {
        let left_rest = left.drop_first();
        let right_rest = right.drop_first();
        assert forall|i: int| 0 <= i < position - 1 implies left_rest[i] == right_rest[i] by {
            assert(left_rest[i] == left[i + 1]);
            assert(right_rest[i] == right[i + 1]);
        }
        assert(left_rest[position - 1] == left[position]);
        assert(right_rest[position - 1] == right[position]);
        assert(left[0] == right[0]);
        lemma_sorts_before_at(left_rest, right_rest, position - 1);
    }
}

} // verus!
