//! Adapter identities and their textual grouping key.

use vstd::prelude::*;

verus! {

/// Locally-unique identifier that the operating system assigns to an adapter
/// entry. Entries of one physical device share it.
#[derive(Clone, Copy, Debug, PartialEq, Eq, Structural)]
pub struct Luid {
    pub high_part: i32,
    pub low_part: u32,
}

/// The lower-case hexadecimal digit for a value below 16.
pub open spec fn hex_digit(d: nat) -> char
    recommends
        d < 16,
{
    seq![
        '0', '1', '2', '3', '4', '5', '6', '7',
        '8', '9', 'a', 'b', 'c', 'd', 'e', 'f',
    ][d as int]
}

/// The `width` least significant hexadecimal digits of `value`, most
/// significant first, padded with zeros on the left.
pub open spec fn hex_digits(value: nat, width: nat) -> Seq<char>
    decreases width,
{
    if width == 0 {
        Seq::empty()
    } else {
        hex_digits(value / 16, (width - 1) as nat).push(hex_digit(value % 16))
    }
}

impl Luid {
    /// The high part read as an unsigned 32-bit pattern (two's complement).
    pub open spec fn high_bits(self) -> nat {
        if self.high_part >= 0 {
            self.high_part as nat
        } else {
            (self.high_part + 0x1_0000_0000) as nat
        }
    }

    /// The grouping key: the high part, then the low part, eight digits each.
    pub open spec fn key_spec(self) -> Seq<char> {
        hex_digits(self.high_bits(), 8) + hex_digits(self.low_part as nat, 8)
    }

    /// Renders the identity as its sixteen-digit hexadecimal key.
    pub fn key(&self) -> (key: String)
        ensures
            key@ == self.key_spec(),
    {
        let high: u32 = if self.high_part >= 0 {
            self.high_part as u32
        } else {
            (self.high_part as i64 + 0x1_0000_0000i64) as u32
        };
        let mut key = String::new();
        push_hex(&mut key, high, 8);
        push_hex(&mut key, self.low_part, 8);
        key
    }
}

/// The character of one hexadecimal digit.
fn hex_char(d: u8) -> (c: char)
    requires
        d < 16,
    ensures
        c == hex_digit(d as nat),
{
    match d {
        0 => '0',
        1 => '1',
        2 => '2',
        3 => '3',
        4 => '4',
        5 => '5',
        6 => '6',
        7 => '7',
        8 => '8',
        9 => '9',
        10 => 'a',
        11 => 'b',
        12 => 'c',
        13 => 'd',
        14 => 'e',
        _ => 'f',
    }
}

/// Appends the `width` least significant hexadecimal digits of `value`.
fn push_hex(out: &mut String, value: u32, width: u8)
    ensures
        final(out)@ == old(out)@ + hex_digits(value as nat, width as nat),
    decreases width,
{
    if width > 0 {
        push_hex(out, value / 16, width - 1);
        push_char(out, hex_char((value % 16) as u8));
    }
    assert(out@ =~= old(out)@ + hex_digits(value as nat, width as nat));
}

/// Appends one character through std's `String::push`; the contract claims
/// that the string afterwards holds what it held before, followed by `c`.
#[verifier::external_body]
fn push_char(text: &mut String, c: char)
    ensures
        final(text)@ == old(text)@.push(c),
{
    text.push(c)
}

/// Sixteen to the power `width`: the number of values that `width`
/// hexadecimal digits tell apart.
pub open spec fn hex_span(width: nat) -> nat
    decreases width,
{
    if width == 0 {
        1
    } else {
        16 * hex_span((width - 1) as nat)
    }
}

/// `hex_digits` yields exactly `width` digits.
pub proof fn lemma_hex_digits_len(value: nat, width: nat)
    ensures
        hex_digits(value, width).len() == width,
    decreases width,
{
    if width > 0 {
        lemma_hex_digits_len(value / 16, (width - 1) as nat);
    }
}

/// Two values that fit in `width` digits and render alike are equal.
pub proof fn lemma_hex_digits_injective(a: nat, b: nat, width: nat)
    requires
        a < hex_span(width),
        b < hex_span(width),
        hex_digits(a, width) == hex_digits(b, width),
    ensures
        a == b,
    decreases width,
{
    if width > 0 {
        let shorter = (width - 1) as nat;
        let da = hex_digits(a / 16, shorter);
        let db = hex_digits(b / 16, shorter);
        assert(da.push(hex_digit(a % 16)).last() == db.push(hex_digit(b % 16)).last());
        assert(da.push(hex_digit(a % 16)).drop_last() =~= da);
        assert(db.push(hex_digit(b % 16)).drop_last() =~= db);
        assert(hex_digit(a % 16) == hex_digit(b % 16));
        lemma_hex_digit_injective(a % 16, b % 16);
        lemma_hex_digits_injective(a / 16, b / 16, shorter);
    }
}

/// Distinct digit values have distinct characters.
pub proof fn lemma_hex_digit_injective(a: nat, b: nat)
    requires
        a < 16,
        b < 16,
        hex_digit(a) == hex_digit(b),
    ensures
        a == b,
{
    let digits = seq![
        '0', '1', '2', '3', '4', '5', '6', '7',
        '8', '9', 'a', 'b', 'c', 'd', 'e', 'f',
    ];
    assert(digits[0] == '0' && digits[1] == '1' && digits[2] == '2' && digits[3] == '3');
    assert(digits[4] == '4' && digits[5] == '5' && digits[6] == '6' && digits[7] == '7');
    assert(digits[8] == '8' && digits[9] == '9' && digits[10] == 'a' && digits[11] == 'b');
    assert(digits[12] == 'c' && digits[13] == 'd' && digits[14] == 'e' && digits[15] == 'f');
}

/// Two identities have the same key exactly when they are the same
/// identity: grouping by identity is grouping by key.
pub proof fn lemma_key_identifies(a: Luid, b: Luid)
    ensures
        a.key_spec() == b.key_spec() <==> a == b,
        a.key_spec().len() == 16,
{
    lemma_hex_digits_len(a.high_bits(), 8);
    lemma_hex_digits_len(a.low_part as nat, 8);
    lemma_hex_digits_len(b.high_bits(), 8);
    lemma_hex_digits_len(b.low_part as nat, 8);
    if a.key_spec() == b.key_spec() {
        let high_a = hex_digits(a.high_bits(), 8);
        let low_a = hex_digits(a.low_part as nat, 8);
        let high_b = hex_digits(b.high_bits(), 8);
        let low_b = hex_digits(b.low_part as nat, 8);
        assert((high_a + low_a).subrange(0, 8) =~= high_a);
        assert((high_b + low_b).subrange(0, 8) =~= high_b);
        assert((high_a + low_a).subrange(8, 16) =~= low_a);
        assert((high_b + low_b).subrange(8, 16) =~= low_b);
        assert(hex_span(8) == 0x1_0000_0000) by {
            reveal_with_fuel(hex_span, 9);
        }
        lemma_hex_digits_injective(a.high_bits(), b.high_bits(), 8);
        lemma_hex_digits_injective(a.low_part as nat, b.low_part as nat, 8);
    }
}

} // verus!
