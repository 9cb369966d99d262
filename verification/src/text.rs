//! Numbers as text.
use vstd::prelude::*;
use vstd::string::StringExecFns;

verus! {

/// The character of a decimal digit.
pub open spec fn digit_char(digit: nat) -> char {
    if digit == 0 {
        '0'
    } else if digit == 1 {
        '1'
    } else if digit == 2 {
        '2'
    } else if digit == 3 {
        '3'
    } else if digit == 4 {
        '4'
    } else if digit == 5 {
        '5'
    } else if digit == 6 {
        '6'
    } else if digit == 7 {
        '7'
    } else if digit == 8 {
        '8'
    } else {
        '9'
    }
}

/// A number in decimal digits, without leading zeros.
pub open spec fn decimal(number: nat) -> Seq<char>
    decreases number,
{
    if number < 10 {
        seq![digit_char(number)]
    } else {
        decimal(number / 10).push(digit_char(number % 10))
    }
}

fn digit_text(digit: u64) -> (text: &'static str)
    requires
        digit < 10,
    ensures
        text@ == seq![digit_char(digit as nat)],
{
    proof {
        reveal_strlit("0");
        reveal_strlit("1");
        reveal_strlit("2");
        reveal_strlit("3");
        reveal_strlit("4");
        reveal_strlit("5");
        reveal_strlit("6");
        reveal_strlit("7");
        reveal_strlit("8");
        reveal_strlit("9");
    }
    let text = match digit {
        0 => "0",
        1 => "1",
        2 => "2",
        3 => "3",
        4 => "4",
        5 => "5",
        6 => "6",
        7 => "7",
        8 => "8",
        _ => "9",
    };
    assert(text@ =~= seq![digit_char(digit as nat)]);
    text
}

/// A number in decimal digits.
pub fn number_text(number: u64) -> (text: String)
    ensures
        text@ == decimal(number as nat),
    decreases number,
{
    if number < 10 {
        String::from_str(digit_text(number))
    } else {
        let text = number_text(number / 10).concat(digit_text(number % 10));
        assert(text@ =~= decimal(number as nat));
        text
    }
}

/// `before`, a number, and `after`.
pub fn text_with_number(before: &str, number: u64, after: &str) -> (text: String)
    ensures
        text@ == before@ + decimal(number as nat) + after@,
{
    String::from_str(before).concat(number_text(number).as_str()).concat(after)
}

/// The character of a hexadecimal digit.
pub open spec fn hex_char(digit: nat) -> char {
    if digit < 10 {
        digit_char(digit)
    } else if digit == 10 {
        'a'
    } else if digit == 11 {
        'b'
    } else if digit == 12 {
        'c'
    } else if digit == 13 {
        'd'
    } else if digit == 14 {
        'e'
    } else {
        'f'
    }
}

/// The lowest `width` hexadecimal digits of a number, the highest of them first.
pub open spec fn hex_digits(number: nat, width: nat) -> Seq<char>
    decreases width,
{
    if width == 0 {
        Seq::empty()
    } else {
        hex_digits(number / 16, (width - 1) as nat).push(hex_char(number % 16))
    }
}

fn hex_digit_text(digit: u32) -> (text: &'static str)
    requires
        digit < 16,
    ensures
        text@ == seq![hex_char(digit as nat)],
{
    if digit < 10 {
        return digit_text(digit as u64);
    }
    proof {
        reveal_strlit("a");
        reveal_strlit("b");
        reveal_strlit("c");
        reveal_strlit("d");
        reveal_strlit("e");
        reveal_strlit("f");
    }
    let text = match digit {
        10 => "a",
        11 => "b",
        12 => "c",
        13 => "d",
        14 => "e",
        _ => "f",
    };
    assert(text@ =~= seq![hex_char(digit as nat)]);
    text
}

fn hex_digits_text(number: u32, width: u32) -> (text: String)
    ensures
        text@ == hex_digits(number as nat, width as nat),
    decreases width,
{
    if width == 0 {
        proof {
            reveal_strlit("");
        }
        let text = String::from_str("");
        assert(text@ =~= Seq::<char>::empty());
        text
    } else {
        let text = hex_digits_text(number / 16, width - 1).concat(hex_digit_text(number % 16));
        assert(text@ =~= hex_digits(number as nat, width as nat));
        text
    }
}

/// All eight hexadecimal digits of a number, behind `0x`.
pub open spec fn word(number: u32) -> Seq<char> {
    "0x"@ + hex_digits(number as nat, 8)
}

/// All eight hexadecimal digits of a number, behind `0x`.
pub fn word_text(number: u32) -> (text: String)
    ensures
        text@ == word(number),
{
    String::from_str("0x").concat(hex_digits_text(number, 8).as_str())
}

/// A number that may be missing, as its `Option` is shown.
pub open spec fn optional(number: Option<u32>) -> Seq<char> {
    match number {
        None => "None"@,
        Some(number) => "Some("@ + decimal(number as nat) + ")"@,
    }
}

/// A number that may be missing, as its `Option` is shown.
pub fn optional_text(number: Option<u32>) -> (text: String)
    ensures
        text@ == optional(number),
{
    match number {
        None => String::from_str("None"),
        Some(number) => text_with_number("Some(", number as u64, ")"),
    }
}

/// Bytes in hexadecimal digits, two for each.
pub open spec fn hex_text(bytes: Seq<u8>) -> Seq<char> {
    Seq::new(
        2 * bytes.len(),
        |i: int|
            if i % 2 == 0 {
                hex_char(bytes[i / 2] as nat / 16)
            } else {
                hex_char(bytes[i / 2] as nat % 16)
            },
    )
}

/// `hex::encode`: bytes as text.
///
/// Claimed: two lower-case hexadecimal digits for each byte, the higher one first, in the order of
/// the bytes.
#[verifier::external_body]
pub(crate) fn hex_encode(bytes: &[u8]) -> (text: String)
    ensures
        text@ == hex_text(bytes@),
{
    hex::encode(bytes)
}

/// `block::Hash`'s `to_string` of `zakura-chain`: a block hash as it is shown.
///
/// Claimed: its 32 bytes from last to first, two lower-case hexadecimal digits for each.
#[verifier::external_body]
pub(crate) fn block_hash_text(hash: &[u8; 32]) -> (text: String)
    ensures
        text@ == hex_text(hash@.reverse()),
{
    zakura_chain::block::Hash(*hash).to_string()
}

// ---------------------------------------------------------------------------
// Laws
// ---------------------------------------------------------------------------

/// The number that a digit stands for, in lower case.
pub open spec fn digit_value(digit: char) -> int {
    if '0' <= digit <= '9' {
        digit as int - '0' as int
    } else {
        digit as int - 'a' as int + 10
    }
}

pub open spec fn is_hex_digit(digit: char) -> bool {
    '0' <= digit <= '9' || 'a' <= digit <= 'f'
}

/// The number that digits spell in a base.
pub open spec fn digits_value(digits: Seq<char>, base: int) -> int
    decreases digits.len(),
{
    if digits.len() == 0 {
        0
    } else {
        digits_value(digits.drop_last(), base) * base + digit_value(digits.last())
    }
}

/// The bytes that pairs of hexadecimal digits spell, the higher digit first.
pub open spec fn unhex(digits: Seq<char>) -> Seq<u8> {
    Seq::new(
        digits.len() / 2,
        |i: int| (16 * digit_value(digits[2 * i]) + digit_value(digits[2 * i + 1])) as u8,
    )
}

/// Bytes as text are hexadecimal digits, which spell the bytes again, each at its place.
pub proof fn law_hex_text_is_read_back(bytes: Seq<u8>)
    ensures
        hex_text(bytes).len() == 2 * bytes.len(),
        forall|i: int| 0 <= i < 2 * bytes.len() ==> is_hex_digit(#[trigger] hex_text(bytes)[i]),
        unhex(hex_text(bytes)) == bytes,
{
    let text = hex_text(bytes);
    assert forall|i: int| 0 <= i < bytes.len() implies #[trigger] unhex(text)[i] == bytes[i] by {
        let byte = bytes[i] as nat;
        assert(text[2 * i] == hex_char(byte / 16));
        assert(text[2 * i + 1] == hex_char(byte % 16));
    }
    assert(unhex(text) =~= bytes);
}

/// A number in decimal digits spells the number, and begins with zero only where it is zero.
pub proof fn law_decimal_spells_the_number(number: nat)
    ensures
        digits_value(decimal(number), 10) == number,
        decimal(number).len() > 0,
        decimal(number)[0] == '0' ==> number == 0,
        forall|i: int| 0 <= i < decimal(number).len() ==> '0' <= #[trigger] decimal(number)[i] <= '9',
    decreases number,
{
    reveal_with_fuel(digits_value, 2);
    if number >= 10 {
        law_decimal_spells_the_number(number / 10);
        assert(decimal(number).drop_last() =~= decimal(number / 10));
        assert(decimal(number)[0] == decimal(number / 10)[0]);
    } else {
        assert(decimal(number).drop_last() =~= Seq::empty());
    }
}

proof fn lemma_hex_digits_value(number: nat, width: nat, limit: nat)
    requires
        limit == vstd::arithmetic::power::pow(16, width),
        number < limit,
    ensures
        hex_digits(number, width).len() == width,
        digits_value(hex_digits(number, width), 16) == number,
        forall|i: int|
            0 <= i < width ==> is_hex_digit(#[trigger] hex_digits(number, width)[i]),
    decreases width,
{
    reveal_with_fuel(vstd::arithmetic::power::pow, 2);
    if width > 0 {
        let fewer = (width - 1) as nat;
        let shorter = vstd::arithmetic::power::pow(16, fewer);
        assert(limit == 16 * shorter);
        lemma_hex_digits_value(number / 16, fewer, shorter as nat);
        assert(hex_digits(number, width).drop_last() =~= hex_digits(number / 16, fewer));
    }
}

/// A word is `0x` and eight hexadecimal digits that spell the number.
pub proof fn law_word_spells_the_number(number: u32)
    ensures
        word(number).len() == 10,
        word(number)[0] == '0',
        word(number)[1] == 'x',
        digits_value(word(number).skip(2), 16) == number,
        forall|i: int| 2 <= i < 10 ==> is_hex_digit(#[trigger] word(number)[i]),
{
    reveal_strlit("0x");
    reveal_with_fuel(vstd::arithmetic::power::pow, 9);
    assert(vstd::arithmetic::power::pow(16, 8) == 0x1_0000_0000);
    lemma_hex_digits_value(number as nat, 8, 0x1_0000_0000);
    assert(word(number).skip(2) =~= hex_digits(number as nat, 8));
}

} // verus!
