//! Identifiers: 128-bit UUIDs held as integers.

use vstd::prelude::*;

use crate::text;

verus! {

/// The lower-case hexadecimal digit of a number below sixteen.
pub open spec fn hex_char(d: int) -> char {
    if d < 10 {
        (48 + d) as char
    } else {
        (87 + d) as char
    }
}

/// Hexadecimal digit `i` of an identifier, counted from the most significant.
pub open spec fn hex_digit(id: u128, i: int) -> int {
    (id as int / vstd::arithmetic::power::pow(16, (31 - i) as nat)) % 16
}

/// The hyphenated form of an identifier: thirty-two digits in groups of
/// eight, four, four, four and twelve.
pub open spec fn hyphenated(id: u128) -> Seq<char> {
    Seq::new(
        36,
        |k: int|
            if k == 8 || k == 13 || k == 18 || k == 23 {
                '-'
            } else if k < 8 {
                hex_char(hex_digit(id, k))
            } else if k < 13 {
                hex_char(hex_digit(id, k - 1))
            } else if k < 18 {
                hex_char(hex_digit(id, k - 2))
            } else if k < 23 {
                hex_char(hex_digit(id, k - 3))
            } else {
                hex_char(hex_digit(id, k - 4))
            },
    )
}

/// `uuid::Uuid::to_string` of the identifier that `Uuid::from_u128` makes: the
/// hyphenated lower-case form.
#[verifier::external_body]
pub(crate) fn uuid_text(id: u128) -> (out: String)
    ensures
        out@ == hyphenated(id),
{
    uuid::Uuid::from_u128(id).to_string()
}

/// Whether an identifier has the version digit and the variant digit of random
/// ones.
pub open spec fn is_random_id(id: u128) -> bool {
    hex_digit(id, 12) == 4 && 8 <= hex_digit(id, 16) < 12
}

/// `uuid::Uuid::new_v4`: a random identifier. Whatever the random bits are,
/// its version digit is four and its variant bits are those of RFC 4122.
#[verifier::external_body]
pub(crate) fn mint_uuid() -> (id: u128)
    ensures
        is_random_id(id),
{
    uuid::Uuid::new_v4().as_u128()
}

/// Whether a character is a hexadecimal digit of either letter case.
pub open spec fn is_hex(c: char) -> bool {
    '0' <= c <= '9' || 'a' <= c <= 'f' || 'A' <= c <= 'F'
}

/// Whether a text is thirty-two hexadecimal digits with hyphens behind the
/// eighth, twelfth, sixteenth and twentieth.
pub open spec fn is_hyphenated(text: Seq<char>) -> bool {
    &&& text.len() == 36
    &&& forall|k: int|
        0 <= k < 36 ==> if k == 8 || k == 13 || k == 18 || k == 23 {
            #[trigger] text[k] == '-'
        } else {
            is_hex(text[k])
        }
}

/// Whether a text spells an identifier: as bare digits, with hyphens, with
/// hyphens inside of braces, or with hyphens as a URN.
pub open spec fn parses_as_uuid(text: Seq<char>) -> bool {
    ||| text.len() == 32 && forall|k: int| 0 <= k < 32 ==> is_hex(#[trigger] text[k])
    ||| is_hyphenated(text)
    ||| text.len() == 38 && text[0] == '{' && text[37] == '}' && is_hyphenated(
        text.subrange(1, 37),
    )
    ||| text.len() == 45 && text.take(9).map_values(|c: char| text::ascii_lower(c))
        == "urn:uuid:"@ && is_hyphenated(text.skip(9))
}

/// `uuid::Uuid::parse_str`, asked only whether it succeeds: it does for the
/// four spellings, with digits and the URN prefix in either letter case, and
/// for nothing else.
#[verifier::external_body]
pub(crate) fn is_uuid(text: &str) -> (r: bool)
    ensures
        r == parses_as_uuid(text@),
{
    uuid::Uuid::parse_str(text).is_ok()
}

/// What an identifier is written as can be read as one.
pub proof fn a_written_id_parses(id: u128)
    ensures
        parses_as_uuid(hyphenated(id)),
{
    let t = hyphenated(id);
    assert forall|k: int| 0 <= k < 36 implies if k == 8 || k == 13 || k == 18 || k == 23 {
        #[trigger] t[k] == '-'
    } else {
        is_hex(t[k])
    } by {
        let place = if k < 8 {
            k
        } else if k < 13 {
            k - 1
        } else if k < 18 {
            k - 2
        } else if k < 23 {
            k - 3
        } else {
            k - 4
        };
        lemma_hex_char(hex_digit(id, place));
    }
}

proof fn lemma_hex_char(d: int)
    requires
        0 <= d < 16,
    ensures
        is_hex(hex_char(d)),
{
}

/// The last digit of an identifier is its remainder by sixteen, and the others
/// are those of the quotient, each one place further on.
pub proof fn digits_go_by_sixteens(id: u128, i: int)
    ensures
        hex_digit(id, 31) == id % 16,
        0 <= i < 31 ==> hex_digit(id, i) == hex_digit((id / 16) as u128, i + 1),
{
    vstd::arithmetic::power::lemma_pow0(16);
    assert(id as int / 1 == id as int);
    if 0 <= i < 31 {
        let less = (30 - i) as nat;
        let p = vstd::arithmetic::power::pow(16, less);
        vstd::arithmetic::power::lemma_pow_positive(16, less);
        assert(vstd::arithmetic::power::pow(16, (31 - i) as nat) == 16 * p) by {
            reveal(vstd::arithmetic::power::pow);
        }
        vstd::arithmetic::div_mod::lemma_div_denominator(id as int, 16, p);
    }
}

/// Digits are written from zero to nine and from small a to small f.
pub proof fn digits_are_written_in_small_letters(d: int)
    requires
        0 <= d < 16,
    ensures
        hex_char(d) == "0123456789abcdef"@[d],
{
    reveal_strlit("0123456789abcdef");
}

/// An identifier is written with its digits in order, in five groups with
/// hyphens between them.
pub proof fn an_id_is_written_in_five_groups(id: u128)
    ensures
        ({
            let text = hyphenated(id);
            let digits = Seq::new(32, |i: int| hex_char(hex_digit(id, i)));
            &&& text == digits.take(8) + seq!['-'] + digits.subrange(8, 12) + seq!['-']
                + digits.subrange(12, 16) + seq!['-'] + digits.subrange(16, 20) + seq!['-']
                + digits.skip(20)
            &&& is_random_id(id) <==> hex_digit(id, 12) == 4 && (hex_digit(id, 16) == 8 || hex_digit(
                id,
                16,
            ) == 9 || hex_digit(id, 16) == 10 || hex_digit(id, 16) == 11)
        }),
{
    let text = hyphenated(id);
    let digits = Seq::new(32, |i: int| hex_char(hex_digit(id, i)));
    assert(text =~= digits.take(8) + seq!['-'] + digits.subrange(8, 12) + seq!['-']
        + digits.subrange(12, 16) + seq!['-'] + digits.subrange(16, 20) + seq!['-']
        + digits.skip(20));
}

/// An identifier is read with its hyphens in their places, in braces or as a
/// URN too, or as digits alone; digits of either letter case count.
pub proof fn an_id_is_read_in_four_forms(text: Seq<char>, id: u128)
    requires
        is_hyphenated(text) || text == hyphenated(id),
    ensures
        parses_as_uuid(text),
        parses_as_uuid(seq!['{'] + text + seq!['}']),
        parses_as_uuid("urn:uuid:"@ + text),
        parses_as_uuid("URN:UUID:"@ + text),
        parses_as_uuid(
            text.take(8) + text.subrange(9, 13) + text.subrange(14, 18) + text.subrange(19, 23)
                + text.skip(24),
        ),
{
    a_written_id_parses(id);
    assert(is_hyphenated(text));
    let braced = seq!['{'] + text + seq!['}'];
    assert(braced.subrange(1, 37) =~= text);
    reveal_strlit("urn:uuid:");
    reveal_strlit("URN:UUID:");
    let urn = "urn:uuid:"@ + text;
    let loud = "URN:UUID:"@ + text;
    assert(urn.skip(9) =~= text);
    assert(loud.skip(9) =~= text);
    assert(urn.take(9).map_values(|c: char| text::ascii_lower(c)) =~= "urn:uuid:"@);
    assert(loud.take(9).map_values(|c: char| text::ascii_lower(c)) =~= "urn:uuid:"@);
    let bare = text.take(8) + text.subrange(9, 13) + text.subrange(14, 18) + text.subrange(19, 23)
        + text.skip(24);
    assert forall|k: int| 0 <= k < 32 implies is_hex(#[trigger] bare[k]) by {
        let at = if k < 8 {
            k
        } else if k < 12 {
            k + 1
        } else if k < 16 {
            k + 2
        } else if k < 20 {
            k + 3
        } else {
            k + 4
        };
        assert(bare[k] == text[at]);
        assert(is_hex(text[at]));
    }
}

/// What is read as an identifier has one of four lengths and, but for hyphens,
/// braces and the mark of a URN, digits only.
pub proof fn nothing_else_is_read_as_an_id(text: Seq<char>, c: char)
    ensures
        parses_as_uuid(text) ==> text.len() == 32 || text.len() == 36 || text.len() == 38
            || text.len() == 45,
        parses_as_uuid(text) && text.len() == 36 ==> text[8] == '-' && text[13] == '-' && text[18]
            == '-' && text[23] == '-',
        is_hex(c) <==> (0x30 <= c as u32 <= 0x39 || 0x41 <= c as u32 <= 0x46 || 0x61 <= c as u32
            <= 0x66),
{
}

} // verus!
