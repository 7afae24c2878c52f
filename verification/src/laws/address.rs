//! What holds of addresses as text.

use vstd::prelude::*;

verus! {

use crate::address::{all_hex, hex_bytes, hex_text, hex_value, is_white_space, trimmed, trimmed_end, trimmed_start, ADDRESS_LEN};
use crate::laws::text::law_digits_are_the_usual_ones;
use crate::text::digit_char;
use vstd::utf8::{encode_utf8, is_ascii_chars_encode_utf8};

/// A digit has the value it was made from.
proof fn lemma_digit(value: int)
    requires
        0 <= value < 16,
    ensures
        '\0' <= digit_char(value) <= '\u{7f}',
        !is_white_space(digit_char(value)),
        hex_value(digit_char(value) as u8) == Some(value as u8),
{
}

/// A text that has no white space at its ends is left as it is.
proof fn lemma_nothing_to_trim(text: Seq<char>)
    requires
        text.len() > 0 ==> !is_white_space(text.first()) && !is_white_space(text.last()),
    ensures
        trimmed(text) == text,
{
}

/// Parsing the hex form of an address gives the address.
pub proof fn law_hex_addresses_parse_back(address: Seq<u8>)
    requires
        address.len() == ADDRESS_LEN,
    ensures
        ({
            let digits = encode_utf8(trimmed(hex_text(address)));
            &&& digits.len() == 2 * ADDRESS_LEN
            &&& all_hex(digits)
            &&& hex_bytes(digits) == address
        }),
{
    let text = hex_text(address);
    assert forall|i: int| 0 <= i < text.len() implies '\0' <= #[trigger] text[i] <= '\u{7f}'
        && !is_white_space(text[i]) by {
        lemma_digit(address[i / 2] as int / 16);
        lemma_digit(address[i / 2] as int % 16);
    }
    lemma_nothing_to_trim(text);
    is_ascii_chars_encode_utf8(text);
    let digits = encode_utf8(text);
    assert forall|i: int| 0 <= i < digits.len() implies hex_value(#[trigger] digits[i])
        == Some(
        if i % 2 == 0 {
            (address[i / 2] as int / 16) as u8
        } else {
            (address[i / 2] as int % 16) as u8
        },
    ) by {
        lemma_digit(address[i / 2] as int / 16);
        lemma_digit(address[i / 2] as int % 16);
        assert(text[i] as u8 == digits[i]);
    }
    assert forall|i: int| 0 <= i < address.len() implies hex_bytes(digits)[i] == address[i] by {
        assert(hex_value(digits[2 * i]) == Some((address[i] as int / 16) as u8));
        assert(hex_value(digits[2 * i + 1]) == Some((address[i] as int % 16) as u8));
    }
    assert(hex_bytes(digits) =~= address);
}

/// Different byte strings have different hex forms.
pub proof fn law_hex_is_one_to_one(a: Seq<u8>, b: Seq<u8>)
    ensures
        hex_text(a) == hex_text(b) ==> a == b,
{
    if hex_text(a) == hex_text(b) {
        assert(hex_text(a).len() == hex_text(b).len());
        assert forall|i: int| 0 <= i < a.len() implies a[i] == b[i] by {
            assert(hex_text(a)[2 * i] == hex_text(b)[2 * i]);
            assert(hex_text(a)[2 * i + 1] == hex_text(b)[2 * i + 1]);
            lemma_digit(a[i] as int / 16);
            lemma_digit(b[i] as int / 16);
            lemma_digit(a[i] as int % 16);
            lemma_digit(b[i] as int % 16);
        }
        assert(a =~= b);
    }
}

/// A hexadecimal digit in lower case.
pub open spec fn lower_case(digit: u8) -> u8 {
    if 65 <= digit <= 70 {
        (digit + 32) as u8
    } else {
        digit
    }
}

/// The hex form of what was parsed is what was given, in lower case.
pub proof fn law_parsing_loses_only_the_case(digits: Seq<u8>)
    requires
        digits.len() == 2 * ADDRESS_LEN,
        all_hex(digits),
    ensures
        hex_text(hex_bytes(digits)).len() == digits.len(),
        forall|i: int|
            0 <= i < digits.len() ==> #[trigger] hex_text(hex_bytes(digits))[i] == lower_case(
                digits[i],
            ) as char,
{
    let bytes = hex_bytes(digits);
    assert forall|i: int| 0 <= i < digits.len() implies #[trigger] hex_text(bytes)[i] == lower_case(
        digits[i],
    ) as char by {
        let k = i / 2;
        assert(hex_value(digits[2 * k]) is Some);
        assert(hex_value(digits[2 * k + 1]) is Some);
        let hi = hex_value(digits[2 * k])->Some_0;
        let lo = hex_value(digits[2 * k + 1])->Some_0;
        assert(bytes[k] == 16 * hi + lo);
        assert(bytes[k] as int / 16 == hi && bytes[k] as int % 16 == lo);
        assert(i == 2 * k || i == 2 * k + 1);
    }
}

/// White space before a text makes no difference.
proof fn lemma_trim_start(before: Seq<char>, text: Seq<char>)
    requires
        forall|i: int| 0 <= i < before.len() ==> is_white_space(#[trigger] before[i]),
    ensures
        trimmed_start(before + text) == trimmed_start(text),
    decreases before.len(),
{
    if before.len() == 0 {
        assert(before + text =~= text);
    } else {
        assert((before + text).first() == before[0]);
        assert((before + text).drop_first() =~= before.drop_first() + text);
        lemma_trim_start(before.drop_first(), text);
    }
}

/// White space after a text makes no difference.
proof fn lemma_trim_end(text: Seq<char>, after: Seq<char>)
    requires
        forall|i: int| 0 <= i < after.len() ==> is_white_space(#[trigger] after[i]),
    ensures
        trimmed_end(text + after) == trimmed_end(text),
    decreases after.len(),
{
    if after.len() == 0 {
        assert(text + after =~= text);
    } else {
        assert((text + after).last() == after[after.len() - 1]);
        assert((text + after).drop_last() =~= text + after.drop_last());
        lemma_trim_end(text, after.drop_last());
    }
}

/// What follows a text that is not all white space does not matter at its start.
proof fn lemma_trim_start_of_longer(text: Seq<char>, after: Seq<char>)
    requires
        trimmed_start(text).len() > 0,
    ensures
        trimmed_start(text + after) == trimmed_start(text) + after,
    decreases text.len(),
{
    assert((text + after).first() == text.first());
    if is_white_space(text.first()) {
        assert((text + after).drop_first() =~= text.drop_first() + after);
        lemma_trim_start_of_longer(text.drop_first(), after);
    }
}

/// A text of white space alone is trimmed to nothing.
proof fn lemma_all_white_space(text: Seq<char>)
    ensures
        trimmed_start(text).len() == 0 <==> (forall|i: int|
            0 <= i < text.len() ==> is_white_space(#[trigger] text[i])),
    decreases text.len(),
{
    if text.len() > 0 && is_white_space(text.first()) {
        lemma_all_white_space(text.drop_first());
        assert forall|i: int| 0 <= i < text.len() && trimmed_start(text).len() == 0 implies is_white_space(
            #[trigger] text[i],
        ) by {
            if i > 0 {
                assert(text.drop_first()[i - 1] == text[i]);
            }
        }
    }
}

/// White space around an address makes no difference.
pub proof fn law_white_space_around_an_address_is_ignored(
    before: Seq<char>,
    text: Seq<char>,
    after: Seq<char>,
)
    requires
        forall|i: int| 0 <= i < before.len() ==> is_white_space(#[trigger] before[i]),
        forall|i: int| 0 <= i < after.len() ==> is_white_space(#[trigger] after[i]),
    ensures
        trimmed(before + text + after) == trimmed(text),
{
    assert(before + text + after =~= before + (text + after));
    lemma_trim_start(before, text + after);
    lemma_all_white_space(text);
    if trimmed_start(text).len() > 0 {
        lemma_trim_start_of_longer(text, after);
        lemma_trim_end(trimmed_start(text), after);
    } else {
        lemma_all_white_space(text + after);
        assert forall|i: int| 0 <= i < (text + after).len() implies is_white_space(
            #[trigger] (text + after)[i],
        ) by {
            if i < text.len() {
                assert((text + after)[i] == text[i]);
            } else {
                assert((text + after)[i] == after[i - text.len()]);
            }
        }
    }
}

/// The hex form has two digits for each byte: the one for its upper half, then the one for its
/// lower half.
pub proof fn law_hex_has_two_digits_a_byte(bytes: Seq<u8>)
    ensures
        hex_text(bytes).len() == 2 * bytes.len(),
        forall|i: int|
            0 <= i < bytes.len() ==> {
                &&& hex_text(bytes)[2 * i] == "0123456789abcdef"@[(#[trigger] bytes[i]) as int / 16]
                &&& hex_text(bytes)[2 * i + 1] == "0123456789abcdef"@[bytes[i] as int % 16]
            },
{
    reveal_strlit("0123456789abcdef");
    assert forall|i: int| 0 <= i < bytes.len() implies {
        &&& hex_text(bytes)[2 * i] == "0123456789abcdef"@[(#[trigger] bytes[i]) as int / 16]
        &&& hex_text(bytes)[2 * i + 1] == "0123456789abcdef"@[bytes[i] as int % 16]
    } by {
        law_digits_are_the_usual_ones(bytes[i] as int / 16);
        law_digits_are_the_usual_ones(bytes[i] as int % 16);
    }
}

/// A byte is a hexadecimal digit exactly if it is one of the usual ones in either case, and then
/// has its usual value.
pub proof fn law_a_digit_has_its_usual_value(digit: u8, value: u8)
    ensures
        hex_value(digit) == Some(value) <==> value < 16 && ("0123456789abcdef"@[value as int]
            == digit as char || "0123456789ABCDEF"@[value as int] == digit as char),
{
    reveal_strlit("0123456789abcdef");
    reveal_strlit("0123456789ABCDEF");
}

/// Digits are read two by two: the first of a pair counts sixteen times its value, the second
/// once. They are read if each of them is a digit.
pub proof fn law_digits_are_read_in_pairs(digits: Seq<u8>)
    ensures
        all_hex(digits) <==> forall|i: int|
            0 <= i < digits.len() ==> hex_value(#[trigger] digits[i]) is Some,
        hex_bytes(digits).len() == digits.len() / 2,
        forall|i: int|
            0 <= i < digits.len() / 2 && hex_value(digits[2 * i]) is Some && hex_value(
                digits[2 * i + 1],
            ) is Some ==> #[trigger] hex_bytes(digits)[i] == 16 * hex_value(digits[2 * i])->Some_0
                + hex_value(digits[2 * i + 1])->Some_0,
{
    assert forall|i: int|
        0 <= i < digits.len() / 2 && hex_value(digits[2 * i]) is Some && hex_value(
            digits[2 * i + 1],
        ) is Some implies #[trigger] hex_bytes(digits)[i] == 16 * hex_value(digits[2 * i])->Some_0
        + hex_value(digits[2 * i + 1])->Some_0 by {
        law_a_digit_has_its_usual_value(digits[2 * i], hex_value(digits[2 * i])->Some_0);
        law_a_digit_has_its_usual_value(digits[2 * i + 1], hex_value(digits[2 * i + 1])->Some_0);
    }
}

/// Trimming takes white space off both ends, all of it and nothing else.
pub proof fn law_trimming_takes_white_space_off_the_ends(text: Seq<char>)
    ensures
        exists|before: Seq<char>, after: Seq<char>|
            {
                &&& text == #[trigger] (before + trimmed(text) + after)
                &&& forall|i: int| 0 <= i < before.len() ==> is_white_space(#[trigger] before[i])
                &&& forall|i: int| 0 <= i < after.len() ==> is_white_space(#[trigger] after[i])
            },
        trimmed(text).len() > 0 ==> !is_white_space(trimmed(text).first()) && !is_white_space(
            trimmed(text).last(),
        ),
{
    lemma_start_trimmed(text);
    let inner = trimmed_start(text);
    let before = choose|before: Seq<char>|
        {
            &&& text == #[trigger] (before + inner)
            &&& forall|i: int| 0 <= i < before.len() ==> is_white_space(#[trigger] before[i])
        };
    lemma_end_trimmed(inner);
    let after = choose|after: Seq<char>|
        {
            &&& inner == #[trigger] (trimmed_end(inner) + after)
            &&& forall|i: int| 0 <= i < after.len() ==> is_white_space(#[trigger] after[i])
        };
    assert(text =~= before + trimmed(text) + after);
    if trimmed(text).len() > 0 {
        assert(trimmed(text).first() == inner.first());
    }
}

/// What trimming takes off the start.
proof fn lemma_start_trimmed(text: Seq<char>)
    ensures
        exists|before: Seq<char>|
            {
                &&& text == #[trigger] (before + trimmed_start(text))
                &&& forall|i: int| 0 <= i < before.len() ==> is_white_space(#[trigger] before[i])
            },
        trimmed_start(text).len() > 0 ==> !is_white_space(trimmed_start(text).first()),
    decreases text.len(),
{
    if text.len() > 0 && is_white_space(text.first()) {
        let rest = text.drop_first();
        lemma_start_trimmed(rest);
        let before = choose|before: Seq<char>|
            {
                &&& rest == #[trigger] (before + trimmed_start(rest))
                &&& forall|i: int| 0 <= i < before.len() ==> is_white_space(#[trigger] before[i])
            };
        let longer = seq![text.first()] + before;
        let inner = trimmed_start(rest);
        assert(rest == before + inner);
        assert(text =~= seq![text.first()] + rest);
        assert(seq![text.first()] + (before + inner) =~= longer + inner);
        assert(text == longer + trimmed_start(text));
        assert forall|i: int| 0 <= i < longer.len() implies is_white_space(#[trigger] longer[i]) by {
            if i > 0 {
                assert(longer[i] == before[i - 1]);
            }
        }
    } else {
        assert(text =~= Seq::<char>::empty() + trimmed_start(text));
    }
}

/// What trimming takes off the end.
proof fn lemma_end_trimmed(text: Seq<char>)
    ensures
        exists|after: Seq<char>|
            {
                &&& text == #[trigger] (trimmed_end(text) + after)
                &&& forall|i: int| 0 <= i < after.len() ==> is_white_space(#[trigger] after[i])
            },
        trimmed_end(text).len() > 0 ==> !is_white_space(trimmed_end(text).last()),
    decreases text.len(),
{
    if text.len() > 0 && is_white_space(text.last()) {
        let rest = text.drop_last();
        lemma_end_trimmed(rest);
        let after = choose|after: Seq<char>|
            {
                &&& rest == #[trigger] (trimmed_end(rest) + after)
                &&& forall|i: int| 0 <= i < after.len() ==> is_white_space(#[trigger] after[i])
            };
        let longer = after.push(text.last());
        let inner = trimmed_end(rest);
        assert(rest == inner + after);
        assert(text =~= rest.push(text.last()));
        assert((inner + after).push(text.last()) =~= inner + longer);
        assert(text == trimmed_end(text) + longer);
        assert forall|i: int| 0 <= i < longer.len() implies is_white_space(#[trigger] longer[i]) by {
            if i < after.len() {
                assert(longer[i] == after[i]);
            }
        }
    } else {
        assert(text =~= trimmed_end(text) + Seq::<char>::empty());
    }
}

/// White space is what Unicode gives the property `White_Space`: five control characters, the
/// space, the next line, the no-break space, and the separators of other scripts.
pub proof fn law_white_space_is_that_of_unicode(c: char)
    ensures
        is_white_space(c) <==> c == '\u{9}' || c == '\u{a}' || c == '\u{b}' || c == '\u{c}' || c
            == '\u{d}' || c == ' ' || c == '\u{85}' || c == '\u{a0}' || c == '\u{1680}'
            || '\u{2000}' <= c <= '\u{200a}' || c == '\u{2028}' || c == '\u{2029}' || c
            == '\u{202f}' || c == '\u{205f}' || c == '\u{3000}',
{
}

} // verus!
