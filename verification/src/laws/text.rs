//! What holds of numbers, digits and messages as text.

use vstd::prelude::*;

verus! {

use crate::address::{hex_text, wrong_length_message};
use crate::cipher::{bits_text, mismatch_text, short_name, too_small_text};
use crate::progress::{incomplete_message, not_a_map_message, rejected_chunk_message, rejected_map_message, undecrypted_message, unresolved_message};
use crate::source::unencrypted_message;
use crate::text::{begins_with, decimal_text, digit_char};

/// The sixteen digits are those that everybody uses, in their order.
pub proof fn law_digits_are_the_usual_ones(value: int)
    requires
        0 <= value < 16,
    ensures
        digit_char(value) == "0123456789abcdef"@[value],
{
    reveal_strlit("0123456789abcdef");
}

/// A number in decimal reads back as the number: its text is made of the digits from `0` to `9`,
/// starts with `0` only if it is `0`, and stands for the number.
pub proof fn law_a_decimal_text_stands_for_its_number(n: nat)
    ensures
        ({
            let text = decimal_text(n);
            &&& text.len() > 0
            &&& forall|i: int| 0 <= i < text.len() ==> '0' <= #[trigger] text[i] <= '9'
            &&& text[0] == '0' ==> text.len() == 1
            &&& text.fold_left(0int, |value: int, digit: char| 10 * value + (digit as int - 48))
                == n
        }),
    decreases n,
{
    let text = decimal_text(n);
    let read = |value: int, digit: char| 10 * value + (digit as int - 48);
    if n < 10 {
        assert(text.drop_last() =~= Seq::<char>::empty());
        assert(text.drop_last().fold_left(0int, read) == 0);
    } else {
        let rest = decimal_text(n / 10);
        law_a_decimal_text_stands_for_its_number(n / 10);
        assert(text.drop_last() =~= rest);
        assert forall|i: int| 0 <= i < text.len() implies '0' <= #[trigger] text[i] <= '9' by {
            if i < rest.len() {
                assert(text[i] == rest[i]);
            }
        }
        if text[0] == '0' {
            assert(rest[0] == '0');
            assert(rest.drop_last() =~= Seq::<char>::empty());
            assert(rest.drop_last().fold_left(0int, read) == 0);
            assert(rest.last() == '0');
            assert(rest.fold_left(0int, read) == 0);
        }
    }
}

/// What a message begins with is followed by the rest of it, and nothing else begins it.
pub proof fn law_a_message_is_its_beginning_and_the_rest(message: Seq<char>, start: Seq<char>)
    ensures
        begins_with(message, start) <==> exists|rest: Seq<char>| message == #[trigger] (start
            + rest),
{
    if begins_with(message, start) {
        let rest = message.skip(start.len() as int);
        assert(message =~= start + rest);
    }
    if exists|rest: Seq<char>| message == #[trigger] (start + rest) {
        let rest = choose|rest: Seq<char>| message == #[trigger] (start + rest);
        assert(message.take(start.len() as int) =~= start);
    }
}

/// Every message is fixed words around what it reports, in full.
pub proof fn law_messages_report_in_full(text: Seq<char>, address: Seq<u8>, count: nat)
    ensures
        wrong_length_message(count) == "expected 64 hex characters, got "@ + decimal_text(count),
        rejected_map_message(text) == "data map chunk failed verification: "@ + text,
        not_a_map_message(text)
            == "address does not hold a data map (MessagePack decode failed: "@ + text + ")"@,
        rejected_chunk_message(address, text) == "chunk "@ + hex_text(address)
            + " failed verification: "@ + text,
        unresolved_message(text) == "failed to resolve the root data map: "@ + text,
        incomplete_message()
            == "cannot finish: chunks are still missing or the root map is unresolved"@,
        undecrypted_message(text) == "decryption failed: "@ + text,
        unencrypted_message(text) == "self-encryption failed: "@ + text,
        too_small_text()
            == "Generic error(Too small for self-encryption! Required size at least 3)"@,
{
}

/// A mismatch names both addresses, each by its first three bytes in hex and the first of them in
/// binary, most significant digit first.
pub proof fn law_a_mismatch_names_both_addresses(expected: Seq<u8>, got: Seq<u8>)
    ensures
        mismatch_text(expected, got) == "Generic error(Chunk content hash mismatch. Expected: "@
            + short_name(expected) + ", Got: "@ + short_name(got) + ")"@,
        short_name(expected) == hex_text(expected.take(3)) + "("@ + bits_text(expected[0])
            + ").."@,
        bits_text(expected[0]).len() == 8,
        forall|i: int|
            0 <= i < 8 ==> #[trigger] bits_text(expected[0])[i] == '0' || bits_text(expected[0])[i]
                == '1',
        bits_text(expected[0]).fold_left(
            0int,
            |value: int, digit: char| 2 * value + (digit as int - 48),
        ) == expected[0],
{
    let byte = expected[0];
    let bits = bits_text(byte);
    let read = |value: int, digit: char| 2 * value + (digit as int - 48);
    assert(bits.take(0).fold_left(0int, read) == 0);
    assert(bits.take(1).drop_last() =~= bits.take(0));
    assert(bits.take(1).fold_left(0int, read) == byte as int / 128);
    assert(bits.take(2).drop_last() =~= bits.take(1));
    assert(bits.take(2).fold_left(0int, read) == byte as int / 64);
    assert(bits.take(3).drop_last() =~= bits.take(2));
    assert(bits.take(3).fold_left(0int, read) == byte as int / 32);
    assert(bits.take(4).drop_last() =~= bits.take(3));
    assert(bits.take(4).fold_left(0int, read) == byte as int / 16);
    assert(bits.take(5).drop_last() =~= bits.take(4));
    assert(bits.take(5).fold_left(0int, read) == byte as int / 8);
    assert(bits.take(6).drop_last() =~= bits.take(5));
    assert(bits.take(6).fold_left(0int, read) == byte as int / 4);
    assert(bits.take(7).drop_last() =~= bits.take(6));
    assert(bits.take(7).fold_left(0int, read) == byte as int / 2);
    assert(bits.take(8).drop_last() =~= bits.take(7));
    assert(bits.take(8).fold_left(0int, read) == byte as int / 1);
    assert(bits.take(8) =~= bits);
}

} // verus!
