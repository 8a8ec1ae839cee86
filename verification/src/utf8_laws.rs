//! What holds of lines that are UTF-8 text, or a part of it.

use crate::oniguruma::{announced_len, is_padded, runs_over};
use vstd::prelude::*;
use vstd::utf8::*;

verus! {

/// The first byte of a character of four bytes is below those that would lead
/// behind the last character there is.
proof fn lemma_last_lead(byte1: u8, byte2: u8, byte3: u8, byte4: u8)
    requires
        is_leading_byte_width_4(byte1),
        codepoint_width_4(byte1, byte2, byte3, byte4) <= 0x10ffff,
    ensures
        byte1 < 0xf5,
{
    assert(0xf5 <= byte1 <= 0xf7 ==> codepoint_width_4(byte1, byte2, byte3, byte4) > 0x10ffff)
        by (bit_vector);
}

/// The first byte of a character announces how long the character is.
pub proof fn law_characters_announce_their_length(bytes: Seq<u8>)
    requires
        valid_first_scalar(bytes),
    ensures
        announced_len(bytes[0]) == length_of_first_scalar(bytes),
        forall|i: int|
            0 < i < length_of_first_scalar(bytes) ==> announced_len(#[trigger] bytes[i]) == 1,
{
    if is_leading_byte_width_4(bytes[0]) {
        lemma_last_lead(bytes[0], bytes[1], bytes[2], bytes[3]);
    }
}

/// What is cut off a text after any number of bytes ends within a character exactly
/// if it is no text itself.
pub proof fn law_a_cut_within_a_character_shows(text: Seq<u8>, len: int)
    requires
        valid_utf8(text),
        0 <= len <= text.len(),
    ensures
        runs_over(text.take(len)) <==> !valid_utf8(text.take(len)),
    decreases text.len(),
{
    let line = text.take(len);
    if len > 0 {
        let first = length_of_first_scalar(text);
        law_characters_announce_their_length(text);
        assert(line[0] == text[0]);
        if len < first {
            assert(0 + announced_len(line[0]) > line.len());
        } else {
            let rest = pop_first_scalar(text);
            law_a_cut_within_a_character_shows(rest, len - first);
            let tail = rest.take(len - first);
            assert(pop_first_scalar(line) =~= tail);
            assert(forall|i: int| 0 <= i < first ==> line[i] == #[trigger] text[i]);
            assert(first <= 4);
            assert(valid_first_scalar(line)) by {
                assert(first > 1 ==> line[1] == text[1]);
                assert(first > 2 ==> line[2] == text[2]);
                assert(first > 3 ==> line[3] == text[3]);
            }
            if runs_over(tail) {
                let i = choose|i: int|
                    0 <= i < tail.len() && i + announced_len(#[trigger] tail[i]) > tail.len();
                assert(line[first + i] == tail[i]);
                assert((first + i) + announced_len(line[first + i]) > line.len());
            }
            if runs_over(line) {
                let i = choose|i: int|
                    0 <= i < line.len() && i + announced_len(#[trigger] line[i]) > line.len();
                if i >= first {
                    assert(tail[i - first] == line[i]);
                    assert((i - first) + announced_len(tail[i - first]) > tail.len());
                } else {
                    assert(line[i] == text[i]);
                }
            }
        }
    }
}

/// Every byte that a character of a line may claim is there, in the line or in what
/// is put behind it.
pub proof fn law_no_character_claims_more_than_there_is(buffer: Seq<u8>, len: usize, i: int)
    requires
        is_padded(buffer, len),
        0 <= i < len,
    ensures
        i + announced_len(buffer[i]) <= buffer.len(),
{
    let line = buffer.take(len as int);
    assert(line[i] == buffer[i]);
}

} // verus!
