//! Percent-encoding: writing bytes through an encode set, writing one byte
//! as `%XX`, and decoding `%XX` escapes back into bytes.
use vstd::prelude::*;
use vstd::string::StringSliceAdditionalSpecFns;

use crate::hex::{from_hex, hex_digit_value, is_hex_digit, to_hex_upper, upper_hex_digit};
use crate::text::push_char;
use vstd::utf8::{encode_utf8, is_ascii_chars, is_ascii_chars_encode_utf8};

verus! {

/// The byte `%`.
pub const PERCENT: u8 = 0x25;

/// The text that `percent_encode` writes for `input`: the entry of the
/// encode set for each byte, one after the other.
pub open spec fn percent_encoded(input: Seq<u8>, encode_set: Seq<Seq<char>>) -> Seq<char>
    decreases input.len(),
{
    if input.len() == 0 {
        Seq::empty()
    } else {
        percent_encoded(input.drop_last(), encode_set) + encode_set[input.last() as int]
    }
}

/// The views of the entries of an encode set.
pub open spec fn encode_set_view(encode_set: Seq<&str>) -> Seq<Seq<char>> {
    encode_set.map_values(|e: &str| e@)
}

/// The three bytes `%XY` that escape `byte`, with upper-case digits.
pub open spec fn percent_escape(byte: u8) -> Seq<u8> {
    seq![PERCENT, upper_hex_digit(byte / 16), upper_hex_digit(byte % 16)]
}

/// The characters of ASCII bytes.
pub open spec fn ascii_chars(b: Seq<u8>) -> Seq<char> {
    b.map_values(|x: u8| x as char)
}

/// The bytes of characters, each taken as one byte (meaningful for ASCII text).
pub open spec fn char_bytes(t: Seq<char>) -> Seq<u8> {
    t.map_values(|c: char| c as u8)
}

/// The bytes that `percent_decode` gives for `input`: each `%` followed by
/// two hexadecimal digits becomes the byte they write; every other byte
/// stays as it is.
pub open spec fn percent_decoded(input: Seq<u8>) -> Seq<u8>
    decreases input.len(),
{
    if input.len() == 0 {
        Seq::empty()
    } else if input[0] == PERCENT && input.len() >= 3 && is_hex_digit(input[1]) && is_hex_digit(
        input[2],
    ) {
        seq![(hex_digit_value(input[1]) * 16 + hex_digit_value(input[2])) as u8] + percent_decoded(
            input.skip(3),
        )
    } else {
        seq![input[0]] + percent_decoded(input.skip(1))
    }
}

/// Writes the UTF-8 bytes of `input` through `encode_set`, appending to
/// `output`. Every byte must index the encode set.
pub fn utf8_percent_encode(input: &str, encode_set: &[&str], output: &mut String)
    requires
        forall|k: int|
            0 <= k < input.spec_bytes().len() ==> (#[trigger] input.spec_bytes()[k]) < encode_set@.len(),
    ensures
        final(output)@ == old(output)@ + percent_encoded(
            input.spec_bytes(),
            encode_set_view(encode_set@),
        ),
{
    percent_encode(input.as_bytes(), encode_set, output)
}

/// Writes `input` through `encode_set`: each byte becomes the encode set's
/// entry at that byte, appended to `output`. Every byte must index the
/// encode set.
pub fn percent_encode(input: &[u8], encode_set: &[&str], output: &mut String)
    requires
        forall|k: int| 0 <= k < input@.len() ==> (#[trigger] input@[k]) < encode_set@.len(),
    ensures
        final(output)@ == old(output)@ + percent_encoded(input@, encode_set_view(encode_set@)),
{
    let ghost start = output@;
    let ghost set = encode_set_view(encode_set@);
    let mut i: usize = 0;
    while i < input.len()
        invariant
            0 <= i <= input@.len(),
            set == encode_set_view(encode_set@),
            forall|k: int| 0 <= k < input@.len() ==> (#[trigger] input@[k]) < encode_set@.len(),
            output@ == start + percent_encoded(input@.take(i as int), set),
        decreases input@.len() - i,
    {
        let byte = input[i];
        output.append(encode_set[byte as usize]);
        proof {
            let t = input@.take(i + 1);
            assert(t.drop_last() =~= input@.take(i as int));
            assert(t.last() == byte);
            assert(set[byte as int] == encode_set@[byte as int]@);
        }
        i += 1;
    }
    proof {
        assert(input@.take(input@.len() as int) =~= input@);
    }
}

/// Appends `%XY` for `byte`, with upper-case hexadecimal digits.
pub fn percent_encode_byte(byte: u8, output: &mut String)
    ensures
        final(output)@ == old(output)@ + ascii_chars(percent_escape(byte)),
{
    let ghost start = output@;
    proof {
        assert(byte >> 4 == byte / 16) by (bit_vector);
        assert(byte & 0x0F == byte % 16) by (bit_vector);
    }
    push_char(output, '%');
    push_char(output, to_hex_upper(byte >> 4) as char);
    push_char(output, to_hex_upper(byte & 0x0F) as char);
    proof {
        assert(output@ =~= start + ascii_chars(percent_escape(byte)));
    }
}

/// Decodes `%XY` escapes in `input`; see `percent_decoded`.
pub fn percent_decode(input: &[u8]) -> (r: Vec<u8>)
    ensures
        r@ == percent_decoded(input@),
{
    let mut output: Vec<u8> = Vec::new();
    let mut i: usize = 0;
    proof {
        assert(input@.skip(0) =~= input@);
        assert(output@ + input@ =~= input@);
    }
    while i < input.len()
        invariant
            0 <= i <= input@.len(),
            percent_decoded(input@) == output@ + percent_decoded(input@.skip(i as int)),
        decreases input@.len() - i,
    {
        let c = input[i];
        let ghost rest = input@.skip(i as int);
        if c == PERCENT && input.len() - i > 2 {
            match (from_hex(input[i + 1]), from_hex(input[i + 2])) {
                (Some(h), Some(l)) => {
                    output.push(h * 0x10 + l);
                    proof {
                        assert(rest[0] == c && rest[1] == input@[i + 1] && rest[2] == input@[i + 2]);
                        assert(rest.skip(3) =~= input@.skip(i + 3));
                        assert(output@ =~= output@.drop_last() + seq![output@.last()]);
                    }
                    i += 3;
                    continue ;
                },
                _ => {},
            }
        }
        output.push(c);
        proof {
            assert(rest[0] == c);
            assert(rest.skip(1) =~= input@.skip(i + 1));
            assert(!(rest[0] == PERCENT && rest.len() >= 3 && is_hex_digit(rest[1])
                && is_hex_digit(rest[2]))) by {
                if rest[0] == PERCENT && rest.len() >= 3 {
                    assert(rest[1] == input@[i + 1] && rest[2] == input@[i + 2]);
                }
            }
        }
        i += 1;
    }
    proof {
        assert(input@.skip(input@.len() as int) =~= Seq::<u8>::empty());
        assert(output@ + Seq::<u8>::empty() =~= output@);
    }
    output
}

// ---------------------------------------------------------------------------
// Decoding what was encoded

/// An encode set whose every entry either keeps its byte as it is (an ASCII
/// byte other than `%`) or escapes it as `%XY`.
pub open spec fn is_reversible_encode_set(set: Seq<Seq<char>>) -> bool {
    &&& set.len() >= 256
    &&& forall|v: int|
        0 <= v < 256 ==> (v != PERCENT && v < 0x80 && #[trigger] set[v] == seq![(v as u8) as char])
            || set[v] == ascii_chars(percent_escape(v as u8))
}

/// `percent_encoded`, taken from the front.
proof fn lemma_percent_encoded_front(x: Seq<u8>, set: Seq<Seq<char>>)
    requires
        x.len() >= 1,
    ensures
        percent_encoded(x, set) == set[x[0] as int] + percent_encoded(x.skip(1), set),
    decreases x.len(),
{
    if x.len() == 1 {
        assert(x.drop_last() =~= Seq::<u8>::empty());
        assert(x.skip(1) =~= Seq::<u8>::empty());
        assert(x.last() == x[0]);
        assert(percent_encoded(x.drop_last(), set) == Seq::<char>::empty());
        assert(percent_encoded(x.skip(1), set) == Seq::<char>::empty());
        assert(percent_encoded(x, set) =~= set[x[0] as int] + percent_encoded(x.skip(1), set));
    } else {
        lemma_percent_encoded_front(x.drop_last(), set);
        assert(x.drop_last().skip(1) =~= x.skip(1).drop_last());
        assert(x.skip(1).last() == x.last());
        assert(percent_encoded(x, set) =~= set[x[0] as int] + percent_encoded(x.skip(1), set));
    }
}

/// Decoding the escape of a byte gives the byte.
pub proof fn percent_escape_round_trip(byte: u8)
    ensures
        percent_decoded(percent_escape(byte)) == seq![byte],
        percent_decoded(char_bytes(ascii_chars(percent_escape(byte)))) == seq![byte],
{
    let e = percent_escape(byte);
    let hi = upper_hex_digit(byte / 16);
    let lo = upper_hex_digit(byte % 16);
    assert(is_hex_digit(hi) && hex_digit_value(hi) == byte / 16);
    assert(is_hex_digit(lo) && hex_digit_value(lo) == byte % 16);
    assert(e.skip(3) =~= Seq::<u8>::empty());
    assert(percent_decoded(e.skip(3)) == Seq::<u8>::empty());
    assert(e[0] == PERCENT && e[1] == hi && e[2] == lo && e.len() == 3);
    assert((byte / 16) * 16 + byte % 16 == byte);
    assert(((hex_digit_value(hi) * 16 + hex_digit_value(lo)) as u8) == byte);
    assert(percent_decoded(e) =~= seq![byte]);
    assert(char_bytes(ascii_chars(e)) =~= e);
}

/// Decoding what a reversible encode set wrote gives back the bytes.
pub proof fn percent_encode_decode_round_trip(x: Seq<u8>, set: Seq<Seq<char>>)
    requires
        is_reversible_encode_set(set),
    ensures
        is_ascii_chars(percent_encoded(x, set)),
        percent_decoded(encode_utf8(percent_encoded(x, set))) == x,
    decreases x.len(),
{
    let text = percent_encoded(x, set);
    if x.len() == 0 {
        assert(encode_utf8(text) =~= Seq::<u8>::empty());
        assert(percent_decoded(Seq::<u8>::empty()) =~= x);
    } else {
        let v = x[0];
        lemma_percent_encoded_front(x, set);
        percent_encode_decode_round_trip(x.skip(1), set);
        let rest = percent_encoded(x.skip(1), set);
        let entry = set[v as int];
        assert(text =~= entry + rest);
        lemma_ascii_chars_encode(rest);
        if v != PERCENT && v < 0x80 && entry == seq![(v as u8) as char] {
            assert(is_ascii_chars(text)) by {
                assert forall|i: int| 0 <= i < text.len() implies '\0' <= #[trigger] text[i] <= '\u{7f}' by {
                    if i >= 1 {
                        assert(text[i] == rest[i - 1]);
                    }
                }
            }
            lemma_ascii_chars_encode(text);
            let t = char_bytes(text);
            assert(t =~= seq![v] + char_bytes(rest));
            assert(t.skip(1) =~= char_bytes(rest));
            assert(percent_decoded(t) =~= seq![v] + x.skip(1));
        } else {
            assert(entry == ascii_chars(percent_escape(v)));
            percent_escape_round_trip(v);
            let hi = upper_hex_digit(v / 16);
            let lo = upper_hex_digit(v % 16);
            assert(is_ascii_chars(text)) by {
                assert forall|i: int| 0 <= i < text.len() implies '\0' <= #[trigger] text[i] <= '\u{7f}' by {
                    if i >= 3 {
                        assert(text[i] == rest[i - 3]);
                    }
                }
            }
            lemma_ascii_chars_encode(text);
            let t = char_bytes(text);
            assert(t =~= seq![PERCENT, hi, lo] + char_bytes(rest));
            assert(t.skip(3) =~= char_bytes(rest));
            assert(is_hex_digit(hi) && hex_digit_value(hi) == v / 16);
            assert(is_hex_digit(lo) && hex_digit_value(lo) == v % 16);
            assert(percent_decoded(t) =~= seq![v] + x.skip(1));
        }
        assert(seq![v] + x.skip(1) =~= x);
    }
}

/// An ASCII text is encoded in UTF-8 as its characters, one byte each.
pub proof fn lemma_ascii_chars_encode(t: Seq<char>)
    requires
        is_ascii_chars(t),
    ensures
        encode_utf8(t) == char_bytes(t),
{
    is_ascii_chars_encode_utf8(t);
    assert(encode_utf8(t) =~= char_bytes(t));
}

/// Bytes without `%` decode to themselves.
pub proof fn lemma_percent_decoded_plain(b: Seq<u8>)
    requires
        forall|k: int| 0 <= k < b.len() ==> #[trigger] b[k] != PERCENT,
    ensures
        percent_decoded(b) == b,
    decreases b.len(),
{
    if b.len() > 0 {
        lemma_percent_decoded_plain(b.skip(1));
        assert(seq![b[0]] + b.skip(1) =~= b);
    }
}

} // verus!
