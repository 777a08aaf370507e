//! Reading back what `Ipv6Address::serialize` writes.
use vstd::prelude::*;
use vstd::utf8::{encode_utf8, is_ascii_chars};

use crate::hex::{hex_digit_value, is_hex_digit, upper_hex, upper_hex_digit};
use crate::ipv6::{
    first_longest_zero_run, ipv6_text, longest_zero_run, piece_text, pieces_text, zero_run,
};
use crate::ipv6_grammar::{
    all_hex, double_colon_at, expand_compressed, first_double_colon, groups, hex_number,
    ipv6_pieces, is_h16, lemma_append_group, lemma_first_double_colon,
    lemma_first_double_colon_found, lemma_groups_ends, lemma_groups_no_double_colon,
    lemma_single_group, segment_groups, COLON,
};
use crate::percent::{char_bytes, lemma_ascii_chars_encode};

verus! {

/// The numeral of a 16-bit value is one group that reads back as the value.
pub proof fn lemma_upper_hex_group(v: nat)
    requires
        v < 0x10000,
    ensures
        is_h16(char_bytes(upper_hex(v))),
        hex_number(char_bytes(upper_hex(v))) == v,
        is_ascii_chars(upper_hex(v)),
        v < 0x10 ==> upper_hex(v).len() == 1,
        v < 0x100 ==> upper_hex(v).len() <= 2,
        v < 0x1000 ==> upper_hex(v).len() <= 3,
    decreases v,
{
    let t = char_bytes(upper_hex(v));
    if v < 16 {
        let d = upper_hex_digit(v as u8);
        assert(t =~= seq![d]);
        assert(is_hex_digit(d) && hex_digit_value(d) == v);
        assert(t.drop_last() =~= Seq::<u8>::empty());
        assert(t.last() == d);
        assert(hex_number(t) == hex_number(t.drop_last()) * 16 + hex_digit_value(d) as nat);
        assert(hex_number(Seq::<u8>::empty()) == 0);
    } else {
        lemma_upper_hex_group(v / 16);
        let u = upper_hex(v / 16);
        let d = upper_hex_digit((v % 16) as u8);
        assert(is_hex_digit(d) && hex_digit_value(d) == v % 16);
        assert(t =~= char_bytes(u).push(d));
        assert(t.drop_last() =~= char_bytes(u));
        assert(t.last() == d);
        assert(hex_number(t) == hex_number(char_bytes(u)) * 16 + hex_digit_value(d) as nat);
        assert((v / 16) * 16 + v % 16 == v);
        assert(all_hex(t)) by {
            assert forall|k: int| 0 <= k < t.len() implies is_hex_digit(#[trigger] t[k]) by {
                if k < t.len() - 1 {
                    assert(t[k] == char_bytes(u)[k]);
                }
            }
        }
    }
}

/// The text of pieces `lo` up to `hi`: a list of groups, followed by a colon
/// unless it reaches the last piece.
pub proof fn lemma_pieces_text_groups(p: Seq<u16>, lo: int, hi: int)
    requires
        p.len() == 8,
        0 <= lo < hi <= 8,
    ensures
        is_ascii_chars(pieces_text(p, lo, hi)),
        ({
            let t = char_bytes(pieces_text(p, lo, hi));
            if hi < 8 {
                t.len() >= 2 && t.last() == COLON && groups(t.drop_last()) == Some(
                    p.subrange(lo, hi),
                )
            } else {
                groups(t) == Some(p.subrange(lo, 8))
            }
        }),
    decreases hi - lo,
{
    let k = hi - 1;
    lemma_upper_hex_group(p[k] as nat);
    let g = char_bytes(upper_hex(p[k] as nat));
    assert(hex_number(g) as u16 == p[k]);
    let tail = char_bytes(piece_text(p, k));
    if hi < 8 {
        assert(tail =~= g + seq![COLON]);
    } else {
        assert(tail =~= g);
    }
    if k == lo {
        assert(pieces_text(p, lo, k) =~= Seq::<char>::empty());
        assert(pieces_text(p, lo, hi) =~= piece_text(p, k));
        lemma_single_group(g);
        assert(p.subrange(lo, hi) =~= seq![p[k]]);
        if hi < 8 {
            assert(tail.drop_last() =~= g);
        }
    } else {
        lemma_pieces_text_groups(p, lo, k);
        let t0 = char_bytes(pieces_text(p, lo, k));
        let t = char_bytes(pieces_text(p, lo, hi));
        assert(t =~= t0 + tail);
        assert(t0 =~= t0.drop_last() + seq![COLON]);
        lemma_append_group(t0.drop_last(), g);
        assert(p.subrange(lo, hi) =~= p.subrange(lo, k).push(p[k]));
        if hi < 8 {
            assert(t.drop_last() =~= t0.drop_last() + seq![COLON] + g);
        } else {
            assert(t =~= t0.drop_last() + seq![COLON] + g);
        }
    }
}

/// The run that serialisation compresses is a run of zero pieces, where
/// there is one.
proof fn lemma_longest_zero_run_facts(p: Seq<u16>)
    ensures
        longest_zero_run(p).0 < 0 ==> longest_zero_run(p) == (-1int, -2int),
        longest_zero_run(p).0 >= 0 ==> zero_run(p, longest_zero_run(p).0, longest_zero_run(p).1),
{
    if exists|a: int, b: int| first_longest_zero_run(p, a, b) {
        let c = choose|a: int, b: int| first_longest_zero_run(p, a, b);
        assert(first_longest_zero_run(p, c.0, c.1));
    }
}

/// The addresses that come back unchanged from their text: all but those
/// whose compressed run is a single zero piece with pieces after it (there
/// the reader's shifting step clears the pieces after `::`).
pub open spec fn ipv6_text_reads_back(p: Seq<u16>) -> bool {
    let (cs, ce) = longest_zero_run(p);
    !(ce - cs == 1 && ce < 8)
}

/// The text of an address written without `::` reads back as the address.
proof fn lemma_round_trip_plain(p: Seq<u16>)
    requires
        p.len() == 8,
    ensures
        is_ascii_chars(pieces_text(p, 0, 8)),
        pieces_text(p, 0, 8).len() >= 2,
        ({
            let t = encode_utf8(pieces_text(p, 0, 8));
            first_double_colon(t) is None && groups(t) == Some(p)
        }),
{
    let text = pieces_text(p, 0, 8);
    lemma_pieces_text_groups(p, 0, 8);
    let t = char_bytes(text);
    assert(p.subrange(0, 8) =~= p);
    lemma_groups_ends(t);
    assert forall|q: int| !#[trigger] double_colon_at(t, q) by {
        if double_colon_at(t, q) {
            lemma_groups_no_double_colon(t, q);
        }
    }
    lemma_first_double_colon(t);
    lemma_ascii_chars_encode(text);
    lemma_pieces_text_groups(p, 0, 7);
    assert(text =~= pieces_text(p, 0, 7) + piece_text(p, 7));
}

/// The text `l` `::` `r` of an address whose run `[cs, ce)` is compressed.
proof fn lemma_round_trip_compressed(p: Seq<u16>, cs: int, ce: int)
    requires
        p.len() == 8,
        zero_run(p, cs, ce),
        !(ce - cs == 1 && ce < 8),
    ensures
        ({
            let text = pieces_text(p, 0, cs) + seq![':'] + (if cs == 0 {
                seq![':']
            } else {
                Seq::empty()
            }) + (if ce < 8 {
                pieces_text(p, ce, 8)
            } else {
                Seq::empty()
            });
            &&& is_ascii_chars(text)
            &&& text.len() >= 2
            &&& ipv6_pieces(encode_utf8(text)) == Some(p)
        }),
{
    let text = pieces_text(p, 0, cs) + seq![':'] + (if cs == 0 {
        seq![':']
    } else {
        Seq::empty()
    }) + (if ce < 8 {
        pieces_text(p, ce, 8)
    } else {
        Seq::empty()
    });
    assert(zero_run(p, cs, ce));
    // The text is `l` `::` `r`.
    let l_chars = if cs > 0 {
        pieces_text(p, 0, cs).drop_last()
    } else {
        Seq::<char>::empty()
    };
    let r_chars = if ce < 8 {
        pieces_text(p, ce, 8)
    } else {
        Seq::<char>::empty()
    };
    if cs > 0 {
        lemma_pieces_text_groups(p, 0, cs);
        assert(pieces_text(p, 0, cs) =~= l_chars + seq![':']);
        assert(char_bytes(l_chars) =~= char_bytes(pieces_text(p, 0, cs)).drop_last());
    } else {
        assert(pieces_text(p, 0, 0) =~= Seq::<char>::empty());
    }
    if ce < 8 {
        lemma_pieces_text_groups(p, ce, 8);
    }
    assert(text =~= l_chars + seq![':', ':'] + r_chars);
    assert(is_ascii_chars(l_chars)) by {
        if cs > 0 {
            assert forall|i: int| 0 <= i < l_chars.len() implies '\0' <= #[trigger] l_chars[i]
                <= '\u{7f}' by {
                assert(l_chars[i] == pieces_text(p, 0, cs)[i]);
            }
        }
    }
    assert(is_ascii_chars(text)) by {
        assert forall|i: int| 0 <= i < text.len() implies '\0' <= #[trigger] text[i]
            <= '\u{7f}' by {
            if i < l_chars.len() {
                assert(text[i] == l_chars[i]);
            } else if i >= l_chars.len() + 2 {
                assert(text[i] == r_chars[i - l_chars.len() - 2]);
            }
        }
    }
    lemma_ascii_chars_encode(text);
    let t = char_bytes(text);
    let l = char_bytes(l_chars);
    let r = char_bytes(r_chars);
    let n = l.len() as int;
    assert(t =~= l + seq![COLON, COLON] + r);
    // `::` first stands right after `l`.
    assert(double_colon_at(t, n));
    assert forall|q: int| q < n implies !#[trigger] double_colon_at(t, q) by {
        if double_colon_at(t, q) {
            lemma_groups_ends(l);
            if q + 1 < n {
                assert(l[q] == t[q] && l[q + 1] == t[q + 1]);
                lemma_groups_no_double_colon(l, q);
            } else {
                assert(t[q] == l.last());
            }
        }
    }
    lemma_first_double_colon_found(t, n);
    assert(t.take(n) =~= l);
    assert(t.skip(n + 2) =~= r);
    let a = p.subrange(0, cs);
    let b = p.subrange(ce, 8);
    if cs == 0 {
        assert(a =~= Seq::<u16>::empty());
    }
    if ce == 8 {
        assert(b =~= Seq::<u16>::empty());
        assert(r =~= Seq::<u8>::empty());
    }
    assert(segment_groups(l) == Some(a));
    assert(segment_groups(r) == Some(b));
    if a.len() + b.len() == 7 {
        assert(expand_compressed(a, b) =~= p);
    } else {
        assert(expand_compressed(a, b) =~= p);
    }
}

/// Reading the text of an address gives the address back, for every address
/// that `ipv6_text_reads_back` admits; and that text is long enough for the
/// reader to take it.
pub proof fn ipv6_serialize_parse_round_trip(p: Seq<u16>)
    requires
        p.len() == 8,
        ipv6_text_reads_back(p),
    ensures
        is_ascii_chars(ipv6_text(p)),
        ipv6_text(p).len() >= 2,
        ipv6_pieces(encode_utf8(ipv6_text(p))) == Some(p),
{
    let (cs, ce) = longest_zero_run(p);
    lemma_longest_zero_run_facts(p);
    if cs < 0 {
        lemma_round_trip_plain(p);
    } else {
        lemma_round_trip_compressed(p, cs, ce);
    }
}

} // verus!
