//! Hosts: a domain name or a bracketed IPv6 address.
use vstd::prelude::*;
use vstd::string::StringSliceAdditionalSpecFns;

use crate::ipv6::{ipv6_text, Ipv6Address};
use crate::ipv6_grammar::{ipv6_pieces, COLON};
use crate::ipv6_round_trip::{ipv6_serialize_parse_round_trip, ipv6_text_reads_back};
use crate::percent::{
    char_bytes, lemma_ascii_chars_encode, lemma_percent_decoded_plain, percent_decode,
    percent_decoded, PERCENT,
};
use vstd::utf8::{encode_utf8, is_ascii_chars};
use crate::text::push_char;
use crate::ParseResult;

verus! {

/// The byte `[`.
pub const LEFT_BRACKET: u8 = 0x5b;

/// The byte `]`.
pub const RIGHT_BRACKET: u8 = 0x5d;

/// The host of a URL.
#[derive(Clone, PartialEq, Eq, Debug)]
pub enum Host {
    Domain(String),
    Ipv6(Ipv6Address),
}

/// What a host is: a domain's text, or an address's eight pieces.
pub enum HostView {
    Domain(Seq<char>),
    Ipv6(Seq<u16>),
}

impl View for Host {
    type V = HostView;

    open spec fn view(&self) -> HostView {
        match self {
            Host::Domain(d) => HostView::Domain(d@),
            Host::Ipv6(a) => HostView::Ipv6(a.pieces@),
        }
    }
}

/// Bytes that a domain may not hold: NUL, tab, line feed, carriage return,
/// space, `#`, `%`, `/`, `:`, `?`, `@`, `[`, `\` and `]`.
pub open spec fn is_forbidden_host_byte(b: u8) -> bool {
    b == 0x00 || b == 0x09 || b == 0x0a || b == 0x0d || b == 0x20 || b == 0x23 || b == 0x25 || b
        == 0x2f || b == 0x3a || b == 0x3f || b == 0x40 || b == 0x5b || b == 0x5c || b == 0x5d
}

/// Every byte is ASCII.
pub open spec fn all_ascii(b: Seq<u8>) -> bool {
    forall|k: int| 0 <= k < b.len() ==> #[trigger] b[k] < 0x80
}

/// Some byte is one that a domain may not hold.
pub open spec fn has_forbidden_host_byte(b: Seq<u8>) -> bool {
    exists|k: int| 0 <= k < b.len() && is_forbidden_host_byte(#[trigger] b[k])
}

/// `b` with `A-Z` turned into `a-z`.
pub open spec fn ascii_lower(b: u8) -> u8 {
    if 0x41 <= b <= 0x5a {
        (b + 32) as u8
    } else {
        b
    }
}

/// The text of ASCII bytes, in lower case.
pub open spec fn lowercase_text(b: Seq<u8>) -> Seq<char> {
    b.map_values(|x: u8| ascii_lower(x) as char)
}

/// The bytes between the brackets of `[...]`.
pub open spec fn bracket_inner(b: Seq<u8>) -> Seq<u8> {
    b.subrange(1, b.len() - 1)
}

/// `b` is bracketed: it starts with `[` and ends with `]`.
pub open spec fn is_bracketed(b: Seq<u8>) -> bool {
    b.len() >= 1 && b[0] == LEFT_BRACKET && b.last() == RIGHT_BRACKET
}

/// The inputs on which `Host::parse` returns: all but `[]` and `[:]`, whose
/// address text is too short for the address reader.
pub open spec fn host_parse_defined(b: Seq<u8>) -> bool {
    is_bracketed(b) ==> {
        let inner = bracket_inner(b);
        inner.len() >= 1 && (inner[0] == COLON ==> inner.len() >= 2)
    }
}

/// What parsing the host text `b` gives: the host, or the message saying
/// why it was refused.
pub open spec fn parsed_host(b: Seq<u8>) -> Result<HostView, Seq<char>> {
    if b.len() == 0 {
        Err("Empty host"@)
    } else if b[0] == LEFT_BRACKET {
        if b.last() == RIGHT_BRACKET {
            match ipv6_pieces(bracket_inner(b)) {
                Some(p) => Ok(HostView::Ipv6(p)),
                None => Err("Invalid IPv6 address"@),
            }
        } else {
            Err("Invalid Ipv6 address"@)
        }
    } else {
        let d = percent_decoded(b);
        if !all_ascii(d) {
            Err("Non-ASCII domains (IDNA) are not supported yet."@)
        } else if has_forbidden_host_byte(d) {
            Err("Invalid domain character."@)
        } else {
            Ok(HostView::Domain(lowercase_text(d)))
        }
    }
}

/// The text of a host: the domain as it is, or the address in brackets.
pub open spec fn host_text(h: HostView) -> Seq<char> {
    match h {
        HostView::Domain(d) => d,
        HostView::Ipv6(p) => seq!['['] + ipv6_text(p) + seq![']'],
    }
}

impl Host {
    /// Parses a host: `[...]` as an IPv6 address, anything else as a domain
    /// after percent-decoding it, which must then be ASCII without the bytes
    /// that `is_forbidden_host_byte` names, and comes out in lower case.
    pub fn parse(input: &str) -> (r: ParseResult<Host>)
        requires
            host_parse_defined(input.spec_bytes()),
        ensures
            match r {
                Ok(h) => parsed_host(input.spec_bytes()) == Ok::<HostView, Seq<char>>(h@),
                Err(e) => parsed_host(input.spec_bytes()) == Err::<HostView, Seq<char>>(e@),
            },
    {
        let bytes = input.as_bytes();
        let len = bytes.len();
        if len == 0 {
            Err("Empty host")
        } else if bytes[0] == LEFT_BRACKET {
            if bytes[len - 1] == RIGHT_BRACKET {
                match Ipv6Address::parse_bytes(&bytes[1..len - 1]) {
                    Ok(address) => Ok(Host::Ipv6(address)),
                    Err(e) => Err(e),
                }
            } else {
                Err("Invalid Ipv6 address")
            }
        } else {
            let decoded = percent_decode(bytes);
            // Read as UTF-8 (with invalid sequences replaced), these bytes make
            // an ASCII text exactly when every byte is ASCII, and that text is
            // then the bytes themselves: the checks below work on the bytes.
            let mut k: usize = 0;
            while k < decoded.len()
                invariant
                    0 <= k <= decoded@.len(),
                    decoded@ == percent_decoded(input.spec_bytes()),
                    input.spec_bytes().len() > 0,
                    input.spec_bytes()[0] != LEFT_BRACKET,
                    forall|q: int| 0 <= q < k ==> #[trigger] decoded@[q] < 0x80,
                decreases decoded@.len() - k,
            {
                if decoded[k] >= 0x80 {
                    proof {
                        assert(!(decoded@[k as int] < 0x80));
                    }
                    return Err("Non-ASCII domains (IDNA) are not supported yet.");
                }
                k += 1;
            }
            let mut k: usize = 0;
            while k < decoded.len()
                invariant
                    0 <= k <= decoded@.len(),
                    decoded@ == percent_decoded(input.spec_bytes()),
                    input.spec_bytes().len() > 0,
                    input.spec_bytes()[0] != LEFT_BRACKET,
                    all_ascii(decoded@),
                    forall|q: int| 0 <= q < k ==> !is_forbidden_host_byte(#[trigger] decoded@[q]),
                decreases decoded@.len() - k,
            {
                let c = decoded[k];
                if c == 0x00 || c == 0x09 || c == 0x0a || c == 0x0d || c == 0x20 || c == 0x23 || c
                    == 0x25 || c == 0x2f || c == 0x3a || c == 0x3f || c == 0x40 || c == 0x5b || c
                    == 0x5c || c == 0x5d {
                    proof {
                        assert(is_forbidden_host_byte(decoded@[k as int]));
                    }
                    return Err("Invalid domain character.");
                }
                k += 1;
            }
            let mut domain = String::new();
            let mut k: usize = 0;
            while k < decoded.len()
                invariant
                    0 <= k <= decoded@.len(),
                    decoded@ == percent_decoded(input.spec_bytes()),
                    input.spec_bytes().len() > 0,
                    input.spec_bytes()[0] != LEFT_BRACKET,
                    all_ascii(decoded@),
                    !has_forbidden_host_byte(decoded@),
                    domain@ == lowercase_text(decoded@.take(k as int)),
                decreases decoded@.len() - k,
            {
                let c = decoded[k];
                let lower = if 0x41 <= c && c <= 0x5a {
                    c + 32
                } else {
                    c
                };
                push_char(&mut domain, lower as char);
                proof {
                    assert(decoded@.take(k + 1) =~= decoded@.take(k as int).push(c));
                    assert(lowercase_text(decoded@.take(k + 1)) =~= lowercase_text(
                        decoded@.take(k as int),
                    ).push(ascii_lower(c) as char));
                }
                k += 1;
            }
            proof {
                assert(decoded@.take(decoded@.len() as int) =~= decoded@);
            }
            Ok(Host::Domain(domain))
        }
    }

    /// The text of the host: the domain as it is, or the address in brackets.
    pub fn serialize(&self) -> (r: String)
        ensures
            r@ == host_text(self@),
            self matches Host::Domain(d) ==> r@ == d@,
    {
        match self {
            Host::Domain(domain) => domain.clone(),
            Host::Ipv6(address) => {
                let mut result = String::new();
                push_char(&mut result, '[');
                let text = address.serialize();
                result.append(text.as_str());
                push_char(&mut result, ']');
                proof {
                    assert(result@ =~= seq!['['] + ipv6_text(address.pieces@) + seq![']']);
                }
                result
            },
        }
    }
}

// ---------------------------------------------------------------------------
// Parsing the text of a parsed host

/// Every text that `ipv6_pieces` accepts gives eight pieces.
pub proof fn lemma_ipv6_pieces_len(s: Seq<u8>)
    requires
        ipv6_pieces(s) is Some,
    ensures
        ipv6_pieces(s).unwrap().len() == 8,
{
}

/// Decoding gives at least one byte for a non-empty input.
pub proof fn lemma_percent_decoded_nonempty(b: Seq<u8>)
    requires
        b.len() > 0,
    ensures
        percent_decoded(b).len() > 0,
{
}

/// The hosts that come back unchanged from their text: every domain, and
/// the addresses that `ipv6_text_reads_back` admits.
pub open spec fn host_text_reads_back(h: HostView) -> bool {
    match h {
        HostView::Domain(_) => true,
        HostView::Ipv6(p) => ipv6_text_reads_back(p),
    }
}

/// Parsing the text of a host that parsing gave yields that host again (for
/// the hosts that `host_text_reads_back` admits); and `Host::parse` takes
/// that text.
pub proof fn host_parse_serialize_round_trip(b: Seq<u8>, h: HostView)
    requires
        parsed_host(b) == Ok::<HostView, Seq<char>>(h),
        host_text_reads_back(h),
    ensures
        host_parse_defined(encode_utf8(host_text(h))),
        parsed_host(encode_utf8(host_text(h))) == Ok::<HostView, Seq<char>>(h),
{
    match h {
        HostView::Domain(dt) => {
            let d = percent_decoded(b);
            lemma_percent_decoded_nonempty(b);
            let e = d.map_values(|x: u8| ascii_lower(x));
            assert(is_ascii_chars(dt)) by {
                assert forall|i: int| 0 <= i < dt.len() implies '\0' <= #[trigger] dt[i] <= '\u{7f}' by {
                    assert(d[i] < 0x80);
                }
            }
            lemma_ascii_chars_encode(dt);
            assert(char_bytes(dt) =~= e);
            assert forall|k: int| 0 <= k < e.len() implies #[trigger] e[k] != PERCENT
                && !is_forbidden_host_byte(e[k]) && e[k] < 0x80 by {
                assert(!is_forbidden_host_byte(d[k]));
                assert(d[k] < 0x80);
            }
            assert(e[0] != LEFT_BRACKET);
            lemma_percent_decoded_plain(e);
            assert(!has_forbidden_host_byte(e));
            assert(lowercase_text(e) =~= dt);
        },
        HostView::Ipv6(p) => {
            lemma_ipv6_pieces_len(bracket_inner(b));
            ipv6_serialize_parse_round_trip(p);
            let text = host_text(h);
            assert(text =~= seq!['['] + ipv6_text(p) + seq![']']);
            assert(is_ascii_chars(text)) by {
                assert forall|i: int| 0 <= i < text.len() implies '\0' <= #[trigger] text[i] <= '\u{7f}' by {
                    if 1 <= i < text.len() - 1 {
                        assert(text[i] == ipv6_text(p)[i - 1]);
                    }
                }
            }
            lemma_ascii_chars_encode(text);
            lemma_ascii_chars_encode(ipv6_text(p));
            let t = char_bytes(text);
            assert(bracket_inner(t) =~= char_bytes(ipv6_text(p)));
        },
    }
}

/// A domain that parsing accepts is the percent-decoded input, byte for
/// byte, with each ASCII upper-case letter `A`-`Z` replaced by the same
/// letter plus 32 and every other byte kept: so it holds no upper-case
/// letter, only ASCII, and none of NUL, tab, line feed, carriage return,
/// space, `#`, `%`, `/`, `:`, `?`, `@`, `[`, `\` and `]`.
pub proof fn host_parse_domain_shape(b: Seq<u8>, d: Seq<char>)
    requires
        parsed_host(b) == Ok::<HostView, Seq<char>>(HostView::Domain(d)),
    ensures
        b.len() > 0,
        d.len() == percent_decoded(b).len(),
        forall|k: int|
            0 <= k < d.len() ==> {
                let x = percent_decoded(b)[k];
                &&& (0x41 <= x <= 0x5a ==> #[trigger] d[k] as u32 == x as u32 + 32)
                &&& (!(0x41 <= x <= 0x5a) ==> d[k] as u32 == x as u32)
            },
        forall|k: int| 0 <= k < d.len() ==> !('A' <= #[trigger] d[k] && d[k] <= 'Z'),
        forall|k: int| 0 <= k < d.len() ==> (#[trigger] d[k] as u32) < 0x80,
        forall|k: int|
            0 <= k < d.len() ==> {
                let c = #[trigger] d[k];
                &&& c != '\0' && c != '\t' && c != '\n' && c != '\r' && c != ' '
                &&& c != '#' && c != '%' && c != '/' && c != ':' && c != '?'
                &&& c != '@' && c != '[' && c != '\\' && c != ']'
            },
{
    let dec = percent_decoded(b);
    assert(b.len() > 0);
    assert(b[0] != LEFT_BRACKET);
    assert(all_ascii(dec));
    assert(!has_forbidden_host_byte(dec));
    assert(d == lowercase_text(dec));
    assert forall|k: int| 0 <= k < d.len() implies {
        let x = dec[k];
        let c = #[trigger] d[k];
        &&& (0x41 <= x <= 0x5a ==> c as u32 == x as u32 + 32)
        &&& (!(0x41 <= x <= 0x5a) ==> c as u32 == x as u32)
        &&& !('A' <= c && c <= 'Z')
        &&& (c as u32) < 0x80
        &&& c != '\0' && c != '\t' && c != '\n' && c != '\r' && c != ' '
        &&& c != '#' && c != '%' && c != '/' && c != ':' && c != '?'
        &&& c != '@' && c != '[' && c != '\\' && c != ']'
    } by {
        let x = dec[k];
        assert(x < 0x80);
        assert(!is_forbidden_host_byte(x));
        assert(d[k] == ascii_lower(x) as char);
    }
}

/// Serialising a domain host gives the domain's text unchanged; an IPv6
/// host gives its address text between `[` and `]`.
pub proof fn host_text_shape(h: HostView)
    ensures
        h matches HostView::Domain(d) ==> host_text(h) == d,
        h matches HostView::Ipv6(p) ==> host_text(h).len() == ipv6_text(p).len() + 2 && host_text(
            h,
        )[0] == '[' && host_text(h).last() == ']' && host_text(h).subrange(
            1,
            host_text(h).len() - 1,
        ) == ipv6_text(p),
{
    if let HostView::Ipv6(p) = h {
        assert(host_text(h).subrange(1, host_text(h).len() - 1) =~= ipv6_text(p));
    }
}

} // verus!
