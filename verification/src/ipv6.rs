//! IPv6 addresses: reading the bracket-less text form into eight pieces, and
//! writing the pieces back as text.
use vstd::prelude::*;
use vstd::string::StringSliceAdditionalSpecFns;

use crate::hex::{from_hex, hex_digit_value, is_hex_digit, push_upper_hex, upper_hex};
use crate::ipv6_grammar::{
    all_hex, double_colon_at, expand_compressed, first_double_colon, groups, hex_number, ipv6_pieces,
    is_h16, lemma_append_group, lemma_bad_byte, lemma_colon_after_compression,
    lemma_first_double_colon, lemma_first_double_colon_found, lemma_five_digits,
    lemma_full_after_compression, lemma_full_at_compression, lemma_full_without_compression,
    lemma_groups_ends, lemma_hex_not_colon, lemma_leading_colon, lemma_single_group,
    lemma_trailing_colon, segment_groups, zeros, COLON, DOT,
};
use crate::text::push_char;
use crate::ParseResult;

verus! {

/// An IPv6 address as its eight 16-bit pieces.
#[derive(Clone, PartialEq, Eq, Debug)]
pub struct Ipv6Address {
    pub pieces: [u16; 8],
}

impl Ipv6Address {
    /// Parses the text of an IPv6 address (without brackets).
    ///
    /// The text must not be empty, and a leading colon must be followed by
    /// another byte: on those inputs the reading of the first two bytes
    /// would run off the end.
    pub fn parse(input: &str) -> (r: ParseResult<Ipv6Address>)
        requires
            input.spec_bytes().len() >= 1,
            input.spec_bytes()[0] == COLON ==> input.spec_bytes().len() >= 2,
        ensures
            match r {
                Ok(a) => ipv6_pieces(input.spec_bytes()) == Some(a.pieces@),
                Err(e) => ipv6_pieces(input.spec_bytes()) is None && e@
                    == "Invalid IPv6 address"@,
            },
    {
        Ipv6Address::parse_bytes(input.as_bytes())
    }

    /// Parses the bytes of an IPv6 address (without brackets); see `parse`.
    pub fn parse_bytes(input: &[u8]) -> (r: ParseResult<Ipv6Address>)
        requires
            input@.len() >= 1,
            input@[0] == COLON ==> input@.len() >= 2,
        ensures
            match r {
                Ok(a) => ipv6_pieces(input@) == Some(a.pieces@),
                Err(e) => ipv6_pieces(input@) is None && e@ == "Invalid IPv6 address"@,
            },
    {
        let ghost s = input@;
        let len = input.len();
        let mut is_ip_v4 = false;
        let mut pieces: [u16; 8] = [0, 0, 0, 0, 0, 0, 0, 0];
        let mut piece_pointer: usize = 0;
        let mut compress_pointer: Option<usize> = None;
        let mut i: usize = 0;
        // Where the groups that are being read began: after `::` once one was seen.
        let ghost mut seg: int = 0;
        proof {
            assert(pieces@ =~= zeros(8));
        }
        if input[0] == COLON {
            if input[1] != COLON {
                proof {
                    lemma_leading_colon(s);
                }
                return Err("Invalid IPv6 address");
            }
            i = 2;
            piece_pointer = 1;
            compress_pointer = Some(1);
            proof {
                seg = 2;
                lemma_reader_start_compressed(s);
            }
        } else {
            proof {
                lemma_reader_start(s);
            }
        }
        while i < len
            invariant_except_break
                !is_ip_v4,
            invariant
                s == input@,
                len == s.len(),
                reader_state(s, i as int, seg, compress_pointer, piece_pointer as int, pieces@),
                is_ip_v4 ==> (ipv6_pieces(s) is None && i < len && is_hex_digit(s[i as int])),
            ensures
                is_ip_v4 || i >= len,
            decreases len - i,
        {
            proof {
                lemma_reader_bounds(s, i as int, seg, compress_pointer, piece_pointer as int, pieces@);
            }
            if piece_pointer == 8 {
                proof {
                    lemma_reader_full(s, i as int, seg, compress_pointer, pieces@);
                }
                return Err("Invalid IPv6 address");
            }
            if input[i] == COLON {
                if compress_pointer.is_some() {
                    proof {
                        lemma_reader_colon(s, i as int, seg, compress_pointer, piece_pointer as int, pieces@);
                    }
                    return Err("Invalid IPv6 address");
                }
                proof {
                    lemma_reader_colon(s, i as int, seg, compress_pointer, piece_pointer as int, pieces@);
                }
                i += 1;
                piece_pointer += 1;
                compress_pointer = Some(piece_pointer);
                proof {
                    seg = i as int;
                }
                continue ;
            }
            let start = i;
            let end = if len - start < 4 {
                len
            } else {
                start + 4
            };
            let mut value: u16 = 0;
            proof {
                assert(s.subrange(start as int, start as int) =~= Seq::<u8>::empty());
            }
            while i < end
                invariant
                    s == input@,
                    len == s.len(),
                    start < len,
                    start <= i <= end <= len,
                    end - start <= 4,
                    end == len || end == start + 4,
                    all_hex(s.subrange(start as int, i as int)),
                    value == hex_number(s.subrange(start as int, i as int)),
                    i - start == 0 ==> value == 0,
                    i - start == 1 ==> value < 16,
                    i - start == 2 ==> value < 256,
                    i - start == 3 ==> value < 4096,
                ensures
                    i == end || !is_hex_digit(s[i as int]),
                decreases end - i,
            {
                match from_hex(input[i]) {
                    Some(digit) => {
                        proof {
                            lemma_hex_digits_extend(s, start as int, i as int);
                        }
                        value = value * 0x10 + digit as u16;
                        i += 1;
                    },
                    None => break,
                }
            }
            let ghost j: int = i as int;
            if i < len {
                if input[i] == DOT {
                    proof {
                        lemma_bad_byte(s, i as int);
                    }
                    if i == start {
                        return Err("Invalid IPv6 address");
                    }
                    proof {
                        assert(s[start as int] == s.subrange(start as int, j)[0]);
                    }
                    i = start;
                    is_ip_v4 = true;
                } else if input[i] == COLON {
                    i += 1;
                    if i == len {
                        proof {
                            assert(s[j - 1] == s.subrange(start as int, j)[j - 1 - start]);
                            lemma_trailing_colon(s);
                        }
                        return Err("Invalid IPv6 address");
                    }
                } else {
                    proof {
                        lemma_group_too_long_or_bad(s, start as int, j);
                    }
                    return Err("Invalid IPv6 address");
                }
            }
            if is_ip_v4 {
                break ;
            }
            proof {
                lemma_reader_group(
                    s,
                    start as int,
                    seg,
                    compress_pointer,
                    piece_pointer as int,
                    pieces@,
                    j,
                    value,
                );
            }
            pieces[piece_pointer] = value;
            piece_pointer += 1;
        }
        // The dotted form (an IPv4 address in the last two pieces). Reading
        // starts over at the group before the dot, and the digit loop does not
        // move past the byte it reads, so every text that gets here is refused.
        if is_ip_v4 {
            if piece_pointer > 6 {
                return Err("Invalid IPv6 address");
            }
            let mut dots_seen: usize = 0;
            while i < len
                invariant
                    s == input@,
                    len == s.len(),
                    i < len,
                    is_hex_digit(s[i as int]),
                    dots_seen == 0,
                    piece_pointer <= 6,
                    ipv6_pieces(s) is None,
                decreases len - i,
            {
                let mut value: u16 = 0;
                while i < len
                    invariant
                        s == input@,
                        len == s.len(),
                        i < len,
                        is_hex_digit(s[i as int]),
                        ipv6_pieces(s) is None,
                        value <= 255,
                    decreases 256 - value,
                {
                    let c = input[i];
                    if !(0x30 <= c && c <= 0x39) {
                        break ;
                    }
                    let digit = c - 0x30;
                    value = value * 10 + digit as u16;
                    if value == 0 || value > 255 {
                        return Err("Invalid IPv6 address");
                    }
                }
                if dots_seen < 3 && !(i < len && input[i] == DOT) {
                    return Err("Invalid IPv6 address");
                }
                pieces[piece_pointer] = pieces[piece_pointer] * 0x100 + value;
                if dots_seen == 0 || dots_seen == 2 {
                    piece_pointer += 1;
                }
                i += 1;
                if dots_seen == 3 && i < len {
                    return Err("Invalid IPv6 address");
                }
                dots_seen += 1;
            }
        }
        proof {
            lemma_reader_bounds(s, i as int, seg, compress_pointer, piece_pointer as int, pieces@);
            lemma_reader_end(s, seg, compress_pointer, piece_pointer as int, pieces@);
        }
        match compress_pointer {
            Some(compress_pointer) => {
                let ghost p0 = pieces@;
                let ghost c = compress_pointer as int;
                let ghost b = piece_pointer - compress_pointer;
                let ghost d = 8 - c - b;
                let mut swaps = piece_pointer - compress_pointer;
                piece_pointer = 7;
                while swaps > 0
                    invariant
                        p0.len() == 8,
                        1 <= c,
                        c + b <= 8,
                        d == 8 - c - b,
                        swaps <= b,
                        piece_pointer + b - swaps == 7,
                        compress_pointer == c,
                        forall|k: int| c + b <= k < 8 ==> p0[k] == 0,
                        forall|k: int| 0 <= k < c + swaps ==> pieces@[k] == p0[k],
                        forall|k: int| c + swaps <= k < 8 - (b - swaps) ==> pieces@[k] == 0,
                        forall|k: int|
                            8 - (b - swaps) <= k < 8 ==> pieces@[k] == (if d > 0 {
                                p0[k - d]
                            } else {
                                0
                            }),
                    decreases swaps,
                {
                    pieces[piece_pointer] = pieces[compress_pointer + swaps - 1];
                    pieces[compress_pointer + swaps - 1] = 0;
                    swaps -= 1;
                    piece_pointer -= 1;
                }
                proof {
                    let a = p0.take(c - 1);
                    let bs = p0.subrange(c, c + b);
                    assert(pieces@ =~= expand_compressed(a, bs));
                }
            },
            None => {
                if piece_pointer != 8 {
                    return Err("Invalid IPv6 address");
                }
            },
        }
        Ok(Ipv6Address { pieces: pieces })
    }
}

// ---------------------------------------------------------------------------
// Writing an address

/// `[a, b)` is a run of zero pieces that cannot be extended either way.
pub open spec fn zero_run(p: Seq<u16>, a: int, b: int) -> bool {
    &&& 0 <= a < b <= p.len()
    &&& forall|k: int| a <= k < b ==> p[k] == 0
    &&& (a == 0 || p[a - 1] != 0)
    &&& (b == p.len() || p[b] != 0)
}

/// `[a, b)` is the longest run of zero pieces, the first one among runs of
/// the same length.
pub open spec fn first_longest_zero_run(p: Seq<u16>, a: int, b: int) -> bool {
    &&& zero_run(p, a, b)
    &&& forall|a2: int, b2: int| #[trigger]
        zero_run(p, a2, b2) ==> b2 - a2 < b - a || (b2 - a2 == b - a && a <= a2)
}

/// The run that serialisation compresses to `::`, as `(start, end)`, or
/// `(-1, -2)` where no piece is zero.
pub open spec fn longest_zero_run(p: Seq<u16>) -> (int, int) {
    if exists|a: int, b: int| first_longest_zero_run(p, a, b) {
        choose|a: int, b: int| first_longest_zero_run(p, a, b)
    } else {
        (-1, -2)
    }
}

/// The text of piece `k`: its upper-case hexadecimal numeral, followed by a
/// colon unless it is the last piece.
pub open spec fn piece_text(p: Seq<u16>, k: int) -> Seq<char> {
    upper_hex(p[k] as nat) + if k < 7 {
        seq![':']
    } else {
        Seq::empty()
    }
}

/// The texts of pieces `lo` up to `hi`, one after the other.
pub open spec fn pieces_text(p: Seq<u16>, lo: int, hi: int) -> Seq<char>
    decreases hi - lo,
{
    if hi <= lo {
        Seq::empty()
    } else {
        pieces_text(p, lo, hi - 1) + piece_text(p, hi - 1)
    }
}

/// The text of an IPv6 address: every piece in hexadecimal, with the
/// longest run of zero pieces (the first among equals) written as `::`.
pub open spec fn ipv6_text(p: Seq<u16>) -> Seq<char> {
    let (cs, ce) = longest_zero_run(p);
    if cs < 0 {
        pieces_text(p, 0, 8)
    } else {
        pieces_text(p, 0, cs) + seq![':'] + (if cs == 0 {
            seq![':']
        } else {
            Seq::empty()
        }) + (if ce < 8 {
            pieces_text(p, ce, 8)
        } else {
            Seq::empty()
        })
    }
}

/// Two runs that both satisfy `first_longest_zero_run` are the same run.
pub proof fn lemma_first_longest_unique(p: Seq<u16>, a: int, b: int, a2: int, b2: int)
    requires
        first_longest_zero_run(p, a, b),
        first_longest_zero_run(p, a2, b2),
    ensures
        a == a2 && b == b2,
{
    assert(zero_run(p, a2, b2));
    assert(zero_run(p, a, b));
}

/// The longest run of zero pieces, the first among equals, as
/// `(start, end)`; `(-1, -2)` where no piece is zero.
pub fn longest_zero_sequence(pieces: &[u16; 8]) -> (r: (isize, isize))
    ensures
        r.0 as int == longest_zero_run(pieces@).0,
        r.1 as int == longest_zero_run(pieces@).1,
        r.0 < 0 ==> (r.0 == -1 && r.1 == -2 && forall|k: int| 0 <= k < 8 ==> pieces@[k] != 0),
        r.0 >= 0 ==> first_longest_zero_run(pieces@, r.0 as int, r.1 as int),
{
    let ghost p = pieces@;
    let mut longest: isize = -1;
    let mut longest_length: isize = -1;
    let mut start: isize = -1;
    let mut i: isize = 0;
    while i < 8
        invariant
            p == pieces@,
            p.len() == 8,
            0 <= i <= 8,
            start == -1 || 0 <= start < i,
            start >= 0 ==> (forall|k: int| start <= k < i ==> p[k] == 0) && (start == 0 || p[start
                - 1] != 0),
            start < 0 ==> (i == 0 || p[i - 1] != 0),
            longest_length == -1 ==> longest == -1 && (forall|k: int|
                0 <= k < i && (start < 0 || k < start) ==> p[k] != 0),
            longest_length != -1 ==> 1 <= longest_length && 0 <= longest && longest
                + longest_length < i && zero_run(p, longest as int, longest + longest_length),
            longest_length != -1 ==> forall|a2: int, b2: int|
                #[trigger] zero_run(p, a2, b2) && b2 < i ==> b2 - a2 < longest_length || (b2 - a2
                    == longest_length && longest <= a2),
        decreases 8 - i,
    {
        let ghost old_start = start;
        let ghost old_longest = longest;
        let ghost old_length = longest_length;
        if pieces[i as usize] == 0 {
            if start < 0 {
                start = i;
            }
        } else {
            if start >= 0 {
                let length = i - start;
                if length > longest_length {
                    longest = start;
                    longest_length = length;
                }
            }
            start = -1;
            proof {
                assert forall|a2: int, b2: int| #[trigger]
                    zero_run(p, a2, b2) && b2 < i + 1 implies b2 - a2 < longest_length || (b2 - a2
                    == longest_length && longest <= a2) by {
                    assert(p[b2 - 1] == 0);
                    if b2 == i {
                        assert(old_start >= 0);
                        if a2 < old_start {
                            assert(p[old_start - 1] == 0);
                        } else if a2 > old_start {
                            assert(p[a2 - 1] == 0);
                        }
                    } else if old_length == -1 {
                        if b2 - 1 >= old_start && old_start >= 0 {
                            assert(p[b2] == 0);
                        }
                    }
                }
                if old_start >= 0 {
                    assert(zero_run(p, old_start as int, i as int));
                }
            }
        }
        i += 1;
    }
    let ghost old_start8 = start;
    let ghost old_length8 = longest_length;
    proof {
        if start >= 0 {
            assert(zero_run(p, start as int, 8));
        }
    }
    if start >= 0 {
        let length = 8 - start;
        if length > longest_length {
            longest = start;
            longest_length = length;
        }
    }
    proof {
        if longest_length == -1 {
            assert forall|k: int| 0 <= k < 8 implies p[k] != 0 by {}
            assert forall|a: int, b: int| !first_longest_zero_run(p, a, b) by {
                if first_longest_zero_run(p, a, b) {
                    assert(p[a] == 0);
                }
            }
        } else {
            assert forall|a2: int, b2: int| #[trigger]
                zero_run(p, a2, b2) implies b2 - a2 < longest_length || (b2 - a2 == longest_length
                && longest <= a2) by {
                assert(p[b2 - 1] == 0);
                if b2 == 8 {
                    assert(old_start8 >= 0);
                    if a2 < old_start8 {
                        assert(p[old_start8 - 1] == 0);
                    } else if a2 > old_start8 {
                        assert(p[a2 - 1] == 0);
                    }
                } else if old_length8 == -1 {
                    if b2 - 1 >= old_start8 && old_start8 >= 0 {
                        assert(p[b2] == 0);
                    }
                }
            }
            let r = (longest as int, longest + longest_length);
            assert(first_longest_zero_run(p, r.0, r.1));
            let c = choose|a: int, b: int| first_longest_zero_run(p, a, b);
            lemma_first_longest_unique(p, r.0, r.1, c.0, c.1);
        }
    }
    (longest, longest + longest_length)
}

impl Ipv6Address {
    /// The text of the address (without brackets), as `ipv6_text` describes.
    pub fn serialize(&self) -> (r: String)
        ensures
            r@ == ipv6_text(self.pieces@),
    {
        let ghost p = self.pieces@;
        let mut output = String::new();
        let (compress_start, compress_end) = longest_zero_sequence(&self.pieces);
        let ghost cs = compress_start as int;
        let ghost ce = compress_end as int;
        proof {
            if cs >= 0 {
                assert(zero_run(p, cs, ce));
            }
        }
        let mut i: isize = 0;
        while i < 8
            invariant_except_break
                0 <= i <= 8,
                (cs < 0 || i <= cs) ==> output@ == pieces_text(p, 0, i as int),
                (cs >= 0 && i > cs) ==> ce < 8 && ce <= i && output@ == pieces_text(p, 0, cs)
                    + seq![':'] + (if cs == 0 {
                    seq![':']
                } else {
                    Seq::empty()
                }) + pieces_text(p, ce, i as int),
            invariant
                p == self.pieces@,
                p.len() == 8,
                cs == compress_start,
                ce == compress_end,
                (cs, ce) == longest_zero_run(p),
                cs < 0 ==> cs == -1,
                cs >= 0 ==> 0 <= cs < ce <= 8,
            ensures
                output@ == ipv6_text(p),
            decreases 8 - i,
        {
            let ghost before = output@;
            if i == compress_start {
                push_char(&mut output, ':');
                if i == 0 {
                    push_char(&mut output, ':');
                }
                if compress_end < 8 {
                    i = compress_end;
                } else {
                    proof {
                        assert(output@ =~= ipv6_text(p));
                    }
                    break ;
                }
                proof {
                    assert(pieces_text(p, ce, ce) =~= Seq::<char>::empty());
                    assert(output@ =~= pieces_text(p, 0, cs) + seq![':'] + (if cs == 0 {
                        seq![':']
                    } else {
                        Seq::empty()
                    }) + pieces_text(p, ce, i as int));
                }
            }
            let ghost mid = output@;
            push_upper_hex(&mut output, self.pieces[i as usize]);
            if i < 7 {
                push_char(&mut output, ':');
            }
            proof {
                assert(output@ =~= mid + piece_text(p, i as int));
            }
            i += 1;
        }
        output
    }
}

// ---------------------------------------------------------------------------
// The reader's state and its steps

/// What the reader knows at the head of its main loop: `i` is the next byte,
/// `seg` where the current run of groups began (after `::` once one was
/// seen), `cp` the piece index just after `::`, `pp` the next piece to fill.
#[verifier::opaque]
spec fn reader_state(
    s: Seq<u8>,
    i: int,
    seg: int,
    cp: Option<usize>,
    pp: int,
    pieces: Seq<u16>,
) -> bool {
    let base: int = match cp {
        None => 0,
        Some(c) => c as int,
    };
    &&& 0 <= seg <= i <= s.len()
    &&& 0 <= pp <= 8
    &&& pieces.len() == 8
    &&& forall|k: int| pp <= k < 8 ==> pieces[k] == 0
    &&& match cp {
        None => seg == 0 && (forall|q: int| q + 1 < i ==> !#[trigger] double_colon_at(s, q)) && (i
            == 0 ==> s.len() > 0 && s[0] != COLON),
        Some(c) => 1 <= c <= pp && 2 <= seg && first_double_colon(s) == Some(seg - 2)
            && segment_groups(s.take(seg - 2)) == Some(pieces.take(c - 1)) && pieces[c - 1] == 0,
    }
    &&& {
        ||| (i == seg && pp == base)
        ||| (seg < i < s.len() && s[i - 1] == COLON && groups(s.subrange(seg, i - 1)) == Some(
            pieces.subrange(base, pp),
        ))
        ||| (i == s.len() && seg < s.len() && groups(s.subrange(seg, s.len() as int)) == Some(
            pieces.subrange(base, pp),
        ))
    }
}

proof fn lemma_reader_bounds(
    s: Seq<u8>,
    i: int,
    seg: int,
    cp: Option<usize>,
    pp: int,
    pieces: Seq<u16>,
)
    requires
        reader_state(s, i, seg, cp, pp, pieces),
    ensures
        0 <= seg <= i <= s.len(),
        0 <= pp <= 8,
        pieces.len() == 8,
        cp matches Some(c) ==> 1 <= c <= pp,
{
    reveal(reader_state);
}

proof fn lemma_reader_start(s: Seq<u8>)
    requires
        s.len() >= 1,
        s[0] != COLON,
    ensures
        reader_state(s, 0, 0, None, 0, zeros(8)),
{
    reveal(reader_state);
}

proof fn lemma_reader_start_compressed(s: Seq<u8>)
    requires
        s.len() >= 2,
        s[0] == COLON,
        s[1] == COLON,
    ensures
        reader_state(s, 2, 2, Some(1usize), 1, zeros(8)),
{
    reveal(reader_state);
    assert(s.take(0) =~= Seq::<u8>::empty());
    assert(zeros(8).take(0) =~= Seq::<u16>::empty());
    assert(first_double_colon(s) == Some(0int));
}

proof fn lemma_reader_full(s: Seq<u8>, i: int, seg: int, cp: Option<usize>, pieces: Seq<u16>)
    requires
        reader_state(s, i, seg, cp, 8, pieces),
        i < s.len(),
    ensures
        ipv6_pieces(s) is None,
{
    reveal(reader_state);
    match cp {
        None => {
            lemma_full_without_compression(s, i, pieces.subrange(0, 8));
        },
        Some(c) => {
            if i == seg {
                lemma_full_at_compression(s, seg - 2, pieces.take(c - 1));
            } else {
                lemma_full_after_compression(
                    s,
                    seg - 2,
                    i,
                    pieces.take(c - 1),
                    pieces.subrange(c as int, 8),
                );
            }
        },
    }
}

proof fn lemma_reader_colon(
    s: Seq<u8>,
    i: int,
    seg: int,
    cp: Option<usize>,
    pp: int,
    pieces: Seq<u16>,
)
    requires
        reader_state(s, i, seg, cp, pp, pieces),
        i < s.len(),
        pp < 8,
        s[i] == COLON,
    ensures
        cp is Some ==> ipv6_pieces(s) is None,
        cp is None ==> reader_state(s, i + 1, i + 1, Some((pp + 1) as usize), pp + 1, pieces),
{
    reveal(reader_state);
    match cp {
        Some(c) => {
            lemma_colon_after_compression(s, seg - 2, i);
        },
        None => {
            assert(double_colon_at(s, i - 1));
            lemma_first_double_colon_found(s, i - 1);
            lemma_groups_ends(s.subrange(0, i - 1));
            assert(s.take(i - 1) =~= s.subrange(0, i - 1));
            assert(pieces.take(pp) =~= pieces.subrange(0, pp));
        },
    }
}

/// The digits from `start` to `i` followed by one more digit.
proof fn lemma_hex_digits_extend(s: Seq<u8>, start: int, i: int)
    requires
        0 <= start <= i < s.len(),
        all_hex(s.subrange(start, i)),
        is_hex_digit(s[i]),
    ensures
        all_hex(s.subrange(start, i + 1)),
        hex_number(s.subrange(start, i + 1)) == hex_number(s.subrange(start, i)) * 16
            + hex_digit_value(s[i]) as nat,
{
    let t = s.subrange(start, i + 1);
    assert(t.drop_last() =~= s.subrange(start, i));
    assert(t.last() == s[i]);
    assert forall|k: int| 0 <= k < t.len() implies is_hex_digit(#[trigger] t[k]) by {
        if k < t.len() - 1 {
            assert(t[k] == s.subrange(start, i)[k]);
        }
    }
}

/// A group that stopped at a byte that is neither `.` nor `:`.
proof fn lemma_group_too_long_or_bad(s: Seq<u8>, start: int, j: int)
    requires
        0 <= start <= j < s.len(),
        j - start <= 4,
        all_hex(s.subrange(start, j)),
        j - start < 4 ==> !is_hex_digit(s[j]),
        s[j] != COLON,
    ensures
        ipv6_pieces(s) is None,
{
    if is_hex_digit(s[j]) {
        let w = s.subrange(start, start + 5);
        assert forall|k: int| 0 <= k < w.len() implies is_hex_digit(#[trigger] w[k]) by {
            if k < 4 {
                assert(w[k] == s.subrange(start, j)[k]);
            }
        }
        lemma_five_digits(s, start);
    } else {
        lemma_bad_byte(s, j);
    }
}

proof fn lemma_reader_group(
    s: Seq<u8>,
    start: int,
    seg: int,
    cp: Option<usize>,
    pp: int,
    pieces: Seq<u16>,
    j: int,
    value: u16,
)
    requires
        reader_state(s, start, seg, cp, pp, pieces),
        pp < 8,
        start < j <= s.len(),
        j - start <= 4,
        all_hex(s.subrange(start, j)),
        value == hex_number(s.subrange(start, j)),
        j == s.len() || (s[j] == COLON && j + 1 < s.len()),
    ensures
        reader_state(
            s,
            if j == s.len() {
                j
            } else {
                j + 1
            },
            seg,
            cp,
            pp + 1,
            pieces.update(pp, value),
        ),
{
    reveal(reader_state);
    let base: int = match cp {
        None => 0,
        Some(c) => c as int,
    };
    let g = s.subrange(start, j);
    let np = pieces.update(pp, value);
    lemma_hex_not_colon(g);
    assert(is_h16(g));
    if start == seg {
        lemma_single_group(g);
        assert(np.subrange(base, pp + 1) =~= seq![value]);
    } else {
        assert(s.subrange(seg, j) =~= s.subrange(seg, start - 1) + seq![COLON] + g);
        lemma_append_group(s.subrange(seg, start - 1), g);
        assert(np.subrange(base, pp + 1) =~= pieces.subrange(base, pp).push(value));
    }
    assert(groups(s.subrange(seg, j)) == Some(np.subrange(base, pp + 1)));
    let ni = if j == s.len() {
        j
    } else {
        j + 1
    };
    match cp {
        None => {
            assert forall|q: int| q + 1 < ni implies !#[trigger] double_colon_at(s, q) by {
                if q + 1 >= start && q >= 0 && q + 1 < j {
                    assert(s[q + 1] == g[q + 1 - start]);
                }
            }
        },
        Some(c) => {
            assert(np.take(c - 1) =~= pieces.take(c - 1));
        },
    }
}

proof fn lemma_reader_end(s: Seq<u8>, seg: int, cp: Option<usize>, pp: int, pieces: Seq<u16>)
    requires
        reader_state(s, s.len() as int, seg, cp, pp, pieces),
        s.len() >= 1,
    ensures
        match cp {
            None => ipv6_pieces(s) == (if pp == 8 {
                Some(pieces)
            } else {
                None
            }),
            Some(c) => 1 <= c <= pp <= 8 && pieces.len() == 8 && pieces[c - 1] == 0 && (forall|
                k: int,
            | pp <= k < 8 ==> pieces[k] == 0) && ipv6_pieces(s) == Some(
                expand_compressed(pieces.take(c - 1), pieces.subrange(c as int, pp)),
            ),
        },
{
    reveal(reader_state);
    match cp {
        None => {
            lemma_first_double_colon(s);
            assert(s.subrange(0, s.len() as int) =~= s);
            assert(pieces.subrange(0, 8) =~= pieces);
        },
        Some(c) => {
            let r = s.skip(seg);
            if seg == s.len() {
                assert(r =~= Seq::<u8>::empty());
                assert(pieces.subrange(c as int, pp) =~= Seq::<u16>::empty());
            } else {
                assert(r =~= s.subrange(seg, s.len() as int));
            }
        },
    }
}

} // verus!
