//! The textual form of IPv6 addresses that `Ipv6Address::parse` accepts, and
//! the pieces it reads from each accepted text.
//!
//! A text is a list of groups of one to four hexadecimal digits separated by
//! single colons, with at most one `::` standing for a run of zero groups.
use vstd::prelude::*;

use crate::hex::{hex_digit_value, is_hex_digit};

verus! {

/// The byte `:`.
pub const COLON: u8 = 0x3a;

/// The byte `.`.
pub const DOT: u8 = 0x2e;

/// Every byte of `t` is a hexadecimal digit.
pub open spec fn all_hex(t: Seq<u8>) -> bool {
    forall|k: int| 0 <= k < t.len() ==> is_hex_digit(#[trigger] t[k])
}

/// `t` is one group: one to four hexadecimal digits.
pub open spec fn is_h16(t: Seq<u8>) -> bool {
    1 <= t.len() <= 4 && all_hex(t)
}

/// The number that the hexadecimal digits `t` write, most significant first.
pub open spec fn hex_number(t: Seq<u8>) -> nat
    decreases t.len(),
{
    if t.len() == 0 {
        0
    } else {
        hex_number(t.drop_last()) * 16 + hex_digit_value(t.last()) as nat
    }
}

/// The index of the last colon in `t`, if there is one.
pub open spec fn last_colon(t: Seq<u8>) -> Option<int>
    decreases t.len(),
{
    if t.len() == 0 {
        None
    } else if t.last() == COLON {
        Some(t.len() - 1)
    } else {
        last_colon(t.drop_last())
    }
}

/// The values of the colon-separated groups that make up all of `t`, or
/// `None` where `t` is not such a list (empty, an empty group, a group of
/// more than four digits, or a byte that is neither a digit nor a colon).
pub open spec fn groups(t: Seq<u8>) -> Option<Seq<u16>>
    decreases t.len(),
{
    match last_colon(t) {
        None => if is_h16(t) {
            Some(seq![hex_number(t) as u16])
        } else {
            None
        },
        Some(j) => {
            if 0 <= j < t.len() && is_h16(t.skip(j + 1)) {
                match groups(t.take(j)) {
                    Some(v) => Some(v.push(hex_number(t.skip(j + 1)) as u16)),
                    None => None,
                }
            } else {
                None
            }
        },
    }
}

/// Like `groups`, but the empty text stands for no groups at all.
pub open spec fn segment_groups(t: Seq<u8>) -> Option<Seq<u16>> {
    if t.len() == 0 {
        Some(Seq::empty())
    } else {
        groups(t)
    }
}

/// `s` holds `::` at `q`.
pub open spec fn double_colon_at(s: Seq<u8>, q: int) -> bool {
    0 <= q && q + 1 < s.len() && s[q] == COLON && s[q + 1] == COLON
}

/// The first index at or after `k` where `s` holds `::`.
pub open spec fn double_colon_from(s: Seq<u8>, k: int) -> Option<int>
    decreases s.len() - k,
{
    if k < 0 || k + 1 >= s.len() {
        None
    } else if s[k] == COLON && s[k + 1] == COLON {
        Some(k)
    } else {
        double_colon_from(s, k + 1)
    }
}

/// The first index where `s` holds `::`.
pub open spec fn first_double_colon(s: Seq<u8>) -> Option<int> {
    double_colon_from(s, 0)
}

/// `n` zero pieces.
pub open spec fn zeros(n: int) -> Seq<u16> {
    Seq::new(n as nat, |_i: int| 0u16)
}

/// The eight pieces of an address written with `::`, from the groups `a`
/// before it and `b` after it.
///
/// The zero run that `::` stands for fills the gap. Where that run is a
/// single piece (`a` and `b` hold seven groups together), the parser's
/// shifting step moves each group after `::` onto itself and then clears
/// it, so those groups come out as zeros.
pub open spec fn expand_compressed(a: Seq<u16>, b: Seq<u16>) -> Seq<u16> {
    if a.len() + b.len() == 7 {
        a + zeros(8 - a.len())
    } else {
        a + zeros(8 - a.len() - b.len()) + b
    }
}

/// The eight pieces that the text `s` gives, or `None` where `s` is refused.
pub open spec fn ipv6_pieces(s: Seq<u8>) -> Option<Seq<u16>> {
    match first_double_colon(s) {
        None => match groups(s) {
            Some(v) => if v.len() == 8 {
                Some(v)
            } else {
                None
            },
            None => None,
        },
        Some(p) => match (segment_groups(s.take(p)), segment_groups(s.skip(p + 2))) {
            (Some(a), Some(b)) => if a.len() + b.len() <= 7 {
                Some(expand_compressed(a, b))
            } else {
                None
            },
            _ => None,
        },
    }
}

// ---------------------------------------------------------------------------
// Lemmas

/// Where the last colon lies.
pub proof fn lemma_last_colon(t: Seq<u8>)
    ensures
        match last_colon(t) {
            Some(j) => 0 <= j < t.len() && t[j] == COLON && forall|k: int|
                j < k < t.len() ==> #[trigger] t[k] != COLON,
            None => forall|k: int| 0 <= k < t.len() ==> #[trigger] t[k] != COLON,
        },
    decreases t.len(),
{
    if t.len() > 0 && t.last() != COLON {
        let u = t.drop_last();
        lemma_last_colon(u);
        assert forall|k: int| 0 <= k < t.len() - 1 implies t[k] == #[trigger] u[k] by {}
        match last_colon(u) {
            Some(j) => {
                assert forall|k: int| j < k < t.len() implies #[trigger] t[k] != COLON by {
                    if k < t.len() - 1 {
                        assert(t[k] == u[k]);
                    }
                }
            },
            None => {
                assert forall|k: int| 0 <= k < t.len() implies #[trigger] t[k] != COLON by {
                    if k < t.len() - 1 {
                        assert(t[k] == u[k]);
                    }
                }
            },
        }
    }
}

/// Appending colon-free bytes does not move the last colon.
pub proof fn lemma_last_colon_append(y: Seq<u8>, g: Seq<u8>)
    requires
        forall|k: int| 0 <= k < g.len() ==> #[trigger] g[k] != COLON,
    ensures
        last_colon(y + g) == last_colon(y),
    decreases g.len(),
{
    if g.len() > 0 {
        assert((y + g).drop_last() =~= y + g.drop_last());
        assert((y + g).last() == g.last());
        lemma_last_colon_append(y, g.drop_last());
    } else {
        assert(y + g =~= y);
    }
}

/// A hexadecimal digit is not a colon.
pub proof fn lemma_hex_not_colon(t: Seq<u8>)
    requires
        all_hex(t),
    ensures
        forall|k: int| 0 <= k < t.len() ==> #[trigger] t[k] != COLON,
{
    assert forall|k: int| 0 <= k < t.len() implies #[trigger] t[k] != COLON by {
        assert(is_hex_digit(t[k]));
    }
}

/// One group on its own.
pub proof fn lemma_single_group(g: Seq<u8>)
    requires
        is_h16(g),
    ensures
        groups(g) == Some(seq![hex_number(g) as u16]),
{
    lemma_hex_not_colon(g);
    lemma_last_colon_append(Seq::empty(), g);
    assert(Seq::<u8>::empty() + g =~= g);
}

/// A group appended after a colon adds one value at the end.
pub proof fn lemma_append_group(x: Seq<u8>, g: Seq<u8>)
    requires
        is_h16(g),
    ensures
        groups(x + seq![COLON] + g) == (match groups(x) {
            Some(v) => Some(v.push(hex_number(g) as u16)),
            None => None,
        }),
{
    let y = x + seq![COLON];
    let t = y + g;
    lemma_hex_not_colon(g);
    lemma_last_colon_append(y, g);
    assert(y.drop_last() =~= x);
    assert(last_colon(y) == Some(x.len() as int));
    assert(t.skip(x.len() as int + 1) =~= g);
    assert(t.take(x.len() as int) =~= x);
}

/// What every list of groups looks like.
#[verifier::opaque]
pub open spec fn group_list_shape(t: Seq<u8>, v: Seq<u16>) -> bool {
    &&& t.len() >= 1
    &&& v.len() >= 1
    &&& is_hex_digit(t[0])
    &&& is_hex_digit(t.last())
    &&& forall|k: int| 0 <= k < t.len() ==> is_hex_digit(#[trigger] t[k]) || t[k] == COLON
    &&& forall|k: int| #![trigger t[k], t[k + 1]] 0 <= k && k + 1 < t.len() ==> !(t[k] == COLON
        && t[k + 1] == COLON)
    &&& forall|k: int|
        0 <= k && k + 4 < t.len() ==> !(#[trigger] all_hex(t.subrange(k, k + 5)))
    &&& forall|k: int|
        0 <= k < t.len() && #[trigger] t[k] == COLON ==> (groups(t.take(k)) matches Some(w)
            && w.len() < v.len())
}

/// Every list that `groups` accepts has the shape above.
pub proof fn lemma_groups_shape(t: Seq<u8>)
    requires
        groups(t) is Some,
    ensures
        group_list_shape(t, groups(t).unwrap()),
    decreases t.len(),
{
    reveal(group_list_shape);
    let v = groups(t).unwrap();
    lemma_last_colon(t);
    match last_colon(t) {
        None => {
            assert forall|k: int| 0 <= k && k + 4 < t.len() implies !(#[trigger] all_hex(
                t.subrange(k, k + 5),
            )) by {}
        },
        Some(j) => {
            let x = t.take(j);
            let g = t.skip(j + 1);
            lemma_groups_shape(x);
            reveal(group_list_shape);
            let w = groups(x).unwrap();
            assert(t =~= x + seq![COLON] + g);
            assert(is_hex_digit(g[0]));
            assert(is_hex_digit(g.last()));
            assert(is_hex_digit(x.last()));
            assert(t[j + 1] == g[0]);
            assert(t[j - 1] == x.last());
            assert forall|k: int| 0 <= k < t.len() implies is_hex_digit(#[trigger] t[k])
                || t[k] == COLON by {
                if k < j {
                    assert(t[k] == x[k]);
                } else if k > j {
                    assert(t[k] == g[k - j - 1]);
                }
            }
            assert forall|k: int| #![trigger t[k], t[k + 1]] 0 <= k && k + 1 < t.len() implies !(
            t[k] == COLON && t[k + 1] == COLON) by {
                if k + 1 < j {
                    assert(t[k] == x[k]);
                    assert(t[k + 1] == x[k + 1]);
                } else if k > j {
                    assert(t[k] == g[k - j - 1]);
                }
            }
            assert forall|k: int| 0 <= k && k + 4 < t.len() implies !(#[trigger] all_hex(
                t.subrange(k, k + 5),
            )) by {
                if all_hex(t.subrange(k, k + 5)) {
                    if k + 4 < j {
                        assert(t.subrange(k, k + 5) =~= x.subrange(k, k + 5));
                    } else if k > j {
                        assert(t.subrange(k, k + 5)[4] == g[k + 4 - j - 1]);
                    } else {
                        assert(t.subrange(k, k + 5)[j - k] == t[j]);
                    }
                }
            }
            assert forall|k: int|
                0 <= k < t.len() && #[trigger] t[k] == COLON implies (groups(t.take(k)) matches Some(
                w2,
            ) && w2.len() < v.len()) by {
                if k < j {
                    assert(t[k] == x[k]);
                    assert(t.take(k) =~= x.take(k));
                } else if k > j {
                    assert(t[k] == g[k - j - 1]);
                }
            }
        },
    }
}

/// Facts about `double_colon_from`.
pub proof fn lemma_double_colon_from(s: Seq<u8>, k: int)
    requires
        0 <= k,
    ensures
        match double_colon_from(s, k) {
            Some(p) => k <= p && double_colon_at(s, p) && forall|q: int|
                k <= q < p ==> !#[trigger] double_colon_at(s, q),
            None => forall|q: int| k <= q ==> !#[trigger] double_colon_at(s, q),
        },
    decreases s.len() - k,
{
    if k + 1 < s.len() && !(s[k] == COLON && s[k + 1] == COLON) {
        lemma_double_colon_from(s, k + 1);
    }
}

/// Facts about `first_double_colon`.
pub proof fn lemma_first_double_colon(s: Seq<u8>)
    ensures
        match first_double_colon(s) {
            Some(p) => double_colon_at(s, p) && forall|q: int|
                q < p ==> !#[trigger] double_colon_at(s, q),
            None => forall|q: int| !#[trigger] double_colon_at(s, q),
        },
{
    lemma_double_colon_from(s, 0);
}

/// A byte that is neither a digit nor a colon makes the text invalid.
pub proof fn lemma_bad_byte(s: Seq<u8>, k: int)
    requires
        0 <= k < s.len(),
        !is_hex_digit(s[k]),
        s[k] != COLON,
    ensures
        ipv6_pieces(s) is None,
{
    lemma_first_double_colon(s);
    match first_double_colon(s) {
        None => {
            if groups(s) is Some {
                lemma_groups_bytes(s, k);
            }
        },
        Some(p) => {
            let l = s.take(p);
            let r = s.skip(p + 2);
            if k < p {
                assert(l[k] == s[k]);
                if groups(l) is Some {
                    lemma_groups_bytes(l, k);
                }
            } else {
                assert(k > p + 1);
                assert(r[k - p - 2] == s[k]);
                if groups(r) is Some {
                    lemma_groups_bytes(r, k - p - 2);
                }
            }
        },
    }
}

/// A list of groups is not empty, and starts and ends with a digit.
pub proof fn lemma_groups_ends(t: Seq<u8>)
    requires
        groups(t) is Some,
    ensures
        t.len() >= 1,
        groups(t).unwrap().len() >= 1,
        is_hex_digit(t[0]),
        is_hex_digit(t.last()),
{
    lemma_groups_shape(t);
    reveal(group_list_shape);
}

/// A list of groups holds only digits and colons.
pub proof fn lemma_groups_bytes(t: Seq<u8>, k: int)
    requires
        groups(t) is Some,
        0 <= k < t.len(),
    ensures
        is_hex_digit(t[k]) || t[k] == COLON,
{
    lemma_groups_shape(t);
    reveal(group_list_shape);
}

/// A list of groups holds no `::`.
pub proof fn lemma_groups_no_double_colon(t: Seq<u8>, k: int)
    requires
        groups(t) is Some,
        0 <= k,
        k + 1 < t.len(),
    ensures
        !(t[k] == COLON && t[k + 1] == COLON),
{
    lemma_groups_shape(t);
    reveal(group_list_shape);
}

/// The part of a list of groups before one of its colons is a shorter list.
pub proof fn lemma_groups_prefix(t: Seq<u8>, k: int)
    requires
        groups(t) is Some,
        0 <= k < t.len(),
        t[k] == COLON,
    ensures
        groups(t.take(k)) is Some,
        groups(t.take(k)).unwrap().len() < groups(t).unwrap().len(),
{
    lemma_groups_shape(t);
    reveal(group_list_shape);
    assert(t[k] == COLON);
}

/// No list of groups holds five digits in a row.
pub proof fn lemma_groups_no_five_digits(t: Seq<u8>, k: int)
    requires
        groups(t) is Some,
        0 <= k,
        k + 4 < t.len(),
    ensures
        !all_hex(t.subrange(k, k + 5)),
{
    lemma_groups_shape(t);
    reveal(group_list_shape);
}

/// Five digits in a row make the text invalid.
pub proof fn lemma_five_digits(s: Seq<u8>, k: int)
    requires
        0 <= k,
        k + 4 < s.len(),
        all_hex(s.subrange(k, k + 5)),
    ensures
        ipv6_pieces(s) is None,
{
    let w = s.subrange(k, k + 5);
    lemma_hex_not_colon(w);
    assert forall|q: int| k <= q <= k + 4 implies s[q] != COLON by {
        assert(w[q - k] == s[q]);
    }
    lemma_first_double_colon(s);
    match first_double_colon(s) {
        None => {
            if groups(s) is Some {
                lemma_groups_no_five_digits(s, k);
            }
        },
        Some(p) => {
            let l = s.take(p);
            let r = s.skip(p + 2);
            if k < p {
                assert(s[p] == COLON);
                assert(k + 4 < p);
                assert(l.subrange(k, k + 5) =~= w);
                if groups(l) is Some {
                    lemma_groups_no_five_digits(l, k);
                }
            } else {
                assert(s[p + 1] == COLON);
                assert(k > p + 1);
                assert(r.subrange(k - p - 2, k - p + 3) =~= w);
                if groups(r) is Some {
                    lemma_groups_no_five_digits(r, k - p - 2);
                }
            }
        },
    }
}

/// A single colon at the start makes the text invalid.
pub proof fn lemma_leading_colon(s: Seq<u8>)
    requires
        s.len() >= 2,
        s[0] == COLON,
        s[1] != COLON,
    ensures
        ipv6_pieces(s) is None,
{
    lemma_first_double_colon(s);
    match first_double_colon(s) {
        None => {
            if groups(s) is Some {
                lemma_groups_ends(s);
            }
        },
        Some(p) => {
            assert(p != 0);
            let l = s.take(p);
            if groups(l) is Some {
                lemma_groups_ends(l);
            }
        },
    }
}

/// A single colon at the end makes the text invalid.
pub proof fn lemma_trailing_colon(s: Seq<u8>)
    requires
        s.len() >= 2,
        s.last() == COLON,
        is_hex_digit(s[s.len() - 2]),
    ensures
        ipv6_pieces(s) is None,
{
    lemma_first_double_colon(s);
    match first_double_colon(s) {
        None => {
            if groups(s) is Some {
                lemma_groups_ends(s);
            }
        },
        Some(p) => {
            assert(p + 2 < s.len());
            let r = s.skip(p + 2);
            if groups(r) is Some {
                lemma_groups_ends(r);
            }
        },
    }
}

/// With no `::` so far, eight groups followed by a colon leave no room.
pub proof fn lemma_full_without_compression(s: Seq<u8>, i: int, w: Seq<u16>)
    requires
        0 < i < s.len(),
        s[i - 1] == COLON,
        groups(s.subrange(0, i - 1)) == Some(w),
        w.len() == 8,
        forall|q: int| q + 1 < i ==> !#[trigger] double_colon_at(s, q),
    ensures
        ipv6_pieces(s) is None,
{
    lemma_first_double_colon(s);
    assert(s.take(i - 1) =~= s.subrange(0, i - 1));
    match first_double_colon(s) {
        None => {
            if groups(s) is Some {
                lemma_groups_prefix(s, i - 1);
            }
        },
        Some(p) => {
            assert(p + 1 >= i);
            let l = s.take(p);
            if p == i - 1 {
                assert(l =~= s.subrange(0, i - 1));
            } else {
                assert(l[i - 1] == COLON);
                assert(l.take(i - 1) =~= s.subrange(0, i - 1));
                if groups(l) is Some {
                    lemma_groups_prefix(l, i - 1);
                }
            }
        },
    }
}

/// Seven groups before `::` and any group after it leave no room.
pub proof fn lemma_full_at_compression(s: Seq<u8>, p: int, a: Seq<u16>)
    requires
        first_double_colon(s) == Some(p),
        segment_groups(s.take(p)) == Some(a),
        a.len() == 7,
        p + 2 < s.len(),
    ensures
        ipv6_pieces(s) is None,
{
    lemma_first_double_colon(s);
    let r = s.skip(p + 2);
    assert(r.len() > 0);
    if groups(r) is Some {
        lemma_groups_ends(r);
    }
}

/// Groups after `::` that already fill the address, followed by a colon,
/// leave no room.
pub proof fn lemma_full_after_compression(s: Seq<u8>, p: int, i: int, a: Seq<u16>, w: Seq<u16>)
    requires
        first_double_colon(s) == Some(p),
        segment_groups(s.take(p)) == Some(a),
        0 <= p,
        p + 2 < i < s.len(),
        s[i - 1] == COLON,
        groups(s.subrange(p + 2, i - 1)) == Some(w),
        a.len() + w.len() >= 7,
    ensures
        ipv6_pieces(s) is None,
{
    let r = s.skip(p + 2);
    let k = i - 1 - (p + 2);
    assert(r[k] == COLON);
    assert(r.take(k) =~= s.subrange(p + 2, i - 1));
    if groups(r) is Some {
        lemma_groups_prefix(r, k);
    }
}

/// A colon right after `::`, or a second `::`, makes the text invalid.
pub proof fn lemma_colon_after_compression(s: Seq<u8>, p: int, k: int)
    requires
        first_double_colon(s) == Some(p),
        0 <= p,
        p + 2 <= k < s.len(),
        s[k] == COLON,
        k == p + 2 || s[k - 1] == COLON,
    ensures
        ipv6_pieces(s) is None,
{
    let r = s.skip(p + 2);
    let q = k - (p + 2);
    assert(r[q] == COLON);
    if groups(r) is Some {
        if q == 0 {
            lemma_groups_ends(r);
        } else {
            assert(r[q - 1] == COLON);
            lemma_groups_no_double_colon(r, q - 1);
        }
    }
}

/// The first `::` is where one is found with none before it.
pub proof fn lemma_first_double_colon_found(s: Seq<u8>, p: int)
    requires
        double_colon_at(s, p),
        forall|q: int| q < p ==> !#[trigger] double_colon_at(s, q),
    ensures
        first_double_colon(s) == Some(p),
{
    lemma_first_double_colon(s);
    match first_double_colon(s) {
        Some(p2) => {
            if p2 < p {
                assert(!double_colon_at(s, p2));
            } else if p2 > p {
                assert(!double_colon_at(s, p));
            }
        },
        None => {
            assert(!double_colon_at(s, p));
        },
    }
}

} // verus!
