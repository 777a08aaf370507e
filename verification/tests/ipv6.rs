use url::ipv6::longest_zero_sequence;
use url::Ipv6Address;

fn parse(s: &str) -> Result<[u16; 8], &'static str> {
    Ipv6Address::parse(s).map(|a| a.pieces)
}

fn text(pieces: [u16; 8]) -> String {
    Ipv6Address { pieces }.serialize()
}

#[test]
fn parse_all_zero() {
    assert_eq!(parse("::"), Ok([0; 8]));
}

#[test]
fn parse_loopback() {
    assert_eq!(parse("::1"), Ok([0, 0, 0, 0, 0, 0, 0, 1]));
}

#[test]
fn parse_trailing_compression() {
    assert_eq!(parse("1::"), Ok([1, 0, 0, 0, 0, 0, 0, 0]));
}

#[test]
fn parse_eight_groups() {
    assert_eq!(parse("1:2:3:4:5:6:7:8"), Ok([1, 2, 3, 4, 5, 6, 7, 8]));
}

#[test]
fn parse_middle_compression() {
    assert_eq!(
        parse("2001:db8::ff00:42:8329"),
        Ok([0x2001, 0xdb8, 0, 0, 0, 0xff00, 0x42, 0x8329])
    );
}

#[test]
fn parse_mixed_case_digits() {
    assert_eq!(parse("ABCD:ef01::"), Ok([0xabcd, 0xef01, 0, 0, 0, 0, 0, 0]));
    assert_eq!(parse("fFfF::"), Ok([0xffff, 0, 0, 0, 0, 0, 0, 0]));
}

#[test]
fn parse_seven_groups_with_compression_after_all() {
    assert_eq!(parse("1:2:3:4:5:6:7::"), Ok([1, 2, 3, 4, 5, 6, 7, 0]));
}

#[test]
fn parse_single_zero_compression_clears_groups_after_it() {
    // The shifting step moves each later group onto itself and clears it.
    assert_eq!(parse("1::2:3:4:5:6:7"), Ok([1, 0, 0, 0, 0, 0, 0, 0]));
    assert_eq!(parse("::1:2:3:4:5:6:7"), Ok([0; 8]));
}

#[test]
fn parse_errors() {
    let err = Err("Invalid IPv6 address");
    assert_eq!(parse(":1"), err);
    assert_eq!(parse("1:2:3:4:5:6:7"), err);
    assert_eq!(parse("1:2:3:4:5:6:7:8:9"), err);
    assert_eq!(parse("1::2::3"), err);
    assert_eq!(parse("1:::2"), err);
    assert_eq!(parse(":::"), err);
    assert_eq!(parse("12345::"), err);
    assert_eq!(parse("1:"), err);
    assert_eq!(parse("g::"), err);
    assert_eq!(parse("1:2:3:4:5:6:7:8::"), err);
    assert_eq!(parse("1:2:3:4:5:6:7:8:"), err);
    assert_eq!(parse("::ffff:1.2.3.4"), err);
    assert_eq!(parse("::a.2.3.4"), err);
    assert_eq!(parse("."), err);
}

#[test]
fn serialize_all_zero() {
    assert_eq!(text([0; 8]), "::");
}

#[test]
fn serialize_loopback() {
    assert_eq!(text([0, 0, 0, 0, 0, 0, 0, 1]), "::1");
    assert_eq!(text([1, 0, 0, 0, 0, 0, 0, 0]), "1::");
}

#[test]
fn serialize_upper_case_without_leading_zeros() {
    assert_eq!(
        text([0x2001, 0xdb8, 0, 0, 0, 0xff00, 0x42, 0x8329]),
        "2001:DB8::FF00:42:8329"
    );
    assert_eq!(text([0xabcd, 0xf, 0x10, 0x100, 0x1000, 1, 2, 3]), "ABCD:F:10:100:1000:1:2:3");
}

#[test]
fn serialize_without_zero() {
    assert_eq!(text([1, 2, 3, 4, 5, 6, 7, 8]), "1:2:3:4:5:6:7:8");
}

#[test]
fn serialize_longest_run() {
    assert_eq!(text([1, 0, 2, 0, 0, 3, 4, 5]), "1:0:2::3:4:5");
}

#[test]
fn serialize_first_of_equal_runs() {
    assert_eq!(text([1, 0, 0, 2, 0, 0, 3, 4]), "1::2:0:0:3:4");
}

#[test]
fn serialize_single_zero() {
    assert_eq!(text([1, 0, 2, 3, 4, 5, 6, 7]), "1::2:3:4:5:6:7");
}

#[test]
fn longest_zero_sequence_values() {
    assert_eq!(longest_zero_sequence(&[1, 0, 0, 2, 0, 0, 0, 3]), (4, 7));
    assert_eq!(longest_zero_sequence(&[1, 2, 3, 4, 5, 6, 7, 8]), (-1, -2));
    assert_eq!(longest_zero_sequence(&[0; 8]), (0, 8));
    assert_eq!(longest_zero_sequence(&[0, 1, 0, 1, 0, 1, 0, 1]), (0, 1));
    assert_eq!(longest_zero_sequence(&[1, 1, 1, 1, 1, 0, 0, 0]), (5, 8));
}

#[test]
fn serialize_then_parse_gives_the_address_back() {
    let addresses: [[u16; 8]; 6] = [
        [0; 8],
        [0x2001, 0xdb8, 0, 0, 0, 0, 0, 1],
        [1, 2, 3, 4, 5, 6, 7, 8],
        [0xffff, 0, 0, 0xabcd, 0, 0, 0, 0],
        [1, 2, 3, 4, 5, 6, 7, 0],
        [0, 0, 1, 2, 3, 4, 5, 6],
    ];
    for pieces in addresses.iter() {
        let s = text(*pieces);
        assert_eq!(parse(&s), Ok(*pieces), "{}", s);
    }
}

#[test]
fn serialize_then_parse_with_single_inner_zero() {
    // The one case the round trip leaves out: a single zero piece with pieces after it.
    let s = text([1, 0, 2, 3, 4, 5, 6, 7]);
    assert_eq!(parse(&s), Ok([1, 0, 0, 0, 0, 0, 0, 0]));
}
