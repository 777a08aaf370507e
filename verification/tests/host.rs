use url::{Host, Ipv6Address};

fn domain(s: &str) -> Host {
    Host::Domain(s.to_string())
}

#[test]
fn parse_empty() {
    assert_eq!(Host::parse(""), Err("Empty host"));
}

#[test]
fn parse_ipv6() {
    assert_eq!(
        Host::parse("[::1]"),
        Ok(Host::Ipv6(Ipv6Address { pieces: [0, 0, 0, 0, 0, 0, 0, 1] }))
    );
}

#[test]
fn parse_unclosed_bracket() {
    assert_eq!(Host::parse("[::1"), Err("Invalid Ipv6 address"));
    assert_eq!(Host::parse("["), Err("Invalid Ipv6 address"));
}

#[test]
fn parse_bad_ipv6() {
    assert_eq!(Host::parse("[1:2]"), Err("Invalid IPv6 address"));
    assert_eq!(Host::parse("[example]"), Err("Invalid IPv6 address"));
}

#[test]
fn parse_domain_lower_case() {
    assert_eq!(Host::parse("Example.COM"), Ok(domain("example.com")));
}

#[test]
fn parse_domain_percent_decoded() {
    assert_eq!(Host::parse("ex%41mple"), Ok(domain("example")));
    assert_eq!(Host::parse("%7e"), Ok(domain("~")));
}

#[test]
fn parse_domain_forbidden_bytes() {
    let err = Err("Invalid domain character.");
    assert_eq!(Host::parse("a%2Fb"), err);
    assert_eq!(Host::parse("exa mple"), err);
    assert_eq!(Host::parse("%zz"), err);
    assert_eq!(Host::parse("a:b"), err);
    assert_eq!(Host::parse("a]"), err);
    assert_eq!(Host::parse("a@b"), err);
    assert_eq!(Host::parse("a\\b"), err);
    assert_eq!(Host::parse("a%00"), err);
}

#[test]
fn parse_domain_non_ascii() {
    let err = Err("Non-ASCII domains (IDNA) are not supported yet.");
    assert_eq!(Host::parse("%C3%A9"), err);
    assert_eq!(Host::parse("\u{e9}.com"), err);
    assert_eq!(Host::parse("%ff"), err);
}

#[test]
fn serialize_domain() {
    assert_eq!(domain("example.com").serialize(), "example.com");
}

#[test]
fn serialize_ipv6() {
    let h = Host::Ipv6(Ipv6Address { pieces: [0x2001, 0xdb8, 0, 0, 0, 0, 0, 1] });
    assert_eq!(h.serialize(), "[2001:DB8::1]");
}

#[test]
fn parse_serialize_parse_gives_the_same_host() {
    for input in ["Ex%41mple.COM", "[2001:DB8:0:0:0:0:0:1]", "[::]", "~a-b_c"].iter() {
        let h = Host::parse(input).unwrap();
        assert_eq!(Host::parse(&h.serialize()), Ok(h.clone()), "{}", input);
    }
}
