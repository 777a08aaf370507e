use std::hash::{Hash, Hasher};
use url::{silent_handler, Host, Ipv6Address, RelativeSchemeData, SchemeData, Url};

fn relative(username: &str, password: Option<&str>, host: Host, port: &str, path: &[&str]) -> SchemeData {
    SchemeData::RelativeSchemeData(RelativeSchemeData {
        username: username.to_string(),
        password: password.map(|p| p.to_string()),
        host,
        port: port.to_string(),
        path: path.iter().map(|s| s.to_string()).collect(),
    })
}

fn http_example() -> Url {
    Url {
        scheme: "http".to_string(),
        scheme_data: relative("", None, Host::Domain("example.com".to_string()), "", &["a", "b"]),
        query: Some("q=1".to_string()),
        fragment: Some("top".to_string()),
    }
}

fn mailto_example() -> Url {
    Url {
        scheme: "mailto".to_string(),
        scheme_data: SchemeData::OtherSchemeData("someone@example.com".to_string()),
        query: None,
        fragment: None,
    }
}

#[test]
fn serialize_relative() {
    assert_eq!(http_example().serialize(), "http://example.com/a/b?q=1#top");
}

#[test]
fn serialize_no_fragment_relative() {
    assert_eq!(http_example().serialize_no_fragment(), "http://example.com/a/b?q=1");
}

#[test]
fn serialize_userinfo_port_and_empty_path() {
    let u = Url {
        scheme: "http".to_string(),
        scheme_data: relative("user", Some("pw"), Host::Domain("example.com".to_string()), "8080", &[]),
        query: None,
        fragment: None,
    };
    assert_eq!(u.serialize(), "http://user:pw@example.com:8080/");
}

#[test]
fn serialize_empty_password() {
    let u = Url {
        scheme: "ftp".to_string(),
        scheme_data: relative("", Some(""), Host::Domain("h".to_string()), "", &[""]),
        query: Some(String::new()),
        fragment: Some(String::new()),
    };
    assert_eq!(u.serialize(), "ftp://:@h/?#");
}

#[test]
fn serialize_username_only() {
    let u = Url {
        scheme: "ssh".to_string(),
        scheme_data: relative("git", None, Host::Domain("h".to_string()), "", &["x"]),
        query: None,
        fragment: None,
    };
    assert_eq!(u.serialize(), "ssh://git@h/x");
}

#[test]
fn serialize_ipv6_host() {
    let u = Url {
        scheme: "http".to_string(),
        scheme_data: relative(
            "",
            None,
            Host::Ipv6(Ipv6Address { pieces: [0, 0, 0, 0, 0, 0, 0, 1] }),
            "80",
            &["index.html"],
        ),
        query: None,
        fragment: None,
    };
    assert_eq!(u.serialize(), "http://[::1]:80/index.html");
}

#[test]
fn serialize_other_scheme() {
    assert_eq!(mailto_example().serialize(), "mailto:someone@example.com");
}

#[test]
fn getters_on_relative_url() {
    let u = http_example();
    assert_eq!(u.non_relative_scheme_data(), None);
    assert_eq!(u.relative_scheme_data().map(|d| d.username.as_str()), Some(""));
    assert_eq!(u.host(), Some(&Host::Domain("example.com".to_string())));
    assert_eq!(u.port(), Some(""));
    assert_eq!(u.path(), Some(&["a".to_string(), "b".to_string()][..]));
    assert_eq!(u.serialize_path(), Some("/a/b".to_string()));
}

#[test]
fn getters_on_other_url() {
    let u = mailto_example();
    assert_eq!(u.non_relative_scheme_data(), Some("someone@example.com"));
    assert!(u.relative_scheme_data().is_none());
    assert_eq!(u.host(), None);
    assert_eq!(u.port(), None);
    assert_eq!(u.path(), None);
    assert_eq!(u.serialize_path(), None);
}

#[test]
fn relative_serialize_path() {
    match relative("", None, Host::Domain("h".to_string()), "", &[]) {
        SchemeData::RelativeSchemeData(d) => assert_eq!(d.serialize_path(), "/"),
        _ => unreachable!(),
    }
    match relative("", None, Host::Domain("h".to_string()), "", &["a", "", "c"]) {
        SchemeData::RelativeSchemeData(d) => assert_eq!(d.serialize_path(), "/a//c"),
        _ => unreachable!(),
    }
}

#[test]
fn equal_urls() {
    assert_eq!(http_example(), http_example().clone());
    assert_ne!(http_example(), mailto_example());
}

#[test]
fn silent_handler_accepts() {
    assert_eq!(silent_handler("anything"), Ok(()));
}

fn hash_of<T: Hash + ?Sized>(value: &T) -> u64 {
    let mut hasher = std::collections::hash_map::DefaultHasher::new();
    value.hash(&mut hasher);
    hasher.finish()
}

#[test]
fn url_hash_is_the_hash_of_its_text() {
    let u = http_example();
    assert_eq!(hash_of(&u), hash_of(&u.serialize()));
    assert_eq!(hash_of(&u), hash_of(&u.clone()));
    assert_eq!(hash_of(&mailto_example()), hash_of(&"mailto:someone@example.com".to_string()));
}
