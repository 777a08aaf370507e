//! A URL as its parts, and its serialisation back into a string.
use vstd::prelude::*;

use crate::host::{host_text, Host};
use crate::text::push_char;

verus! {

/// A parsed URL.
#[derive(Clone, PartialEq, Eq, Debug)]
pub struct Url {
    pub scheme: String,
    pub scheme_data: SchemeData,
    pub query: Option<String>,
    pub fragment: Option<String>,
}

/// What follows the scheme: the parts of a relative URL, or an opaque
/// string (for `data:`, `mailto:` and the like).
#[derive(Clone, PartialEq, Eq, Debug)]
pub enum SchemeData {
    RelativeSchemeData(RelativeSchemeData),
    OtherSchemeData(String),
}

/// The parts of a URL with a relative scheme.
#[derive(Clone, PartialEq, Eq, Debug)]
pub struct RelativeSchemeData {
    pub username: String,
    pub password: Option<String>,
    pub host: Host,
    pub port: String,
    pub path: Vec<String>,
}

/// The path segments, each after a slash.
pub open spec fn path_segments_text(path: Seq<Seq<char>>) -> Seq<char>
    decreases path.len(),
{
    if path.len() == 0 {
        Seq::empty()
    } else {
        path_segments_text(path.drop_last()) + seq!['/'] + path.last()
    }
}

/// The text of a path: `/` for an empty path, else each segment after a slash.
pub open spec fn path_text(path: Seq<Seq<char>>) -> Seq<char> {
    if path.len() == 0 {
        seq!['/']
    } else {
        path_segments_text(path)
    }
}

/// `text` after the character `c`, or nothing where there is no text.
pub open spec fn optional_part(c: char, text: Option<Seq<char>>) -> Seq<char> {
    match text {
        Some(t) => seq![c] + t,
        None => Seq::empty(),
    }
}

/// The view of an optional string.
pub open spec fn optional_view(s: Option<String>) -> Option<Seq<char>> {
    match s {
        Some(t) => Some(t@),
        None => None,
    }
}

/// The user information before the host: `username[:password]@`, or nothing
/// where the username is empty and there is no password.
pub open spec fn userinfo_text(username: Seq<char>, password: Option<Seq<char>>) -> Seq<char> {
    if username.len() > 0 || password is Some {
        username + optional_part(':', password) + seq!['@']
    } else {
        Seq::empty()
    }
}

/// The port after a colon, or nothing for an empty port.
pub open spec fn port_text(port: Seq<char>) -> Seq<char> {
    if port.len() > 0 {
        seq![':'] + port
    } else {
        Seq::empty()
    }
}

/// The text of the parts of a relative URL: `//`, user information, host,
/// port and path.
pub open spec fn relative_text(d: RelativeSchemeData) -> Seq<char> {
    seq!['/', '/'] + userinfo_text(d.username@, optional_view(d.password)) + host_text(d.host@)
        + port_text(d.port@) + path_text(d.path.deep_view())
}

/// The text of what follows the scheme and its colon.
pub open spec fn scheme_data_text(sd: SchemeData) -> Seq<char> {
    match sd {
        SchemeData::RelativeSchemeData(d) => relative_text(d),
        SchemeData::OtherSchemeData(s) => s@,
    }
}

/// The text of a URL without its fragment.
pub open spec fn url_text_no_fragment(u: Url) -> Seq<char> {
    u.scheme@ + seq![':'] + scheme_data_text(u.scheme_data) + optional_part('?', optional_view(u.query))
}

/// The text of a URL.
pub open spec fn url_text(u: Url) -> Seq<char> {
    url_text_no_fragment(u) + optional_part('#', optional_view(u.fragment))
}

/// Appends each segment of `path` after a slash.
fn push_path_segments(result: &mut String, path: &Vec<String>)
    ensures
        final(result)@ == old(result)@ + path_segments_text(path.deep_view()),
{
    let ghost start = result@;
    let ghost segs = path.deep_view();
    let mut k: usize = 0;
    while k < path.len()
        invariant
            0 <= k <= path@.len(),
            segs == path.deep_view(),
            segs.len() == path@.len(),
            result@ == start + path_segments_text(segs.take(k as int)),
        decreases path@.len() - k,
    {
        push_char(result, '/');
        result.append(path[k].as_str());
        proof {
            assert(segs.take(k + 1).drop_last() =~= segs.take(k as int));
            assert(segs[k as int] == path@[k as int]@);
        }
        k += 1;
    }
    proof {
        assert(segs.take(path@.len() as int) =~= segs);
    }
}

/// Trusted: `<String as Hash>::hash` feeds the string into the hasher; no
/// contract is claimed of it.
pub assume_specification<H: core::hash::Hasher>[ <String as core::hash::Hash>::hash::<H> ](
    s: &String,
    state: &mut H,
);

impl core::hash::Hash for Url {
    fn hash<H: core::hash::Hasher>(&self, state: &mut H) {
        self.serialize().hash(state)
    }
}

impl Url {
    /// The text of the URL, with its fragment after `#` where it has one.
    pub fn serialize(&self) -> (r: String)
        ensures
            r@ == url_text(*self),
    {
        let mut result = self.serialize_no_fragment();
        match &self.fragment {
            None => (),
            Some(fragment) => {
                push_char(&mut result, '#');
                result.append(fragment.as_str());
            },
        }
        proof {
            assert(result@ =~= url_text(*self));
        }
        result
    }

    /// The text of the URL without its fragment.
    pub fn serialize_no_fragment(&self) -> (r: String)
        ensures
            r@ == url_text_no_fragment(*self),
    {
        let mut result = self.scheme.clone();
        push_char(&mut result, ':');
        match &self.scheme_data {
            SchemeData::RelativeSchemeData(d) => {
                let ghost before = result@;
                push_char(&mut result, '/');
                push_char(&mut result, '/');
                if !d.username.as_str().is_empty() || d.password.is_some() {
                    result.append(d.username.as_str());
                    match &d.password {
                        None => (),
                        Some(password) => {
                            push_char(&mut result, ':');
                            result.append(password.as_str());
                        },
                    }
                    push_char(&mut result, '@');
                }
                let host_text = d.host.serialize();
                result.append(host_text.as_str());
                if !d.port.as_str().is_empty() {
                    push_char(&mut result, ':');
                    result.append(d.port.as_str());
                }
                if d.path.len() > 0 {
                    push_path_segments(&mut result, &d.path);
                } else {
                    push_char(&mut result, '/');
                }
                proof {
                    assert(result@ =~= before + relative_text(*d));
                }
            },
            SchemeData::OtherSchemeData(data) => result.append(data.as_str()),
        }
        match &self.query {
            None => (),
            Some(query) => {
                push_char(&mut result, '?');
                result.append(query.as_str());
            },
        }
        proof {
            assert(result@ =~= url_text_no_fragment(*self));
        }
        result
    }

    /// The opaque scheme data of a non-relative URL.
    pub fn non_relative_scheme_data(&self) -> (r: Option<&str>)
        ensures
            match self.scheme_data {
                SchemeData::RelativeSchemeData(_) => r is None,
                SchemeData::OtherSchemeData(s) => r is Some && r.unwrap()@ == s@,
            },
    {
        match &self.scheme_data {
            SchemeData::RelativeSchemeData(..) => None,
            SchemeData::OtherSchemeData(scheme_data) => Some(scheme_data.as_str()),
        }
    }

    /// The parts of a relative URL.
    pub fn relative_scheme_data(&self) -> (r: Option<&RelativeSchemeData>)
        ensures
            match self.scheme_data {
                SchemeData::RelativeSchemeData(d) => r == Some(&d),
                SchemeData::OtherSchemeData(_) => r is None,
            },
    {
        match &self.scheme_data {
            SchemeData::RelativeSchemeData(scheme_data) => Some(scheme_data),
            SchemeData::OtherSchemeData(..) => None,
        }
    }

    /// The host of a relative URL.
    pub fn host(&self) -> (r: Option<&Host>)
        ensures
            match self.scheme_data {
                SchemeData::RelativeSchemeData(d) => r == Some(&d.host),
                SchemeData::OtherSchemeData(_) => r is None,
            },
    {
        match &self.scheme_data {
            SchemeData::RelativeSchemeData(scheme_data) => Some(&scheme_data.host),
            SchemeData::OtherSchemeData(..) => None,
        }
    }

    /// The port of a relative URL, as written (empty where none was given).
    pub fn port(&self) -> (r: Option<&str>)
        ensures
            match self.scheme_data {
                SchemeData::RelativeSchemeData(d) => r is Some && r.unwrap()@ == d.port@,
                SchemeData::OtherSchemeData(_) => r is None,
            },
    {
        match &self.scheme_data {
            SchemeData::RelativeSchemeData(scheme_data) => Some(scheme_data.port.as_str()),
            SchemeData::OtherSchemeData(..) => None,
        }
    }

    /// The path segments of a relative URL.
    pub fn path(&self) -> (r: Option<&[String]>)
        ensures
            match self.scheme_data {
                SchemeData::RelativeSchemeData(d) => r is Some && r.unwrap()@ == d.path@,
                SchemeData::OtherSchemeData(_) => r is None,
            },
    {
        match &self.scheme_data {
            SchemeData::RelativeSchemeData(scheme_data) => Some(scheme_data.path.as_slice()),
            SchemeData::OtherSchemeData(..) => None,
        }
    }

    /// The text of the path of a relative URL.
    pub fn serialize_path(&self) -> (r: Option<String>)
        ensures
            match self.scheme_data {
                SchemeData::RelativeSchemeData(d) => r is Some && r.unwrap()@ == path_text(
                    d.path.deep_view(),
                ),
                SchemeData::OtherSchemeData(_) => r is None,
            },
    {
        match &self.scheme_data {
            SchemeData::RelativeSchemeData(scheme_data) => Some(scheme_data.serialize_path()),
            SchemeData::OtherSchemeData(..) => None,
        }
    }
}

impl RelativeSchemeData {
    /// The text of the path: `/` for an empty path, else each segment after a
    /// slash.
    pub fn serialize_path(&self) -> (r: String)
        ensures
            r@ == path_text(self.path.deep_view()),
    {
        if self.path.len() == 0 {
            let mut result = String::new();
            push_char(&mut result, '/');
            result
        } else {
            let mut result = String::new();
            push_path_segments(&mut result, &self.path);
            proof {
                assert(result@ =~= path_text(self.path.deep_view()));
            }
            result
        }
    }
}

/// The text of a URL is its text without the fragment, followed by `#` and
/// the fragment where there is one; without a fragment the two are the same.
pub proof fn url_text_extends_no_fragment(u: Url)
    ensures
        url_text(u) == url_text_no_fragment(u) + optional_part('#', optional_view(u.fragment)),
        u.fragment is None ==> url_text(u) == url_text_no_fragment(u),
        url_text(u).take(url_text_no_fragment(u).len() as int) == url_text_no_fragment(u),
{
    assert(url_text(u).take(url_text_no_fragment(u).len() as int) =~= url_text_no_fragment(u));
    if u.fragment is None {
        assert(url_text(u) =~= url_text_no_fragment(u));
    }
}

/// The total length of the path segments.
pub open spec fn segments_length(path: Seq<Seq<char>>) -> nat
    decreases path.len(),
{
    if path.len() == 0 {
        0
    } else {
        segments_length(path.drop_last()) + path.last().len()
    }
}

/// Each segment, after its slash, in order: segment `i` starts at
/// `i + segments_length(path.take(i))`.
proof fn lemma_path_segments_text_shape(path: Seq<Seq<char>>)
    ensures
        path_segments_text(path).len() == path.len() + segments_length(path),
        forall|i: int|
            0 <= i < path.len() ==> #[trigger] path_segments_text(path).subrange(
                i + segments_length(path.take(i)),
                i + 1 + segments_length(path.take(i + 1)),
            ) == seq!['/'] + path[i],
    decreases path.len(),
{
    if path.len() > 0 {
        let q = path.drop_last();
        let n = path.len() - 1;
        lemma_path_segments_text_shape(q);
        let t = path_segments_text(path);
        let tq = path_segments_text(q);
        assert(t == tq + seq!['/'] + path.last());
        assert(path.take(n) =~= q);
        assert(path.take(n + 1) =~= path);
        assert(path.take(n + 1).drop_last() =~= q);
        assert forall|i: int| 0 <= i < path.len() implies #[trigger] t.subrange(
            i + segments_length(path.take(i)),
            i + 1 + segments_length(path.take(i + 1)),
        ) == seq!['/'] + path[i] by {
            if i < n {
                assert(path.take(i) =~= q.take(i));
                assert(path.take(i + 1) =~= q.take(i + 1));
                assert(q.take(i + 1).drop_last() =~= q.take(i));
                lemma_segments_length_prefix(q, i + 1);
                assert(path[i] == q[i]);
                assert(tq.subrange(
                    i + segments_length(q.take(i)),
                    i + 1 + segments_length(q.take(i + 1)),
                ) == seq!['/'] + q[i]);
                assert(t.subrange(
                    i + segments_length(q.take(i)),
                    i + 1 + segments_length(q.take(i + 1)),
                ) =~= tq.subrange(
                    i + segments_length(q.take(i)),
                    i + 1 + segments_length(q.take(i + 1)),
                ));
            } else {
                assert(t.subrange(n + segments_length(q), t.len() as int) =~= seq!['/']
                    + path.last());
            }
        }
    }
}

/// The segments of a prefix are no longer than all the segments.
proof fn lemma_segments_length_prefix(path: Seq<Seq<char>>, i: int)
    requires
        0 <= i <= path.len(),
    ensures
        segments_length(path.take(i)) <= segments_length(path),
    decreases path.len(),
{
    if i < path.len() {
        assert(path.drop_last().take(i) =~= path.take(i));
        lemma_segments_length_prefix(path.drop_last(), i);
    } else {
        assert(path.take(i) =~= path);
    }
}

/// The text of a path: `/` alone for no segments; otherwise exactly one `/`
/// before each segment, every segment in order and none skipped (empty
/// ones included), so its length is the number of segments plus their
/// total length.
pub proof fn path_text_shape(path: Seq<Seq<char>>)
    ensures
        path.len() == 0 ==> path_text(path) == seq!['/'],
        path.len() > 0 ==> path_text(path).len() == path.len() + segments_length(path),
        path.len() > 0 ==> forall|i: int|
            0 <= i < path.len() ==> #[trigger] path_text(path).subrange(
                i + segments_length(path.take(i)),
                i + 1 + segments_length(path.take(i + 1)),
            ) == seq!['/'] + path[i],
{
    lemma_path_segments_text_shape(path);
}

/// Where a URL has a query, its text without the fragment ends with `?`
/// and the query, whatever its scheme data; its full text then ends with
/// `?`, the query, and `#` and the fragment where there is one. The text
/// always starts with the scheme and `:`.
pub proof fn url_text_query_and_fragment(u: Url)
    ensures
        url_text(u).len() >= u.scheme@.len() + 1,
        url_text(u).take(u.scheme@.len() as int + 1) == u.scheme@ + seq![':'],
        u.query matches Some(q) ==> {
            let t = url_text_no_fragment(u);
            &&& t.len() >= q@.len() + 1
            &&& t.subrange(t.len() - q@.len() - 1, t.len() as int) == seq!['?'] + q@
        },
        u.query matches Some(q) ==> (u.fragment is None ==> {
            let t = url_text(u);
            &&& t.len() >= q@.len() + 1
            &&& t.subrange(t.len() - q@.len() - 1, t.len() as int) == seq!['?'] + q@
        }),
        u.query matches Some(q) ==> (u.fragment matches Some(f) ==> {
            let t = url_text(u);
            let tail = seq!['?'] + q@ + seq!['#'] + f@;
            &&& t.len() >= tail.len()
            &&& t.subrange(t.len() - tail.len(), t.len() as int) == tail
        }),
        u.query is None ==> u.fragment is None ==> url_text(u) == u.scheme@ + seq![':']
            + scheme_data_text(u.scheme_data),
{
    let head = u.scheme@ + seq![':'] + scheme_data_text(u.scheme_data);
    assert(url_text(u).take(u.scheme@.len() as int + 1) =~= u.scheme@ + seq![':']);
    if let Some(q) = u.query {
        let t = url_text_no_fragment(u);
        assert(t =~= head + (seq!['?'] + q@));
        assert(t.subrange(t.len() - q@.len() - 1, t.len() as int) =~= seq!['?'] + q@);
        match u.fragment {
            None => {
                assert(url_text(u) =~= t);
            },
            Some(f) => {
                let tail = seq!['?'] + q@ + seq!['#'] + f@;
                assert(url_text(u) =~= head + tail);
                assert(url_text(u).subrange(
                    url_text(u).len() - tail.len(),
                    url_text(u).len() as int,
                ) =~= tail);
            },
        }
    } else {
        if u.fragment is None {
            assert(url_text(u) =~= head);
        }
    }
}

} // verus!
