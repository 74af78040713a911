//! What the service says in HTTP besides the bodies of its replies.

use vstd::prelude::*;

use crate::number::{self, parse_number};
use crate::text::same_text;

verus! {

/// The port that the service listens on unless it is told another one.
pub const DEFAULT_PORT: u16 = 8080;

/// A refused request: the status of the reply and what was wrong.
#[derive(Debug)]
pub struct ApiError {
    pub status: u16,
    pub error: &'static str,
}

/// The status of a reply and what was wrong with the request.
#[verifier::ext_equal]
pub struct Refusal {
    pub status: int,
    pub error: Seq<char>,
}

impl View for ApiError {
    type V = Refusal;

    open spec fn view(&self) -> Refusal {
        Refusal { status: self.status as int, error: self.error@ }
    }
}

/// A header to set in a reply.
#[derive(Debug)]
pub struct Header {
    pub name: &'static str,
    pub value: String,
}

impl View for Header {
    type V = (Seq<char>, Seq<char>);

    open spec fn view(&self) -> (Seq<char>, Seq<char>) {
        (self.name@, self.value@)
    }
}

/// What the headers say.
pub open spec fn header_views(s: Seq<Header>) -> Seq<(Seq<char>, Seq<char>)> {
    s.map_values(|h: Header| h@)
}

/// The status of a reply and the headers that come with its body.
#[derive(Debug)]
pub struct Head {
    pub status: u16,
    pub headers: Vec<Header>,
}

/// What becomes of a request as to its origin.
#[derive(Debug)]
pub enum Cors {
    /// It is answered with a status and nothing else.
    Answer(u16),
    /// It is handed on, and the reply gets these headers.
    Forward(Vec<Header>),
}

/// The byte may stand in the text of a header: a visible character, a space or a tab.
pub open spec fn visible(b: u8) -> bool {
    32 <= b < 127 || b == 9
}

/// The text of a header's value, where it has one.
pub open spec fn header_text(value: Seq<u8>) -> Option<Seq<char>> {
    if forall|i: int| 0 <= i < value.len() ==> visible(#[trigger] value[i]) {
        Some(value.map_values(|b: u8| b as char))
    } else {
        None
    }
}

/// Pages of this origin may read the replies.
pub open spec fn may_read(origin: Seq<u8>) -> bool {
    header_text(origin) == Some("https://www.cyeam.com"@) || header_text(origin) == Some(
        "https://cyeam.com"@,
    )
}

/// The header that lets pages of the origin read the reply, and the one that keeps it from being
/// given to others. Other origins get none.
pub open spec fn origin_headers(origin: Option<Seq<u8>>) -> Seq<(Seq<char>, Seq<char>)> {
    match origin {
        Some(o) => if may_read(o) {
            seq![
                ("access-control-allow-origin"@, header_text(o)->0),
                ("vary"@, "Origin"@),
            ]
        } else {
            seq![]
        },
        None => seq![],
    }
}

/// A refused request.
pub fn api_error(status: u16, error: &'static str) -> (r: ApiError)
    ensures
        r@ == (Refusal { status: status as int, error: error@ }),
{
    ApiError { status, error }
}

/// The status and the headers of a reply: one with a result may be kept by caches, one to a refused
/// request has the status of the refusal.
pub fn head<T>(reply: &Result<T, ApiError>) -> (r: Head)
    ensures
        match *reply {
            Ok(_) => r.status == 200 && header_views(r.headers@) == seq![
                ("cache-control"@, "public, max-age=300, s-maxage=86400"@),
            ],
            Err(e) => r.status == e.status && header_views(r.headers@) == Seq::<
                (Seq<char>, Seq<char>),
            >::empty(),
        },
{
    let mut headers: Vec<Header> = Vec::new();
    match reply {
        Ok(_) => {
            headers.push(
                Header {
                    name: "cache-control",
                    value: "public, max-age=300, s-maxage=86400".to_owned(),
                },
            );
            assert(header_views(headers@) =~= seq![
                ("cache-control"@, "public, max-age=300, s-maxage=86400"@),
            ]);
            Head { status: 200, headers }
        },
        Err(e) => {
            assert(header_views(headers@) =~= seq![]);
            Head { status: e.status, headers }
        },
    }
}

/// The text of a header's value, where it has one.
pub fn text_of_header(value: &[u8]) -> (r: Option<String>)
    ensures
        r.deep_view() == header_text(value@),
{
    let mut out = String::new();
    let ghost all = value@.map_values(|b: u8| b as char);
    assert(out@ =~= all.take(0));
    for i in 0..value.len()
        invariant
            all == value@.map_values(|b: u8| b as char),
            forall|j: int| 0 <= j < i ==> visible(#[trigger] value@[j]),
            out@ == all.take(i as int),
    {
        let b: u8 = value[i];
        if !((32 <= b && b < 127) || b == 9) {
            return None;
        }
        out.push(b as char);
        assert(out@ =~= all.take(i + 1));
    }
    assert(all.take(all.len() as int) =~= all);
    Some(out)
}

/// Whether pages of the origin may read the replies.
pub fn allowed_origin(origin: &[u8]) -> (r: bool)
    ensures
        r == may_read(origin@),
{
    match text_of_header(origin) {
        Some(text) => same_text(text.as_str(), "https://www.cyeam.com") || same_text(
            text.as_str(),
            "https://cyeam.com",
        ),
        None => false,
    }
}

/// What becomes of a request with the given method and origin.
pub fn cors(method: &str, origin: Option<&[u8]>) -> (r: Cors)
    ensures
        match r {
            Cors::Answer(status) => method@ == "OPTIONS"@ && status == 204,
            Cors::Forward(headers) => method@ != "OPTIONS"@ && header_views(headers@)
                == origin_headers(
                match origin {
                    Some(o) => Some(o@),
                    None => None,
                },
            ),
        },
{
    if same_text(method, "OPTIONS") {
        return Cors::Answer(204);
    }
    let mut headers: Vec<Header> = Vec::new();
    assert(header_views(headers@) =~= seq![]);
    match origin {
        Some(o) => {
            if allowed_origin(o) {
                match text_of_header(o) {
                    Some(value) => {
                        headers.push(Header { name: "access-control-allow-origin", value });
                        headers.push(Header { name: "vary", value: "Origin".to_owned() });
                        assert(header_views(headers@) =~= origin_headers(Some(o@)));
                    },
                    None => {},
                }
            }
        },
        None => {},
    }
    Cors::Forward(headers)
}

/// The port to listen on: the one that is asked for, if it is a port.
pub open spec fn port_for(value: Option<Seq<char>>) -> int {
    match value {
        Some(v) => match number::number(v, 10, u16::MAX as int) {
            Some(n) => n,
            None => DEFAULT_PORT as int,
        },
        None => DEFAULT_PORT as int,
    }
}

/// The port to listen on: the one that is asked for, if it is a port.
pub fn port(value: Option<&str>) -> (r: u16)
    ensures
        r == port_for(
            match value {
                Some(v) => Some(v@),
                None => None,
            },
        ),
{
    match value {
        Some(v) => match parse_number(v, 10, 65535) {
            Some(n) => n as u16,
            None => DEFAULT_PORT,
        },
        None => DEFAULT_PORT,
    }
}

/// The reply to a question after the service's health.
pub fn health() -> (r: &'static str)
    ensures
        r@ == "ok"@,
{
    "ok"
}

/// The bytes of a text of visible characters.
pub open spec fn bytes_of(s: Seq<char>) -> Seq<u8> {
    s.map_values(|c: char| c as u8)
}

/// Only pages of the site's two origins may read the replies: any other origin gets no header.
pub proof fn law_only_the_site_may_read(origin: Seq<u8>)
    ensures
        origin_headers(Some(origin)).len() > 0 <==> origin == bytes_of("https://www.cyeam.com"@)
            || origin == bytes_of("https://cyeam.com"@),
{
    reveal_strlit("https://www.cyeam.com");
    reveal_strlit("https://cyeam.com");
    lemma_text_of_bytes(origin, "https://www.cyeam.com"@);
    lemma_text_of_bytes(origin, "https://cyeam.com"@);
}

/// The text of a header's value is made of its bytes.
pub proof fn lemma_text_of_bytes(value: Seq<u8>, s: Seq<char>)
    requires
        forall|i: int| 0 <= i < s.len() ==> 32 <= (#[trigger] s[i]) as int && (s[i] as int) < 127,
    ensures
        header_text(value) == Some(s) <==> value == bytes_of(s),
{
    if header_text(value) == Some(s) {
        assert forall|i: int| 0 <= i < value.len() implies value[i] == bytes_of(s)[i] by {
            assert(visible(value[i]));
            assert(s[i] == value[i] as char);
        }
        assert(value =~= bytes_of(s));
    }
    if value == bytes_of(s) {
        assert forall|i: int| 0 <= i < value.len() implies visible(#[trigger] value[i]) by {
            assert(value[i] == s[i] as u8);
        }
        assert(value.map_values(|b: u8| b as char) =~= s);
    }
}

} // verus!
