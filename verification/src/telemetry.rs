//! What the service reports of itself and of its requests.

use vstd::prelude::*;

use crate::text::{chars_of, text_of};

verus! {

/// The name that the service reports unless it is told another one.
pub const SERVICE_NAME: &'static str = "cyeam-api";

/// The environment that the service reports unless it is told another one.
pub const ENVIRONMENT: &'static str = "production";

/// Where the reports go.
#[derive(Debug)]
pub struct Endpoints {
    pub traces: String,
    pub metrics: String,
}

/// What the service reports of itself, and where to. It reports nothing where no endpoint is
/// configured.
#[derive(Debug)]
pub struct Settings {
    pub service_name: String,
    pub environment: String,
    pub endpoints: Option<Endpoints>,
}

/// The value of an attribute of a request.
#[derive(Debug)]
pub enum AttributeValue {
    Text(String),
    Number(i64),
}

/// An attribute of a request.
#[derive(Debug)]
pub struct Attribute {
    pub key: &'static str,
    pub value: AttributeValue,
}

/// What is counted for a request: its attributes, and how far it counts as a request and as a
/// failure.
#[derive(Debug)]
pub struct RequestRecord {
    pub attributes: Vec<Attribute>,
    pub requests: u64,
    pub failures: u64,
}

/// The value of an attribute.
pub enum ValueView {
    Text(Seq<char>),
    Number(int),
}

impl View for Attribute {
    type V = (Seq<char>, ValueView);

    open spec fn view(&self) -> (Seq<char>, ValueView) {
        (
            self.key@,
            match self.value {
                AttributeValue::Text(s) => ValueView::Text(s@),
                AttributeValue::Number(n) => ValueView::Number(n as int),
            },
        )
    }
}

/// What the attributes say.
pub open spec fn attribute_views(s: Seq<Attribute>) -> Seq<(Seq<char>, ValueView)> {
    s.map_values(|a: Attribute| a@)
}

/// The text without the slashes at its end.
pub open spec fn without_slashes(s: Seq<char>) -> Seq<char>
    decreases s.len(),
{
    if s.len() > 0 && s.last() == '/' {
        without_slashes(s.drop_last())
    } else {
        s
    }
}

/// A text, or `default` where there is none.
pub open spec fn or_default(s: Option<Seq<char>>, default: Seq<char>) -> Seq<char> {
    match s {
        Some(t) => t,
        None => default,
    }
}

/// The text without the slashes at its end.
fn trim_slashes(s: &str) -> (r: String)
    ensures
        r@ == without_slashes(s@),
{
    let chars = chars_of(s);
    let mut end: usize = chars.len();
    assert(chars@.take(end as int) =~= chars@);
    while end > 0 && chars[end - 1] == '/'
        invariant
            end <= chars@.len(),
            without_slashes(chars@.take(end as int)) == without_slashes(chars@),
        decreases end,
    {
        assert(chars@.take(end as int).drop_last() =~= chars@.take(end - 1));
        end = end - 1;
    }
    let ghost kept = chars@.take(end as int);
    assert(without_slashes(kept) == kept);
    let r = text_of(&chars, 0, end);
    assert(r@ =~= kept);
    r
}

/// A text, or `default` where there is none.
fn text_or(s: Option<String>, default: &str) -> (r: String)
    ensures
        r@ == or_default(s.deep_view(), default@),
{
    match s {
        Some(t) => t,
        None => default.to_owned(),
    }
}

/// What the service reports of itself, and where to, given what is configured.
pub fn settings(
    endpoint: Option<String>,
    service_name: Option<String>,
    environment: Option<String>,
) -> (r: Settings)
    ensures
        r.service_name@ == or_default(service_name.deep_view(), SERVICE_NAME@),
        r.environment@ == or_default(environment.deep_view(), ENVIRONMENT@),
        r.endpoints is Some <==> endpoint is Some && endpoint->0@.len() > 0,
        r.endpoints matches Some(e) ==> {
            &&& e.traces@ == without_slashes(endpoint->0@) + "/v1/traces"@
            &&& e.metrics@ == without_slashes(endpoint->0@) + "/v1/metrics"@
        },
{
    let mut endpoints: Option<Endpoints> = None;
    match endpoint {
        Some(address) => {
            if chars_of(address.as_str()).len() > 0 {
                let mut traces = trim_slashes(address.as_str());
                let mut metrics = trim_slashes(address.as_str());
                traces.append("/v1/traces");
                metrics.append("/v1/metrics");
                endpoints = Some(Endpoints { traces, metrics });
            }
        },
        None => {},
    }
    Settings {
        service_name: text_or(service_name, SERVICE_NAME),
        environment: text_or(environment, ENVIRONMENT),
        endpoints,
    }
}

/// What is counted for a request: each one as a request, and one that failed on the side of the
/// service as a failure too.
pub fn request_record(method: &str, route: &str, status: u16) -> (r: RequestRecord)
    ensures
        attribute_views(r.attributes@) == seq![
            ("http.request.method"@, ValueView::Text(method@)),
            ("http.route"@, ValueView::Text(route@)),
            ("http.response.status_code"@, ValueView::Number(status as int)),
        ],
        r.requests == 1,
        r.failures == (if status >= 500 {
            1int
        } else {
            0int
        }),
{
    let mut attributes: Vec<Attribute> = Vec::new();
    attributes.push(
        Attribute {
            key: "http.request.method",
            value: AttributeValue::Text(method.to_owned()),
        },
    );
    attributes.push(
        Attribute { key: "http.route", value: AttributeValue::Text(route.to_owned()) },
    );
    attributes.push(
        Attribute {
            key: "http.response.status_code",
            value: AttributeValue::Number(status as i64),
        },
    );
    assert(attribute_views(attributes@) =~= seq![
        ("http.request.method"@, ValueView::Text(method@)),
        ("http.route"@, ValueView::Text(route@)),
        ("http.response.status_code"@, ValueView::Number(status as int)),
    ]);
    let failures: u64 = if status >= 500 {
        1
    } else {
        0
    };
    RequestRecord { attributes, requests: 1, failures }
}

} // verus!
