//! The client: credentials and network, and the requests it makes out of a
//! method, a path and parameters.

use crate::params::{pairs_view, sorted_entries, Pair, Params};
use crate::signer::{generate_signature, signature};
use crate::timestamp::{decimal, decimal_text, unix_millis};
use crate::wire::{form_urlencode, form_urlencoded, json_encode, json_object};
use vstd::prelude::*;
use vstd::string::*;

verus! {

/// Base URL of the production network.
pub const MAINNET_URL: &'static str = "https://api.bybit.com";

/// Base URL of the test network.
pub const TESTNET_URL: &'static str = "https://api-testnet.bybit.com";

/// The tolerance, in milliseconds, that every request asks for between its
/// timestamp and the server's time.
pub const RECV_WINDOW: &'static str = "50000";

/// How a request is made: `GET` reads, `POST` writes.
#[derive(Clone, Copy, Debug, PartialEq, Eq, Structural)]
pub enum Method {
    POST,
    GET,
}

/// What can keep a request from being made.
#[derive(Clone, Copy, Debug, PartialEq, Eq, Structural)]
pub enum RequestError {
    /// The system clock stands before the Unix epoch, so there is no
    /// timestamp to sign.
    Clock,
}

impl RequestError {
    /// A short description of the error.
    pub fn message(&self) -> (r: &'static str)
        ensures
            r@ == match *self {
                RequestError::Clock => "system clock is before the Unix epoch"@,
            },
    {
        match self {
            RequestError::Clock => "system clock is before the Unix epoch",
        }
    }
}

/// A request as the caller describes it.
#[derive(Clone, Debug)]
pub struct Request {
    pub method: Method,
    pub path: String,
    pub params: Params,
}

/// A request ready to be sent: where it goes, what it carries, and the
/// headers that authenticate it.
#[derive(Clone, Debug)]
pub struct SignedRequest {
    pub method: Method,
    pub url: String,
    pub body: Option<String>,
    pub headers: Vec<(String, String)>,
    /// The timestamp that was signed; the same text as in the timestamp
    /// header.
    pub timestamp: String,
}

/// A signed request as plain values.
pub ghost struct SignedRequestView {
    pub method: Method,
    pub url: Seq<char>,
    pub body: Option<Seq<char>>,
    pub headers: Seq<Pair>,
    pub timestamp: Seq<char>,
}

impl View for SignedRequest {
    type V = SignedRequestView;

    open spec fn view(&self) -> SignedRequestView {
        SignedRequestView {
            method: self.method,
            url: self.url@,
            body: match self.body {
                Some(text) => Some(text@),
                None => None,
            },
            headers: pairs_view(self.headers@),
            timestamp: self.timestamp@,
        }
    }
}

/// Credentials and network of a client. The secret key signs requests and is
/// never part of one.
pub struct RustClient {
    key: String,
    secret_key: String,
    is_test_net: bool,
}

/// A client as plain values.
pub ghost struct ClientView {
    pub key: Seq<char>,
    pub secret_key: Seq<char>,
    pub is_test_net: bool,
}

impl View for RustClient {
    type V = ClientView;

    closed spec fn view(&self) -> ClientView {
        ClientView { key: self.key@, secret_key: self.secret_key@, is_test_net: self.is_test_net }
    }
}

/// The base URL of the chosen network.
pub open spec fn base_url_of(is_test_net: bool) -> Seq<char> {
    if is_test_net {
        TESTNET_URL@
    } else {
        MAINNET_URL@
    }
}

/// The headers that every request carries, in the order in which they are
/// attached.
pub open spec fn common_headers(
    client: ClientView,
    params: Map<Seq<char>, Seq<char>>,
    timestamp: Seq<char>,
) -> Seq<Pair> {
    seq![
        ("X-BAPI-SIGN-TYPE"@, "2"@),
        (
            "X-BAPI-SIGN"@,
            signature(client.secret_key, client.key, RECV_WINDOW@, params, timestamp),
        ),
        ("X-BAPI-API-KEY"@, client.key),
        ("X-BAPI-TIMESTAMP"@, timestamp),
        ("X-BAPI-RECV-WINDOW"@, RECV_WINDOW@),
        ("Content-Type"@, "application/json"@),
    ]
}

/// The parameters as they are sent: a query string for `GET`, a JSON object
/// for `POST`.
pub open spec fn payload_of(method: Method, params: Map<Seq<char>, Seq<char>>) -> Seq<char> {
    match method {
        Method::GET => form_urlencoded(sorted_entries(params)),
        Method::POST => json_object(sorted_entries(params)),
    }
}

/// What follows the base URL: the path, and for `GET` the query string.
pub open spec fn target_of(method: Method, path: Seq<char>, payload: Seq<char>) -> Seq<char> {
    match method {
        Method::GET => "/"@ + path + "?"@ + payload,
        Method::POST => "/"@ + path,
    }
}

/// The signed request that carries the given payload.
pub open spec fn framed_request(
    client: ClientView,
    method: Method,
    path: Seq<char>,
    params: Map<Seq<char>, Seq<char>>,
    timestamp: Seq<char>,
    payload: Seq<char>,
) -> SignedRequestView {
    SignedRequestView {
        method,
        url: base_url_of(client.is_test_net) + target_of(method, path, payload),
        body: match method {
            Method::GET => None,
            Method::POST => Some(payload),
        },
        headers: common_headers(client, params, timestamp),
        timestamp,
    }
}

/// The signed request for a method, a path and parameters at a timestamp.
pub open spec fn signed_request(
    client: ClientView,
    method: Method,
    path: Seq<char>,
    params: Map<Seq<char>, Seq<char>>,
    timestamp: Seq<char>,
) -> SignedRequestView {
    framed_request(client, method, path, params, timestamp, payload_of(method, params))
}

impl RustClient {
    /// A client for the given credentials, on the test network or on the
    /// production network.
    pub fn new(key: &str, secret_key: &str, is_test_net: bool) -> (r: RustClient)
        ensures
            r@ == (ClientView { key: key@, secret_key: secret_key@, is_test_net }),
    {
        RustClient {
            key: String::from_str(key),
            secret_key: String::from_str(secret_key),
            is_test_net,
        }
    }

    /// The API key.
    pub fn key(&self) -> (r: &str)
        ensures
            r@ == self@.key,
    {
        self.key.as_str()
    }

    /// Whether the client talks to the test network.
    pub fn is_test_net(&self) -> (r: bool)
        ensures
            r == self@.is_test_net,
    {
        self.is_test_net
    }

    /// The base URL of the client's network.
    pub fn base_url(&self) -> (r: &'static str)
        ensures
            r@ == base_url_of(self@.is_test_net),
    {
        if self.is_test_net {
            TESTNET_URL
        } else {
            MAINNET_URL
        }
    }

    /// The headers of a request with the given parameters, signed at the
    /// given timestamp.
    pub fn set_common_headers(&self, params: &Params, timestamp: &str) -> (r: Vec<
        (String, String),
    >)
        ensures
            pairs_view(r@) == common_headers(self@, params@, timestamp@),
    {
        let sign = generate_signature(
            self.secret_key.as_str(),
            self.key.as_str(),
            RECV_WINDOW,
            params,
            timestamp,
        );
        let mut headers: Vec<(String, String)> = Vec::new();
        headers.push((String::from_str("X-BAPI-SIGN-TYPE"), String::from_str("2")));
        headers.push((String::from_str("X-BAPI-SIGN"), sign));
        headers.push((String::from_str("X-BAPI-API-KEY"), self.key.clone()));
        headers.push((String::from_str("X-BAPI-TIMESTAMP"), String::from_str(timestamp)));
        headers.push((String::from_str("X-BAPI-RECV-WINDOW"), String::from_str(RECV_WINDOW)));
        headers.push((String::from_str("Content-Type"), String::from_str("application/json")));
        proof {
            assert(pairs_view(headers@) =~= common_headers(self@, params@, timestamp@));
        }
        headers
    }

    /// The signed request that carries `payload`: in the query string for
    /// `GET`, as the body for `POST`.
    pub fn frame(&self, request: &Request, timestamp: &str, payload: String) -> (r: SignedRequest)
        ensures
            r@ == framed_request(
                self@,
                request.method,
                request.path@,
                request.params@,
                timestamp@,
                payload@,
            ),
    {
        let headers = self.set_common_headers(&request.params, timestamp);
        let mut url = String::from_str(self.base_url());
        url.append("/");
        url.append(request.path.as_str());
        let ghost target = target_of(request.method, request.path@, payload@);
        match request.method {
            Method::GET => {
                url.append("?");
                url.append(payload.as_str());
                proof {
                    assert(url@ =~= base_url_of(self@.is_test_net) + target);
                }
                SignedRequest {
                    method: Method::GET,
                    url,
                    body: None,
                    headers,
                    timestamp: String::from_str(timestamp),
                }
            },
            Method::POST => {
                proof {
                    assert(url@ =~= base_url_of(self@.is_test_net) + target);
                }
                SignedRequest {
                    method: Method::POST,
                    url,
                    body: Some(payload),
                    headers,
                    timestamp: String::from_str(timestamp),
                }
            },
        }
    }

    /// Signs a request at the given timestamp: the parameters go into the
    /// query string of a `GET` request and into the JSON body of a `POST`
    /// request.
    pub fn sign(&self, request: &Request, timestamp: &str) -> (r: SignedRequest)
        ensures
            r@ == signed_request(
                self@,
                request.method,
                request.path@,
                request.params@,
                timestamp@,
            ),
    {
        let entries = request.params.entries();
        let payload = match request.method {
            Method::GET => form_urlencode(entries),
            Method::POST => json_encode(entries).unwrap(),
        };
        self.frame(request, timestamp, payload)
    }

    /// Makes the signed request for a method, a path and parameters, with
    /// the system clock's time as its timestamp.
    ///
    /// The clock is read once per request, and the reading is both signed
    /// and sent. Which reading comes back is the clock's affair: the result
    /// is what `request_at` gives for it, so a clock that stands before the
    /// Unix epoch ends the call with `RequestError::Clock`, and any other
    /// reading gives the request signed at that many milliseconds, written
    /// in decimal.
    pub fn do_request(&self, method: Method, path: &str, params: Params) -> (r: Result<
        SignedRequest,
        RequestError,
    >)
        ensures
            r matches Ok(signed) ==> {
                &&& exists|millis: u128| signed@.timestamp == decimal_text(millis as nat)
                &&& signed@ == signed_request(self@, method, path@, params@, signed@.timestamp)
            },
            r matches Err(e) ==> e == RequestError::Clock,
    {
        self.request_at(method, path, params, unix_millis())
    }

    /// Makes the signed `GET` request for a path and parameters.
    pub fn get(&self, path: &str, params: Params) -> (r: Result<SignedRequest, RequestError>)
        ensures
            r matches Ok(signed) ==> {
                &&& exists|millis: u128| signed@.timestamp == decimal_text(millis as nat)
                &&& signed@ == signed_request(
                    self@,
                    Method::GET,
                    path@,
                    params@,
                    signed@.timestamp,
                )
            },
            r matches Err(e) ==> e == RequestError::Clock,
    {
        self.do_request(Method::GET, path, params)
    }

    /// Makes the signed `POST` request for a path and parameters.
    pub fn post(&self, path: &str, params: Params) -> (r: Result<SignedRequest, RequestError>)
        ensures
            r matches Ok(signed) ==> {
                &&& exists|millis: u128| signed@.timestamp == decimal_text(millis as nat)
                &&& signed@ == signed_request(
                    self@,
                    Method::POST,
                    path@,
                    params@,
                    signed@.timestamp,
                )
            },
            r matches Err(e) ==> e == RequestError::Clock,
    {
        self.do_request(Method::POST, path, params)
    }

    /// Makes the signed request for a method, a path and parameters at a
    /// given reading of the clock: milliseconds since the Unix epoch, or
    /// `None` where the clock stands before the epoch.
    ///
    /// Without a reading there is no timestamp to sign, and the request is
    /// not made. With one, the request is signed at its decimal text.
    pub fn request_at(&self, method: Method, path: &str, params: Params, now: Option<u128>) -> (r:
        Result<SignedRequest, RequestError>)
        ensures
            now is None ==> (r matches Err(e) && e == RequestError::Clock),
            now matches Some(millis) ==> (r matches Ok(signed) && signed@ == signed_request(
                self@,
                method,
                path@,
                params@,
                decimal_text(millis as nat),
            )),
    {
        match now {
            Some(millis) => {
                let timestamp = decimal(millis);
                let request = Request { method, path: String::from_str(path), params };
                Ok(self.sign(&request, timestamp.as_str()))
            },
            None => Err(RequestError::Clock),
        }
    }
}

/// The two networks have different base URLs.
pub proof fn lemma_base_urls_differ()
    ensures
        base_url_of(true) != base_url_of(false),
{
    reveal_strlit("https://api.bybit.com");
    reveal_strlit("https://api-testnet.bybit.com");
    assert(MAINNET_URL@.len() == 21);
    assert(TESTNET_URL@.len() == 29);
}

/// The network flag decides the base URL and nothing else: for the same
/// credentials, the request on the test network and the request on the
/// production network have the same method, body, headers and timestamp, and
/// their URLs are the same target behind each network's base URL.
pub proof fn lemma_network_decides_base_url_only(
    production: ClientView,
    test: ClientView,
    method: Method,
    path: Seq<char>,
    params: Map<Seq<char>, Seq<char>>,
    timestamp: Seq<char>,
)
    requires
        !production.is_test_net,
        test.is_test_net,
        production.key == test.key,
        production.secret_key == test.secret_key,
    ensures
        ({
            let a = signed_request(production, method, path, params, timestamp);
            let b = signed_request(test, method, path, params, timestamp);
            let target = target_of(method, path, payload_of(method, params));
            &&& a.url == MAINNET_URL@ + target
            &&& b.url == TESTNET_URL@ + target
            &&& a.url != b.url
            &&& a.method == b.method
            &&& a.body == b.body
            &&& a.headers == b.headers
            &&& a.timestamp == b.timestamp
        }),
{
    let a = signed_request(production, method, path, params, timestamp);
    let b = signed_request(test, method, path, params, timestamp);
    lemma_base_urls_differ();
    reveal_strlit("https://api.bybit.com");
    reveal_strlit("https://api-testnet.bybit.com");
    assert(a.url.len() != b.url.len());
}

/// The secret key reaches a request through the signature alone: whatever
/// the secret key, the URL, the body, the timestamp and every header but the
/// signature are the same.
pub proof fn lemma_secret_key_only_signs(
    first: ClientView,
    second: ClientView,
    method: Method,
    path: Seq<char>,
    params: Map<Seq<char>, Seq<char>>,
    timestamp: Seq<char>,
)
    requires
        first.key == second.key,
        first.is_test_net == second.is_test_net,
    ensures
        ({
            let a = signed_request(first, method, path, params, timestamp);
            let b = signed_request(second, method, path, params, timestamp);
            &&& a.method == b.method
            &&& a.url == b.url
            &&& a.body == b.body
            &&& a.timestamp == b.timestamp
            &&& a.headers.len() == b.headers.len()
            &&& forall|i: int|
                0 <= i < a.headers.len() && i != 1 ==> a.headers[i] == b.headers[i]
            &&& a.headers[1].0 == b.headers[1].0
        }),
{
}

} // verus!
