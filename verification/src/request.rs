//! The request model: method, version, scheme, authority, path, headers and
//! an accumulating body, plus URL reconstruction per HTTP version.

use vstd::prelude::*;
use vstd::string::StringSliceAdditionalSpecFns;
use vstd::utf8::valid_utf8;

use crate::buf::{push_bytes, Buf};
use crate::error::Error;
use crate::headers::{append_lines, headers_of_lines, lookup_view, HeaderLine, Headers, HeadersView};
use crate::message::{single_value, Message};
use crate::types::{method_of_token, HttpVersion, Method, MethodV};

verus! {

/// The spec-level value of a request.
#[verifier::ext_equal]
pub struct ReqView {
    pub version: HttpVersion,
    pub method: MethodV,
    pub scheme: Seq<u8>,
    pub authority: Option<Seq<u8>>,
    pub path: Seq<u8>,
    pub headers: HeadersView,
    pub body: Seq<u8>,
}

/// The pieces of a parsed request head: the request-line tokens and the raw
/// header lines.
#[derive(Debug, PartialEq)]
pub struct Http1Head {
    pub method: Vec<u8>,
    pub path: Vec<u8>,
    pub version_minor: u8,
    pub headers: Vec<HeaderLine>,
}

/// An incoming request.  The body starts empty and grows strictly in
/// state-machine order.
#[derive(Debug, PartialEq)]
pub struct Request {
    /// HTTP version used in the request.
    pub version: HttpVersion,
    /// HTTP verb used in the request.
    pub method: Method,
    scheme: Vec<u8>,
    authority: Option<Vec<u8>>,
    path: Vec<u8>,
    headers: Headers,
    /// The body read so far.
    pub body: Vec<u8>,
}

impl View for Request {
    type V = ReqView;

    closed spec fn view(&self) -> ReqView {
        ReqView {
            version: self.version,
            method: self.method@,
            scheme: self.scheme@,
            authority: match self.authority {
                Option::Some(a) => Option::Some(a@),
                Option::None => Option::None,
            },
            path: self.path@,
            headers: self.headers@,
            body: self.body@,
        }
    }
}

/// A request view with `extra` appended to the body.
pub open spec fn with_body(req: ReqView, extra: Seq<u8>) -> ReqView {
    ReqView { body: req.body + extra, ..req }
}

/// The scheme bytes, `http` or `https`.
pub open spec fn scheme_bytes(secure: bool) -> Seq<u8> {
    if secure {
        seq![104u8, 116u8, 116u8, 112u8, 115u8]
    } else {
        seq![104u8, 116u8, 116u8, 112u8]
    }
}

/// The request a parsed head denotes: versions other than minor 1 collapse
/// to HTTP/1.0, the method token must denote a method, the body starts
/// empty.
pub open spec fn request_of_head(
    method_tok: Seq<u8>,
    path: Seq<u8>,
    minor: u8,
    lines: Seq<(Seq<u8>, Seq<u8>)>,
    secure: bool,
) -> Result<ReqView, Error> {
    match method_of_token(method_tok) {
        Option::None => Result::Err(Error::InvalidMessage),
        Option::Some(m) => Result::Ok(
            ReqView {
                version: if minor == 1 {
                    HttpVersion::Http11
                } else {
                    HttpVersion::Http10
                },
                method: m,
                scheme: scheme_bytes(secure),
                authority: Option::None,
                path: path,
                headers: headers_of_lines(lines),
                body: Seq::empty(),
            },
        ),
    }
}

/// What `url::Url::parse` returns on the string these bytes spell.
/// Meaningful only for valid UTF-8 input, which is all the trusted caller
/// accepts.
pub uninterp spec fn url_of(s: Seq<u8>) -> Result<url::Url, url::ParseError>;

/// Relies on url::Url::parse: whether a string parses as an absolute URL,
/// and as which URL, depends on the string alone.  The bytes must be valid
/// UTF-8; they are viewed as a string.
#[verifier::external_body]
fn url_parse(b: &[u8]) -> (r: Result<url::Url, url::ParseError>)
    requires
        valid_utf8(b@),
    ensures
        r == url_of(b@),
{
    url::Url::parse(core::str::from_utf8(b).unwrap())
}

/// Relies on str::from_utf8: it accepts exactly the valid UTF-8 byte
/// strings.
#[verifier::external_body]
fn utf8_check(b: &[u8]) -> (r: bool)
    ensures
        r == valid_utf8(b@),
{
    core::str::from_utf8(b).is_ok()
}

/// `scheme://authority` followed by the path.
pub open spec fn absolute_form(scheme: Seq<u8>, authority: Seq<u8>, path: Seq<u8>) -> Seq<u8> {
    scheme + seq![58u8, 47u8, 47u8] + authority + path
}

/// URL parsing of `s`, with encoding and parse failures mapped to the
/// engine's errors.
pub open spec fn url_result(s: Seq<u8>) -> Result<url::Url, Error> {
    if !valid_utf8(s) {
        Result::Err(Error::InvalidMessage)
    } else {
        match url_of(s) {
            Result::Ok(u) => Result::Ok(u),
            Result::Err(e) => Result::Err(Error::UrlError(e)),
        }
    }
}

/// The target URL a request denotes.  HTTP/0.9 and 1.0 synthesize a
/// `0.0.0.0` authority; HTTP/1.1 first tries the path as an absolute URL
/// (proxy absolute-form) and only on failure requires the single, valid
/// UTF-8 `Host` value; an authority field would be used directly.
pub open spec fn request_url_of(r: ReqView) -> Result<url::Url, Error> {
    match r.version {
        HttpVersion::Http09 | HttpVersion::Http10 => url_result(
            absolute_form(r.scheme, seq![48u8, 46u8, 48u8, 46u8, 48u8, 46u8, 48u8], r.path),
        ),
        HttpVersion::Http11 => if valid_utf8(r.path) && url_of(r.path) is Ok {
            Result::Ok(url_of(r.path)->Ok_0)
        } else {
            match single_value(r.headers, "Host".spec_bytes()) {
                Option::None => Result::Err(Error::InvalidMessage),
                Option::Some(host) => if !valid_utf8(host) {
                    Result::Err(Error::InvalidMessage)
                } else {
                    url_result(absolute_form(r.scheme, host, r.path))
                },
            }
        },
        HttpVersion::Http20 => match r.authority {
            Option::None => Result::Err(Error::InvalidMessage),
            Option::Some(a) => url_result(absolute_form(r.scheme, a, r.path)),
        },
    }
}

/// Builds `scheme://authority{path}`.
fn absolute_form_exec(scheme: &[u8], authority: &[u8], path: &[u8]) -> (r: Vec<u8>)
    ensures
        r@ =~= absolute_form(scheme@, authority@, path@),
{
    let mut r: Vec<u8> = Vec::new();
    push_bytes(&mut r, scheme);
    let sep: Vec<u8> = vec![58u8, 47u8, 47u8];
    push_bytes(&mut r, sep.as_slice());
    push_bytes(&mut r, authority);
    push_bytes(&mut r, path);
    r
}

/// URL parsing with the engine's error mapping.
fn url_result_exec(b: &[u8]) -> (r: Result<url::Url, Error>)
    ensures
        r == url_result(b@),
{
    if !utf8_check(b) {
        return Result::Err(Error::InvalidMessage);
    }
    match url_parse(b) {
        Result::Ok(u) => Result::Ok(u),
        Result::Err(e) => Result::Err(Error::UrlError(e)),
    }
}

/// The URL `scheme://authority{path}` denotes, if any.
pub fn url_from_http(scheme: &[u8], authority: &[u8], path: &[u8]) -> (r: Result<url::Url, Error>)
    ensures
        r == url_result(absolute_form(scheme@, authority@, path@)),
{
    let full = absolute_form_exec(scheme, authority, path);
    url_result_exec(full.as_slice())
}

impl Request {
    /// The request a parsed head denotes, with an empty body.
    pub fn from_http1(head: Http1Head, secure: bool) -> (r: Result<Request, Error>)
        ensures
            match r {
                Result::Ok(req) => request_of_head(
                    head.method@,
                    head.path@,
                    head.version_minor,
                    head.headers.deep_view(),
                    secure,
                ) == Result::<ReqView, Error>::Ok(req@),
                Result::Err(e) => request_of_head(
                    head.method@,
                    head.path@,
                    head.version_minor,
                    head.headers.deep_view(),
                    secure,
                ) == Result::<ReqView, Error>::Err(e),
            },
    {
        let method = match Method::from_token(head.method) {
            Option::Some(m) => m,
            Option::None => {
                return Result::Err(Error::InvalidMessage);
            },
        };
        let scheme: Vec<u8> = if secure {
            vec![104u8, 116u8, 116u8, 112u8, 115u8]
        } else {
            vec![104u8, 116u8, 116u8, 112u8]
        };
        let req = Request {
            version: if head.version_minor == 1 {
                HttpVersion::Http11
            } else {
                HttpVersion::Http10
            },
            method: method,
            scheme: scheme,
            authority: Option::None,
            path: head.path,
            headers: Headers::from_http1(head.headers.as_slice()),
            body: Vec::new(),
        };
        Result::Ok(req)
    }

    /// Appends further parsed header lines, as trailer parsing does, into
    /// the same store the application will observe.
    pub fn add_http1_headers(&mut self, raw: &[HeaderLine])
        ensures
            final(self)@ == (ReqView {
                headers: append_lines(old(self)@.headers, raw.deep_view()),
                ..old(self)@
            }),
    {
        let n = raw.len();
        let mut i: usize = 0;
        while i < n
            invariant
                i <= n,
                n == raw@.len(),
                self@ == (ReqView {
                    headers: append_lines(old(self)@.headers, raw.deep_view().take(i as int)),
                    ..old(self)@
                }),
            decreases n - i,
        {
            let line = &raw[i];
            self.headers.insert_http1_header(line);
            proof {
                assert(raw.deep_view().take(i + 1).drop_last() =~= raw.deep_view().take(i as int));
                assert(raw.deep_view().take(i + 1).last() == raw.deep_view()[i as int]);
            }
            i = i + 1;
        }
        proof {
            assert(raw.deep_view().take(n as int) =~= raw.deep_view());
        }
    }

    /// Moves up to `size` available bytes from the input into the body and
    /// returns how many of the `size` bytes are still owed.
    pub fn read_body(&mut self, input: &mut Buf, size: usize) -> (r: usize)
        ensures
            ({
                let k = if size <= old(input)@.len() {
                    size as int
                } else {
                    old(input)@.len() as int
                };
                &&& r == size - k
                &&& final(self)@ == with_body(old(self)@, old(input)@.take(k))
                &&& final(input)@ == old(input)@.skip(k)
            }),
    {
        crate::http1::parse_fixed_size(input, &mut self.body, size)
    }

    /// Reconstructs the target URL of the request.
    pub fn request_url(&self) -> (r: Result<url::Url, Error>)
        ensures
            r == request_url_of(self@),
    {
        match self.version {
            HttpVersion::Http09 | HttpVersion::Http10 => {
                let zero: Vec<u8> = vec![48u8, 46u8, 48u8, 46u8, 48u8, 46u8, 48u8];
                url_from_http(self.scheme.as_slice(), zero.as_slice(), self.path.as_slice())
            },
            HttpVersion::Http11 => {
                if utf8_check(self.path.as_slice()) {
                    match url_parse(self.path.as_slice()) {
                        Result::Ok(u) => {
                            return Result::Ok(u);
                        },
                        Result::Err(_) => {},
                    }
                }
                let host = match self.get_value_header("Host") {
                    Option::Some(h) => h,
                    Option::None => {
                        return Result::Err(Error::InvalidMessage);
                    },
                };
                if !utf8_check(host.as_slice()) {
                    return Result::Err(Error::InvalidMessage);
                }
                url_from_http(self.scheme.as_slice(), host.as_slice(), self.path.as_slice())
            },
            HttpVersion::Http20 => {
                let authority = match &self.authority {
                    Option::Some(a) => a,
                    Option::None => {
                        return Result::Err(Error::InvalidMessage);
                    },
                };
                url_from_http(
                    self.scheme.as_slice(),
                    authority.as_slice(),
                    self.path.as_slice(),
                )
            },
        }
    }
}

impl Message for Request {
    open spec fn hdrs(&self) -> HeadersView {
        self@.headers
    }

    fn get_header(&self, name: &str) -> (r: Option<&Vec<Vec<u8>>>) {
        self.headers.get_vec(name)
    }

    fn contains_header(&self, name: &str) -> (r: bool) {
        self.headers.contains_key(name)
    }
}

} // verus!
