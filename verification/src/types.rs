//! The closed sets of the protocol: versions, methods, status codes.
//!
//! Each carries an exact wire form, stated as a spec-level byte sequence.

use vstd::prelude::*;

verus! {

/// The HTTP protocol version of a message.
#[derive(Clone, Copy, Debug, PartialEq, Eq, Structural)]
pub enum HttpVersion {
    Http09,
    Http10,
    Http11,
    Http20,
}

/// The status line prefix for a version, e.g. `HTTP/1.1`.
pub open spec fn version_bytes(v: HttpVersion) -> Seq<u8> {
    match v {
        HttpVersion::Http09 => seq![72u8, 84u8, 84u8, 80u8, 47u8, 48u8, 46u8, 57u8],
        HttpVersion::Http10 => seq![72u8, 84u8, 84u8, 80u8, 47u8, 49u8, 46u8, 48u8],
        HttpVersion::Http11 => seq![72u8, 84u8, 84u8, 80u8, 47u8, 49u8, 46u8, 49u8],
        HttpVersion::Http20 => seq![72u8, 84u8, 84u8, 80u8, 47u8, 50u8, 46u8, 48u8],
    }
}

impl HttpVersion {
    /// The wire form of the version, e.g. `HTTP/1.1`.
    pub fn wire(&self) -> (r: Vec<u8>)
        ensures
            r@ =~= version_bytes(*self),
    {
        match self {
            HttpVersion::Http09 => vec![72u8, 84u8, 84u8, 80u8, 47u8, 48u8, 46u8, 57u8],
            HttpVersion::Http10 => vec![72u8, 84u8, 84u8, 80u8, 47u8, 49u8, 46u8, 48u8],
            HttpVersion::Http11 => vec![72u8, 84u8, 84u8, 80u8, 47u8, 49u8, 46u8, 49u8],
            HttpVersion::Http20 => vec![72u8, 84u8, 84u8, 80u8, 47u8, 50u8, 46u8, 48u8],
        }
    }
}

/// The request method.  Unknown but well-formed tokens are kept verbatim.
#[derive(Debug, PartialEq, Eq)]
pub enum Method {
    Options,
    Get,
    Post,
    Put,
    Delete,
    Head,
    Trace,
    Connect,
    Patch,
    Extension(Vec<u8>),
}

/// The spec-level value of a method: known verb or verbatim token.
pub enum MethodV {
    Options,
    Get,
    Post,
    Put,
    Delete,
    Head,
    Trace,
    Connect,
    Patch,
    Extension(Seq<u8>),
}

impl View for Method {
    type V = MethodV;

    open spec fn view(&self) -> MethodV {
        match self {
            Method::Options => MethodV::Options,
            Method::Get => MethodV::Get,
            Method::Post => MethodV::Post,
            Method::Put => MethodV::Put,
            Method::Delete => MethodV::Delete,
            Method::Head => MethodV::Head,
            Method::Trace => MethodV::Trace,
            Method::Connect => MethodV::Connect,
            Method::Patch => MethodV::Patch,
            Method::Extension(t) => MethodV::Extension(t@),
        }
    }
}

/// Which method a request-line token denotes.  The empty token denotes none.
pub open spec fn method_of_token(tok: Seq<u8>) -> Option<MethodV> {
    if tok.len() == 0 {
        Option::None
    } else if tok == seq![79u8, 80u8, 84u8, 73u8, 79u8, 78u8, 83u8] {
        Option::Some(MethodV::Options)
    } else if tok == seq![71u8, 69u8, 84u8] {
        Option::Some(MethodV::Get)
    } else if tok == seq![80u8, 79u8, 83u8, 84u8] {
        Option::Some(MethodV::Post)
    } else if tok == seq![80u8, 85u8, 84u8] {
        Option::Some(MethodV::Put)
    } else if tok == seq![68u8, 69u8, 76u8, 69u8, 84u8, 69u8] {
        Option::Some(MethodV::Delete)
    } else if tok == seq![72u8, 69u8, 65u8, 68u8] {
        Option::Some(MethodV::Head)
    } else if tok == seq![84u8, 82u8, 65u8, 67u8, 69u8] {
        Option::Some(MethodV::Trace)
    } else if tok == seq![67u8, 79u8, 78u8, 78u8, 69u8, 67u8, 84u8] {
        Option::Some(MethodV::Connect)
    } else if tok == seq![80u8, 65u8, 84u8, 67u8, 72u8] {
        Option::Some(MethodV::Patch)
    } else {
        Option::Some(MethodV::Extension(tok))
    }
}

/// Whether two byte strings are equal.
pub fn bytes_eq(a: &[u8], b: &[u8]) -> (r: bool)
    ensures
        r == (a@ == b@),
{
    if a.len() != b.len() {
        return false;
    }
    let n = a.len();
    let mut i: usize = 0;
    while i < n
        invariant
            i <= n,
            n == a@.len() == b@.len(),
            forall|j: int| 0 <= j < i ==> a@[j] == b@[j],
        decreases n - i,
    {
        if a[i] != b[i] {
            return false;
        }
        i = i + 1;
    }
    proof {
        assert(a@ =~= b@);
    }
    true
}

impl Method {
    /// The method denoted by a request-line token, if any.
    pub fn from_token(tok: Vec<u8>) -> (r: Option<Method>)
        ensures
            match r {
                Option::Some(m) => method_of_token(tok@) == Option::Some(m@),
                Option::None => method_of_token(tok@) is None,
            },
    {
        if tok.len() == 0 {
            return Option::None;
        }
        let p: Vec<u8> = vec![79u8, 80u8, 84u8, 73u8, 79u8, 78u8, 83u8];
        if bytes_eq(tok.as_slice(), p.as_slice()) {
            return Option::Some(Method::Options);
        }
        let p: Vec<u8> = vec![71u8, 69u8, 84u8];
        if bytes_eq(tok.as_slice(), p.as_slice()) {
            return Option::Some(Method::Get);
        }
        let p: Vec<u8> = vec![80u8, 79u8, 83u8, 84u8];
        if bytes_eq(tok.as_slice(), p.as_slice()) {
            return Option::Some(Method::Post);
        }
        let p: Vec<u8> = vec![80u8, 85u8, 84u8];
        if bytes_eq(tok.as_slice(), p.as_slice()) {
            return Option::Some(Method::Put);
        }
        let p: Vec<u8> = vec![68u8, 69u8, 76u8, 69u8, 84u8, 69u8];
        if bytes_eq(tok.as_slice(), p.as_slice()) {
            return Option::Some(Method::Delete);
        }
        let p: Vec<u8> = vec![72u8, 69u8, 65u8, 68u8];
        if bytes_eq(tok.as_slice(), p.as_slice()) {
            return Option::Some(Method::Head);
        }
        let p: Vec<u8> = vec![84u8, 82u8, 65u8, 67u8, 69u8];
        if bytes_eq(tok.as_slice(), p.as_slice()) {
            return Option::Some(Method::Trace);
        }
        let p: Vec<u8> = vec![67u8, 79u8, 78u8, 78u8, 69u8, 67u8, 84u8];
        if bytes_eq(tok.as_slice(), p.as_slice()) {
            return Option::Some(Method::Connect);
        }
        let p: Vec<u8> = vec![80u8, 65u8, 84u8, 67u8, 72u8];
        if bytes_eq(tok.as_slice(), p.as_slice()) {
            return Option::Some(Method::Patch);
        }
        Option::Some(Method::Extension(tok))
    }
}

/// The status code of a response.
#[derive(Clone, Copy, Debug, PartialEq, Eq, Structural)]
pub enum StatusCode {
    Okay,
    Created,
    Accepted,
    NoContent,
    MovedPermanently,
    Found,
    NotModified,
    BadRequest,
    Unauthorized,
    Forbidden,
    NotFound,
    MethodNotAllowed,
    InternalServerError,
    NotImplemented,
    BadGateway,
    ServiceUnavailable,
}

/// The status-line form of a code: number, space, reason phrase.
pub open spec fn status_bytes(s: StatusCode) -> Seq<u8> {
    match s {
        StatusCode::Okay => seq![50u8, 48u8, 48u8, 32u8, 79u8, 75u8],
        StatusCode::Created => seq![50u8, 48u8, 49u8, 32u8, 67u8, 114u8, 101u8, 97u8, 116u8, 101u8, 100u8],
        StatusCode::Accepted => seq![50u8, 48u8, 50u8, 32u8, 65u8, 99u8, 99u8, 101u8, 112u8, 116u8, 101u8, 100u8],
        StatusCode::NoContent => seq![50u8, 48u8, 52u8, 32u8, 78u8, 111u8, 32u8, 67u8, 111u8, 110u8, 116u8, 101u8, 110u8, 116u8],
        StatusCode::MovedPermanently => seq![51u8, 48u8, 49u8, 32u8, 77u8, 111u8, 118u8, 101u8, 100u8, 32u8, 80u8, 101u8, 114u8, 109u8, 97u8, 110u8, 101u8, 110u8, 116u8, 108u8, 121u8],
        StatusCode::Found => seq![51u8, 48u8, 50u8, 32u8, 70u8, 111u8, 117u8, 110u8, 100u8],
        StatusCode::NotModified => seq![51u8, 48u8, 52u8, 32u8, 78u8, 111u8, 116u8, 32u8, 77u8, 111u8, 100u8, 105u8, 102u8, 105u8, 101u8, 100u8],
        StatusCode::BadRequest => seq![52u8, 48u8, 48u8, 32u8, 66u8, 97u8, 100u8, 32u8, 82u8, 101u8, 113u8, 117u8, 101u8, 115u8, 116u8],
        StatusCode::Unauthorized => seq![52u8, 48u8, 49u8, 32u8, 85u8, 110u8, 97u8, 117u8, 116u8, 104u8, 111u8, 114u8, 105u8, 122u8, 101u8, 100u8],
        StatusCode::Forbidden => seq![52u8, 48u8, 51u8, 32u8, 70u8, 111u8, 114u8, 98u8, 105u8, 100u8, 100u8, 101u8, 110u8],
        StatusCode::NotFound => seq![52u8, 48u8, 52u8, 32u8, 78u8, 111u8, 116u8, 32u8, 70u8, 111u8, 117u8, 110u8, 100u8],
        StatusCode::MethodNotAllowed => seq![52u8, 48u8, 53u8, 32u8, 77u8, 101u8, 116u8, 104u8, 111u8, 100u8, 32u8, 78u8, 111u8, 116u8, 32u8, 65u8, 108u8, 108u8, 111u8, 119u8, 101u8, 100u8],
        StatusCode::InternalServerError => seq![53u8, 48u8, 48u8, 32u8, 73u8, 110u8, 116u8, 101u8, 114u8, 110u8, 97u8, 108u8, 32u8, 83u8, 101u8, 114u8, 118u8, 101u8, 114u8, 32u8, 69u8, 114u8, 114u8, 111u8, 114u8],
        StatusCode::NotImplemented => seq![53u8, 48u8, 49u8, 32u8, 78u8, 111u8, 116u8, 32u8, 73u8, 109u8, 112u8, 108u8, 101u8, 109u8, 101u8, 110u8, 116u8, 101u8, 100u8],
        StatusCode::BadGateway => seq![53u8, 48u8, 50u8, 32u8, 66u8, 97u8, 100u8, 32u8, 71u8, 97u8, 116u8, 101u8, 119u8, 97u8, 121u8],
        StatusCode::ServiceUnavailable => seq![53u8, 48u8, 51u8, 32u8, 83u8, 101u8, 114u8, 118u8, 105u8, 99u8, 101u8, 32u8, 85u8, 110u8, 97u8, 118u8, 97u8, 105u8, 108u8, 97u8, 98u8, 108u8, 101u8],
    }
}

impl StatusCode {
    /// The wire form of the code, e.g. `200 OK`.
    pub fn wire(&self) -> (r: Vec<u8>)
        ensures
            r@ =~= status_bytes(*self),
    {
        match self {
            StatusCode::Okay => vec![50u8, 48u8, 48u8, 32u8, 79u8, 75u8],
            StatusCode::Created => vec![50u8, 48u8, 49u8, 32u8, 67u8, 114u8, 101u8, 97u8, 116u8, 101u8, 100u8],
            StatusCode::Accepted => vec![50u8, 48u8, 50u8, 32u8, 65u8, 99u8, 99u8, 101u8, 112u8, 116u8, 101u8, 100u8],
            StatusCode::NoContent => vec![50u8, 48u8, 52u8, 32u8, 78u8, 111u8, 32u8, 67u8, 111u8, 110u8, 116u8, 101u8, 110u8, 116u8],
            StatusCode::MovedPermanently => vec![51u8, 48u8, 49u8, 32u8, 77u8, 111u8, 118u8, 101u8, 100u8, 32u8, 80u8, 101u8, 114u8, 109u8, 97u8, 110u8, 101u8, 110u8, 116u8, 108u8, 121u8],
            StatusCode::Found => vec![51u8, 48u8, 50u8, 32u8, 70u8, 111u8, 117u8, 110u8, 100u8],
            StatusCode::NotModified => vec![51u8, 48u8, 52u8, 32u8, 78u8, 111u8, 116u8, 32u8, 77u8, 111u8, 100u8, 105u8, 102u8, 105u8, 101u8, 100u8],
            StatusCode::BadRequest => vec![52u8, 48u8, 48u8, 32u8, 66u8, 97u8, 100u8, 32u8, 82u8, 101u8, 113u8, 117u8, 101u8, 115u8, 116u8],
            StatusCode::Unauthorized => vec![52u8, 48u8, 49u8, 32u8, 85u8, 110u8, 97u8, 117u8, 116u8, 104u8, 111u8, 114u8, 105u8, 122u8, 101u8, 100u8],
            StatusCode::Forbidden => vec![52u8, 48u8, 51u8, 32u8, 70u8, 111u8, 114u8, 98u8, 105u8, 100u8, 100u8, 101u8, 110u8],
            StatusCode::NotFound => vec![52u8, 48u8, 52u8, 32u8, 78u8, 111u8, 116u8, 32u8, 70u8, 111u8, 117u8, 110u8, 100u8],
            StatusCode::MethodNotAllowed => vec![52u8, 48u8, 53u8, 32u8, 77u8, 101u8, 116u8, 104u8, 111u8, 100u8, 32u8, 78u8, 111u8, 116u8, 32u8, 65u8, 108u8, 108u8, 111u8, 119u8, 101u8, 100u8],
            StatusCode::InternalServerError => vec![53u8, 48u8, 48u8, 32u8, 73u8, 110u8, 116u8, 101u8, 114u8, 110u8, 97u8, 108u8, 32u8, 83u8, 101u8, 114u8, 118u8, 101u8, 114u8, 32u8, 69u8, 114u8, 114u8, 111u8, 114u8],
            StatusCode::NotImplemented => vec![53u8, 48u8, 49u8, 32u8, 78u8, 111u8, 116u8, 32u8, 73u8, 109u8, 112u8, 108u8, 101u8, 109u8, 101u8, 110u8, 116u8, 101u8, 100u8],
            StatusCode::BadGateway => vec![53u8, 48u8, 50u8, 32u8, 66u8, 97u8, 100u8, 32u8, 71u8, 97u8, 116u8, 101u8, 119u8, 97u8, 121u8],
            StatusCode::ServiceUnavailable => vec![53u8, 48u8, 51u8, 32u8, 83u8, 101u8, 114u8, 118u8, 105u8, 99u8, 101u8, 32u8, 85u8, 110u8, 97u8, 118u8, 97u8, 105u8, 108u8, 97u8, 98u8, 108u8, 101u8],
        }
    }
}

} // verus!
