//! The response model and its wire serialization: status line, a `Date`
//! header unless one is already declared, every stored header line, and a
//! `Content-Length`-framed body when one is set.

use vstd::prelude::*;
use vstd::string::StringSliceAdditionalSpecFns;

use crate::buf::{push_bytes, Buf};
use crate::headers::{contains_view, headers_wire, HeadersView, Headers};
use crate::message::Message;
use crate::types::{status_bytes, version_bytes, HttpVersion, StatusCode};

verus! {

/// The spec-level value of a response.
pub struct RespView {
    pub version: HttpVersion,
    pub status: StatusCode,
    pub reason: Option<Seq<u8>>,
    pub headers: HeadersView,
    pub body: Option<Seq<u8>>,
}

/// An outgoing response.  It exists only transiently inside one connection
/// turn.
#[derive(Debug)]
pub struct Response {
    /// HTTP version of the status line.
    pub version: HttpVersion,
    /// Status code of the status line.
    pub status: StatusCode,
    reason: Option<Vec<u8>>,
    headers: Headers,
    body: Option<Vec<u8>>,
}

impl View for Response {
    type V = RespView;

    closed spec fn view(&self) -> RespView {
        RespView {
            version: self.version,
            status: self.status,
            reason: match self.reason {
                Option::Some(r) => Option::Some(r@),
                Option::None => Option::None,
            },
            headers: self.headers@,
            body: match self.body {
                Option::Some(b) => Option::Some(b@),
                Option::None => Option::None,
            },
        }
    }
}

/// The decimal digits of a number.
pub open spec fn dec_bytes(n: nat) -> Seq<u8>
    decreases n,
{
    if n < 10 {
        seq![(48 + n) as u8]
    } else {
        dec_bytes(n / 10) + seq![(48 + n % 10) as u8]
    }
}

/// Writes the decimal digits of `n` onto `out`.
pub fn write_decimal(n: usize, out: &mut Vec<u8>)
    ensures
        final(out)@ == old(out)@ + dec_bytes(n as nat),
    decreases n,
{
    if n >= 10 {
        proof {
            assert(n / 10 < n) by (nonlinear_arith)
                requires
                    n >= 10,
            ;
        }
        write_decimal(n / 10, out);
        out.push(48 + (n % 10) as u8);
        proof {
            assert(old(out)@ + dec_bytes(n as nat) =~= old(out)@ + dec_bytes(n as nat / 10) + seq![
                (48 + n as nat % 10) as u8,
            ]);
        }
    } else {
        out.push(48 + (n % 10) as u8);
        proof {
            assert(old(out)@ + dec_bytes(n as nat) =~= old(out)@.push((48 + n as nat) as u8));
        }
    }
}

/// Whether `d` could be a formatted HTTP date: 29 printable ASCII bytes.
pub open spec fn is_date_bytes(d: Seq<u8>) -> bool {
    d.len() == 29 && forall|i: int| 0 <= i < d.len() ==> 32 <= #[trigger] d[i] <= 126
}

/// The system-clock instant type of std, opaque to the engine.
#[verifier::external_type_specification]
#[verifier::external_body]
pub struct ExSystemTime(std::time::SystemTime);

/// Relies on std::time::SystemTime::now; nothing is promised of the value.
#[verifier::external_body]
fn system_now() -> std::time::SystemTime {
    std::time::SystemTime::now()
}

/// Relies on httpdate::fmt_http_date: an IMF-fixdate is always exactly 29
/// printable ASCII bytes, e.g. `Sun, 06 Nov 1994 08:49:37 GMT`.  That
/// formatter panics on instants before the epoch or at year 9999 and
/// beyond, so such clock readings fall back to the epoch's fixdate.
#[verifier::external_body]
fn format_http_date(t: std::time::SystemTime) -> (r: Vec<u8>)
    ensures
        is_date_bytes(r@),
{
    match t.duration_since(std::time::UNIX_EPOCH) {
        Ok(d) if d.as_secs() < 253402300800 => httpdate::fmt_http_date(t).into_bytes(),
        _ => b"Thu, 01 Jan 1970 00:00:00 GMT".to_vec(),
    }
}

/// The wire form of a response, given the date value to declare when the
/// response itself carries none.
pub open spec fn serialized_bytes(r: RespView, date: Seq<u8>) -> Seq<u8> {
    version_bytes(r.version) + seq![32u8] + status_bytes(r.status) + seq![13u8, 10u8] + (if
    contains_view(r.headers, "Date".spec_bytes()) {
        Seq::<u8>::empty()
    } else {
        seq![68u8, 97u8, 116u8, 101u8, 58u8, 32u8] + date + seq![13u8, 10u8]
    }) + headers_wire(r.headers) + (match r.body {
        Option::Some(b) => seq![
            67u8,
            111u8,
            110u8,
            116u8,
            101u8,
            110u8,
            116u8,
            45u8,
            76u8,
            101u8,
            110u8,
            103u8,
            116u8,
            104u8,
            58u8,
            32u8,
        ] + dec_bytes(b.len()) + seq![13u8, 10u8, 13u8, 10u8] + b,
        Option::None => seq![13u8, 10u8],
    })
}


/// The concatenated wire forms of a run of responses, each with its date
/// value.
pub open spec fn serialized_all(rs: Seq<RespView>, ds: Seq<Seq<u8>>) -> Seq<u8>
    decreases rs.len(),
{
    if rs.len() == 0 {
        Seq::empty()
    } else {
        serialized_bytes(rs[0], ds[0]) + serialized_all(rs.skip(1), ds.skip(1))
    }
}

/// One more serialized response lands at the end of the run.
pub proof fn lemma_serialized_all_push(rs: Seq<RespView>, ds: Seq<Seq<u8>>, r: RespView, d: Seq<u8>)
    requires
        rs.len() == ds.len(),
    ensures
        serialized_all(rs.push(r), ds.push(d)) == serialized_all(rs, ds) + serialized_bytes(r, d),
    decreases rs.len(),
{
    if rs.len() == 0 {
        assert(rs.push(r)[0] == r);
        assert(ds.push(d)[0] == d);
        assert(rs.push(r).skip(1) =~= Seq::<RespView>::empty());
        assert(ds.push(d).skip(1) =~= Seq::<Seq<u8>>::empty());
        assert(Seq::<u8>::empty() + serialized_bytes(r, d) =~= serialized_bytes(r, d));
        assert(serialized_bytes(r, d) + Seq::<u8>::empty() =~= serialized_bytes(r, d));
        assert(serialized_all(rs.push(r).skip(1), ds.push(d).skip(1)) =~= Seq::<u8>::empty());
        assert(serialized_all(rs.push(r), ds.push(d)) == serialized_bytes(r, d)
            + serialized_all(rs.push(r).skip(1), ds.push(d).skip(1)));
        assert(serialized_all(rs, ds) =~= Seq::<u8>::empty());
        assert(serialized_all(rs.push(r), ds.push(d)) =~= serialized_all(rs, ds)
            + serialized_bytes(r, d));
    } else {
        lemma_serialized_all_push(rs.skip(1), ds.skip(1), r, d);
        assert(rs.push(r).skip(1) =~= rs.skip(1).push(r));
        assert(ds.push(d).skip(1) =~= ds.skip(1).push(d));
        assert(rs.push(r)[0] == rs[0]);
        assert(ds.push(d)[0] == ds[0]);
        assert(serialized_all(rs, ds) == serialized_bytes(rs[0], ds[0]) + serialized_all(
            rs.skip(1),
            ds.skip(1),
        ));
        assert(serialized_all(rs.push(r), ds.push(d)) == serialized_bytes(rs[0], ds[0])
            + serialized_all(rs.skip(1).push(r), ds.skip(1).push(d)));
        assert(serialized_all(rs.push(r), ds.push(d)) =~= serialized_all(rs, ds)
            + serialized_bytes(r, d));
        assert(serialized_bytes(rs[0], ds[0]) + (serialized_all(rs.skip(1), ds.skip(1))
            + serialized_bytes(r, d)) =~= (serialized_bytes(rs[0], ds[0]) + serialized_all(
            rs.skip(1),
            ds.skip(1),
        )) + serialized_bytes(r, d));
    }
}

impl Response {
    /// An empty `200 OK` response in the given version.
    pub fn new(version: HttpVersion) -> (r: Response)
        ensures
            r@.version == version,
            r@.status == StatusCode::Okay,
            r@.reason is None,
            r@.headers =~= Seq::<(Seq<u8>, Seq<Seq<u8>>)>::empty(),
            r@.body is None,
    {
        Response {
            version: version,
            status: StatusCode::Okay,
            reason: Option::None,
            headers: Headers::new(),
            body: Option::None,
        }
    }

    /// Sets the response body, replacing any earlier one.
    pub fn put_body(&mut self, body: Vec<u8>)
        ensures
            final(self)@ == (RespView { body: Option::Some(body@), ..old(self)@ }),
    {
        self.body = Option::Some(body);
    }

    /// Appends a header value under `name`.
    pub fn add_header(&mut self, name: Vec<u8>, value: Vec<u8>)
        ensures
            final(self)@ == (RespView {
                headers: crate::headers::insert_view(old(self)@.headers, name@, value@),
                ..old(self)@
            }),
    {
        self.headers.insert(name, value);
    }

    /// Serializes the response onto the output window.  The date written is
    /// whatever the clock gave: some 29 printable bytes.
    pub fn serialize(&self, out: &mut Buf)
        ensures
            exists|d: Seq<u8>|
                #[trigger] is_date_bytes(d) && final(out)@ == old(out)@ + serialized_bytes(
                    self@,
                    d,
                ),
    {
        let mut w: Vec<u8> = Vec::new();
        let version = self.version.wire();
        push_bytes(&mut w, version.as_slice());
        w.push(32);
        let status = self.status.wire();
        push_bytes(&mut w, status.as_slice());
        let crlf: Vec<u8> = vec![13u8, 10u8];
        push_bytes(&mut w, crlf.as_slice());
        let ghost date_used: Seq<u8> = Seq::new(29, |i: int| 32u8);
        let has_date = self.contains_header("Date");
        if !has_date {
            let label: Vec<u8> = vec![68u8, 97u8, 116u8, 101u8, 58u8, 32u8];
            push_bytes(&mut w, label.as_slice());
            let date = format_http_date(system_now());
            proof {
                date_used = date@;
            }
            push_bytes(&mut w, date.as_slice());
            push_bytes(&mut w, crlf.as_slice());
        }
        self.headers.write_wire(&mut w);
        match &self.body {
            Option::Some(body) => {
                let label: Vec<u8> = vec![
                    67u8,
                    111u8,
                    110u8,
                    116u8,
                    101u8,
                    110u8,
                    116u8,
                    45u8,
                    76u8,
                    101u8,
                    110u8,
                    103u8,
                    116u8,
                    104u8,
                    58u8,
                    32u8,
                ];
                push_bytes(&mut w, label.as_slice());
                write_decimal(body.len(), &mut w);
                push_bytes(&mut w, crlf.as_slice());
                push_bytes(&mut w, crlf.as_slice());
                push_bytes(&mut w, body.as_slice());
            },
            Option::None => {
                push_bytes(&mut w, crlf.as_slice());
            },
        }
        proof {
            assert(is_date_bytes(date_used));
            assert(w@ =~= serialized_bytes(self@, date_used));
        }
        out.extend(w.as_slice());
        proof {
            assert(final(out)@ == old(out)@ + serialized_bytes(self@, date_used));
        }
    }
}

impl Message for Response {
    open spec fn hdrs(&self) -> HeadersView {
        self@.headers
    }

    fn get_header(&self, name: &str) -> (r: Option<&Vec<Vec<u8>>>) {
        self.headers.get_vec(name)
    }

    fn contains_header(&self, name: &str) -> (r: bool) {
        self.headers.contains_key(name)
    }
}

} // verus!
