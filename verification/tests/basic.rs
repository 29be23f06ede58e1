use kinglet::http1::{Async, Client, Handler};
use kinglet::{
    Buf, Error, HeaderLine, Headers, Http1Head, HttpVersion, IterListHeader, Message, Method,
    Request, Response, StatusCode,
};
use url::Url;

#[test]
fn it_works() {}

fn line(name: &[u8], value: &[u8]) -> HeaderLine {
    HeaderLine {
        name: name.to_vec(),
        value: value.to_vec(),
    }
}

fn request_with_headers(lines: Vec<HeaderLine>) -> Request {
    let head = Http1Head {
        method: b"GET".to_vec(),
        path: b"/".to_vec(),
        version_minor: 1,
        headers: lines,
    };
    Request::from_http1(head, false).unwrap()
}

#[test]
fn headers_are_case_insensitive_and_keep_all_values() {
    let mut headers = Headers::new();
    headers.insert(b"Set-Cookie".to_vec(), b"a=1".to_vec());
    headers.insert(b"set-cookie".to_vec(), b"b=2".to_vec());
    assert!(headers.contains_key("SET-COOKIE"));
    let values = headers.get_vec("Set-Cookie").unwrap();
    assert_eq!(values, &vec![b"a=1".to_vec(), b"b=2".to_vec()]);
    assert!(headers.get_vec("Set-Cookie2").is_none());
}

#[test]
fn headers_from_http1_builds_buckets() {
    let raw = vec![
        line(b"Host", b"example.org"),
        line(b"Accept", b"text/html"),
        line(b"accept", b"text/plain"),
    ];
    let headers = Headers::from_http1(&raw);
    assert_eq!(
        headers.get_vec("ACCEPT").unwrap(),
        &vec![b"text/html".to_vec(), b"text/plain".to_vec()]
    );
}

#[test]
fn tokenizer_rejoin_round_trip() {
    // joining the tokens with single commas and tokenizing again changes
    // nothing: order and content are kept
    let values = vec![b"  gzip ,, chunked ".to_vec(), b"identity".to_vec()];
    let mut iter = IterListHeader::new(&values);
    let mut tokens: Vec<Vec<u8>> = Vec::new();
    while let Some(t) = iter.next() {
        tokens.push(t);
    }
    assert_eq!(
        tokens,
        vec![b"gzip".to_vec(), b"chunked".to_vec(), b"identity".to_vec()]
    );
    let joined = tokens.join(&b","[..]);
    let rejoined_values = vec![joined];
    let mut iter2 = IterListHeader::new(&rejoined_values);
    let mut tokens2: Vec<Vec<u8>> = Vec::new();
    while let Some(t) = iter2.next() {
        tokens2.push(t);
    }
    assert_eq!(tokens, tokens2);
}

#[test]
fn content_length_missing_header() {
    let req = request_with_headers(vec![line(b"Host", b"example.org")]);
    assert_eq!(req.content_length(), Err(Error::MissingHeader));
}

#[test]
fn content_length_forbidden_with_transfer_encoding() {
    let req = request_with_headers(vec![
        line(b"Content-Length", b"6"),
        line(b"Transfer-Encoding", b"chunked"),
    ]);
    assert_eq!(req.content_length(), Err(Error::ForbiddenHeader));
}

#[test]
fn content_length_invalid_value() {
    let req = request_with_headers(vec![line(b"Content-Length", b"six")]);
    assert_eq!(req.content_length(), Err(Error::InvalidHeader));
    let req = request_with_headers(vec![
        line(b"Content-Length", b"6"),
        line(b"content-length", b"7"),
    ]);
    assert_eq!(req.content_length(), Err(Error::InvalidHeader));
    let req = request_with_headers(vec![line(b"Content-Length", b"99999999999999999999999999")]);
    assert_eq!(req.content_length(), Err(Error::InvalidHeader));
}

#[test]
fn content_length_valid_value() {
    let req = request_with_headers(vec![line(b"Content-Length", b"42")]);
    assert_eq!(req.content_length(), Ok(42));
    let req = request_with_headers(vec![line(b"Content-Length", b"0")]);
    assert_eq!(req.content_length(), Ok(0));
}

#[test]
fn is_chunked_detects_tokens() {
    let req = request_with_headers(vec![line(b"Transfer-Encoding", b"gzip, chunked")]);
    assert!(req.is_chunked());
    let req = request_with_headers(vec![line(b"Transfer-Encoding", b"CHUNKED")]);
    assert!(req.is_chunked());
    let req = request_with_headers(vec![line(b"Transfer-Encoding", b"gzip")]);
    assert!(!req.is_chunked());
    let req = request_with_headers(vec![line(b"Host", b"example.org")]);
    assert!(!req.is_chunked());
}

#[test]
fn request_url_http10_uses_zero_authority() {
    let head = Http1Head {
        method: b"GET".to_vec(),
        path: b"/index.html".to_vec(),
        version_minor: 0,
        headers: vec![],
    };
    let req = Request::from_http1(head, false).unwrap();
    assert_eq!(req.version, HttpVersion::Http10);
    assert_eq!(
        req.request_url().unwrap(),
        Url::parse("http://0.0.0.0/index.html").unwrap()
    );
}

#[test]
fn request_url_requires_host_on_http11() {
    let req = request_with_headers(vec![line(b"Accept", b"*/*")]);
    assert_eq!(req.request_url(), Err(Error::InvalidMessage));
}

#[test]
fn request_url_rejects_bad_host_encoding() {
    let req = request_with_headers(vec![line(b"Host", &[0xffu8, 0xfe, 0xfd])]);
    assert_eq!(req.request_url(), Err(Error::InvalidMessage));
}

#[test]
fn request_url_absolute_form_needs_no_host() {
    // proxy absolute-form is tried before any Host lookup
    let head = Http1Head {
        method: b"GET".to_vec(),
        path: b"http://other.example/x".to_vec(),
        version_minor: 1,
        headers: vec![],
    };
    let req = Request::from_http1(head, false).unwrap();
    assert_eq!(
        req.request_url().unwrap(),
        Url::parse("http://other.example/x").unwrap()
    );
}

#[test]
fn header_value_whitespace_is_trimmed() {
    #[derive(Debug, Eq, PartialEq)]
    struct DummyHandler;
    impl Handler<()> for DummyHandler {
        fn request(req: Request, _: &mut ()) -> Response {
            assert_eq!(req.body, b"foobar".to_vec());
            assert_eq!(
                req.get_value_header("Host").unwrap(),
                &b"example.org".to_vec()
            );
            Response::new(HttpVersion::Http11)
        }
    }
    let mut inbuf = Buf::new();
    let mut outbuf = Buf::new();
    inbuf.extend(
        b"POST /c HTTP/1.1\r\nHost:  example.org \r\nContent-Length: 6 \t\r\n\r\nfoobar",
    );
    let client = Client::Initial;
    assert_eq!(
        client.data_received::<(), DummyHandler>(&mut inbuf, &mut outbuf, &mut ()),
        Async::Continue(Client::KeepAlive)
    );
    assert!(inbuf.empty());
}

#[test]
fn request_url_absolute_form_wins() {
    let head = Http1Head {
        method: b"GET".to_vec(),
        path: b"http://other.example/x".to_vec(),
        version_minor: 1,
        headers: vec![line(b"Host", b"example.org")],
    };
    let req = Request::from_http1(head, false).unwrap();
    assert_eq!(
        req.request_url().unwrap(),
        Url::parse("http://other.example/x").unwrap()
    );
}

#[test]
fn method_tokens_parse() {
    let head = Http1Head {
        method: b"BREW".to_vec(),
        path: b"/pot".to_vec(),
        version_minor: 1,
        headers: vec![],
    };
    let req = Request::from_http1(head, false).unwrap();
    assert_eq!(req.method, Method::Extension(b"BREW".to_vec()));
}

#[test]
fn serialize_without_body_writes_status_line_and_date() {
    let res = Response::new(HttpVersion::Http11);
    assert_eq!(res.status, StatusCode::Okay);
    let mut out = Buf::new();
    res.serialize(&mut out);
    let bytes = out.as_slice();
    assert_eq!(&bytes[..21], b"HTTP/1.1 200 OK\r\nDate");
    assert_eq!(&bytes[21..23], b": ");
    // the date value is 29 printable bytes
    let date = &bytes[23..52];
    assert_eq!(date.len(), 29);
    assert!(date.iter().all(|b| (32..=126).contains(b)));
    assert_eq!(&bytes[52..], b"\r\n\r\n");
}

#[test]
fn serialize_with_body_frames_it_with_content_length() {
    let mut res = Response::new(HttpVersion::Http11);
    res.put_body(b"Hello World!".to_vec());
    res.add_header(b"Date".to_vec(), b"today".to_vec());
    let mut out = Buf::new();
    res.serialize(&mut out);
    let expected: &[u8] =
        b"HTTP/1.1 200 OK\r\nDate: today\r\nContent-Length: 12\r\n\r\nHello World!";
    assert_eq!(out.as_slice(), expected);
}

#[test]
fn both_length_and_chunked_parses_as_chunked() {
    // the declared content length is silently ignored when a transfer
    // encoding is present: the forbidden combination falls through to the
    // chunked path
    #[derive(Debug, Eq, PartialEq)]
    struct DummyHandler;
    impl Handler<()> for DummyHandler {
        fn request(req: Request, _: &mut ()) -> Response {
            assert_eq!(req.body, b"hi".to_vec());
            Response::new(HttpVersion::Http11)
        }
    }
    let mut inbuf = Buf::new();
    let mut outbuf = Buf::new();
    inbuf.extend(
        b"POST /x HTTP/1.1\r\nHost: a.b\r\nContent-Length: 99\r\nTransfer-Encoding: chunked\r\n\r\n2\r\nhi\r\n0\r\n\r\n",
    );
    let client = Client::Initial;
    assert_eq!(
        client.data_received::<(), DummyHandler>(&mut inbuf, &mut outbuf, &mut ()),
        Async::Continue(Client::KeepAlive)
    );
    assert!(inbuf.empty());
}

#[test]
fn request_url_reports_parser_errors() {
    let req = request_with_headers(vec![line(b"Host", b"exa mple.org")]);
    assert!(matches!(req.request_url(), Err(Error::UrlError(_))));
}

#[test]
fn chunk_extension_is_skipped() {
    #[derive(Debug, Eq, PartialEq)]
    struct DummyHandler;
    impl Handler<()> for DummyHandler {
        fn request(req: Request, _: &mut ()) -> Response {
            assert_eq!(req.body, b"hi".to_vec());
            Response::new(HttpVersion::Http11)
        }
    }
    let mut inbuf = Buf::new();
    let mut outbuf = Buf::new();
    inbuf.extend(
        b"POST /x HTTP/1.1\r\nHost: a.b\r\nTransfer-Encoding: chunked\r\n\r\n2;ext=1\r\nhi\r\n0\r\n\r\n",
    );
    let client = Client::Initial;
    assert_eq!(
        client.data_received::<(), DummyHandler>(&mut inbuf, &mut outbuf, &mut ()),
        Async::Continue(Client::KeepAlive)
    );
    assert!(inbuf.empty());
}

#[test]
fn malformed_chunk_size_stops_the_connection() {
    #[derive(Debug, Eq, PartialEq)]
    struct DummyHandler;
    impl Handler<()> for DummyHandler {
        fn request(_: Request, _: &mut ()) -> Response {
            Response::new(HttpVersion::Http11)
        }
    }
    let mut inbuf = Buf::new();
    let mut outbuf = Buf::new();
    inbuf.extend(b"POST /x HTTP/1.1\r\nHost: a.b\r\nTransfer-Encoding: chunked\r\n\r\nZZ\r\nhi\r\n");
    let client = Client::Initial;
    assert_eq!(
        client.data_received::<(), DummyHandler>(&mut inbuf, &mut outbuf, &mut ()),
        Async::Stop
    );
}

#[test]
fn malformed_header_block_stops_the_connection() {
    #[derive(Debug, Eq, PartialEq)]
    struct DummyHandler;
    impl Handler<()> for DummyHandler {
        fn request(_: Request, _: &mut ()) -> Response {
            Response::new(HttpVersion::Http11)
        }
    }
    let mut inbuf = Buf::new();
    let mut outbuf = Buf::new();
    inbuf.extend(b"NOT A REQUEST\r\n\r\n");
    let client = Client::Initial;
    assert_eq!(
        client.data_received::<(), DummyHandler>(&mut inbuf, &mut outbuf, &mut ()),
        Async::Stop
    );
}

#[test]
fn pipelined_requests_dispatch_in_arrival_order() {
    struct RecordingHandler;
    impl Handler<Vec<Vec<u8>>> for RecordingHandler {
        fn request(req: Request, ctx: &mut Vec<Vec<u8>>) -> Response {
            ctx.push(req.body.clone());
            Response::new(HttpVersion::Http11)
        }
    }
    let mut inbuf = Buf::new();
    let mut outbuf = Buf::new();
    let mut seen: Vec<Vec<u8>> = Vec::new();
    inbuf.extend(
        b"POST /a HTTP/1.1\r\nHost: h\r\nContent-Length: 3\r\n\r\nonePOST /b HTTP/1.1\r\nHost: h\r\nContent-Length: 3\r\n\r\ntwo",
    );
    let client = Client::Initial;
    assert_eq!(
        client.data_received::<Vec<Vec<u8>>, RecordingHandler>(&mut inbuf, &mut outbuf, &mut seen),
        Async::Continue(Client::KeepAlive)
    );
    assert!(inbuf.empty());
    assert_eq!(seen, vec![b"one".to_vec(), b"two".to_vec()]);
    // one serialized response per request stands in the output
    let out = outbuf.as_slice();
    let status_lines = out
        .windows(b"HTTP/1.1 200 OK\r\n".len())
        .filter(|w| *w == b"HTTP/1.1 200 OK\r\n")
        .count();
    assert_eq!(status_lines, 2);
}

#[test]
fn suspended_header_read_consumes_nothing() {
    #[derive(Debug, Eq, PartialEq)]
    struct DummyHandler;
    impl Handler<()> for DummyHandler {
        fn request(_: Request, _: &mut ()) -> Response {
            Response::new(HttpVersion::Http11)
        }
    }
    let mut inbuf = Buf::new();
    let mut outbuf = Buf::new();
    inbuf.extend(b"GET / HTTP/1.1\r\nHost: exam");
    let client = Client::Initial;
    assert_eq!(
        client.data_received::<(), DummyHandler>(&mut inbuf, &mut outbuf, &mut ()),
        Async::Continue(Client::ReadHeaders)
    );
    assert_eq!(inbuf.len(), 26);
    assert!(outbuf.empty());
}
