//! The incremental connection state machine.
//!
//! The machine is invoked with whatever bytes the transport currently has;
//! it consumes exactly the bytes it can interpret, builds a request
//! incrementally across invocations, hands the completed request to the
//! handler, serializes the response, and loops for pipelined follow-ups.
//!
//! The whole drive is specified by the spec-level function [`run`]: one
//! invocation of [`Client::data_received`] consumes exactly the bytes `run`
//! says belong to the parsed requests, ends in the state `run` says, and
//! stops exactly when `run` says the input is fatal.

use vstd::prelude::*;

use crate::buf::Buf;
use crate::error::Error;
use crate::headers::{append_lines, find_byte, lemma_find_byte, trim, trim_range, HeaderLine};
use crate::message::{content_length_of, is_chunked_of, Message};
use crate::request::{request_of_head, with_body, Http1Head, ReqView, Request};
use crate::response::{is_date_bytes, lemma_serialized_all_push, serialized_all, serialized_bytes, RespView, Response};

verus! {

/// The most header lines one block may carry.
pub const MAX_HEADERS_NUM: usize = 256;

/// The largest header block, in bytes, that is accepted.
pub const MAX_HEADERS_SIZE: usize = 16384;

/// The intended cap on request bodies.  It is documented protocol contract;
/// the machine itself does not enforce it.
pub const MAX_BODY_SIZE: usize = 104_856_700;

/// Whether the blank-line header terminator stands at `i`.
pub open spec fn is_term_at(s: Seq<u8>, i: int) -> bool {
    &&& 0 <= i
    &&& i + 4 <= s.len()
    &&& s[i] == 13
    &&& s[i + 1] == 10
    &&& s[i + 2] == 13
    &&& s[i + 3] == 10
}

/// The first position of the header terminator, if any.
pub open spec fn find_terminator(s: Seq<u8>) -> Option<int>
    decreases s.len(),
{
    if s.len() < 4 {
        Option::None
    } else if is_term_at(s, 0) {
        Option::Some(0)
    } else {
        match find_terminator(s.skip(1)) {
            Option::Some(i) => Option::Some(i + 1),
            Option::None => Option::None,
        }
    }
}

/// `find_terminator` returns the first terminator position, or none when
/// there is none.
pub proof fn lemma_find_terminator(s: Seq<u8>)
    ensures
        match find_terminator(s) {
            Option::Some(i) => is_term_at(s, i) && forall|j: int| 0 <= j < i ==> !is_term_at(s, j),
            Option::None => forall|j: int| 0 <= j ==> !is_term_at(s, j),
        },
    decreases s.len(),
{
    if s.len() >= 4 && !is_term_at(s, 0) {
        lemma_find_terminator(s.skip(1));
        assert forall|j: int| 1 <= j implies is_term_at(s, j) == is_term_at(s.skip(1), j - 1) by {
            if j + 4 <= s.len() {
                assert(s.skip(1)[j - 1] == s[j]);
                assert(s.skip(1)[j] == s[j + 1]);
                assert(s.skip(1)[j + 1] == s[j + 2]);
                assert(s.skip(1)[j + 2] == s[j + 3]);
            }
        }
    } else if s.len() < 4 {
        assert forall|j: int| 0 <= j implies !is_term_at(s, j) by {}
    }
}

/// The first position where `\r\n` stands, if any.
pub open spec fn find_crlf(s: Seq<u8>) -> Option<int>
    decreases s.len(),
{
    if s.len() < 2 {
        Option::None
    } else if s[0] == 13 && s[1] == 10 {
        Option::Some(0)
    } else {
        match find_crlf(s.skip(1)) {
            Option::Some(i) => Option::Some(i + 1),
            Option::None => Option::None,
        }
    }
}

/// Whether `\r\n` stands at `i`.
pub open spec fn is_crlf_at(s: Seq<u8>, i: int) -> bool {
    0 <= i && i + 2 <= s.len() && s[i] == 13 && s[i + 1] == 10
}

/// `find_crlf` returns the first `\r\n` position, or none when there is
/// none.
pub proof fn lemma_find_crlf(s: Seq<u8>)
    ensures
        match find_crlf(s) {
            Option::Some(i) => is_crlf_at(s, i) && forall|j: int| 0 <= j < i ==> !is_crlf_at(s, j),
            Option::None => forall|j: int| 0 <= j ==> !is_crlf_at(s, j),
        },
    decreases s.len(),
{
    if s.len() >= 2 && !(s[0] == 13 && s[1] == 10) {
        lemma_find_crlf(s.skip(1));
        assert forall|j: int| 1 <= j implies is_crlf_at(s, j) == is_crlf_at(s.skip(1), j - 1) by {
            if j + 2 <= s.len() {
                assert(s.skip(1)[j - 1] == s[j]);
                assert(s.skip(1)[j] == s[j + 1]);
            }
        }
    }
}

/// Whether a byte may stand in a header name or method token.
pub open spec fn is_name_byte(b: u8) -> bool {
    33 <= b <= 126 && b != 58
}

/// Whether a byte may stand in a request path.
pub open spec fn is_path_byte(b: u8) -> bool {
    33 <= b <= 126
}

/// The name and value a header line denotes, if it is well-formed: a
/// non-empty token name, a colon, then the value with surrounding
/// whitespace dropped.  The line itself must be free of bare carriage
/// returns and line feeds.
pub open spec fn header_line_of(line: Seq<u8>) -> Option<(Seq<u8>, Seq<u8>)> {
    match find_byte(line, 58) {
        Option::None => Option::None,
        Option::Some(c) => {
            let name = line.take(c);
            if name.len() > 0 && (forall|i: int| 0 <= i < name.len() ==> is_name_byte(#[trigger] name[i]))
                && (forall|i: int| c < i < line.len() ==> line[i] != 13 && #[trigger] line[i] != 10) {
                Option::Some((name, trim(line.skip(c + 1))))
            } else {
                Option::None
            }
        },
    }
}

/// The outcome of parsing a run of header lines up to a blank line.
#[verifier::ext_equal]
pub enum LinesOutcome {
    /// The blank line was found: how many bytes the block takes, and the
    /// lines in order.
    Complete(int, Seq<(Seq<u8>, Seq<u8>)>),
    /// More bytes are needed.
    Partial,
    /// The input can never become a header block.
    Bad,
}

/// Parses header lines until the terminating blank line.
pub open spec fn parse_header_lines(s: Seq<u8>) -> LinesOutcome
    decreases s.len() via parse_header_lines_decreases
{
    if s.len() >= 2 && s[0] == 13 && s[1] == 10 {
        LinesOutcome::Complete(2, Seq::empty())
    } else if s.len() < 2 {
        LinesOutcome::Partial
    } else {
        match find_crlf(s) {
            Option::None => LinesOutcome::Partial,
            Option::Some(i) => match header_line_of(s.take(i)) {
                Option::None => LinesOutcome::Bad,
                Option::Some(line) => match parse_header_lines(s.skip(i + 2)) {
                    LinesOutcome::Complete(c, lines) => LinesOutcome::Complete(
                        i + 2 + c,
                        seq![line] + lines,
                    ),
                    LinesOutcome::Partial => LinesOutcome::Partial,
                    LinesOutcome::Bad => LinesOutcome::Bad,
                },
            },
        }
    }
}

#[via_fn]
proof fn parse_header_lines_decreases(s: Seq<u8>) {
    lemma_find_crlf(s);
}

/// A complete header block takes at least its blank line and at most the
/// whole input.
pub proof fn lemma_header_lines_bounds(s: Seq<u8>)
    ensures
        match parse_header_lines(s) {
            LinesOutcome::Complete(c, lines) => 2 <= c <= s.len() && lines.len() >= 0,
            _ => true,
        },
    decreases s.len(),
{
    if !(s.len() >= 2 && s[0] == 13 && s[1] == 10) && s.len() >= 2 {
        if let Option::Some(i) = find_crlf(s) {
            lemma_find_crlf(s);
            lemma_header_lines_bounds(s.skip(i + 2));
        }
    }
}

/// The request-line tokens: method, path, and version minor.
pub open spec fn parse_request_line(line: Seq<u8>) -> Option<(Seq<u8>, Seq<u8>, u8)> {
    match find_byte(line, 32) {
        Option::None => Option::None,
        Option::Some(m) => {
            let method = line.take(m);
            let rest = line.skip(m + 1);
            match find_byte(rest, 32) {
                Option::None => Option::None,
                Option::Some(p) => {
                    let path = rest.take(p);
                    let vers = rest.skip(p + 1);
                    if method.len() > 0 && (forall|i: int|
                        0 <= i < method.len() ==> is_name_byte(#[trigger] method[i])) && path.len()
                        > 0 && (forall|i: int|
                        0 <= i < path.len() ==> is_path_byte(#[trigger] path[i])) && vers.len() == 8
                        && vers.take(7) == seq![72u8, 84u8, 84u8, 80u8, 47u8, 49u8, 46u8] && (
                    vers[7] == 48 || vers[7] == 49) {
                        Option::Some((method, path, (vers[7] - 48) as u8))
                    } else {
                        Option::None
                    }
                },
            }
        },
    }
}

/// The pieces a complete header block denotes, if it is well-formed: the
/// request line, then header lines filling the block exactly, at most
/// `MAX_HEADERS_NUM` of them.
pub open spec fn parse_head(block: Seq<u8>) -> Option<(Seq<u8>, Seq<u8>, u8, Seq<(Seq<u8>, Seq<u8>)>)> {
    match find_crlf(block) {
        Option::None => Option::None,
        Option::Some(i) => match parse_request_line(block.take(i)) {
            Option::None => Option::None,
            Option::Some((method, path, minor)) => match parse_header_lines(block.skip(i + 2)) {
                LinesOutcome::Complete(c, lines) => if i + 2 + c == block.len() && lines.len()
                    <= MAX_HEADERS_NUM as int {
                    Option::Some((method, path, minor, lines))
                } else {
                    Option::None
                },
                _ => Option::None,
            },
        },
    }
}

/// Whether a byte is a lowercase hexadecimal digit.
pub open spec fn is_hex_byte(b: u8) -> bool {
    (48 <= b <= 57) || (97 <= b <= 102)
}

/// The value of one hexadecimal digit.
pub open spec fn hex_digit(b: u8) -> nat {
    if 48 <= b <= 57 {
        (b - 48) as nat
    } else {
        (b - 87) as nat
    }
}

/// How many leading bytes of `s` are hexadecimal digits.
pub open spec fn hex_end(s: Seq<u8>) -> int
    decreases s.len(),
{
    if s.len() == 0 {
        0
    } else if !is_hex_byte(s[0]) {
        0
    } else {
        1 + hex_end(s.skip(1))
    }
}

/// The digit prefix is exactly `s.take(hex_end(s))`.
pub proof fn lemma_hex_end(s: Seq<u8>)
    ensures
        0 <= hex_end(s) <= s.len(),
        forall|j: int| 0 <= j < hex_end(s) ==> is_hex_byte(#[trigger] s[j]),
        hex_end(s) < s.len() ==> !is_hex_byte(s[hex_end(s)]),
    decreases s.len(),
{
    if s.len() > 0 && is_hex_byte(s[0]) {
        lemma_hex_end(s.skip(1));
        assert forall|j: int| 1 <= j < s.len() implies s.skip(1)[j - 1] == s[j] by {}
    }
}

/// The number a hexadecimal digit string denotes.
pub open spec fn hex_value(s: Seq<u8>) -> nat
    decreases s.len(),
{
    if s.len() == 0 {
        0
    } else {
        hex_value(s.drop_last()) * 16 + hex_digit(s.last())
    }
}

/// The outcome of parsing one chunk-size line.
#[verifier::ext_equal]
pub enum ChunkLineOutcome {
    /// How many bytes the line takes, and the chunk size it declares.
    Line(int, int),
    /// More bytes are needed.
    Partial,
    /// The line can never become a chunk-size line, or the size cannot be
    /// represented.
    Bad,
}

/// Parses one chunk-size line: lowercase hexadecimal digits, an optional
/// `;`-introduced extension which is skipped, then `\r\n`.
pub open spec fn parse_chunk_line(s: Seq<u8>) -> ChunkLineOutcome {
    let d = hex_end(s);
    if d >= s.len() {
        ChunkLineOutcome::Partial
    } else if d == 0 {
        ChunkLineOutcome::Bad
    } else if hex_value(s.take(d)) > usize::MAX {
        ChunkLineOutcome::Bad
    } else if s[d] == 13 {
        if d + 1 >= s.len() {
            ChunkLineOutcome::Partial
        } else if s[d + 1] == 10 {
            ChunkLineOutcome::Line(d + 2, hex_value(s.take(d)) as int)
        } else {
            ChunkLineOutcome::Bad
        }
    } else if s[d] == 59 {
        match find_crlf(s.skip(d)) {
            Option::None => ChunkLineOutcome::Partial,
            Option::Some(e) => ChunkLineOutcome::Line(d + e + 2, hex_value(s.take(d)) as int),
        }
    } else {
        ChunkLineOutcome::Bad
    }
}

/// A chunk-size line takes at least three bytes and at most the whole
/// input, and declares a representable size.
pub proof fn lemma_chunk_line_bounds(s: Seq<u8>)
    ensures
        match parse_chunk_line(s) {
            ChunkLineOutcome::Line(c, size) => 3 <= c <= s.len() && 0 <= size <= usize::MAX,
            _ => true,
        },
{
    lemma_hex_end(s);
    let d = hex_end(s);
    if d < s.len() && d > 0 && hex_value(s.take(d)) <= usize::MAX && s[d] == 59 {
        lemma_find_crlf(s.skip(d));
        if let Option::Some(e) = find_crlf(s.skip(d)) {
            assert(e >= 1);
        }
    }
}

/// The spec-level machine state.
#[verifier::ext_equal]
pub enum ClientView {
    Initial,
    ReadHeaders,
    ReadFixedSize(ReqView, int),
    ReadChunked(ReqView, Option<int>),
    ReadTrailers(ReqView),
    Parsed(ReqView),
    KeepAlive,
}

/// What one step decided.
pub enum Ctl {
    /// The machine moves on within this invocation.
    Go,
    /// The machine waits for more bytes.
    Suspend,
    /// The connection is torn down.
    Stop,
}

/// One transition of the machine: control decision, successor state, bytes
/// consumed, and the request completed by this step, if any.
#[verifier::ext_equal]
pub struct StepRes {
    pub ctl: Ctl,
    pub next: ClientView,
    pub consumed: int,
    pub emit: Option<ReqView>,
}

/// The outcome of looking for a request head in the input.
#[verifier::ext_equal]
pub enum HeadOutcome {
    /// More bytes are needed.
    More,
    /// The connection is torn down: oversized or malformed header block.
    Fatal,
    /// A request was parsed; the head takes this many bytes.
    Got(ReqView, int),
}

/// What the header-parsing states make of the input: wait below the size
/// cap, tear down oversized or malformed blocks, otherwise parse the block
/// into a request.
pub open spec fn headers_outcome(input: Seq<u8>) -> HeadOutcome {
    match find_terminator(input) {
        Option::None => if input.len() > MAX_HEADERS_SIZE as int {
            HeadOutcome::Fatal
        } else {
            HeadOutcome::More
        },
        Option::Some(p) => if p + 4 > MAX_HEADERS_SIZE as int {
            HeadOutcome::Fatal
        } else {
            match parse_head(input.take(p + 4)) {
                Option::None => HeadOutcome::Fatal,
                Option::Some((method, path, minor, lines)) => match request_of_head(
                    method,
                    path,
                    minor,
                    lines,
                    false,
                ) {
                    Result::Err(_) => HeadOutcome::Fatal,
                    Result::Ok(req) => HeadOutcome::Got(req, p + 4),
                },
            }
        },
    }
}

/// One step of the machine on the current input.
pub open spec fn step(s: ClientView, input: Seq<u8>) -> StepRes {
    match s {
        ClientView::Initial | ClientView::ReadHeaders | ClientView::KeepAlive => match headers_outcome(
            input,
        ) {
            HeadOutcome::More => StepRes {
                ctl: Ctl::Suspend,
                next: ClientView::ReadHeaders,
                consumed: 0,
                emit: Option::None,
            },
            HeadOutcome::Fatal => StepRes { ctl: Ctl::Stop, next: s, consumed: 0, emit: Option::None },
            HeadOutcome::Got(req, c) => match content_length_of(req.headers) {
                Result::Ok(len) => StepRes {
                    ctl: Ctl::Go,
                    next: ClientView::ReadFixedSize(req, len as int),
                    consumed: c,
                    emit: Option::None,
                },
                Result::Err(_) => if is_chunked_of(req.headers) {
                    StepRes {
                        ctl: Ctl::Go,
                        next: ClientView::ReadChunked(req, Option::None),
                        consumed: c,
                        emit: Option::None,
                    }
                } else {
                    StepRes {
                        ctl: Ctl::Go,
                        next: ClientView::Parsed(req),
                        consumed: c,
                        emit: Option::None,
                    }
                },
            },
        },
        ClientView::ReadFixedSize(req, size) => {
            let k = if size <= 0 {
                0
            } else if size <= input.len() {
                size
            } else {
                input.len() as int
            };
            let req2 = with_body(req, input.take(k));
            if size <= k {
                StepRes { ctl: Ctl::Go, next: ClientView::Parsed(req2), consumed: k, emit: Option::None }
            } else {
                StepRes {
                    ctl: Ctl::Suspend,
                    next: ClientView::ReadFixedSize(req2, size - k),
                    consumed: k,
                    emit: Option::None,
                }
            }
        },
        ClientView::ReadChunked(req, Option::None) => match parse_chunk_line(input) {
            ChunkLineOutcome::Partial => StepRes {
                ctl: Ctl::Suspend,
                next: s,
                consumed: 0,
                emit: Option::None,
            },
            ChunkLineOutcome::Bad => StepRes { ctl: Ctl::Stop, next: s, consumed: 0, emit: Option::None },
            ChunkLineOutcome::Line(c, size) => if size == 0 {
                if input.len() >= c + 2 && input[c] == 13 && input[c + 1] == 10 {
                    StepRes {
                        ctl: Ctl::Go,
                        next: ClientView::Parsed(req),
                        consumed: c + 2,
                        emit: Option::None,
                    }
                } else {
                    StepRes {
                        ctl: Ctl::Go,
                        next: ClientView::ReadTrailers(req),
                        consumed: c,
                        emit: Option::None,
                    }
                }
            } else {
                StepRes {
                    ctl: Ctl::Go,
                    next: ClientView::ReadChunked(req, Option::Some(size)),
                    consumed: c,
                    emit: Option::None,
                }
            },
        },
        ClientView::ReadChunked(req, Option::Some(rem)) => {
            if rem <= 0 {
                if input.len() < 2 {
                    StepRes { ctl: Ctl::Suspend, next: s, consumed: 0, emit: Option::None }
                } else if input[0] == 13 && input[1] == 10 {
                    StepRes {
                        ctl: Ctl::Go,
                        next: ClientView::ReadChunked(req, Option::None),
                        consumed: 2,
                        emit: Option::None,
                    }
                } else {
                    StepRes { ctl: Ctl::Stop, next: s, consumed: 0, emit: Option::None }
                }
            } else {
                let k = if rem <= input.len() {
                    rem
                } else {
                    input.len() as int
                };
                // rem > 0 here, so k >= 0

                StepRes {
                    ctl: Ctl::Go,
                    next: ClientView::ReadChunked(with_body(req, input.take(k)), Option::Some(rem - k)),
                    consumed: k,
                    emit: Option::None,
                }
            }
        },
        ClientView::ReadTrailers(req) => match parse_header_lines(input) {
            LinesOutcome::Partial => StepRes { ctl: Ctl::Suspend, next: s, consumed: 0, emit: Option::None },
            LinesOutcome::Bad => StepRes { ctl: Ctl::Stop, next: s, consumed: 0, emit: Option::None },
            LinesOutcome::Complete(c, lines) => if lines.len() <= MAX_HEADERS_NUM as int {
                StepRes {
                    ctl: Ctl::Go,
                    next: ClientView::Parsed(
                        ReqView { headers: append_lines(req.headers, lines), ..req },
                    ),
                    consumed: c,
                    emit: Option::None,
                }
            } else {
                StepRes { ctl: Ctl::Stop, next: s, consumed: 0, emit: Option::None }
            },
        },
        ClientView::Parsed(req) => StepRes {
            ctl: Ctl::Go,
            next: ClientView::KeepAlive,
            consumed: 0,
            emit: Option::Some(req),
        },
    }
}

/// A rank that strictly drops on the zero-consuming transitions.
pub open spec fn srank(s: ClientView) -> int {
    match s {
        ClientView::Initial | ClientView::ReadHeaders | ClientView::KeepAlive => 0,
        ClientView::Parsed(_) => 1,
        _ => 2,
    }
}

/// Every step consumes no more than the input holds; a `Go` step either
/// consumes something or drops the rank.
pub proof fn lemma_step_bounds(s: ClientView, input: Seq<u8>)
    ensures
        0 <= step(s, input).consumed <= input.len(),
        step(s, input).ctl is Go && (step(s, input).next is Parsed || step(s, input).consumed
            < input.len()) ==> step(s, input).consumed > 0 || srank(step(s, input).next) < srank(
            s,
        ),
{
    match s {
        ClientView::Initial | ClientView::ReadHeaders | ClientView::KeepAlive => {
            lemma_find_terminator(input);
            if let Option::Some(p) = find_terminator(input) {
                assert(is_term_at(input, p));
                assert(0 <= p && p + 4 <= input.len());
                assert(match headers_outcome(input) {
                    HeadOutcome::Got(req, c) => c == p + 4,
                    _ => true,
                });
            }
        },
        ClientView::ReadChunked(req, Option::None) => {
            lemma_chunk_line_bounds(input);
        },
        ClientView::ReadTrailers(req) => {
            lemma_header_lines_bounds(input);
        },
        _ => {},
    }
}

/// What one full invocation of the machine does.
#[verifier::ext_equal]
pub struct RunResult {
    /// The state the machine suspends in, or stood in when it stopped.
    pub state: ClientView,
    /// The input bytes not consumed.
    pub rest: Seq<u8>,
    /// The requests completed, in arrival order.
    pub requests: Seq<ReqView>,
    /// Whether the connection is torn down.
    pub stop: bool,
}

/// The requests one step completes.
pub open spec fn emit_seq(e: Option<ReqView>) -> Seq<ReqView> {
    match e {
        Option::Some(r) => seq![r],
        Option::None => Seq::empty(),
    }
}

/// The machine driven to suspension or stop: it steps as long as a request
/// just completed or input remains, exactly as the driving loop does.
pub open spec fn run(s: ClientView, input: Seq<u8>) -> RunResult
    decreases input.len(), srank(s) via run_decreases
{
    let st = step(s, input);
    let rest = input.skip(st.consumed);
    match st.ctl {
        Ctl::Suspend => RunResult { state: st.next, rest, requests: Seq::empty(), stop: false },
        Ctl::Stop => RunResult { state: s, rest: input, requests: Seq::empty(), stop: true },
        Ctl::Go => {
            if st.next is Parsed || rest.len() > 0 {
                let r2 = run(st.next, rest);
                RunResult {
                    state: r2.state,
                    rest: r2.rest,
                    requests: emit_seq(st.emit) + r2.requests,
                    stop: r2.stop,
                }
            } else {
                RunResult { state: st.next, rest, requests: emit_seq(st.emit), stop: false }
            }
        },
    }
}

#[via_fn]
proof fn run_decreases(s: ClientView, input: Seq<u8>) {
    lemma_step_bounds(s, input);
    let st = step(s, input);
    if st.ctl is Go {
        let rest = input.skip(st.consumed);
        if st.next is Parsed || rest.len() > 0 {
            if st.consumed == 0 {
                assert(srank(st.next) < srank(s));
            }
        }
    }
}


/// Whether a byte is a lowercase hexadecimal digit.
fn is_hex_exec(b: u8) -> (r: bool)
    ensures
        r == is_hex_byte(b),
{
    (48 <= b && b <= 57) || (97 <= b && b <= 102)
}

/// The first `\r\n` in `v[from..end]`, as an absolute position.
fn find_crlf_upto(v: &[u8], from: usize, end: usize) -> (r: Option<usize>)
    requires
        from <= end <= v@.len(),
    ensures
        match r {
            Option::Some(i) => from <= i && i + 2 <= end && find_crlf(
                v@.subrange(from as int, end as int),
            ) == Option::Some(i - from),
            Option::None => find_crlf(v@.subrange(from as int, end as int)) is None,
        },
{
    let ghost s = v@.subrange(from as int, end as int);
    let mut i = from;
    while end - i >= 2
        invariant
            from <= i <= end <= v@.len(),
            forall|j: int| 0 <= j < i - from ==> !is_crlf_at(s, j),
            s == v@.subrange(from as int, end as int),
        decreases end - i,
    {
        if v[i] == 13 && v[i + 1] == 10 {
            proof {
                lemma_find_crlf(s);
                assert(s[i - from] == v@[i as int]);
                assert(s[i - from + 1] == v@[i + 1]);
                assert(is_crlf_at(s, i - from));
                match find_crlf(s) {
                    Option::Some(k) => {
                        if k < i - from {
                            assert(!is_crlf_at(s, k));
                        }
                        if k > i - from {
                            assert(!is_crlf_at(s, i - from));
                        }
                    },
                    Option::None => {
                        assert(!is_crlf_at(s, i - from));
                    },
                }
            }
            return Option::Some(i);
        }
        proof {
            assert(s[i - from] == v@[i as int]);
            assert(s[i - from + 1] == v@[i + 1]);
            assert(!is_crlf_at(s, i - from));
        }
        i = i + 1;
    }
    proof {
        lemma_find_crlf(s);
        if let Option::Some(k) = find_crlf(s) {
            assert(is_crlf_at(s, k));
            assert(!is_crlf_at(s, k));
        }
    }
    Option::None
}

/// The first `b` in `v[from..end]`, as an absolute position.
fn find_byte_upto(v: &[u8], from: usize, end: usize, b: u8) -> (r: Option<usize>)
    requires
        from <= end <= v@.len(),
    ensures
        match r {
            Option::Some(i) => from <= i < end && find_byte(
                v@.subrange(from as int, end as int),
                b,
            ) == Option::Some(i - from),
            Option::None => find_byte(v@.subrange(from as int, end as int), b) is None,
        },
{
    let ghost s = v@.subrange(from as int, end as int);
    let mut i = from;
    while i < end
        invariant
            from <= i <= end <= v@.len(),
            forall|j: int| 0 <= j < i - from ==> s[j] != b,
            s == v@.subrange(from as int, end as int),
        decreases end - i,
    {
        if v[i] == b {
            proof {
                lemma_find_byte(s, b);
                assert(s[i - from] == b);
                match find_byte(s, b) {
                    Option::Some(k) => {
                        if k < i - from {
                            assert(s[k] != b);
                        }
                        if k > i - from {
                            assert(s[i - from] != b);
                        }
                    },
                    Option::None => {
                        assert(s[i - from] != b);
                    },
                }
            }
            return Option::Some(i);
        }
        proof {
            assert(s[i - from] == v@[i as int]);
        }
        i = i + 1;
    }
    proof {
        lemma_find_byte(s, b);
        if let Option::Some(k) = find_byte(s, b) {
            assert(s[k] == b);
            assert(s[k] != b);
        }
    }
    Option::None
}

/// The hexadecimal value of a growing prefix never shrinks.
proof fn lemma_hex_value_step(s: Seq<u8>, i: int)
    requires
        0 <= i < s.len(),
    ensures
        hex_value(s.take(i + 1)) == hex_value(s.take(i)) * 16 + hex_digit(s[i]),
        hex_value(s.take(i + 1)) >= hex_value(s.take(i)),
{
    assert(s.take(i + 1).drop_last() =~= s.take(i));
    assert(s.take(i + 1).last() == s[i]);
    assert(hex_value(s.take(i)) * 16 >= hex_value(s.take(i))) by (nonlinear_arith);
}

/// Reads one chunk-size line off the input: the declared size, or nothing
/// when the line is still incomplete, or an error when it can never become
/// a chunk-size line.
fn parse_chunk_size(input: &mut Buf) -> (r: Result<Option<usize>, Error>)
    ensures
        match parse_chunk_line(old(input)@) {
            ChunkLineOutcome::Partial => r == Result::<Option<usize>, Error>::Ok(Option::None)
                && final(input)@ == old(input)@,
            ChunkLineOutcome::Bad => r is Err && final(input)@ == old(input)@,
            ChunkLineOutcome::Line(c, size) => r == Result::<Option<usize>, Error>::Ok(
                Option::Some(size as usize),
            ) && final(input)@ == old(input)@.skip(c),
        },
{
    let ghost s = input@;
    let n = input.len();
    let mut i: usize = 0;
    let mut acc: usize = 0;
    let mut over: bool = false;
    while i < n && is_hex_exec(input.at(i))
        invariant
            i <= n,
            n == input@.len(),
            input@ == s,
            forall|j: int| 0 <= j < i ==> is_hex_byte(#[trigger] s[j]),
            over == (hex_value(s.take(i as int)) > usize::MAX),
            !over ==> acc == hex_value(s.take(i as int)),
        decreases n - i,
    {
        let b = input.at(i);
        let d: usize = if b <= 57 {
            (b - 48) as usize
        } else {
            (b - 87) as usize
        };
        proof {
            lemma_hex_value_step(s, i as int);
        }
        if over {
            proof {
                assert(hex_value(s.take(i + 1)) > usize::MAX);
            }
        } else {
            match acc.checked_mul(16) {
                Option::Some(a16) => match a16.checked_add(d) {
                    Option::Some(a) => {
                        acc = a;
                    },
                    Option::None => {
                        over = true;
                    },
                },
                Option::None => {
                    over = true;
                    proof {
                        assert(hex_value(s.take(i + 1)) > usize::MAX);
                    }
                },
            }
        }
        i = i + 1;
    }
    proof {
        lemma_hex_end(s);
        if i < n {
            assert(!is_hex_byte(s[i as int]));
            if (i as int) < hex_end(s) {
                assert(is_hex_byte(s[i as int]));
            }
            if (i as int) > hex_end(s) {
                assert(is_hex_byte(s[hex_end(s)]));
            }
            assert(i as int == hex_end(s));
        } else {
            if hex_end(s) < i as int {
                assert(is_hex_byte(s[hex_end(s)]));
            }
            assert(i as int == hex_end(s));
        }
    }
    if i >= n {
        return Result::Ok(Option::None);
    }
    if i == 0 {
        return Result::Err(Error::InvalidMessage);
    }
    if over {
        return Result::Err(Error::InvalidMessage);
    }
    let b = input.at(i);
    if b == 13 {
        if i + 1 >= n {
            return Result::Ok(Option::None);
        }
        if input.at(i + 1) == 10 {
            input.consume(i + 2);
            return Result::Ok(Option::Some(acc));
        }
        return Result::Err(Error::InvalidMessage);
    }
    if b == 59 {
        let v = input.as_slice();
        let e = find_crlf_upto(v, i, n);
        proof {
            assert(v@.subrange(i as int, n as int) =~= s.skip(i as int));
        }
        match e {
            Option::None => {
                return Result::Ok(Option::None);
            },
            Option::Some(e_abs) => {
                proof {
                    assert(e_abs - i + (i as int) + 2 == e_abs + 2);
                }
                input.consume(e_abs + 2);
                return Result::Ok(Option::Some(acc));
            },
        }
    }
    Result::Err(Error::InvalidMessage)
}

/// Moves up to `size` available bytes from the input onto `store` and
/// returns how many are still owed.
pub(crate) fn parse_fixed_size(input: &mut Buf, store: &mut Vec<u8>, size: usize) -> (r: usize)
    ensures
        ({
            let k = if size <= old(input)@.len() {
                size as int
            } else {
                old(input)@.len() as int
            };
            &&& r == size - k
            &&& final(store)@ == old(store)@ + old(input)@.take(k)
            &&& final(input)@ == old(input)@.skip(k)
        }),
{
    let avail = input.len();
    let k = if size <= avail {
        size
    } else {
        avail
    };
    input.copy_range_into(0, k, store);
    input.consume(k);
    proof {
        assert(old(input)@.subrange(0, k as int) =~= old(input)@.take(k as int));
    }
    size - k
}


/// The first byte of `v[from..to]` that may not stand in a token, if any.
fn bad_name_byte(v: &[u8], from: usize, to: usize) -> (r: Option<usize>)
    requires
        from <= to <= v@.len(),
    ensures
        match r {
            Option::None => forall|i: int| from <= i < to ==> is_name_byte(#[trigger] v@[i]),
            Option::Some(i) => from <= i < to && !is_name_byte(v@[i as int]),
        },
{
    let mut i = from;
    while i < to
        invariant
            from <= i <= to <= v@.len(),
            forall|j: int| from <= j < i ==> is_name_byte(#[trigger] v@[j]),
        decreases to - i,
    {
        let b = v[i];
        if !(33 <= b && b <= 126 && b != 58) {
            return Option::Some(i);
        }
        i = i + 1;
    }
    Option::None
}

/// The first byte of `v[from..to]` that may not stand in a path, if any.
fn bad_path_byte(v: &[u8], from: usize, to: usize) -> (r: Option<usize>)
    requires
        from <= to <= v@.len(),
    ensures
        match r {
            Option::None => forall|i: int| from <= i < to ==> is_path_byte(#[trigger] v@[i]),
            Option::Some(i) => from <= i < to && !is_path_byte(v@[i as int]),
        },
{
    let mut i = from;
    while i < to
        invariant
            from <= i <= to <= v@.len(),
            forall|j: int| from <= j < i ==> is_path_byte(#[trigger] v@[j]),
        decreases to - i,
    {
        let b = v[i];
        if !(33 <= b && b <= 126) {
            return Option::Some(i);
        }
        i = i + 1;
    }
    Option::None
}

/// The first carriage return or line feed in `v[from..to]`, if any.
fn bad_crlf_byte(v: &[u8], from: usize, to: usize) -> (r: Option<usize>)
    requires
        from <= to <= v@.len(),
    ensures
        match r {
            Option::None => forall|i: int| from <= i < to ==> v@[i] != 13 && #[trigger] v@[i]
                != 10,
            Option::Some(i) => from <= i < to && (v@[i as int] == 13 || v@[i as int] == 10),
        },
{
    let mut i = from;
    while i < to
        invariant
            from <= i <= to <= v@.len(),
            forall|j: int| from <= j < i ==> v@[j] != 13 && #[trigger] v@[j] != 10,
        decreases to - i,
    {
        let b = v[i];
        if b == 13 || b == 10 {
            return Option::Some(i);
        }
        i = i + 1;
    }
    Option::None
}

/// The first position of the blank-line terminator in `v`, if any.
#[verifier::loop_isolation(false)]
fn find_term_exec(v: &[u8]) -> (r: Option<usize>)
    ensures
        match r {
            Option::Some(i) => find_terminator(v@) == Option::Some(i as int),
            Option::None => find_terminator(v@) is None,
        },
{
    proof {
        lemma_find_terminator(v@);
    }
    let n = v.len();
    if n < 4 {
        return Option::None;
    }
    let mut i: usize = 0;
    while n - i >= 4
        invariant
            i <= n,
            forall|j: int| 0 <= j < i ==> !is_term_at(v@, j),
        decreases n - i,
    {
        if v[i] == 13 && v[i + 1] == 10 && v[i + 2] == 13 && v[i + 3] == 10 {
            proof {
                assert(is_term_at(v@, i as int));
                match find_terminator(v@) {
                    Option::Some(k) => {
                        if k < i as int {
                            assert(!is_term_at(v@, k));
                        }
                        if k > i as int {
                            assert(!is_term_at(v@, i as int));
                        }
                    },
                    Option::None => {
                        assert(!is_term_at(v@, i as int));
                    },
                }
            }
            return Option::Some(i);
        }
        i = i + 1;
    }
    proof {
        if let Option::Some(k) = find_terminator(v@) {
            assert(is_term_at(v@, k));
            assert(!is_term_at(v@, k));
        }
    }
    Option::None
}

/// The request-line tokens of `v[0..end]`, if it is a well-formed request
/// line.
fn parse_request_line_exec(v: &[u8], end: usize) -> (r: Option<(Vec<u8>, Vec<u8>, u8)>)
    requires
        end <= v@.len(),
    ensures
        match r {
            Option::Some(parts) => parse_request_line(v@.take(end as int)) == Option::Some(
                (parts.0@, parts.1@, parts.2),
            ),
            Option::None => parse_request_line(v@.take(end as int)) is None,
        },
{
    let ghost line = v@.take(end as int);
    proof {
        assert(v@.subrange(0, end as int) =~= line);
    }
    let m = match find_byte_upto(v, 0, end, 32) {
        Option::Some(m) => m,
        Option::None => {
            return Option::None;
        },
    };
    let ghost rest = line.skip(m + 1);
    proof {
        assert(line.take(m as int) =~= v@.subrange(0, m as int));
        assert(rest =~= v@.subrange(m + 1, end as int));
    }
    let p = match find_byte_upto(v, m + 1, end, 32) {
        Option::Some(p) => p,
        Option::None => {
            return Option::None;
        },
    };
    proof {
        assert(rest.take(p - (m + 1)) =~= v@.subrange(m + 1, p as int));
        assert(rest.skip(p - (m + 1) + 1) =~= v@.subrange(p + 1, end as int));
    }
    if m == 0 {
        return Option::None;
    }
    match bad_name_byte(v, 0, m) {
        Option::Some(i) => {
            proof {
                assert(line.take(m as int)[i as int] == v@[i as int]);
            }
            return Option::None;
        },
        Option::None => {
            proof {
                assert forall|i: int| 0 <= i < m implies is_name_byte(
                    #[trigger] line.take(m as int)[i],
                ) by {
                    assert(line.take(m as int)[i] == v@[i]);
                }
            }
        },
    }
    if p == m + 1 {
        return Option::None;
    }
    match bad_path_byte(v, m + 1, p) {
        Option::Some(i) => {
            proof {
                assert(rest.take(p - (m + 1))[i - (m + 1)] == v@[i as int]);
            }
            return Option::None;
        },
        Option::None => {
            proof {
                assert forall|i: int| 0 <= i < p - (m + 1) implies is_path_byte(
                    #[trigger] rest.take(p - (m + 1))[i],
                ) by {
                    assert(rest.take(p - (m + 1))[i] == v@[m + 1 + i]);
                }
            }
        },
    }
    let ghost vers = rest.skip(p - (m + 1) + 1);
    if end - (p + 1) != 8 {
        return Option::None;
    }
    if !(v[p + 1] == 72 && v[p + 2] == 84 && v[p + 3] == 84 && v[p + 4] == 80 && v[p + 5] == 47
        && v[p + 6] == 49 && v[p + 7] == 46) {
        proof {
            assert(vers.take(7) != seq![72u8, 84u8, 84u8, 80u8, 47u8, 49u8, 46u8]) by {
                if vers.take(7) == seq![72u8, 84u8, 84u8, 80u8, 47u8, 49u8, 46u8] {
                    assert(vers.take(7)[0] == 72 && vers.take(7)[1] == 84 && vers.take(7)[2] == 84
                        && vers.take(7)[3] == 80 && vers.take(7)[4] == 47 && vers.take(7)[5] == 49
                        && vers.take(7)[6] == 46);
                }
            }
        }
        return Option::None;
    }
    proof {
        assert(vers.take(7) =~= seq![72u8, 84u8, 84u8, 80u8, 47u8, 49u8, 46u8]);
    }
    let last = v[end - 1];
    if !(last == 48 || last == 49) {
        proof {
            assert(vers[7] == v@[end - 1]);
        }
        return Option::None;
    }
    let method = crate::buf::copy_range(v, 0, m);
    let path = crate::buf::copy_range(v, m + 1, p);
    proof {
        assert(vers[7] == v@[end - 1]);
    }
    Option::Some((method, path, last - 48))
}

/// Looks for a complete request head in the input.  If the blank-line
/// terminator is not there yet and the buffered prefix is within bounds,
/// nothing is consumed and more bytes are awaited; a malformed or oversized
/// block is a fatal error and consumes nothing; a well-formed block is
/// consumed exactly and yields the request.
#[verifier::loop_isolation(false)]
#[verifier::rlimit(100)]
fn parse_headers(input: &mut Buf) -> (r: Result<Option<Request>, Error>)
    ensures
        match headers_outcome(old(input)@) {
            HeadOutcome::More => r == Result::<Option<Request>, Error>::Ok(Option::None)
                && final(input)@ == old(input)@,
            HeadOutcome::Fatal => r is Err && final(input)@ == old(input)@,
            HeadOutcome::Got(rv, c) => (match r {
                Result::Ok(Option::Some(req)) => req@ == rv && final(input)@ == old(input)@.skip(
                    c,
                ),
                _ => false,
            }),
        },
{
    let ghost s = input@;
    proof {
        assert(s == old(input)@);
    }
    let n = input.len();
    let v = input.as_slice();
    let p_opt = find_term_exec(v);
    proof {
        assert(input@ == s);
    }
    proof {
        lemma_find_terminator(s);
    }
    let p = match p_opt {
        Option::Some(p) => p,
        Option::None => {
            if n > MAX_HEADERS_SIZE {
                return Result::Err(Error::InvalidMessage);
            }
            return Result::Ok(Option::None);
        },
    };
    let p4 = p + 4;
    if p4 > MAX_HEADERS_SIZE {
        return Result::Err(Error::InvalidMessage);
    }
    let ghost block = s.take(p4 as int);
    proof {
        assert(v@.subrange(0, p4 as int) =~= block);
    }
    let i1 = match find_crlf_upto(v, 0, p4) {
        Option::Some(i) => i,
        Option::None => {
            return Result::Err(Error::InvalidMessage);
        },
    };
    let parts = match parse_request_line_exec(v, i1) {
        Option::Some(parts) => parts,
        Option::None => {
            proof {
                assert(block.take(i1 as int) =~= v@.take(i1 as int));
            }
            return Result::Err(Error::InvalidMessage);
        },
    };
    proof {
        assert(block.take(i1 as int) =~= v@.take(i1 as int));
    }
    let mut lines: Vec<HeaderLine> = Vec::new();
    let ghost start = i1 + 2int;
    let mut pos: usize = i1 + 2;
    proof {
        assert(block.skip(start) =~= block.skip(start));
    }
    loop
        invariant
            i1 + 2 <= pos <= p4 <= n,
            n == s.len(),
            input@ == s,
            v@ == s,
            start == i1 + 2int,
            block == s.take(p4 as int),
            is_term_at(s, p as int),
            p4 == p + 4,
            parse_header_lines(block.skip(start)) == (match parse_header_lines(
                block.skip(pos as int),
            ) {
                LinesOutcome::Complete(c, h) => LinesOutcome::Complete(
                    pos - start + c,
                    lines.deep_view() + h,
                ),
                LinesOutcome::Partial => LinesOutcome::Partial,
                LinesOutcome::Bad => LinesOutcome::Bad,
            }),
        decreases p4 - pos,
    {
        let ghost suffix = block.skip(pos as int);
        proof {
            assert(block.take(i1 as int) =~= v@.take(i1 as int));
            assert(find_crlf(block) == Option::Some(i1 as int)) by {
                assert(v@.subrange(0, p4 as int) =~= block);
            }
        }
        if p4 - pos < 2 {
            proof {
                assert(parse_header_lines(suffix) is Partial);
                assert(parse_head(block) is None);
                assert(headers_outcome(s) is Fatal);
            }
            return Result::Err(Error::InvalidMessage);
        }
        proof {
            assert(suffix[0] == s[pos as int]);
            assert(suffix[1] == s[pos + 1]);
        }
        if v[pos] == 13 && v[pos + 1] == 10 {
            // blank line: the block ends here
            proof {
                assert(parse_header_lines(suffix) == LinesOutcome::Complete(2, Seq::empty()));
                assert(lines.deep_view() + Seq::<(Seq<u8>, Seq<u8>)>::empty() =~= lines.deep_view());
                assert(parse_header_lines(block.skip(start)) == LinesOutcome::Complete(
                    pos - start + 2,
                    lines.deep_view(),
                ));
                assert(lines.deep_view().len() == lines@.len());
            }
            if pos + 2 != p4 {
                proof {
                    assert(start + (pos - start + 2) != block.len());
                    assert(parse_head(block) is None);
                    assert(headers_outcome(s) is Fatal);
                }
                return Result::Err(Error::InvalidMessage);
            }
            if lines.len() > MAX_HEADERS_NUM {
                proof {
                    assert(parse_head(block) is None);
                    assert(headers_outcome(s) is Fatal);
                }
                return Result::Err(Error::InvalidMessage);
            }
            proof {
                assert(start + (pos - start + 2) == block.len());
                assert(parse_head(block) == Option::Some(
                    (parts.0@, parts.1@, parts.2, lines.deep_view()),
                ));
            }
            let head = Http1Head {
                method: parts.0,
                path: parts.1,
                version_minor: parts.2,
                headers: lines,
            };
            let req = match Request::from_http1(head, false) {
                Result::Ok(req) => req,
                Result::Err(_) => {
                    proof {
                        assert(headers_outcome(s) is Fatal);
                    }
                    return Result::Err(Error::InvalidMessage);
                },
            };
            proof {
                assert(headers_outcome(s) == HeadOutcome::Got(req@, p4 as int));
            }
            input.consume(p4);
            return Result::Ok(Option::Some(req));
        }
        let iabs = match find_crlf_upto(v, pos, p4) {
            Option::Some(i) => i,
            Option::None => {
                proof {
                    assert(v@.subrange(pos as int, p4 as int) =~= suffix);
                    assert(parse_header_lines(suffix) is Partial);
                    assert(parse_head(block) is None);
                    assert(headers_outcome(s) is Fatal);
                }
                return Result::Err(Error::InvalidMessage);
            },
        };
        proof {
            assert(v@.subrange(pos as int, p4 as int) =~= suffix);
            assert(suffix.take(iabs - pos) =~= v@.subrange(pos as int, iabs as int));
        }
        let ghost linev = suffix.take(iabs - pos);
        let colon = match find_byte_upto(v, pos, iabs, 58) {
            Option::Some(c) => c,
            Option::None => {
                proof {
                    assert(v@.subrange(pos as int, iabs as int) =~= linev);
                    assert(header_line_of(linev) is None);
                    assert(parse_header_lines(suffix) is Bad);
                    assert(parse_head(block) is None);
                    assert(headers_outcome(s) is Fatal);
                }
                return Result::Err(Error::InvalidMessage);
            },
        };
        proof {
            assert(v@.subrange(pos as int, iabs as int) =~= linev);
            assert(linev.take(colon - pos) =~= v@.subrange(pos as int, colon as int));
        }
        if colon == pos {
            proof {
                assert(header_line_of(linev) is None);
                assert(parse_header_lines(suffix) is Bad);
                assert(parse_head(block) is None);
                assert(headers_outcome(s) is Fatal);
            }
            return Result::Err(Error::InvalidMessage);
        }
        match bad_name_byte(v, pos, colon) {
            Option::Some(iw) => {
                proof {
                    assert(linev.take(colon - pos)[iw - pos] == v@[iw as int]);
                    assert(header_line_of(linev) is None);
                    assert(parse_header_lines(suffix) is Bad);
                    assert(parse_head(block) is None);
                    assert(headers_outcome(s) is Fatal);
                }
                return Result::Err(Error::InvalidMessage);
            },
            Option::None => {
                proof {
                    assert forall|i: int| 0 <= i < colon - pos implies is_name_byte(
                        #[trigger] linev.take(colon - pos)[i],
                    ) by {
                        assert(linev.take(colon - pos)[i] == v@[pos + i]);
                    }
                }
            },
        }
        match bad_crlf_byte(v, colon + 1, iabs) {
            Option::Some(iw) => {
                proof {
                    assert(linev[iw - pos] == v@[iw as int]);
                    assert(header_line_of(linev) is None);
                    assert(parse_header_lines(suffix) is Bad);
                    assert(parse_head(block) is None);
                    assert(headers_outcome(s) is Fatal);
                }
                return Result::Err(Error::InvalidMessage);
            },
            Option::None => {
                proof {
                    assert forall|i: int| colon - pos < i < linev.len() implies linev[i] != 13
                        && #[trigger] linev[i] != 10 by {
                        assert(linev[i] == v@[pos + i]);
                    }
                }
            },
        }
        // surrounding whitespace of the value is dropped
        proof {
            assert(linev.skip(colon - pos + 1) =~= v@.subrange(colon + 1, iabs as int));
        }
        let name = crate::buf::copy_range(v, pos, colon);
        let value = trim_range(v, colon + 1, iabs);
        let line = HeaderLine { name, value };
        proof {
            assert(header_line_of(linev) == Option::Some((line.name@, line.value@)));
        }
        let ghost lines0 = lines.deep_view();
        lines.push(line);
        proof {
            assert(lines.deep_view() =~= lines0.push((line.name@, line.value@)));
            assert(suffix.skip(iabs - pos + 2) =~= block.skip(iabs + 2));
            // one line of the block parsed: fold it into the invariant
            assert(parse_header_lines(suffix) == (match parse_header_lines(block.skip(iabs + 2)) {
                LinesOutcome::Complete(c, h) => LinesOutcome::Complete(
                    iabs - pos + 2 + c,
                    seq![(line.name@, line.value@)] + h,
                ),
                LinesOutcome::Partial => LinesOutcome::Partial,
                LinesOutcome::Bad => LinesOutcome::Bad,
            }));
            assert forall|h: Seq<(Seq<u8>, Seq<u8>)>|
                lines0 + (seq![(line.name@, line.value@)] + h) =~= lines.deep_view() + h by {}
        }
        pos = iabs + 2;
    }
}


/// Reads a complete trailer block off the input: the parsed lines, or
/// nothing when the block is still incomplete, or an error when it can
/// never become one.
#[verifier::loop_isolation(false)]
#[verifier::rlimit(100)]
fn parse_trailer_lines(input: &mut Buf) -> (r: Result<Option<Vec<HeaderLine>>, Error>)
    ensures
        match parse_header_lines(old(input)@) {
            LinesOutcome::Partial => r == Result::<Option<Vec<HeaderLine>>, Error>::Ok(
                Option::None,
            ) && final(input)@ == old(input)@,
            LinesOutcome::Bad => r is Err && final(input)@ == old(input)@,
            LinesOutcome::Complete(c, lines) => if lines.len() <= MAX_HEADERS_NUM as int {
                match r {
                    Result::Ok(Option::Some(ls)) => ls.deep_view() == lines && final(input)@
                        == old(input)@.skip(c),
                    _ => false,
                }
            } else {
                r is Err && final(input)@ == old(input)@
            },
        },
{
    let ghost s = input@;
    let n = input.len();
    let v = input.as_slice();
    let mut lines: Vec<HeaderLine> = Vec::new();
    let mut pos: usize = 0;
    proof {
        assert(s.skip(0) =~= s);
    }
    loop
        invariant
            pos <= n,
            n == s.len(),
            input@ == s,
            v@ == s,
            parse_header_lines(s.skip(0)) == (match parse_header_lines(s.skip(pos as int)) {
                LinesOutcome::Complete(c, h) => LinesOutcome::Complete(
                    pos + c,
                    lines.deep_view() + h,
                ),
                LinesOutcome::Partial => LinesOutcome::Partial,
                LinesOutcome::Bad => LinesOutcome::Bad,
            }),
        decreases n - pos,
    {
        let ghost suffix = s.skip(pos as int);
        if n - pos < 2 {
            proof {
                assert(parse_header_lines(suffix) is Partial);
            }
            return Result::Ok(Option::None);
        }
        proof {
            assert(suffix[0] == s[pos as int]);
            assert(suffix[1] == s[pos + 1]);
        }
        if v[pos] == 13 && v[pos + 1] == 10 {
            proof {
                assert(parse_header_lines(suffix) == LinesOutcome::Complete(2, Seq::empty()));
                assert(lines.deep_view() + Seq::<(Seq<u8>, Seq<u8>)>::empty() =~= lines.deep_view());
                assert(parse_header_lines(s) == LinesOutcome::Complete(
                    pos + 2,
                    lines.deep_view(),
                ));
                assert(lines.deep_view().len() == lines@.len());
            }
            if lines.len() > MAX_HEADERS_NUM {
                return Result::Err(Error::InvalidMessage);
            }
            input.consume(pos + 2);
            return Result::Ok(Option::Some(lines));
        }
        let iabs = match find_crlf_upto(v, pos, n) {
            Option::Some(i) => i,
            Option::None => {
                proof {
                    assert(v@.subrange(pos as int, n as int) =~= suffix);
                    assert(parse_header_lines(suffix) is Partial);
                }
                return Result::Ok(Option::None);
            },
        };
        proof {
            assert(v@.subrange(pos as int, n as int) =~= suffix);
            assert(suffix.take(iabs - pos) =~= v@.subrange(pos as int, iabs as int));
        }
        let ghost linev = suffix.take(iabs - pos);
        let colon = match find_byte_upto(v, pos, iabs, 58) {
            Option::Some(c) => c,
            Option::None => {
                proof {
                    assert(v@.subrange(pos as int, iabs as int) =~= linev);
                    assert(header_line_of(linev) is None);
                    assert(parse_header_lines(suffix) is Bad);
                }
                return Result::Err(Error::InvalidMessage);
            },
        };
        proof {
            assert(v@.subrange(pos as int, iabs as int) =~= linev);
            assert(linev.take(colon - pos) =~= v@.subrange(pos as int, colon as int));
        }
        if colon == pos {
            proof {
                assert(header_line_of(linev) is None);
                assert(parse_header_lines(suffix) is Bad);
            }
            return Result::Err(Error::InvalidMessage);
        }
        match bad_name_byte(v, pos, colon) {
            Option::Some(iw) => {
                proof {
                    assert(linev.take(colon - pos)[iw - pos] == v@[iw as int]);
                    assert(header_line_of(linev) is None);
                    assert(parse_header_lines(suffix) is Bad);
                }
                return Result::Err(Error::InvalidMessage);
            },
            Option::None => {
                proof {
                    assert forall|i: int| 0 <= i < colon - pos implies is_name_byte(
                        #[trigger] linev.take(colon - pos)[i],
                    ) by {
                        assert(linev.take(colon - pos)[i] == v@[pos + i]);
                    }
                }
            },
        }
        match bad_crlf_byte(v, colon + 1, iabs) {
            Option::Some(iw) => {
                proof {
                    assert(linev[iw - pos] == v@[iw as int]);
                    assert(header_line_of(linev) is None);
                    assert(parse_header_lines(suffix) is Bad);
                }
                return Result::Err(Error::InvalidMessage);
            },
            Option::None => {
                proof {
                    assert forall|i: int| colon - pos < i < linev.len() implies linev[i] != 13
                        && #[trigger] linev[i] != 10 by {
                        assert(linev[i] == v@[pos + i]);
                    }
                }
            },
        }
        proof {
            assert(linev.skip(colon - pos + 1) =~= v@.subrange(colon + 1, iabs as int));
        }
        let name = crate::buf::copy_range(v, pos, colon);
        let value = trim_range(v, colon + 1, iabs);
        let line = HeaderLine { name, value };
        proof {
            assert(header_line_of(linev) == Option::Some((line.name@, line.value@)));
        }
        let ghost lines0 = lines.deep_view();
        lines.push(line);
        proof {
            assert(lines.deep_view() =~= lines0.push((line.name@, line.value@)));
            assert(suffix.skip(iabs - pos + 2) =~= s.skip(iabs + 2));
            assert(parse_header_lines(suffix) == (match parse_header_lines(s.skip(iabs + 2)) {
                LinesOutcome::Complete(c, h) => LinesOutcome::Complete(
                    iabs - pos + 2 + c,
                    seq![(line.name@, line.value@)] + h,
                ),
                LinesOutcome::Partial => LinesOutcome::Partial,
                LinesOutcome::Bad => LinesOutcome::Bad,
            }));
            assert forall|h: Seq<(Seq<u8>, Seq<u8>)>|
                lines0 + (seq![(line.name@, line.value@)] + h) =~= lines.deep_view() + h by {}
        }
        pos = iabs + 2;
    }
}

/// The application side of the engine: dispatched once per fully parsed
/// request, synchronously and in pipeline order.
pub trait Handler<C> {
    /// Dispatched when a request arrives.
    fn request(request: Request, ctx: &mut C) -> Response;
}

/// A connection with a client.
///
/// `Initial`, `KeepAlive` and `ReadHeaders` are behaviourally identical
/// entry points, kept separate so different idle timeouts may one day apply.
#[derive(Debug, PartialEq)]
pub enum Client {
    /// The initial state of a connection.
    Initial,
    /// The state after some header bytes have been read.
    ReadHeaders,
    /// Reading a request body with a fixed size; the `usize` counts the
    /// remaining bytes.
    ReadFixedSize(Request, usize),
    /// Reading a chunked request body.  No value: no chunk in progress.
    /// Zero: the chunk is done but its terminator is still owed.
    ReadChunked(Request, Option<usize>),
    /// Reading the trailing header fields after a chunked body.
    ReadTrailers(Request),
    /// A complete request, handed on within the same invocation.
    Parsed(Request),
    /// A connection in idle state.
    KeepAlive,
}

impl View for Client {
    type V = ClientView;

    open spec fn view(&self) -> ClientView {
        match self {
            Client::Initial => ClientView::Initial,
            Client::ReadHeaders => ClientView::ReadHeaders,
            Client::ReadFixedSize(req, size) => ClientView::ReadFixedSize(req@, *size as int),
            Client::ReadChunked(req, Option::Some(rem)) => ClientView::ReadChunked(
                req@,
                Option::Some(*rem as int),
            ),
            Client::ReadChunked(req, Option::None) => ClientView::ReadChunked(req@, Option::None),
            Client::ReadTrailers(req) => ClientView::ReadTrailers(req@),
            Client::Parsed(req) => ClientView::Parsed(req@),
            Client::KeepAlive => ClientView::KeepAlive,
        }
    }
}

/// What one invocation of the machine ends in: suspension in a state, or
/// teardown of the connection.
#[derive(Debug, PartialEq)]
pub enum Async {
    Continue(Client),
    Stop,
}

/// `pre` prepended to the requests of `r`.
pub open spec fn combine(pre: Seq<ReqView>, r: RunResult) -> RunResult {
    RunResult { requests: pre + r.requests, ..r }
}

/// What one executed machine step came to.
enum Advanced {
    /// The machine moves on in this state.
    Next(Client),
    /// The machine waits for more bytes in this state.
    Hold(Client),
    /// The connection is torn down.
    Halt,
}

/// Performs one step of the machine on a state that is not `Parsed`,
/// mirroring [`step`] exactly.
#[verifier::rlimit(100)]
fn advance(state: Client, input: &mut Buf) -> (r: Advanced)
    requires
        !(state@ is Parsed),
    ensures
        ({
            let st = step(state@, old(input)@);
            match r {
                Advanced::Next(c) => st.ctl is Go && c@ == st.next && final(input)@ == old(
                    input,
                )@.skip(st.consumed) && st.emit is None,
                Advanced::Hold(c) => st.ctl is Suspend && c@ == st.next && final(input)@ == old(
                    input,
                )@.skip(st.consumed),
                Advanced::Halt => st.ctl is Stop && final(input)@ == old(input)@,
            }
        }),
{
    let ghost st_pre = state@;
    let ghost in_pre = input@;
    let ghost st = step(st_pre, in_pre);
    match state {
        Client::Initial | Client::ReadHeaders | Client::KeepAlive => {
            match parse_headers(input) {
                Result::Err(_) => Advanced::Halt,
                Result::Ok(Option::None) => {
                    proof {
                        assert(in_pre.skip(0) =~= in_pre);
                    }
                    Advanced::Hold(Client::ReadHeaders)
                },
                Result::Ok(Option::Some(req)) => {
                    let next = match req.content_length() {
                        Result::Ok(length) => Client::ReadFixedSize(req, length),
                        Result::Err(_) => {
                            if req.is_chunked() {
                                Client::ReadChunked(req, Option::None)
                            } else {
                                Client::Parsed(req)
                            }
                        },
                    };
                    proof {
                        assert(next@ == st.next);
                    }
                    Advanced::Next(next)
                },
            }
        },
        Client::ReadFixedSize(mut req, size) => {
            let ghost req_pre = req@;
            let x = req.read_body(input, size);
            proof {
                assert(req@ == with_body(req_pre, in_pre.take(st.consumed)));
            }
            if x == 0 {
                Advanced::Next(Client::Parsed(req))
            } else {
                Advanced::Hold(Client::ReadFixedSize(req, x))
            }
        },
        Client::ReadChunked(req, Option::None) => {
            match parse_chunk_size(input) {
                Result::Err(_) => Advanced::Halt,
                Result::Ok(Option::None) => {
                    proof {
                        assert(in_pre.skip(0) =~= in_pre);
                    }
                    Advanced::Hold(Client::ReadChunked(req, Option::None))
                },
                Result::Ok(Option::Some(size)) => {
                    proof {
                        if let ChunkLineOutcome::Line(c, sz) = parse_chunk_line(in_pre) {
                            lemma_chunk_line_bounds(in_pre);
                            assert(input@ == in_pre.skip(c));
                            if in_pre.len() >= c + 2 {
                                assert(in_pre.skip(c)[0] == in_pre[c]);
                                assert(in_pre.skip(c)[1] == in_pre[c + 1]);
                                assert(in_pre.skip(c).skip(2) =~= in_pre.skip(c + 2));
                            }
                        }
                    }
                    if size == 0 {
                        let done = if input.len() >= 2 {
                            input.at(0) == 13 && input.at(1) == 10
                        } else {
                            false
                        };
                        if done {
                            input.consume(2);
                            proof {
                                assert(input@ =~= in_pre.skip(st.consumed));
                            }
                            Advanced::Next(Client::Parsed(req))
                        } else {
                            Advanced::Next(Client::ReadTrailers(req))
                        }
                    } else {
                        Advanced::Next(Client::ReadChunked(req, Option::Some(size)))
                    }
                },
            }
        },
        Client::ReadChunked(mut req, Option::Some(rem)) => {
            if rem == 0 {
                if input.len() < 2 {
                    proof {
                        assert(in_pre.skip(0) =~= in_pre);
                    }
                    return Advanced::Hold(Client::ReadChunked(req, Option::Some(0)));
                }
                if !(input.at(0) == 13 && input.at(1) == 10) {
                    return Advanced::Halt;
                }
                input.consume(2);
                Advanced::Next(Client::ReadChunked(req, Option::None))
            } else {
                let ghost req_pre = req@;
                let x = req.read_body(input, rem);
                proof {
                    assert(req@ == with_body(req_pre, in_pre.take(st.consumed)));
                }
                Advanced::Next(Client::ReadChunked(req, Option::Some(x)))
            }
        },
        Client::ReadTrailers(mut req) => {
            match parse_trailer_lines(input) {
                Result::Err(_) => Advanced::Halt,
                Result::Ok(Option::None) => {
                    proof {
                        assert(in_pre.skip(0) =~= in_pre);
                    }
                    Advanced::Hold(Client::ReadTrailers(req))
                },
                Result::Ok(Option::Some(lines)) => {
                    req.add_http1_headers(lines.as_slice());
                    Advanced::Next(Client::Parsed(req))
                },
            }
        },
        Client::Parsed(req) => {
            // unreachable: the caller never hands this state over
            Advanced::Halt
        },
    }
}

impl Client {
    /// Drives the machine over the available input: consumes exactly the
    /// bytes [`run`] assigns to the parsed requests, dispatches each
    /// completed request to the handler in arrival order, appends exactly
    /// one serialized response per completed request to the output window,
    /// in that order — and so appends nothing when no request completed —
    /// and ends in the state [`run`] names, stopping exactly when [`run`]
    /// stops.
    #[verifier::loop_isolation(false)]
    #[verifier::rlimit(100)]
    pub fn data_received<C, H: Handler<C>>(
        self,
        input: &mut Buf,
        output: &mut Buf,
        ctx: &mut C,
    ) -> (r: Async)
        ensures
            ({
                let res = run(self@, old(input)@);
                &&& final(input)@ == res.rest
                &&& old(output)@.is_prefix_of(final(output)@)
                &&& exists|rs: Seq<RespView>, ds: Seq<Seq<u8>>|
                    rs.len() == res.requests.len() && ds.len() == rs.len() && (forall|i: int|
                        0 <= i < ds.len() ==> is_date_bytes(#[trigger] ds[i])) && final(output)@
                        == old(output)@ + #[trigger] serialized_all(rs, ds)
                &&& match r {
                    Async::Continue(c) => !res.stop && c@ == res.state,
                    Async::Stop => res.stop,
                }
            }),
    {
        let ghost s0 = self@;
        let ghost in0 = input@;
        let mut state = self;
        let ghost mut emitted: Seq<ReqView> = Seq::empty();
        let ghost mut outs: Seq<RespView> = Seq::empty();
        let ghost mut dates: Seq<Seq<u8>> = Seq::empty();
        proof {
            assert(emitted + run(state@, input@).requests =~= run(state@, input@).requests);
            assert(output@ =~= old(output)@ + serialized_all(outs, dates));
        }
        loop
            invariant
                run(s0, in0) == combine(emitted, run(state@, input@)),
                old(output)@.is_prefix_of(output@),
                outs.len() == emitted.len(),
                dates.len() == outs.len(),
                forall|i: int| 0 <= i < dates.len() ==> is_date_bytes(#[trigger] dates[i]),
                output@ == old(output)@ + serialized_all(outs, dates),
            decreases input@.len(), srank(state@),
        {
            let ghost st_pre = state@;
            let ghost in_pre = input@;
            let ghost st = step(st_pre, in_pre);
            proof {
                lemma_step_bounds(st_pre, in_pre);
            }
            let is_parsed = match &state {
                Client::Parsed(_) => true,
                _ => false,
            };
            if is_parsed {
                let req = match state {
                    Client::Parsed(req) => req,
                    _ => {
                        proof {
                            assert(false);
                        }
                        return Async::Stop;
                    },
                };
                let ghost rv = req@;
                let res = H::request(req, ctx);
                let ghost out_pre = output@;
                res.serialize(output);
                proof {
                    assert(st.ctl is Go && st.consumed == 0 && st.emit == Option::Some(rv));
                    assert(st.next == ClientView::KeepAlive);
                    assert(in_pre.skip(0) =~= in_pre);
                    let d = choose|d: Seq<u8>|
                        #[trigger] is_date_bytes(d) && output@ == out_pre + serialized_bytes(
                            res@,
                            d,
                        );
                    lemma_serialized_all_push(outs, dates, res@, d);
                    outs = outs.push(res@);
                    dates = dates.push(d);
                    assert(output@ =~= old(output)@ + serialized_all(outs, dates));
                    assert(old(output)@.is_prefix_of(output@)) by {
                        assert(output@.take(old(output)@.len() as int) =~= old(output)@);
                    }
                }
                state = Client::KeepAlive;
            } else {
                match advance(state, input) {
                    Advanced::Halt => {
                        proof {
                            assert(run(st_pre, in_pre).stop);
                            assert(run(s0, in0).requests =~= emitted);
                        }
                        return Async::Stop;
                    },
                    Advanced::Hold(c) => {
                        proof {
                            assert(run(st_pre, in_pre) == RunResult {
                                state: st.next,
                                rest: in_pre.skip(st.consumed),
                                requests: Seq::empty(),
                                stop: false,
                            });
                            assert(emitted + Seq::<ReqView>::empty() =~= emitted);
                            assert(run(s0, in0).requests =~= emitted);
                        }
                        return Async::Continue(c);
                    },
                    Advanced::Next(c) => {
                        state = c;
                    },
                }
            }
            proof {
                assert(st.ctl is Go);
                assert(input@ == in_pre.skip(st.consumed));
                assert(state@ == st.next);
                emitted = emitted + emit_seq(st.emit);
                if st.next is Parsed || input@.len() > 0 {
                    assert(run(st_pre, in_pre) == combine(
                        emit_seq(st.emit),
                        run(st.next, input@),
                    ));
                    assert(run(s0, in0).requests =~= emitted + run(state@, input@).requests);
                    assert(run(s0, in0) == combine(emitted, run(state@, input@)));
                } else {
                    assert(run(st_pre, in_pre) == RunResult {
                        state: st.next,
                        rest: input@,
                        requests: emit_seq(st.emit),
                        stop: false,
                    });
                    assert(run(s0, in0).requests =~= emitted);
                }
            }
            let is_parsed_now = match &state {
                Client::Parsed(_) => true,
                _ => false,
            };
            if !is_parsed_now {
                if input.empty() {
                    proof {
                        assert(run(s0, in0) == RunResult {
                            state: state@,
                            rest: input@,
                            requests: emitted,
                            stop: false,
                        });
                    }
                    return Async::Continue(state);
                }
            }
        }
    }
}


/// Appending bytes moves `skip` and `take` through the boundary.
proof fn lemma_skip_take_add(a: Seq<u8>, b: Seq<u8>, k: int)
    requires
        0 <= k <= a.len(),
    ensures
        (a + b).skip(k) == a.skip(k) + b,
        (a + b).take(k) == a.take(k),
{
    assert((a + b).skip(k) =~= a.skip(k) + b);
    assert((a + b).take(k) =~= a.take(k));
}

/// A header terminator found in a prefix is the one found in the whole;
/// one found only in the whole reaches past the prefix.
proof fn lemma_find_terminator_extend(a: Seq<u8>, b: Seq<u8>)
    ensures
        match find_terminator(a) {
            Option::Some(p) => find_terminator(a + b) == Option::Some(p),
            Option::None => match find_terminator(a + b) {
                Option::Some(q) => q + 4 > a.len(),
                Option::None => true,
            },
        },
{
    lemma_find_terminator(a);
    lemma_find_terminator(a + b);
    assert forall|j: int| 0 <= j && j + 4 <= a.len() implies is_term_at(a, j) == is_term_at(
        a + b,
        j,
    ) by {
        assert((a + b)[j] == a[j]);
        assert((a + b)[j + 1] == a[j + 1]);
        assert((a + b)[j + 2] == a[j + 2]);
        assert((a + b)[j + 3] == a[j + 3]);
    }
    match find_terminator(a) {
        Option::Some(p) => {
            assert(is_term_at(a + b, p));
            match find_terminator(a + b) {
                Option::Some(q) => {
                    if q < p {
                        assert(!is_term_at(a, q));
                        assert(is_term_at(a + b, q));
                        assert(q + 4 <= a.len()) by {
                            if q + 4 > a.len() {
                                assert(!is_term_at(a, p));
                            }
                        }
                    }
                    if q > p {
                        assert(!is_term_at(a + b, p));
                    }
                },
                Option::None => {
                    assert(!is_term_at(a + b, p));
                },
            }
        },
        Option::None => {
            if let Option::Some(q) = find_terminator(a + b) {
                if q + 4 <= a.len() {
                    assert(is_term_at(a, q));
                    assert(!is_term_at(a, q));
                }
            }
        },
    }
}

/// A line break found in a prefix is the one found in the whole.
proof fn lemma_find_crlf_extend(a: Seq<u8>, b: Seq<u8>)
    ensures
        match find_crlf(a) {
            Option::Some(i) => find_crlf(a + b) == Option::Some(i),
            Option::None => true,
        },
{
    lemma_find_crlf(a);
    lemma_find_crlf(a + b);
    assert forall|j: int| 0 <= j && j + 2 <= a.len() implies is_crlf_at(a, j) == is_crlf_at(
        a + b,
        j,
    ) by {
        assert((a + b)[j] == a[j]);
        assert((a + b)[j + 1] == a[j + 1]);
    }
    if let Option::Some(i) = find_crlf(a) {
        assert(is_crlf_at(a + b, i));
        match find_crlf(a + b) {
            Option::Some(q) => {
                if q < i {
                    assert(is_crlf_at(a + b, q));
                    assert(!is_crlf_at(a, q));
                }
                if q > i {
                    assert(!is_crlf_at(a + b, i));
                }
            },
            Option::None => {
                assert(!is_crlf_at(a + b, i));
            },
        }
    }
}

/// The hexadecimal digit prefix ends where it ends, as long as its end is
/// inside the prefix.
proof fn lemma_hex_end_extend(a: Seq<u8>, b: Seq<u8>)
    requires
        hex_end(a) < a.len(),
    ensures
        hex_end(a + b) == hex_end(a),
    decreases a.len(),
{
    if a.len() > 0 {
        assert((a + b)[0] == a[0]);
        if is_hex_byte(a[0]) {
            lemma_hex_end_extend(a.skip(1), b);
            assert((a + b).skip(1) =~= a.skip(1) + b);
        } else {
            assert(hex_end(a + b) == 0);
        }
    }
}

/// A decided chunk-size line stays decided the same way when more bytes
/// arrive.
proof fn lemma_parse_chunk_line_extend(a: Seq<u8>, b: Seq<u8>)
    requires
        !(parse_chunk_line(a) is Partial),
    ensures
        parse_chunk_line(a + b) == parse_chunk_line(a),
{
    let d = hex_end(a);
    lemma_hex_end(a);
    assert(d < a.len());
    lemma_hex_end_extend(a, b);
    assert((a + b).take(d) =~= a.take(d));
    assert((a + b)[d] == a[d]);
    if d == 0 {
    } else if hex_value(a.take(d)) > usize::MAX {
    } else if a[d] == 13 {
        assert(d + 1 < a.len());
        assert((a + b)[d + 1] == a[d + 1]);
    } else if a[d] == 59 {
        let sfx = a.skip(d);
        lemma_find_crlf_extend(sfx, b);
        assert((a + b).skip(d) =~= sfx + b);
        assert(find_crlf(sfx) is Some);
    }
}

/// A decided run of header lines stays decided the same way when more
/// bytes arrive.
proof fn lemma_parse_header_lines_extend(a: Seq<u8>, b: Seq<u8>)
    requires
        !(parse_header_lines(a) is Partial),
    ensures
        parse_header_lines(a + b) == parse_header_lines(a),
    decreases a.len(),
{
    assert(a.len() >= 2);
    assert((a + b)[0] == a[0]);
    assert((a + b)[1] == a[1]);
    if a[0] == 13 && a[1] == 10 {
    } else {
        lemma_find_crlf_extend(a, b);
        let i = find_crlf(a)->Some_0;
        assert(find_crlf(a) is Some);
        lemma_find_crlf(a);
        lemma_skip_take_add(a, b, i);
        assert((a + b).take(i) == a.take(i));
        match header_line_of(a.take(i)) {
            Option::None => {},
            Option::Some(line) => {
                lemma_parse_header_lines_extend(a.skip(i + 2), b);
                assert((a + b).skip(i + 2) =~= a.skip(i + 2) + b);
            },
        }
    }
}

/// A decided header block stays decided the same way when more bytes
/// arrive: waiting stays within bounds, a fatal block stays fatal, a parsed
/// request stays the same request.
proof fn lemma_headers_outcome_extend(a: Seq<u8>, b: Seq<u8>)
    ensures
        match headers_outcome(a) {
            HeadOutcome::More => true,
            HeadOutcome::Fatal => headers_outcome(a + b) is Fatal,
            HeadOutcome::Got(req, c) => headers_outcome(a + b) == HeadOutcome::Got(req, c),
        },
{
    lemma_find_terminator_extend(a, b);
    lemma_find_terminator(a);
    match find_terminator(a) {
        Option::Some(p) => {
            if p + 4 <= MAX_HEADERS_SIZE as int {
                lemma_skip_take_add(a, b, p + 4);
                assert((a + b).take(p + 4) == a.take(p + 4));
            }
        },
        Option::None => {
            if a.len() > MAX_HEADERS_SIZE as int {
                match find_terminator(a + b) {
                    Option::Some(q) => {
                        assert(q + 4 > a.len());
                    },
                    Option::None => {
                        assert((a + b).len() >= a.len());
                    },
                }
            }
        },
    }
}


/// The three header-parsing states act alike: they differ only in the
/// state a torn-down connection is reported in.
proof fn lemma_run_headers_alias(s: ClientView, x: Seq<u8>)
    requires
        s is Initial || s is ReadHeaders || s is KeepAlive,
    ensures
        ({
            let r = run(s, x);
            let r2 = run(ClientView::ReadHeaders, x);
            &&& r.stop == r2.stop
            &&& r.rest == r2.rest
            &&& r.requests == r2.requests
            &&& !r.stop ==> r.state == r2.state
        }),
{
    let st = step(s, x);
    let st2 = step(ClientView::ReadHeaders, x);
    match headers_outcome(x) {
        HeadOutcome::More => {
        },
        HeadOutcome::Fatal => {
        },
        HeadOutcome::Got(req, c) => {
            assert(st2 == st);
        },
    }
}

/// Law: delivery boundaries do not matter.  Running the machine on a
/// prefix and then, from its suspension state, on the unconsumed rest
/// extended by the next delivery, parses the very requests, consumes the
/// very bytes and ends in the very state that one delivery of the whole
/// input does; a fatal prefix stays fatal.
#[verifier::rlimit(100)]
pub proof fn lemma_run_extend(s: ClientView, a: Seq<u8>, b: Seq<u8>)
    requires
        b.len() > 0,
    ensures
        ({
            let r1 = run(s, a);
            if r1.stop {
                &&& run(s, a + b).stop
                &&& run(s, a + b).rest == r1.rest + b
                &&& run(s, a + b).requests == r1.requests
            } else {
                let r2 = run(r1.state, r1.rest + b);
                &&& run(s, a + b).stop == r2.stop
                &&& run(s, a + b).rest == r2.rest
                &&& run(s, a + b).requests == r1.requests + r2.requests
                &&& !r2.stop ==> run(s, a + b).state == r2.state
            }
        }),
    decreases a.len(), srank(s), 1int,
{
    lemma_step_bounds(s, a);
    lemma_step_bounds(s, a + b);
    let ab = a + b;
    let st = step(s, a);
    let st_ab = step(s, ab);
    let r1 = run(s, a);
    match s {
        ClientView::Initial | ClientView::ReadHeaders | ClientView::KeepAlive => {
            lemma_headers_outcome_extend(a, b);
            match headers_outcome(a) {
                HeadOutcome::More => {
                    assert(r1 == RunResult {
                        state: ClientView::ReadHeaders,
                        rest: a.skip(0),
                        requests: Seq::empty(),
                        stop: false,
                    });
                    assert(a.skip(0) =~= a);
                    lemma_run_headers_alias(s, ab);
                    assert(Seq::<ReqView>::empty() + run(ClientView::ReadHeaders, ab).requests
                        =~= run(ClientView::ReadHeaders, ab).requests);
                },
                HeadOutcome::Fatal => {
                    assert(r1.stop && r1.rest == a && r1.requests =~= Seq::empty());
                },
                HeadOutcome::Got(req, c) => {
                    assert(st_ab == st);
                    lemma_run_extend_go(s, a, b);
                },
            }
        },
        ClientView::ReadFixedSize(req, size) => {
            let k = if size <= 0 {
                0
            } else if size <= a.len() {
                size
            } else {
                a.len() as int
            };
            if size <= k {
                // the body completes within the prefix: the same step
                assert(ab.take(k) =~= a.take(k));
                assert(st_ab =~~= st);
                lemma_run_extend_go(s, a, b);
            } else {
                // the whole prefix goes into the body; the run suspends
                assert(k == a.len());
                let next1 = ClientView::ReadFixedSize(with_body(req, a.take(k)), size - k);
                assert(st.ctl is Suspend && st.next == next1 && st.consumed == k);
                assert(r1 == RunResult {
                    state: next1,
                    rest: a.skip(k),
                    requests: Seq::empty(),
                    stop: false,
                });
                assert(a.skip(k).len() == 0);
                assert(a.skip(k) + b =~= b);
                assert(a.take(k) =~= a);
                let r2 = run(next1, b);
                // one more unfolding on each side: the two reads compose
                let k2 = if size - k <= b.len() {
                    size - k
                } else {
                    b.len() as int
                };
                let st2 = step(next1, b);
                assert(with_body(with_body(req, a), b.take(k2)) =~~= with_body(
                    req,
                    ab.take(k + k2),
                )) by {
                    assert(req.body + a + b.take(k2) =~= req.body + ab.take(k + k2));
                }
                assert(ab.skip(k + k2) =~= b.skip(k2));
                assert(st_ab.ctl == st2.ctl && st_ab.next == st2.next && st_ab.emit == st2.emit);
                assert(ab.skip(st_ab.consumed) == b.skip(st2.consumed));
                assert(Seq::<ReqView>::empty() + r2.requests =~= r2.requests);
            }
        },
        ClientView::ReadChunked(req, Option::None) => {
            match parse_chunk_line(a) {
                ChunkLineOutcome::Partial => {
                    assert(r1 == RunResult {
                        state: s,
                        rest: a.skip(0),
                        requests: Seq::empty(),
                        stop: false,
                    });
                    assert(a.skip(0) =~= a);
                    assert(a.skip(0) + b =~= ab);
                    assert(Seq::<ReqView>::empty() + run(s, ab).requests =~= run(s, ab).requests);
                },
                ChunkLineOutcome::Bad => {
                    lemma_parse_chunk_line_extend(a, b);
                },
                ChunkLineOutcome::Line(c, size) => {
                    lemma_parse_chunk_line_extend(a, b);
                    lemma_chunk_line_bounds(a);
                    if size != 0 {
                        assert(st_ab == st);
                        lemma_run_extend_go(s, a, b);
                    } else if a.len() >= c + 2 {
                        assert(ab[c] == a[c] && ab[c + 1] == a[c + 1]);
                        assert(st_ab == st);
                        lemma_run_extend_go(s, a, b);
                    } else {
                        // the zero chunk ends at the delivery boundary: the
                        // one-shot run may see the final line break that the
                        // split run reaches only through the trailer state
                        lemma_run_chunk_end(s, req, a, b, c);
                    }
                },
            }
        },
        ClientView::ReadChunked(req, Option::Some(rem)) => {
            if rem <= 0 {
                if a.len() < 2 {
                    match step(s, a).ctl {
                        Ctl::Suspend => {
                            assert(a.skip(0) =~= a);
                            assert(a.skip(0) + b =~= ab);
                            assert(Seq::<ReqView>::empty() + run(s, ab).requests =~= run(
                                s,
                                ab,
                            ).requests);
                        },
                        _ => {
                            assert(false);
                        },
                    }
                } else {
                    assert(ab[0] == a[0] && ab[1] == a[1]);
                    if a[0] == 13 && a[1] == 10 {
                        assert(st_ab == st);
                        lemma_run_extend_go(s, a, b);
                    } else {
                        assert(st.ctl is Stop && st_ab.ctl is Stop);
                    }
                }
            } else {
                let k = if rem <= a.len() {
                    rem
                } else {
                    a.len() as int
                };
                if rem <= a.len() {
                    assert(ab.take(k) =~= a.take(k));
                    assert(st_ab =~~= st);
                    lemma_run_extend_go(s, a, b);
                } else {
                    // the chunk spans the delivery boundary: the two reads
                    // compose into the one-shot read
                    assert(k == a.len());
                    let next1 = ClientView::ReadChunked(
                        with_body(req, a.take(k)),
                        Option::Some(rem - k),
                    );
                    assert(st.ctl is Go && st.next == next1 && st.consumed == k);
                    assert(a.skip(k).len() == 0);
                    assert(r1 == RunResult {
                        state: next1,
                        rest: a.skip(k),
                        requests: emit_seq(st.emit),
                        stop: false,
                    });
                    assert(a.skip(k) + b =~= b);
                    assert(a.take(k) =~= a);
                    let r2 = run(next1, b);
                    let k2 = if rem - k <= b.len() {
                        rem - k
                    } else {
                        b.len() as int
                    };
                    let st2 = step(next1, b);
                    assert(with_body(with_body(req, a), b.take(k2)) =~~= with_body(
                        req,
                        ab.take(k + k2),
                    )) by {
                        assert(req.body + a + b.take(k2) =~= req.body + ab.take(k + k2));
                    }
                    assert(ab.skip(k + k2) =~= b.skip(k2));
                    assert(st_ab.ctl == st2.ctl && st_ab.next == st2.next && st_ab.emit
                        == st2.emit);
                    assert(ab.skip(st_ab.consumed) == b.skip(st2.consumed));
                    assert(Seq::<ReqView>::empty() + r2.requests =~= r2.requests);
                }
            }
        },
        ClientView::ReadTrailers(req) => {
            match parse_header_lines(a) {
                LinesOutcome::Partial => {
                    assert(a.skip(0) =~= a);
                    assert(a.skip(0) + b =~= ab);
                    assert(Seq::<ReqView>::empty() + run(s, ab).requests =~= run(s, ab).requests);
                },
                LinesOutcome::Bad => {
                    lemma_parse_header_lines_extend(a, b);
                },
                LinesOutcome::Complete(c, lines) => {
                    lemma_parse_header_lines_extend(a, b);
                    lemma_header_lines_bounds(a);
                    if lines.len() <= MAX_HEADERS_NUM as int {
                        assert(st_ab == st);
                        lemma_run_extend_go(s, a, b);
                    } else {
                        assert(st.ctl is Stop && st_ab.ctl is Stop);
                    }
                },
            }
        },
        ClientView::Parsed(req) => {
            assert(st_ab == st);
            lemma_run_extend_go(s, a, b);
        },
    }
}

/// The `Go` cases of [`lemma_run_extend`] where the whole input sees the
/// very step the prefix saw.
#[verifier::rlimit(100)]
proof fn lemma_run_extend_go(s: ClientView, a: Seq<u8>, b: Seq<u8>)
    requires
        b.len() > 0,
        step(s, a + b) == step(s, a),
        step(s, a).ctl is Go,
    ensures
        ({
            let r1 = run(s, a);
            if r1.stop {
                &&& run(s, a + b).stop
                &&& run(s, a + b).rest == r1.rest + b
                &&& run(s, a + b).requests == r1.requests
            } else {
                let r2 = run(r1.state, r1.rest + b);
                &&& run(s, a + b).stop == r2.stop
                &&& run(s, a + b).rest == r2.rest
                &&& run(s, a + b).requests == r1.requests + r2.requests
                &&& !r2.stop ==> run(s, a + b).state == r2.state
            }
        }),
    decreases a.len(), srank(s), 0int,
{
    lemma_step_bounds(s, a);
    let ab = a + b;
    let st = step(s, a);
    let rest = a.skip(st.consumed);
    lemma_skip_take_add(a, b, st.consumed);
    assert(ab.skip(st.consumed) == rest + b);
    if st.next is Parsed || rest.len() > 0 {
        let r1i = run(st.next, rest);
        assert(run(s, a) == combine(emit_seq(st.emit), r1i));
        lemma_run_extend(st.next, rest, b);
        assert(rest.len() + b.len() > 0);
        assert(run(s, ab) == combine(emit_seq(st.emit), run(st.next, rest + b)));
        if r1i.stop {
            assert(run(st.next, rest + b).stop);
            assert(run(s, ab).requests =~= emit_seq(st.emit) + r1i.requests);
        } else {
            let r2 = run(r1i.state, r1i.rest + b);
            assert(run(s, ab).requests =~= (emit_seq(st.emit) + r1i.requests) + r2.requests);
        }
    } else {
        assert(run(s, a) == RunResult {
            state: st.next,
            rest: rest,
            requests: emit_seq(st.emit),
            stop: false,
        });
        assert(rest + b =~= b);
        assert(run(s, ab) == combine(emit_seq(st.emit), run(st.next, rest + b)));
    }
}

/// The zero-size chunk line ends exactly at the delivery boundary: the
/// one-shot run may take the final line break directly where the split run
/// passes through the trailer state; both come to the same thing.
#[verifier::rlimit(100)]
proof fn lemma_run_chunk_end(s: ClientView, req: ReqView, a: Seq<u8>, b: Seq<u8>, c: int)
    requires
        b.len() > 0,
        s == ClientView::ReadChunked(req, Option::<int>::None),
        parse_chunk_line(a) == ChunkLineOutcome::Line(c, 0int),
        parse_chunk_line(a + b) == ChunkLineOutcome::Line(c, 0int),
        3 <= c <= a.len(),
        a.len() < c + 2,
    ensures
        ({
            let r1 = run(s, a);
            if r1.stop {
                &&& run(s, a + b).stop
                &&& run(s, a + b).rest == r1.rest + b
                &&& run(s, a + b).requests == r1.requests
            } else {
                let r2 = run(r1.state, r1.rest + b);
                &&& run(s, a + b).stop == r2.stop
                &&& run(s, a + b).rest == r2.rest
                &&& run(s, a + b).requests == r1.requests + r2.requests
                &&& !r2.stop ==> run(s, a + b).state == r2.state
            }
        }),
    decreases a.len(), srank(s), 0int,
{
    let ab = a + b;
    let st = step(s, a);
    let st_ab = step(s, ab);
    let rest = a.skip(c);
    lemma_skip_take_add(a, b, c);
    assert(ab.skip(c) == rest + b);
    assert(st.ctl is Go && st.next == ClientView::ReadTrailers(req) && st.consumed == c);
    let tr = ClientView::ReadTrailers(req);
    // after the prefix, the machine stands in the trailer state with at
    // most one byte left
    assert(rest.len() <= 1);
    if rest.len() == 0 {
        assert(run(s, a) == RunResult {
            state: tr,
            rest: rest,
            requests: Seq::empty(),
            stop: false,
        });
    } else {
        assert(parse_header_lines(rest) is Partial);
        assert(run(tr, rest) == RunResult {
            state: tr,
            rest: rest.skip(0),
            requests: Seq::empty(),
            stop: false,
        });
        assert(rest.skip(0) =~= rest);
        assert(run(s, a) == combine(Seq::empty(), run(tr, rest)));
        assert(run(s, a).requests =~= Seq::empty());
        assert(run(s, a) == RunResult {
            state: tr,
            rest: rest,
            requests: Seq::empty(),
            stop: false,
        });
    }
    let r2 = run(tr, rest + b);
    assert(Seq::<ReqView>::empty() + r2.requests =~= r2.requests);
    if ab.len() >= c + 2 && ab[c] == 13 && ab[c + 1] == 10 {
        // the one-shot run takes the line break here
        assert(st_ab.ctl is Go && st_ab.next == ClientView::Parsed(req) && st_ab.consumed == c
            + 2);
        assert(ab.skip(c + 2).len() >= 0);
        assert(run(s, ab) == combine(Seq::empty(), run(ClientView::Parsed(req), ab.skip(c + 2))));
        // the split run parses an empty trailer block instead
        let rb = rest + b;
        assert(rb.len() >= 2);
        assert(rb[0] == ab[c] && rb[1] == ab[c + 1]);
        assert(parse_header_lines(rb) == LinesOutcome::Complete(2, Seq::empty()));
        let st2 = step(tr, rb);
        assert(append_lines(req.headers, Seq::empty()) == req.headers);
        assert(st2.next =~~= ClientView::Parsed(req)) by {
            assert(ReqView { headers: append_lines(req.headers, Seq::empty()), ..req } =~~= req);
        }
        assert(st2.ctl is Go && st2.consumed == 2);
        assert(rb.skip(2) =~= ab.skip(c + 2));
        assert(r2 == combine(Seq::empty(), run(ClientView::Parsed(req), rb.skip(2))));
        assert(Seq::<ReqView>::empty() + run(ClientView::Parsed(req), rb.skip(2)).requests =~= run(
            ClientView::Parsed(req),
            rb.skip(2),
        ).requests);
    } else {
        // no line break yet: both runs pass through the trailer state
        assert(st_ab.ctl is Go && st_ab.next == tr && st_ab.consumed == c);
        assert((rest + b).len() > 0);
        assert(run(s, ab) == combine(Seq::empty(), run(tr, rest + b)));
    }
}

} // verus!
