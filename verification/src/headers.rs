//! The header store: a case-insensitive, multi-valued mapping from header
//! name to raw byte-string values, insertion-order preserved.
//!
//! The store is modelled as a sequence of buckets.  Each bucket pairs the
//! name under its first-seen spelling with the values inserted for it, in
//! order.  Two names fall into one bucket exactly when they agree up to
//! ASCII case.

use vstd::prelude::*;
use vstd::string::StringSliceAdditionalSpecFns;

use crate::buf::push_bytes;

verus! {

/// The spec-level value of a header store: buckets of (name, values).
pub type HeadersView = Seq<(Seq<u8>, Seq<Seq<u8>>)>;

/// ASCII lower-casing of one byte.
pub open spec fn fold_byte(b: u8) -> u8 {
    if 65 <= b <= 90 {
        (b + 32) as u8
    } else {
        b
    }
}

/// ASCII lower-casing of a byte string.
pub open spec fn fold_name(name: Seq<u8>) -> Seq<u8> {
    name.map(|i: int, b: u8| fold_byte(b))
}

/// Whether two header names agree up to ASCII case.
pub open spec fn names_eq(a: Seq<u8>, b: Seq<u8>) -> bool {
    fold_name(a) == fold_name(b)
}

/// The first bucket whose name matches `name`, if any.
pub open spec fn bucket_index(h: HeadersView, name: Seq<u8>) -> Option<int>
    decreases h.len(),
{
    if h.len() == 0 {
        Option::None
    } else if names_eq(h[0].0, name) {
        Option::Some(0)
    } else {
        match bucket_index(h.skip(1), name) {
            Option::Some(i) => Option::Some(i + 1),
            Option::None => Option::None,
        }
    }
}

/// What a matching bucket holds, if any.
pub open spec fn lookup_view(h: HeadersView, name: Seq<u8>) -> Option<Seq<Seq<u8>>> {
    match bucket_index(h, name) {
        Option::Some(i) => Option::Some(h[i].1),
        Option::None => Option::None,
    }
}

/// Whether some bucket matches `name`.
pub open spec fn contains_view(h: HeadersView, name: Seq<u8>) -> bool {
    bucket_index(h, name) is Some
}

/// The store after appending `value` under `name`.
pub open spec fn insert_view(h: HeadersView, name: Seq<u8>, value: Seq<u8>) -> HeadersView {
    match bucket_index(h, name) {
        Option::Some(i) => h.update(i, (h[i].0, h[i].1.push(value))),
        Option::None => h.push((name, seq![value])),
    }
}

/// `bucket_index` returns the first matching index.
pub proof fn lemma_bucket_index(h: HeadersView, name: Seq<u8>)
    ensures
        match bucket_index(h, name) {
            Option::Some(i) => 0 <= i < h.len() && names_eq(h[i].0, name) && forall|j: int|
                0 <= j < i ==> !names_eq(h[j].0, name),
            Option::None => forall|j: int| 0 <= j < h.len() ==> !names_eq(h[j].0, name),
        },
    decreases h.len(),
{
    if h.len() != 0 && !names_eq(h[0].0, name) {
        lemma_bucket_index(h.skip(1), name);
        assert forall|j: int| 1 <= j < h.len() implies h.skip(1)[j - 1] == h[j] by {}
    }
}

/// One parsed header line: a raw name and a raw value.
#[derive(Debug, PartialEq)]
pub struct HeaderLine {
    pub name: Vec<u8>,
    pub value: Vec<u8>,
}

impl View for HeaderLine {
    type V = (Seq<u8>, Seq<u8>);

    open spec fn view(&self) -> (Seq<u8>, Seq<u8>) {
        (self.name@, self.value@)
    }
}

impl DeepView for HeaderLine {
    type V = (Seq<u8>, Seq<u8>);

    open spec fn deep_view(&self) -> (Seq<u8>, Seq<u8>) {
        self.view()
    }
}

/// The store that a sequence of header lines builds up, in order.
pub open spec fn headers_of_lines(lines: Seq<(Seq<u8>, Seq<u8>)>) -> HeadersView
    decreases lines.len(),
{
    if lines.len() == 0 {
        Seq::empty()
    } else {
        insert_view(headers_of_lines(lines.drop_last()), lines.last().0, lines.last().1)
    }
}

/// The store after inserting a sequence of further header lines, in order.
pub open spec fn append_lines(h: HeadersView, lines: Seq<(Seq<u8>, Seq<u8>)>) -> HeadersView
    decreases lines.len(),
{
    if lines.len() == 0 {
        h
    } else {
        insert_view(append_lines(h, lines.drop_last()), lines.last().0, lines.last().1)
    }
}

/// ASCII lower-casing of one byte.
pub fn fold_byte_exec(b: u8) -> (r: u8)
    ensures
        r == fold_byte(b),
{
    if 65 <= b && b <= 90 {
        b + 32
    } else {
        b
    }
}

/// Whether two header names agree up to ASCII case.
pub fn names_eq_exec(a: &[u8], b: &[u8]) -> (r: bool)
    ensures
        r == names_eq(a@, b@),
{
    if a.len() != b.len() {
        assert(fold_name(a@).len() != fold_name(b@).len());
        return false;
    }
    let n = a.len();
    let mut i: usize = 0;
    while i < n
        invariant
            i <= n,
            n == a@.len() == b@.len(),
            forall|j: int| 0 <= j < i ==> fold_byte(a@[j]) == fold_byte(b@[j]),
        decreases n - i,
    {
        if fold_byte_exec(a[i]) != fold_byte_exec(b[i]) {
            assert(fold_name(a@)[i as int] != fold_name(b@)[i as int]);
            return false;
        }
        i = i + 1;
    }
    proof {
        assert(fold_name(a@) =~= fold_name(b@));
    }
    true
}

/// Case-insensitive, multi-valued header store.
#[derive(Debug, PartialEq)]
pub struct Headers {
    entries: Vec<(Vec<u8>, Vec<Vec<u8>>)>,
}

impl View for Headers {
    type V = HeadersView;

    closed spec fn view(&self) -> HeadersView {
        Seq::new(self.entries@.len(), |i: int| (self.entries@[i].0@, self.entries@[i].1.deep_view()))
    }
}

impl Headers {
    /// An empty store.
    pub fn new() -> (r: Headers)
        ensures
            r@ =~= Seq::<(Seq<u8>, Seq<Seq<u8>>)>::empty(),
    {
        Headers { entries: Vec::new() }
    }

    /// The index of the first bucket matching `name`, if any.
    fn find_bucket(&self, name: &[u8]) -> (r: Option<usize>)
        ensures
            match r {
                Option::Some(i) => bucket_index(self@, name@) == Option::Some(i as int),
                Option::None => bucket_index(self@, name@) is None,
            },
    {
        proof {
            lemma_bucket_index(self@, name@);
        }
        let n = self.entries.len();
        let mut i: usize = 0;
        while i < n
            invariant
                i <= n,
                n == self@.len(),
                forall|j: int| 0 <= j < i ==> !names_eq(self@[j].0, name@),
            decreases n - i,
        {
            let pair = &self.entries[i];
            if names_eq_exec(pair.0.as_slice(), name) {
                proof {
                    lemma_bucket_index(self@, name@);
                    assert(names_eq(self@[i as int].0, name@));
                    match bucket_index(self@, name@) {
                        Option::Some(k) => {
                            if k < i as int {
                                assert(!names_eq(self@[k].0, name@));
                            }
                            if k > i as int {
                                assert(!names_eq(self@[i as int].0, name@));
                            }
                        },
                        Option::None => {
                            assert(!names_eq(self@[i as int].0, name@));
                        },
                    }
                }
                return Option::Some(i);
            }
            i = i + 1;
        }
        proof {
            lemma_bucket_index(self@, name@);
            if let Option::Some(k) = bucket_index(self@, name@) {
                assert(names_eq(self@[k].0, name@));
                assert(!names_eq(self@[k].0, name@));
            }
        }
        Option::None
    }

    /// Appends `value` under `name`, preserving prior values and order.
    pub fn insert(&mut self, name: Vec<u8>, value: Vec<u8>)
        ensures
            final(self)@ =~= insert_view(old(self)@, name@, value@),
    {
        match self.find_bucket(name.as_slice()) {
            Option::Some(i) => {
                proof {
                    lemma_bucket_index(old(self)@, name@);
                }
                let mut pair = self.entries.remove(i);
                pair.1.push(value);
                self.entries.insert(i, pair);
                proof {
                    assert(self.entries@ =~= old(self).entries@.update(
                        i as int,
                        self.entries@[i as int],
                    ));
                    assert(self@ =~~= insert_view(old(self)@, name@, value@));
                }
            },
            Option::None => {
                let mut values: Vec<Vec<u8>> = Vec::new();
                values.push(value);
                self.entries.push((name, values));
                proof {
                    assert(self@ =~~= insert_view(old(self)@, name@, value@));
                }
            },
        }
    }

    /// Appends one parsed header line.
    pub fn insert_http1_header(&mut self, header: &HeaderLine)
        ensures
            final(self)@ =~= insert_view(old(self)@, header.name@, header.value@),
    {
        let name = vstd::slice::slice_to_vec(header.name.as_slice());
        let value = vstd::slice::slice_to_vec(header.value.as_slice());
        self.insert(name, value);
    }

    /// The store built from a raw parsed header list.
    pub fn from_http1(raw: &[HeaderLine]) -> (r: Headers)
        ensures
            r@ =~= headers_of_lines(raw.deep_view()),
    {
        let mut headers = Headers::new();
        let n = raw.len();
        let mut i: usize = 0;
        while i < n
            invariant
                i <= n,
                n == raw@.len(),
                headers@ =~= headers_of_lines(raw.deep_view().take(i as int)),
        decreases n - i,
        {
            let line = &raw[i];
            headers.insert_http1_header(line);
            proof {
                assert(raw.deep_view().take(i + 1).drop_last() =~= raw.deep_view().take(i as int));
                assert(raw.deep_view().take(i + 1).last() == raw.deep_view()[i as int]);
            }
            i = i + 1;
        }
        proof {
            assert(raw.deep_view().take(n as int) =~= raw.deep_view());
        }
        headers
    }

    /// All values stored under `name`, in insertion order, if any.
    pub fn get_vec(&self, name: &str) -> (r: Option<&Vec<Vec<u8>>>)
        ensures
            match r {
                Option::Some(v) => lookup_view(self@, name.spec_bytes()) == Option::Some(
                    v.deep_view(),
                ),
                Option::None => lookup_view(self@, name.spec_bytes()) is None,
            },
    {
        match self.find_bucket(name.as_bytes()) {
            Option::Some(i) => {
                proof {
                    lemma_bucket_index(self@, name.spec_bytes());
                }
                let pair = &self.entries[i];
                Option::Some(&pair.1)
            },
            Option::None => Option::None,
        }
    }

    /// Whether any value is stored under `name`.
    pub fn contains_key(&self, name: &str) -> (r: bool)
        ensures
            r == contains_view(self@, name.spec_bytes()),
    {
        self.find_bucket(name.as_bytes()).is_some()
    }
}


/// Whether a byte is list whitespace: ASCII space or horizontal tab.
pub open spec fn is_list_ws(b: u8) -> bool {
    b == 32 || b == 9
}

/// The first position of `b` in `s`, if any.
pub open spec fn find_byte(s: Seq<u8>, b: u8) -> Option<int>
    decreases s.len(),
{
    if s.len() == 0 {
        Option::None
    } else if s[0] == b {
        Option::Some(0)
    } else {
        match find_byte(s.skip(1), b) {
            Option::Some(i) => Option::Some(i + 1),
            Option::None => Option::None,
        }
    }
}

/// `find_byte` returns the first position of `b`, or none when absent.
pub proof fn lemma_find_byte(s: Seq<u8>, b: u8)
    ensures
        match find_byte(s, b) {
            Option::Some(i) => 0 <= i < s.len() && s[i] == b && forall|j: int|
                0 <= j < i ==> s[j] != b,
            Option::None => forall|j: int| 0 <= j < s.len() ==> s[j] != b,
        },
    decreases s.len(),
{
    if s.len() != 0 && s[0] != b {
        lemma_find_byte(s.skip(1), b);
        assert forall|j: int| 1 <= j < s.len() implies s.skip(1)[j - 1] == s[j] by {}
    }
}

/// `v` without leading and trailing list whitespace.
pub open spec fn trim(v: Seq<u8>) -> Seq<u8>
    decreases v.len(),
{
    if v.len() == 0 {
        v
    } else if is_list_ws(v[0]) {
        trim(v.skip(1))
    } else if is_list_ws(v[v.len() - 1]) {
        trim(v.take(v.len() - 1))
    } else {
        v
    }
}

/// The comma-separated tokens of one raw value: each token trimmed, empty
/// tokens suppressed.
pub open spec fn tokens_of_value(v: Seq<u8>) -> Seq<Seq<u8>>
    decreases v.len() via tokens_of_value_decreases
{
    match find_byte(v, 44) {
        Option::None => if trim(v).len() > 0 {
            seq![trim(v)]
        } else {
            Seq::empty()
        },
        Option::Some(c) => {
            let t = trim(v.take(c));
            let rest = tokens_of_value(v.skip(c + 1));
            if t.len() > 0 {
                seq![t] + rest
            } else {
                rest
            }
        },
    }
}

#[via_fn]
proof fn tokens_of_value_decreases(v: Seq<u8>) {
    lemma_find_byte(v, 44);
}

/// The tokens of a run of raw values, scanned value by value.  No implicit
/// comma stands between two raw values: the last token of one value and the
/// first of the next are separate tokens.
pub open spec fn tokens_of(values: Seq<Seq<u8>>) -> Seq<Seq<u8>>
    decreases values.len(),
{
    if values.len() == 0 {
        Seq::empty()
    } else {
        tokens_of_value(values[0]) + tokens_of(values.skip(1))
    }
}

/// The first position of `b` in `v` at or after `from`, if any.
fn find_byte_from(v: &Vec<u8>, from: usize, b: u8) -> (r: Option<usize>)
    requires
        from <= v@.len(),
    ensures
        match r {
            Option::Some(i) => from <= i < v@.len() && find_byte(v@.skip(from as int), b)
                == Option::Some(i - from),
            Option::None => find_byte(v@.skip(from as int), b) is None,
        },
{
    let n = v.len();
    let mut i: usize = from;
    while i < n
        invariant
            from <= i <= n,
            n == v@.len(),
            forall|j: int| from <= j < i ==> v@[j] != b,
        decreases n - i,
    {
        if v[i] == b {
            proof {
                lemma_find_byte(v@.skip(from as int), b);
                let s = v@.skip(from as int);
                assert(s[i - from] == b);
                match find_byte(s, b) {
                    Option::Some(k) => {
                        if k < i - from {
                            assert(v@[k + from] != b);
                            assert(s[k] == v@[k + from]);
                        }
                        if k > i - from {
                            assert(s[i - from] != b);
                        }
                    },
                    Option::None => {
                        assert(s[i - from] != b);
                    },
                }
            }
            return Option::Some(i);
        }
        i = i + 1;
    }
    proof {
        lemma_find_byte(v@.skip(from as int), b);
        let s = v@.skip(from as int);
        if let Option::Some(k) = find_byte(s, b) {
            assert(s[k] == v@[k + from]);
            assert(v@[k + from] != b);
        }
    }
    Option::None
}

/// Whether a byte is list whitespace.
fn is_list_ws_exec(b: u8) -> (r: bool)
    ensures
        r == is_list_ws(b),
{
    b == 32 || b == 9
}

/// The bytes `from..to` of `v`, trimmed of list whitespace on both ends.
pub(crate) fn trim_range(v: &[u8], from: usize, to: usize) -> (r: Vec<u8>)
    requires
        from <= to <= v@.len(),
    ensures
        r@ == trim(v@.subrange(from as int, to as int)),
{
    let mut a = from;
    while a < to && is_list_ws_exec(v[a])
        invariant
            from <= a <= to <= v@.len(),
            trim(v@.subrange(from as int, to as int)) == trim(v@.subrange(a as int, to as int)),
        decreases to - a,
    {
        proof {
            assert(v@.subrange(a as int, to as int).skip(1) =~= v@.subrange(a + 1, to as int));
        }
        a = a + 1;
    }
    let mut b = to;
    while a < b && is_list_ws_exec(v[b - 1])
        invariant
            from <= a <= b <= to <= v@.len(),
            a < b ==> !is_list_ws(v@[a as int]),
            trim(v@.subrange(from as int, to as int)) == trim(v@.subrange(a as int, b as int)),
        decreases b - a,
    {
        proof {
            assert(v@.subrange(a as int, b as int).take(b - a - 1) =~= v@.subrange(
                a as int,
                b - 1,
            ));
        }
        b = b - 1;
    }
    let mut r: Vec<u8> = Vec::new();
    let mut i = a;
    while i < b
        invariant
            a <= i <= b <= v@.len(),
            r@ =~= v@.subrange(a as int, i as int),
        decreases b - i,
    {
        proof {
            assert(v@.subrange(a as int, i + 1) =~= v@.subrange(a as int, i as int).push(
                v@[i as int],
            ));
        }
        r.push(v[i]);
        i = i + 1;
    }
    proof {
        assert(r@ =~= v@.subrange(a as int, b as int));
    }
    r
}

/// A one-pass tokenizer over the raw values stored under one header name.
///
/// Tokens are comma-separated within each raw value, trimmed of surrounding
/// list whitespace; empty tokens are suppressed; scanning continues across
/// raw-value boundaries without an implicit comma.
pub struct IterListHeader<'a> {
    values: &'a Vec<Vec<u8>>,
    line: usize,
    column: usize,
}

impl<'a> IterListHeader<'a> {
    /// The cursor stands inside the value run.
    pub closed spec fn wf(self) -> bool {
        &&& self.line <= self.values@.len()
        &&& self.line < self.values@.len() ==> self.column <= self.values@[self.line as int]@.len()
        &&& self.line == self.values@.len() ==> self.column == 0
    }

    /// The tokens not yet emitted.
    pub closed spec fn remaining(self) -> Seq<Seq<u8>> {
        if self.line == self.values@.len() {
            Seq::empty()
        } else {
            tokens_of_value(self.values@[self.line as int]@.skip(self.column as int)) + tokens_of(
                self.values.deep_view().skip(self.line + 1),
            )
        }
    }

    /// A tokenizer at the start of the given value run.
    pub fn new(values: &'a Vec<Vec<u8>>) -> (r: IterListHeader<'a>)
        ensures
            r.wf(),
            r.remaining() == tokens_of(values.deep_view()),
    {
        let r = IterListHeader { values, line: 0, column: 0 };
        proof {
            if values@.len() == 0 {
                assert(values.deep_view().len() == 0);
            } else {
                assert(values.deep_view()[0] == values@[0]@);
                assert(values@[0]@.skip(0) =~= values@[0]@);
                assert(values.deep_view().skip(1) =~= values.deep_view().skip(0int + 1));
            }
        }
        r
    }

    /// The next token, or none when the run is exhausted.
    #[verifier::loop_isolation(false)]
    pub fn next(&mut self) -> (r: Option<Vec<u8>>)
        requires
            old(self).wf(),
        ensures
            final(self).wf(),
            match r {
                Option::Some(t) => old(self).remaining().len() > 0
                    && t@ == old(self).remaining()[0]
                    && final(self).remaining() == old(self).remaining().skip(1),
                Option::None => old(self).remaining().len() == 0
                    && final(self).remaining().len() == 0,
            },
    {
        loop
            invariant
                self.wf(),
                self.values == old(self).values,
                self.remaining() == old(self).remaining(),
            decreases
                    self.values@.len() - self.line,
                    (if self.line < self.values@.len() {
                        self.values@[self.line as int]@.len() - self.column
                    } else {
                        0
                    }),
        {
            let vals: &Vec<Vec<u8>> = self.values;
            if self.line >= vals.len() {
                return Option::None;
            }
            let v: &Vec<u8> = &vals[self.line];
            let vlen = v.len();
            let col = self.column;
            let ghost line0 = self.line as int;
            let ghost suffix = v@.skip(col as int);
            let ghost tail = self.values.deep_view().skip(line0 + 1);
            match find_byte_from(v, col, 44) {
                Option::Some(ci) => {
                    let tok = trim_range(v.as_slice(), col, ci);
                    proof {
                        assert(suffix.take(ci - col) =~= v@.subrange(col as int, ci as int));
                        assert(suffix.skip(ci - col + 1) =~= v@.skip(ci + 1));
                    }
                    self.column = ci + 1;
                    proof {
                        assert(self.remaining() == tokens_of_value(v@.skip(ci + 1)) + tokens_of(
                            tail,
                        ));
                    }
                    if tok.len() > 0 {
                        proof {
                            assert(old(self).remaining() == (seq![tok@]
                                + tokens_of_value(v@.skip(ci + 1))) + tokens_of(tail));
                            assert(old(self).remaining().skip(1) =~= self.remaining());
                        }
                        return Option::Some(tok);
                    }
                },
                Option::None => {
                    let tok = trim_range(v.as_slice(), col, vlen);
                    proof {
                        assert(suffix =~= v@.subrange(col as int, vlen as int));
                    }
                    self.line = self.line + 1;
                    self.column = 0;
                    proof {
                        if self.line < vals@.len() {
                            assert(self.values.deep_view()[line0 + 1] == vals@[line0 + 1]@);
                            assert(vals@[line0 + 1]@.skip(0) =~= vals@[line0 + 1]@);
                            assert(tail.skip(1) =~= self.values.deep_view().skip(line0 + 2));
                            assert(tail.len() > 0);
                            assert(tail[0] == self.values.deep_view()[line0 + 1]);
                            assert(self.remaining() == tokens_of(tail));
                        } else {
                            assert(tail.len() == 0);
                            assert(self.remaining() == tokens_of(tail));
                        }
                    }
                    if tok.len() > 0 {
                        proof {
                            assert(old(self).remaining() == seq![tok@] + tokens_of(tail));
                            assert(old(self).remaining().skip(1) =~= self.remaining());
                        }
                        return Option::Some(tok);
                    }
                },
            }
        }
    }
}

/// The wire form of one bucket: one `name: value` line per value.
pub open spec fn bucket_wire(name: Seq<u8>, vals: Seq<Seq<u8>>) -> Seq<u8>
    decreases vals.len(),
{
    if vals.len() == 0 {
        Seq::empty()
    } else {
        name + seq![58u8, 32u8] + vals[0] + seq![13u8, 10u8] + bucket_wire(name, vals.skip(1))
    }
}

/// The wire form of a whole store, bucket by bucket in insertion order.
pub open spec fn headers_wire(h: HeadersView) -> Seq<u8>
    decreases h.len(),
{
    if h.len() == 0 {
        Seq::empty()
    } else {
        bucket_wire(h[0].0, h[0].1) + headers_wire(h.skip(1))
    }
}

impl Headers {
    /// Writes every header line of the store onto `out`, in insertion
    /// order.
    pub fn write_wire(&self, out: &mut Vec<u8>)
        ensures
            final(out)@ == old(out)@ + headers_wire(self@),
    {
        let ghost h = self@;
        proof {
            assert(h.skip(0) =~= h);
        }
        let n = self.entries.len();
        let mut i: usize = 0;
        while i < n
            invariant
                i <= n,
                n == self@.len(),
                h == self@,
                out@ + headers_wire(h.skip(i as int)) =~= old(out)@ + headers_wire(h),
            decreases n - i,
        {
            let pair = &self.entries[i];
            let ghost name = h[i as int].0;
            let ghost vals = h[i as int].1;
            proof {
                assert(pair.0@ == name);
                assert(pair.1.deep_view() == vals);
                assert(h.skip(i as int)[0] == h[i as int]);
                assert(h.skip(i as int).skip(1) =~= h.skip(i + 1));
                assert(headers_wire(h.skip(i as int)) == bucket_wire(name, vals) + headers_wire(
                    h.skip(i + 1),
                ));
                assert(vals.skip(0) =~= vals);
                assert(out@ + bucket_wire(name, vals.skip(0)) + headers_wire(h.skip(i + 1)) =~= out@
                    + headers_wire(h.skip(i as int)));
            }
            let m = pair.1.len();
            let mut j: usize = 0;
            while j < m
                invariant
                    j <= m,
                    m == vals.len(),
                    pair.0@ == name,
                    pair.1.deep_view() == vals,
                    m == pair.1@.len(),
                    out@ + bucket_wire(name, vals.skip(j as int)) + headers_wire(h.skip(i + 1))
                        =~= old(out)@ + headers_wire(h),
                decreases m - j,
            {
                proof {
                    assert(vals.skip(j as int)[0] == vals[j as int]);
                    assert(vals.skip(j as int).skip(1) =~= vals.skip(j + 1));
                    assert(pair.1@[j as int]@ == vals[j as int]);
                }
                let ghost out0 = out@;
                push_bytes(out, pair.0.as_slice());
                let sep: Vec<u8> = vec![58u8, 32u8];
                push_bytes(out, sep.as_slice());
                push_bytes(out, pair.1[j].as_slice());
                let crlf: Vec<u8> = vec![13u8, 10u8];
                push_bytes(out, crlf.as_slice());
                proof {
                    assert(out@ =~= out0 + (name + seq![58u8, 32u8] + vals[j as int] + seq![
                        13u8,
                        10u8,
                    ]));
                    assert(out@ + bucket_wire(name, vals.skip(j + 1)) =~= out0 + bucket_wire(
                        name,
                        vals.skip(j as int),
                    ));
                }
                j = j + 1;
            }
            proof {
                assert(vals.skip(m as int) =~= Seq::<Seq<u8>>::empty());
                assert(bucket_wire(name, vals.skip(m as int)) =~= Seq::<u8>::empty());
                assert(out@ + headers_wire(h.skip(i + 1)) =~= old(out)@ + headers_wire(h));
            }
            i = i + 1;
        }
        proof {
            assert(h.skip(n as int) =~= Seq::<(Seq<u8>, Seq<Seq<u8>>)>::empty());
            assert(out@ =~= old(out)@ + headers_wire(h));
        }
    }
}


/// A well-formed token: non-empty, comma-free, and trimmed.
pub open spec fn good_token(t: Seq<u8>) -> bool {
    &&& t.len() > 0
    &&& forall|i: int| 0 <= i < t.len() ==> #[trigger] t[i] != 44
    &&& !is_list_ws(t[0])
    &&& !is_list_ws(t[t.len() - 1])
}

/// The tokens of a run, re-joined with single commas.
pub open spec fn join_commas(ts: Seq<Seq<u8>>) -> Seq<u8>
    decreases ts.len(),
{
    if ts.len() == 0 {
        Seq::empty()
    } else if ts.len() == 1 {
        ts[0]
    } else {
        ts[0] + seq![44u8] + join_commas(ts.skip(1))
    }
}

/// `find_byte` finds a witnessed first occurrence.
proof fn lemma_find_byte_is(s: Seq<u8>, b: u8, i: int)
    requires
        0 <= i < s.len(),
        s[i] == b,
        forall|j: int| 0 <= j < i ==> s[j] != b,
    ensures
        find_byte(s, b) == Option::Some(i),
{
    lemma_find_byte(s, b);
    match find_byte(s, b) {
        Option::Some(k) => {
            if k < i {
                assert(s[k] != b);
            }
            if k > i {
                assert(s[i] != b);
            }
        },
        Option::None => {
            assert(s[i] != b);
        },
    }
}

/// `find_byte` finds nothing when nothing is there.
proof fn lemma_find_byte_none(s: Seq<u8>, b: u8)
    requires
        forall|j: int| 0 <= j < s.len() ==> s[j] != b,
    ensures
        find_byte(s, b) is None,
{
    lemma_find_byte(s, b);
    if let Option::Some(k) = find_byte(s, b) {
        assert(s[k] != b);
    }
}

/// Trimming keeps every byte it keeps from the input: a comma-free input
/// trims to a comma-free result, and a trimmed result has no whitespace at
/// either end.
proof fn lemma_trim_props(v: Seq<u8>)
    ensures
        trim(v).len() > 0 ==> !is_list_ws(trim(v)[0]) && !is_list_ws(trim(v)[trim(v).len() - 1]),
        (forall|j: int| 0 <= j < v.len() ==> v[j] != 44) ==> forall|i: int|
            0 <= i < trim(v).len() ==> #[trigger] trim(v)[i] != 44,
    decreases v.len(),
{
    if v.len() == 0 {
    } else if is_list_ws(v[0]) {
        lemma_trim_props(v.skip(1));
        assert forall|j: int| 1 <= j < v.len() implies v.skip(1)[j - 1] == v[j] by {}
    } else if is_list_ws(v[v.len() - 1]) {
        lemma_trim_props(v.take(v.len() - 1));
        assert forall|j: int| 0 <= j < v.len() - 1 implies v.take(v.len() - 1)[j] == v[j] by {}
    }
}

/// A token that is already trimmed and non-empty trims to itself.
proof fn lemma_trim_fixed(t: Seq<u8>)
    requires
        t.len() > 0,
        !is_list_ws(t[0]),
        !is_list_ws(t[t.len() - 1]),
    ensures
        trim(t) == t,
{
}

/// Every token the tokenizer yields from one raw value is well-formed.
proof fn lemma_tokens_of_value_good(v: Seq<u8>)
    ensures
        forall|k: int| 0 <= k < tokens_of_value(v).len() ==> good_token(
            #[trigger] tokens_of_value(v)[k],
        ),
    decreases v.len(),
{
    lemma_find_byte(v, 44);
    match find_byte(v, 44) {
        Option::None => {
            lemma_trim_props(v);
        },
        Option::Some(c) => {
            lemma_tokens_of_value_good(v.skip(c + 1));
            lemma_trim_props(v.take(c));
            assert forall|j: int| 0 <= j < v.take(c).len() implies v.take(c)[j] != 44 by {
                assert(v.take(c)[j] == v[j]);
            }
            let t = trim(v.take(c));
            let rest = tokens_of_value(v.skip(c + 1));
            if t.len() > 0 {
                assert forall|k: int|
                    0 <= k < tokens_of_value(v).len() implies good_token(
                    #[trigger] tokens_of_value(v)[k],
                ) by {
                    if k == 0 {
                        assert(tokens_of_value(v)[0] == t);
                    } else {
                        assert(tokens_of_value(v)[k] == rest[k - 1]);
                    }
                }
            }
        },
    }
}

/// Every token the tokenizer yields from a value run is well-formed.
proof fn lemma_tokens_of_good(values: Seq<Seq<u8>>)
    ensures
        forall|k: int| 0 <= k < tokens_of(values).len() ==> good_token(
            #[trigger] tokens_of(values)[k],
        ),
    decreases values.len(),
{
    if values.len() > 0 {
        lemma_tokens_of_value_good(values[0]);
        lemma_tokens_of_good(values.skip(1));
        let head = tokens_of_value(values[0]);
        let tail = tokens_of(values.skip(1));
        assert forall|k: int|
            0 <= k < tokens_of(values).len() implies good_token(#[trigger] tokens_of(values)[k]) by {
            if k < head.len() {
                assert(tokens_of(values)[k] == head[k]);
            } else {
                assert(tokens_of(values)[k] == tail[k - head.len()]);
            }
        }
    }
}

/// Tokenizing a comma-joined list of well-formed tokens gives the list
/// back.
proof fn lemma_tokenize_joined(ts: Seq<Seq<u8>>)
    requires
        forall|k: int| 0 <= k < ts.len() ==> good_token(#[trigger] ts[k]),
    ensures
        tokens_of_value(join_commas(ts)) == ts,
    decreases ts.len(),
{
    if ts.len() == 0 {
        let j = join_commas(ts);
        assert(j.len() == 0);
        assert(tokens_of_value(j) =~= ts);
    } else if ts.len() == 1 {
        let t = ts[0];
        assert(good_token(t));
        lemma_find_byte_none(t, 44);
        lemma_trim_fixed(t);
        assert(tokens_of_value(t) =~= ts);
    } else {
        let t = ts[0];
        let j = join_commas(ts);
        let tail = join_commas(ts.skip(1));
        assert(good_token(t));
        let l = t.len() as int;
        assert(j == t + seq![44u8] + tail);
        assert(j[l] == 44);
        assert forall|k: int| 0 <= k < l implies j[k] != 44 by {
            assert(j[k] == t[k]);
        }
        lemma_find_byte_is(j, 44, l);
        assert(j.take(l) =~= t);
        lemma_trim_fixed(t);
        assert(j.skip(l + 1) =~= tail);
        lemma_tokenize_joined(ts.skip(1));
        assert(tokens_of_value(j) == seq![t] + tokens_of_value(tail));
        assert(seq![t] + ts.skip(1) =~= ts);
    }
}

/// Law: tokenizing a run of raw header values and re-joining the tokens
/// with single commas neither loses, adds nor reorders a token — the
/// joined value tokenizes back to exactly the same token sequence.
pub proof fn lemma_tokens_rejoin(values: Seq<Seq<u8>>)
    ensures
        tokens_of_value(join_commas(tokens_of(values))) == tokens_of(values),
{
    lemma_tokens_of_good(values);
    lemma_tokenize_joined(tokens_of(values));
}

} // verus!
