//! Validation shared by anything that carries headers: single-value lookup,
//! content-length extraction, chunked detection, and the rule that a message
//! must not declare both a content length and a transfer encoding.

use vstd::prelude::*;
use vstd::string::StringSliceAdditionalSpecFns;

use crate::error::Error;
use crate::headers::{
    contains_view, lookup_view, names_eq, names_eq_exec, tokens_of, HeadersView, IterListHeader,
};

verus! {

/// The single value under `name`, if exactly one value is stored there.
pub open spec fn single_value(h: HeadersView, name: Seq<u8>) -> Option<Seq<u8>> {
    match lookup_view(h, name) {
        Option::Some(vals) => if vals.len() == 1 {
            Option::Some(vals[0])
        } else {
            Option::None
        },
        Option::None => Option::None,
    }
}

/// Whether `s` is one or more ASCII decimal digits.
pub open spec fn is_digits(s: Seq<u8>) -> bool {
    s.len() > 0 && forall|i: int| 0 <= i < s.len() ==> 48 <= #[trigger] s[i] <= 57
}

/// The number a decimal digit string denotes.
pub open spec fn dec_value(s: Seq<u8>) -> nat
    decreases s.len(),
{
    if s.len() == 0 {
        0
    } else {
        (dec_value(s.drop_last()) * 10 + (s.last() - 48)) as nat
    }
}

/// What `content_length` returns over a header store: the forbidden
/// combination is rejected first, then the single `Content-Length` value is
/// read as a decimal number.
pub open spec fn content_length_of(h: HeadersView) -> Result<usize, Error> {
    if contains_view(h, "Transfer-Encoding".spec_bytes()) {
        Result::Err(Error::ForbiddenHeader)
    } else {
        match lookup_view(h, "Content-Length".spec_bytes()) {
            Option::None => Result::Err(Error::MissingHeader),
            Option::Some(vals) => if vals.len() != 1 {
                Result::Err(Error::InvalidHeader)
            } else if is_digits(vals[0]) && dec_value(vals[0]) <= usize::MAX {
                Result::Ok(dec_value(vals[0]) as usize)
            } else {
                Result::Err(Error::InvalidHeader)
            },
        }
    }
}

/// Whether a header store declares chunked transfer: some token of the
/// `Transfer-Encoding` list equals `chunked` up to ASCII case.
pub open spec fn is_chunked_of(h: HeadersView) -> bool {
    match lookup_view(h, "Transfer-Encoding".spec_bytes()) {
        Option::None => false,
        Option::Some(vals) => exists|i: int|
            0 <= i < tokens_of(vals).len() && names_eq(
                #[trigger] tokens_of(vals)[i],
                "chunked".spec_bytes(),
            ),
    }
}

/// The value of a digit string, if it is one and fits in `usize`.
pub fn parse_decimal(s: &Vec<u8>) -> (r: Option<usize>)
    ensures
        match r {
            Option::Some(v) => is_digits(s@) && dec_value(s@) <= usize::MAX && v == dec_value(s@),
            Option::None => !(is_digits(s@) && dec_value(s@) <= usize::MAX),
        },
{
    let n = s.len();
    if n == 0 {
        return Option::None;
    }
    let mut acc: usize = 0;
    let mut i: usize = 0;
    while i < n
        invariant
            i <= n,
            n == s@.len(),
            is_digits(s@.take(i as int)) || i == 0,
            acc == dec_value(s@.take(i as int)),
        decreases n - i,
    {
        let b = s[i];
        if b < 48 || b > 57 {
            proof {
                assert(!is_digits(s@));
            }
            return Option::None;
        }
        let d = (b - 48) as usize;
        proof {
            assert(s@.take(i + 1).drop_last() =~= s@.take(i as int));
            assert(s@.take(i + 1).last() == s@[i as int]);
        }
        let acc10 = match acc.checked_mul(10) {
            Option::Some(x) => x,
            Option::None => {
                proof {
                    assert(dec_value(s@.take(i + 1)) >= acc * 10);
                    if is_digits(s@) {
                        lemma_dec_value_grows(s@, i + 1);
                    }
                }
                return Option::None;
            },
        };
        acc = match acc10.checked_add(d) {
            Option::Some(x) => x,
            Option::None => {
                proof {
                    assert(dec_value(s@.take(i + 1)) >= acc * 10 + d);
                    if is_digits(s@) {
                        lemma_dec_value_grows(s@, i + 1);
                    }
                }
                return Option::None;
            },
        };
        i = i + 1;
    }
    proof {
        assert(s@.take(n as int) =~= s@);
    }
    Option::Some(acc)
}

/// A digit string is worth at least any of its prefixes.
proof fn lemma_dec_value_grows(s: Seq<u8>, i: int)
    requires
        0 <= i <= s.len(),
        is_digits(s),
    ensures
        dec_value(s) >= dec_value(s.take(i)),
    decreases s.len() - i,
{
    if i < s.len() {
        lemma_dec_value_grows(s, i + 1);
        assert(s.take(i + 1).drop_last() =~= s.take(i));
        assert(dec_value(s.take(i + 1)) == dec_value(s.take(i)) * 10 + (s.take(i + 1).last()
            - 48)) by {
            assert(s.take(i + 1).len() > 0);
        }
        assert(dec_value(s.take(i)) * 10 >= dec_value(s.take(i))) by (nonlinear_arith);
    } else {
        assert(s.take(i) =~= s);
    }
}

/// Anything with headers: shared lookup and validation behaviour.
pub trait Message {
    /// The header store of the message.
    spec fn hdrs(&self) -> HeadersView;

    /// All values stored under `name`, in insertion order, if any.
    fn get_header(&self, name: &str) -> (r: Option<&Vec<Vec<u8>>>)
        ensures
            match r {
                Option::Some(v) => lookup_view(self.hdrs(), name.spec_bytes()) == Option::Some(
                    v.deep_view(),
                ),
                Option::None => lookup_view(self.hdrs(), name.spec_bytes()) is None,
            },
    ;

    /// Whether any value is stored under `name`.
    fn contains_header(&self, name: &str) -> (r: bool)
        ensures
            r == contains_view(self.hdrs(), name.spec_bytes()),
    ;

    /// The value under `name`, provided exactly one is stored.
    fn get_value_header(&self, name: &str) -> (r: Option<&Vec<u8>>)
        ensures
            match r {
                Option::Some(v) => single_value(self.hdrs(), name.spec_bytes()) == Option::Some(
                    v@,
                ),
                Option::None => single_value(self.hdrs(), name.spec_bytes()) is None,
            },
    {
        match self.get_header(name) {
            Option::Some(v) => {
                if v.len() == 1 {
                    Option::Some(&v[0])
                } else {
                    Option::None
                }
            },
            Option::None => Option::None,
        }
    }

    /// A tokenizer over the values stored under `name`, if any.
    fn get_list_header<'a>(&'a self, name: &str) -> (r: Option<IterListHeader<'a>>)
        ensures
            match lookup_view(self.hdrs(), name.spec_bytes()) {
                Option::Some(vals) => r matches Option::Some(it) && it.wf() && it.remaining()
                    == tokens_of(vals),
                Option::None => r is None,
            },
    {
        match self.get_header(name) {
            Option::Some(values) => Option::Some(IterListHeader::new(values)),
            Option::None => Option::None,
        }
    }

    /// The declared content length of the message.
    ///
    /// Fails with `ForbiddenHeader` when a transfer encoding is declared at
    /// all, with `MissingHeader` when no `Content-Length` is present, and
    /// with `InvalidHeader` when the value is repeated or not a decimal
    /// number.
    fn content_length(&self) -> (r: Result<usize, Error>)
        ensures
            r == content_length_of(self.hdrs()),
    {
        if self.contains_header("Transfer-Encoding") {
            return Result::Err(Error::ForbiddenHeader);
        }
        match self.get_header("Content-Length") {
            Option::None => Result::Err(Error::MissingHeader),
            Option::Some(v) => {
                proof {
                    assert(v.deep_view().len() == v@.len());
                }
                if v.len() != 1 {
                    Result::Err(Error::InvalidHeader)
                } else {
                    proof {
                        assert(v.deep_view()[0] == v@[0]@);
                    }
                    match parse_decimal(&v[0]) {
                        Option::Some(value) => Result::Ok(value),
                        Option::None => Result::Err(Error::InvalidHeader),
                    }
                }
            },
        }
    }

    /// Whether the message declares chunked transfer.
    fn is_chunked(&self) -> (r: bool)
        ensures
            r == is_chunked_of(self.hdrs()),
    {
        match self.get_list_header("Transfer-Encoding") {
            Option::None => false,
            Option::Some(mut it) => {
                let ghost vals = lookup_view(self.hdrs(), "Transfer-Encoding".spec_bytes())
                    .unwrap();
                let ghost total = tokens_of(vals);
                let ghost emitted = Seq::<Seq<u8>>::empty();
                loop
                    invariant
                        it.wf(),
                        total == tokens_of(vals),
                        total =~= emitted + it.remaining(),
                        forall|j: int|
                            0 <= j < emitted.len() ==> !names_eq(
                                #[trigger] emitted[j],
                                "chunked".spec_bytes(),
                            ),
                        is_chunked_of(self.hdrs()) == exists|i: int|
                            0 <= i < total.len() && names_eq(
                                #[trigger] total[i],
                                "chunked".spec_bytes(),
                            ),
                    decreases it.remaining().len(),
                {
                    match it.next() {
                        Option::Some(tok) => {
                            let pat = "chunked";
                            if names_eq_exec(tok.as_slice(), pat.as_bytes()) {
                                proof {
                                    assert(total[emitted.len() as int] == tok@);
                                }
                                return true;
                            }
                            proof {
                                emitted = emitted.push(tok@);
                            }
                        },
                        Option::None => {
                            proof {
                                assert(total =~= emitted);
                                if exists|i: int|
                                    0 <= i < total.len() && names_eq(
                                        #[trigger] total[i],
                                        "chunked".spec_bytes(),
                                    ) {
                                    let i = choose|i: int|
                                        0 <= i < total.len() && names_eq(
                                            #[trigger] total[i],
                                            "chunked".spec_bytes(),
                                        );
                                    assert(!names_eq(emitted[i], "chunked".spec_bytes()));
                                }
                            }
                            return false;
                        },
                    }
                }
            },
        }
    }
}

} // verus!
