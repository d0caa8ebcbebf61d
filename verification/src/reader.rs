//! Collecting a request from the bytes that a connection delivers, one
//! read at a time, until its head and announced body are complete.
use vstd::prelude::*;
use vstd::slice::{slice_subrange, slice_to_vec};
use crate::bytes::push_all;
use crate::feed::{lemma_line_end, line_end};
use crate::http::{
    content_length, get_conlen, header_spans, headboi, lemma_scan_for, scan_for, span_views,
};

verus! {

/// A complete request: its bytes (head and announced body), where its
/// method ends, where its path starts and ends, and where its body starts.
#[derive(Debug, PartialEq, Eq)]
pub struct Httpboi {
    pub v: Vec<u8>,
    pub imd: (usize, usize),
    pub ipt: (usize, usize),
    pub icont: usize,
}

/// What an `Httpboi` holds, as plain values.
pub struct RequestView {
    pub bytes: Seq<u8>,
    pub imd: (int, int),
    pub ipt: (int, int),
    pub icont: int,
}

impl View for Httpboi {
    type V = RequestView;

    open spec fn view(&self) -> RequestView {
        RequestView {
            bytes: self.v@,
            imd: (self.imd.0 as int, self.imd.1 as int),
            ipt: (self.ipt.0 as int, self.ipt.1 as int),
            icont: self.icont as int,
        }
    }
}

/// What a read leads to.
#[derive(Debug, PartialEq, Eq)]
pub enum Step {
    /// More bytes are needed.
    Pending,
    /// The request is complete.
    Ready(Httpboi),
    /// The bytes cannot be a request that the server reads (a first read
    /// shorter than three bytes, a body length that does not fit, or a
    /// request line without two spaces); the server gives up on them.
    Fault,
}

/// A `Step` as plain values.
pub enum Outcome {
    Pending,
    Ready(RequestView),
    Fault,
}

impl View for Step {
    type V = Outcome;

    open spec fn view(&self) -> Outcome {
        match self {
            Step::Pending => Outcome::Pending,
            Step::Ready(r) => Outcome::Ready(r@),
            Step::Fault => Outcome::Fault,
        }
    }
}

/// The bytes read so far, how far the search for the blank line that ends
/// the head has got (or where it is, once found), whether it was found,
/// and the announced length of the body.
pub struct HttpReader {
    v: Vec<u8>,
    icrlf: usize,
    dcrlf: bool,
    conlen: usize,
}

/// What an `HttpReader` holds, as plain values.
pub struct ReaderView {
    pub v: Seq<u8>,
    pub icrlf: int,
    pub dcrlf: bool,
    pub conlen: int,
}

impl View for HttpReader {
    type V = ReaderView;

    closed spec fn view(&self) -> ReaderView {
        ReaderView {
            v: self.v@,
            icrlf: self.icrlf as int,
            dcrlf: self.dcrlf,
            conlen: self.conlen as int,
        }
    }
}

/// `v` holds `\r\n\r\n` at `k`.
pub open spec fn blank_line_at(v: Seq<u8>, k: int) -> bool {
    &&& 0 <= k
    &&& k + 3 < v.len()
    &&& v[k] == 13
    &&& v[k + 1] == 10
    &&& v[k + 2] == 13
    &&& v[k + 3] == 10
}

/// Where the search for the blank line that starts at `from` stops: at
/// the blank line, or where fewer than four bytes are left.
pub open spec fn scan_blank(v: Seq<u8>, from: int) -> int
    decreases v.len() - from,
{
    if from + 3 >= v.len() {
        from
    } else if blank_line_at(v, from) {
        from
    } else {
        scan_blank(v, from + 1)
    }
}

/// What one read of the bytes `chunk` does to the reader's state, and
/// what it leads to.
pub open spec fn reader_step(s: ReaderView, chunk: Seq<u8>) -> (ReaderView, Outcome) {
    let v = s.v + chunk;
    if !s.dcrlf && v.len() < 3 {
        (ReaderView { v: v, icrlf: s.icrlf, dcrlf: s.dcrlf, conlen: s.conlen }, Outcome::Fault)
    } else {
        let k = if s.dcrlf {
            s.icrlf
        } else {
            scan_blank(v, s.icrlf)
        };
        let found = s.dcrlf || blank_line_at(v, k);
        let conlen = if s.dcrlf || !found {
            s.conlen
        } else {
            content_length(v, header_spans(v, line_end(v, 0) + 1, k)) as int
        };
        // A length that does not fit in a `usize` is not kept: the reader
        // keeps the one it had.
        let s2 = ReaderView {
            v: v,
            icrlf: k,
            dcrlf: found,
            conlen: if conlen <= usize::MAX {
                conlen
            } else {
                s.conlen
            },
        };
        if !found {
            (s2, Outcome::Pending)
        } else if conlen > usize::MAX || k + 4 + conlen > usize::MAX {
            (s2, Outcome::Fault)
        } else if v.len() < k + 4 + conlen {
            (s2, Outcome::Pending)
        } else {
            let m = scan_for(v, 0, v.len() as int, 32);
            let p = scan_for(v, m + 1, v.len() as int, 32);
            if m >= v.len() || p >= v.len() {
                (s2, Outcome::Fault)
            } else {
                (
                    s2,
                    Outcome::Ready(
                        RequestView {
                            bytes: v.subrange(0, k + 4 + conlen),
                            imd: (0, m),
                            ipt: (m + 1, p),
                            icont: k + 4,
                        },
                    ),
                )
            }
        }
    }
}

/// The state before any byte is read.
pub open spec fn reader_start() -> ReaderView {
    ReaderView { v: seq![], icrlf: 0, dcrlf: false, conlen: 0 }
}

/// Where the search for the blank line stops, from `from` on.
fn scan_blank_exec(v: &[u8], from: usize) -> (k: usize)
    requires
        from <= v.len(),
        v.len() >= 3,
    ensures
        k == scan_blank(v@, from as int),
        from <= k,
        k + 3 < v.len() || k == from || k + 3 == v.len(),
{
    let mut k: usize = from;
    while k < v.len() - 3 && !(v[k] == 13 && v[k + 1] == 10 && v[k + 2] == 13 && v[k + 3] == 10)
        invariant
            v.len() >= 3,
            from <= k <= v.len(),
            k == from || k + 3 <= v.len(),
            scan_blank(v@, from as int) == scan_blank(v@, k as int),
        decreases v.len() - k,
    {
        k += 1;
    }
    k
}

/// The first index from `from` on where `v` holds `b`, or `v.len()`.
fn find_byte(v: &[u8], from: usize, b: u8) -> (k: usize)
    requires
        from <= v.len(),
    ensures
        k == scan_for(v@, from as int, v@.len() as int, b),
{
    let mut k: usize = from;
    while k < v.len() && v[k] != b
        invariant
            from <= k <= v.len(),
            scan_for(v@, from as int, v@.len() as int, b) == scan_for(v@, k as int, v@.len() as int, b),
        decreases v.len() - k,
    {
        k += 1;
    }
    k
}

/// What holds of every state the reader passes through: the search has
/// ruled out a blank line before `icrlf`, looking only at complete
/// four-byte windows, and where the blank line was found it is at `icrlf`.
pub open spec fn reader_inv(s: ReaderView) -> bool {
    &&& 0 <= s.icrlf
    &&& (s.icrlf == 0 || s.icrlf + 3 <= s.v.len())
    &&& forall|k: int| 0 <= k < s.icrlf ==> !#[trigger] blank_line_at(s.v, k)
    &&& s.dcrlf ==> blank_line_at(s.v, s.icrlf)
}

pub proof fn lemma_scan_blank(v: Seq<u8>, from: int)
    requires
        0 <= from,
    ensures
        from <= scan_blank(v, from),
        from + 3 < v.len() ==> scan_blank(v, from) + 3 <= v.len(),
        forall|k: int| from <= k < scan_blank(v, from) ==> !#[trigger] blank_line_at(v, k),
        scan_blank(v, from) + 3 < v.len() ==> blank_line_at(v, scan_blank(v, from)),
        from + 3 >= v.len() ==> scan_blank(v, from) == from,
    decreases v.len() - from,
{
    if from + 3 < v.len() && !blank_line_at(v, from) {
        lemma_scan_blank(v, from + 1);
    }
}

proof fn lemma_newline_before(v: Seq<u8>, q: int)
    requires
        0 <= q < v.len(),
        v[q] == 10,
    ensures
        line_end(v, 0) <= q,
{
    lemma_line_end(v, 0);
}

/// The reader's invariant holds of every state it reaches, and a ready
/// request's head ends at the first blank line of all the bytes read.
pub proof fn lemma_reader_step(s: ReaderView, chunk: Seq<u8>)
    requires
        reader_inv(s),
    ensures
        reader_inv(reader_step(s, chunk).0),
        reader_step(s, chunk).1 matches Outcome::Ready(req) ==> {
            &&& blank_line_at(s.v + chunk, req.icont - 4)
            &&& forall|k: int| 0 <= k < req.icont - 4 ==> !#[trigger] blank_line_at(s.v + chunk, k)
        },
{
    let v = s.v + chunk;
    assert forall|k: int| 0 <= k && k + 3 < s.v.len() implies #[trigger] blank_line_at(v, k)
        == blank_line_at(s.v, k) by {
        assert(v[k] == s.v[k] && v[k + 1] == s.v[k + 1] && v[k + 2] == s.v[k + 2] && v[k + 3] == s.v[k
            + 3]);
    }
    if !(!s.dcrlf && v.len() < 3) {
        if !s.dcrlf {
            lemma_scan_blank(v, s.icrlf);
        }
    }
}

impl HttpReader {
    /// The reader's state satisfies its invariant.
    pub open spec fn ok(&self) -> bool {
        reader_inv(self@)
    }

    /// A reader that has read nothing.
    pub fn new() -> (r: Self)
        ensures
            r@ == reader_start(),
            r.ok(),
    {
        let r = HttpReader { v: Vec::new(), icrlf: 0, dcrlf: false, conlen: 0 };
        assert(r@.v =~= Seq::<u8>::empty());
        r
    }

    /// Takes the bytes of one read. Once the head's blank line is found,
    /// the headers give the body's length; when that many bytes follow the
    /// head, the request is ready, its method being what precedes the
    /// first space and its path what lies between that and the next.
    pub fn push(&mut self, data: &[u8]) -> (r: Step)
        requires
            old(self).ok(),
        ensures
            r@ == reader_step(old(self)@, data@).1,
            final(self)@ == reader_step(old(self)@, data@).0,
            final(self).ok(),
    {
        let ghost s = self@;
        proof {
            lemma_reader_step(s, data@);
        }
        push_all(&mut self.v, data);
        let ghost v = self.v@;
        assert(v == s.v + data@);
        if !self.dcrlf {
            if self.v.len() < 3 {
                return Step::Fault;
            }
            let k = scan_blank_exec(self.v.as_slice(), self.icrlf);
            proof {
                lemma_scan_blank(v, s.icrlf);
            }
            self.icrlf = k;
            if k + 3 < self.v.len() {
                // The blank line is at `k`.
                self.dcrlf = true;
                proof {
                    lemma_newline_before(v, k + 1);
                }
                let headers = headboi(self.v.as_slice(), k);
                match get_conlen(self.v.as_slice(), headers.as_slice()) {
                    Some(n) => {
                        self.conlen = n;
                    },
                    None => {
                        return Step::Fault;
                    },
                }
            } else {
                return Step::Pending;
            }
        }
        let icrlf = self.icrlf;
        let total = match icrlf.checked_add(4) {
            Some(t) => t.checked_add(self.conlen),
            None => None,
        };
        let total = match total {
            Some(t) => t,
            None => {
                return Step::Fault;
            },
        };
        if self.v.len() < total {
            return Step::Pending;
        }
        let m = find_byte(self.v.as_slice(), 0, 32);
        if m >= self.v.len() {
            return Step::Fault;
        }
        let p = find_byte(self.v.as_slice(), m + 1, 32);
        if p >= self.v.len() {
            return Step::Fault;
        }
        let bytes = slice_to_vec(slice_subrange(self.v.as_slice(), 0, total));
        Step::Ready(Httpboi { v: bytes, imd: (0, m), ipt: (m + 1, p), icont: icrlf + 4 })
    }
}

} // verus!
