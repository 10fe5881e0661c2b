//! Concrete typed headers built on the shared contract: the byte-count
//! header, the transfer/content coding list headers, and the codings they
//! carry.

use vstd::prelude::*;
use vstd::string::StringSliceAdditionalSpecFns;

use crate::header::Header;
use crate::raw::Raw;
use crate::wire::{
    all_digits, dec_repr, dec_val, fmt_dec_u64, join_elems, join_list, lines_elems, list_elems,
    parse_dec_u64, split_list_line, trim_bytes, trim_ows, bytes_eq, copy_bytes,
};
use crate::HeaderError;

verus! {

/// `Content-Length`: a single-valued header holding a byte count.
#[derive(Debug, Clone, Copy, PartialEq, Eq, Structural)]
pub struct ContentLength(pub u64);

impl View for ContentLength {
    type V = int;

    open spec fn view(&self) -> int {
        self.0 as int
    }
}

impl Header for ContentLength {
    open spec fn spec_name() -> Seq<u8> {
        "Content-Length".spec_bytes()
    }

    /// Exactly one raw line, whose trimmed bytes are decimal digits
    /// denoting a value that fits in 64 bits.
    open spec fn spec_parse(lines: Seq<Seq<u8>>) -> Option<int> {
        if lines.len() == 1 {
            let t = trim_ows(lines[0]);
            if all_digits(t) && dec_val(t) <= u64::MAX {
                Some(dec_val(t))
            } else {
                None
            }
        } else {
            None
        }
    }

    /// One line holding the canonical decimal digits of the count.
    open spec fn spec_format(v: int) -> Seq<Seq<u8>> {
        seq![dec_repr(v as nat)]
    }

    fn header_name() -> (r: &'static str) {
        "Content-Length"
    }

    fn parse_header(raw: &Raw) -> (r: Result<ContentLength, HeaderError>) {
        match raw.one() {
            Some(line) => {
                let t = trim_bytes(line.as_slice());
                match parse_dec_u64(t.as_slice()) {
                    Some(v) => Ok(ContentLength(v)),
                    None => Err(HeaderError::Grammar),
                }
            }
            None => Err(HeaderError::Cardinality),
        }
    }

    fn fmt_header(&self) -> (r: Raw) {
        let r = Raw::from_line(fmt_dec_u64(self.0));
        proof {
            assert(r@ =~~= Self::spec_format(self@));
        }
        r
    }
}

/// A transfer or content coding, as carried in coding list headers. Its
/// view is its wire token; an unrecognized token is carried as it
/// appeared.
#[derive(Debug, Clone, PartialEq, Eq)]
pub enum Encoding {
    /// The `chunked` transfer coding.
    Chunked,
    /// The `br` (Brotli) coding.
    Brotli,
    /// The `compress` coding.
    Compress,
    /// The `deflate` coding.
    Deflate,
    /// The `gzip` coding.
    Gzip,
    /// The `identity` coding.
    Identity,
    /// The `trailers` TE value.
    Trailers,
    /// Any other coding token, kept as its wire bytes.
    EncodingExt(Vec<u8>),
}

/// The wire token of the `chunked` coding.
pub open spec fn tok_chunked() -> Seq<u8> {
    seq![99u8, 104u8, 117u8, 110u8, 107u8, 101u8, 100u8]
}

/// The wire token of the `br` coding.
pub open spec fn tok_brotli() -> Seq<u8> {
    seq![98u8, 114u8]
}

/// The wire token of the `compress` coding.
pub open spec fn tok_compress() -> Seq<u8> {
    seq![99u8, 111u8, 109u8, 112u8, 114u8, 101u8, 115u8, 115u8]
}

/// The wire token of the `deflate` coding.
pub open spec fn tok_deflate() -> Seq<u8> {
    seq![100u8, 101u8, 102u8, 108u8, 97u8, 116u8, 101u8]
}

/// The wire token of the `gzip` coding.
pub open spec fn tok_gzip() -> Seq<u8> {
    seq![103u8, 122u8, 105u8, 112u8]
}

/// The wire token of the `identity` coding.
pub open spec fn tok_identity() -> Seq<u8> {
    seq![105u8, 100u8, 101u8, 110u8, 116u8, 105u8, 116u8, 121u8]
}

/// The wire token of the `trailers` TE value.
pub open spec fn tok_trailers() -> Seq<u8> {
    seq![116u8, 114u8, 97u8, 105u8, 108u8, 101u8, 114u8, 115u8]
}

/// The wire tokens above are the byte forms of the corresponding string
/// literals.
proof fn lemma_tok_bytes()
    ensures
        "chunked".spec_bytes() == tok_chunked(),
        "br".spec_bytes() == tok_brotli(),
        "compress".spec_bytes() == tok_compress(),
        "deflate".spec_bytes() == tok_deflate(),
        "gzip".spec_bytes() == tok_gzip(),
        "identity".spec_bytes() == tok_identity(),
        "trailers".spec_bytes() == tok_trailers(),
{
    reveal_strlit("chunked");
    reveal_strlit("br");
    reveal_strlit("compress");
    reveal_strlit("deflate");
    reveal_strlit("gzip");
    reveal_strlit("identity");
    reveal_strlit("trailers");
    assert(vstd::utf8::is_ascii_chars("chunked"@));
    vstd::utf8::is_ascii_chars_encode_utf8("chunked"@);
    assert("chunked".spec_bytes() =~= tok_chunked());
    assert(vstd::utf8::is_ascii_chars("br"@));
    vstd::utf8::is_ascii_chars_encode_utf8("br"@);
    assert("br".spec_bytes() =~= tok_brotli());
    assert(vstd::utf8::is_ascii_chars("compress"@));
    vstd::utf8::is_ascii_chars_encode_utf8("compress"@);
    assert("compress".spec_bytes() =~= tok_compress());
    assert(vstd::utf8::is_ascii_chars("deflate"@));
    vstd::utf8::is_ascii_chars_encode_utf8("deflate"@);
    assert("deflate".spec_bytes() =~= tok_deflate());
    assert(vstd::utf8::is_ascii_chars("gzip"@));
    vstd::utf8::is_ascii_chars_encode_utf8("gzip"@);
    assert("gzip".spec_bytes() =~= tok_gzip());
    assert(vstd::utf8::is_ascii_chars("identity"@));
    vstd::utf8::is_ascii_chars_encode_utf8("identity"@);
    assert("identity".spec_bytes() =~= tok_identity());
    assert(vstd::utf8::is_ascii_chars("trailers"@));
    vstd::utf8::is_ascii_chars_encode_utf8("trailers"@);
    assert("trailers".spec_bytes() =~= tok_trailers());
}

impl View for Encoding {
    type V = Seq<u8>;

    open spec fn view(&self) -> Seq<u8> {
        match self {
            Encoding::Chunked => tok_chunked(),
            Encoding::Brotli => tok_brotli(),
            Encoding::Compress => tok_compress(),
            Encoding::Deflate => tok_deflate(),
            Encoding::Gzip => tok_gzip(),
            Encoding::Identity => tok_identity(),
            Encoding::Trailers => tok_trailers(),
            Encoding::EncodingExt(b) => b@,
        }
    }
}

impl DeepView for Encoding {
    type V = Seq<u8>;

    open spec fn deep_view(&self) -> Seq<u8> {
        self@
    }
}

impl Encoding {
    /// Reads one list element as a coding. Recognized tokens map to their
    /// named coding; anything else is kept as its bytes, so the view of
    /// the result is always the element itself.
    pub fn from_bytes(b: Vec<u8>) -> (r: Encoding)
        ensures
            r@ == b@,
    {
        let s = b.as_slice();
        if bytes_eq(s, "chunked".as_bytes()) {
            proof {
                lemma_tok_bytes();
            }
            Encoding::Chunked
        } else if bytes_eq(s, "br".as_bytes()) {
            proof {
                lemma_tok_bytes();
            }
            Encoding::Brotli
        } else if bytes_eq(s, "compress".as_bytes()) {
            proof {
                lemma_tok_bytes();
            }
            Encoding::Compress
        } else if bytes_eq(s, "deflate".as_bytes()) {
            proof {
                lemma_tok_bytes();
            }
            Encoding::Deflate
        } else if bytes_eq(s, "gzip".as_bytes()) {
            proof {
                lemma_tok_bytes();
            }
            Encoding::Gzip
        } else if bytes_eq(s, "identity".as_bytes()) {
            proof {
                lemma_tok_bytes();
            }
            Encoding::Identity
        } else if bytes_eq(s, "trailers".as_bytes()) {
            proof {
                lemma_tok_bytes();
            }
            Encoding::Trailers
        } else {
            Encoding::EncodingExt(b)
        }
    }

    /// The wire token of this coding.
    pub fn to_bytes(&self) -> (r: Vec<u8>)
        ensures
            r@ == self@,
    {
        match self {
            Encoding::Chunked => {
                let r = copy_bytes("chunked".as_bytes());
                proof {
                    lemma_tok_bytes();
                    assert(r@ =~= tok_chunked());
                }
                r
            }
            Encoding::Brotli => {
                let r = copy_bytes("br".as_bytes());
                proof {
                    lemma_tok_bytes();
                    assert(r@ =~= tok_brotli());
                }
                r
            }
            Encoding::Compress => {
                let r = copy_bytes("compress".as_bytes());
                proof {
                    lemma_tok_bytes();
                    assert(r@ =~= tok_compress());
                }
                r
            }
            Encoding::Deflate => {
                let r = copy_bytes("deflate".as_bytes());
                proof {
                    lemma_tok_bytes();
                    assert(r@ =~= tok_deflate());
                }
                r
            }
            Encoding::Gzip => {
                let r = copy_bytes("gzip".as_bytes());
                proof {
                    lemma_tok_bytes();
                    assert(r@ =~= tok_gzip());
                }
                r
            }
            Encoding::Identity => {
                let r = copy_bytes("identity".as_bytes());
                proof {
                    lemma_tok_bytes();
                    assert(r@ =~= tok_identity());
                }
                r
            }
            Encoding::Trailers => {
                let r = copy_bytes("trailers".as_bytes());
                proof {
                    lemma_tok_bytes();
                    assert(r@ =~= tok_trailers());
                }
                r
            }
            Encoding::EncodingExt(b) => copy_bytes(b.as_slice()),
        }
    }
}

/// Parses every list element of every raw line, in wire order, as a
/// coding.
fn parse_codings(raw: &Raw) -> (r: Vec<Encoding>)
    ensures
        r.deep_view() == lines_elems(raw@),
{
    let mut out: Vec<Encoding> = Vec::new();
    let n = raw.len();
    let mut i: usize = 0;
    proof {
        assert(raw@.take(0) =~= Seq::<Seq<u8>>::empty());
        assert(lines_elems(raw@.take(0)) =~= Seq::<Seq<u8>>::empty());
        assert(out.deep_view() =~= Seq::<Seq<u8>>::empty());
    }
    while i < n
        invariant
            i <= n,
            n == raw@.len(),
            out.deep_view() == lines_elems(raw@.take(i as int)),
        decreases n - i,
    {
        let elems = split_list_line(raw.get(i).as_slice());
        let ghost linelems = list_elems(raw@[i as int]);
        let m = elems.len();
        let mut j: usize = 0;
        while j < m
            invariant
                j <= m,
                m == linelems.len(),
                elems.deep_view() == linelems,
                out.deep_view() == lines_elems(raw@.take(i as int)) + linelems.take(j as int),
                i < raw@.len(),
            decreases m - j,
        {
            proof {
                assert(elems@[j as int]@ == linelems[j as int]);
            }
            let e = Encoding::from_bytes(copy_bytes(elems[j].as_slice()));
            let ghost prior = out.deep_view();
            out.push(e);
            proof {
                assert(out.deep_view() =~~= prior.push(linelems[j as int]));
                assert(linelems.take(j + 1) =~= linelems.take(j as int).push(linelems[j as int]));
                assert(prior.push(linelems[j as int]) =~= lines_elems(raw@.take(i as int))
                    + linelems.take(j + 1));
            }
            j += 1;
        }
        proof {
            assert(linelems.take(m as int) =~= linelems);
            assert(raw@.take(i + 1) =~= raw@.take(i as int).push(raw@[i as int]));
            crate::wire::lemma_lines_elems_push(raw@.take(i as int), raw@[i as int]);
        }
        i += 1;
    }
    proof {
        assert(raw@.take(n as int) =~= raw@);
    }
    out
}

/// Formats a coding list: absent (zero lines) when empty, else one
/// comma-joined line.
fn fmt_codings(codings: &Vec<Encoding>) -> (r: Raw)
    ensures
        r@ == spec_fmt_codings(codings.deep_view()),
{
    if codings.len() == 0 {
        let r = Raw::new();
        proof {
            assert(r@ =~~= spec_fmt_codings(codings.deep_view()));
        }
        return r;
    }
    let mut toks: Vec<Vec<u8>> = Vec::new();
    let n = codings.len();
    let mut i: usize = 0;
    proof {
        assert(toks.deep_view() =~= codings.deep_view().take(0));
    }
    while i < n
        invariant
            i <= n,
            n == codings@.len(),
            toks.deep_view() == codings.deep_view().take(i as int),
        decreases n - i,
    {
        let t = codings[i].to_bytes();
        let ghost prior = toks.deep_view();
        toks.push(t);
        proof {
            assert(codings.deep_view()[i as int] == codings@[i as int]@);
            assert(toks.deep_view() =~~= prior.push(codings.deep_view()[i as int]));
            assert(codings.deep_view().take(i + 1) =~= codings.deep_view().take(i as int).push(
                codings.deep_view()[i as int],
            ));
        }
        i += 1;
    }
    proof {
        assert(codings.deep_view().take(n as int) =~= codings.deep_view());
    }
    let line = join_list(&toks);
    let r = Raw::from_line(line);
    proof {
        assert(r@ =~~= spec_fmt_codings(codings.deep_view()));
    }
    r
}

/// The wire lines of a coding list: none when the list is empty, else one
/// comma-joined line of its tokens.
pub open spec fn spec_fmt_codings(toks: Seq<Seq<u8>>) -> Seq<Seq<u8>> {
    if toks.len() == 0 {
        Seq::empty()
    } else {
        seq![join_elems(toks)]
    }
}

/// `Content-Encoding`: a list-valued header of content codings, in wire
/// order.
#[derive(Debug, Clone, PartialEq, Eq)]
pub struct ContentEncoding(pub Vec<Encoding>);

impl View for ContentEncoding {
    type V = Seq<Seq<u8>>;

    open spec fn view(&self) -> Seq<Seq<u8>> {
        self.0.deep_view()
    }
}

impl Header for ContentEncoding {
    open spec fn spec_name() -> Seq<u8> {
        "Content-Encoding".spec_bytes()
    }

    /// Any number of raw lines; the value is the trimmed nonempty list
    /// elements of every line, in wire order. Zero lines parse as the
    /// empty list, never as an error.
    open spec fn spec_parse(lines: Seq<Seq<u8>>) -> Option<Seq<Seq<u8>>> {
        Some(lines_elems(lines))
    }

    open spec fn spec_format(v: Seq<Seq<u8>>) -> Seq<Seq<u8>> {
        spec_fmt_codings(v)
    }

    fn header_name() -> (r: &'static str) {
        "Content-Encoding"
    }

    fn parse_header(raw: &Raw) -> (r: Result<ContentEncoding, HeaderError>) {
        Ok(ContentEncoding(parse_codings(raw)))
    }

    fn fmt_header(&self) -> (r: Raw) {
        fmt_codings(&self.0)
    }
}

/// `TE`: a list-valued header of transfer codings the sender will accept,
/// in wire order.
#[derive(Debug, Clone, PartialEq, Eq)]
pub struct Te(pub Vec<Encoding>);

impl View for Te {
    type V = Seq<Seq<u8>>;

    open spec fn view(&self) -> Seq<Seq<u8>> {
        self.0.deep_view()
    }
}

impl Header for Te {
    open spec fn spec_name() -> Seq<u8> {
        "TE".spec_bytes()
    }

    /// Any number of raw lines; the value is the trimmed nonempty list
    /// elements of every line, in wire order. Zero lines parse as the
    /// empty list, never as an error.
    open spec fn spec_parse(lines: Seq<Seq<u8>>) -> Option<Seq<Seq<u8>>> {
        Some(lines_elems(lines))
    }

    open spec fn spec_format(v: Seq<Seq<u8>>) -> Seq<Seq<u8>> {
        spec_fmt_codings(v)
    }

    fn header_name() -> (r: &'static str) {
        "TE"
    }

    fn parse_header(raw: &Raw) -> (r: Result<Te, HeaderError>) {
        Ok(Te(parse_codings(raw)))
    }

    fn fmt_header(&self) -> (r: Raw) {
        fmt_codings(&self.0)
    }
}

/// Position of the last colon in `s`, or -1.
pub open spec fn last_colon(s: Seq<u8>) -> int
    decreases s.len(),
{
    if s.len() == 0 {
        -1
    } else if s[s.len() - 1] == 58 {
        s.len() - 1
    } else {
        last_colon(s.subrange(0, s.len() - 1))
    }
}

/// `Host`: a single-valued header holding a host name and an optional
/// port.
#[derive(Debug, Clone, PartialEq, Eq)]
pub struct Host {
    hostname: Vec<u8>,
    port: Option<u16>,
}

impl View for Host {
    type V = (Seq<u8>, Option<u16>);

    closed spec fn view(&self) -> (Seq<u8>, Option<u16>) {
        (self.hostname@, self.port)
    }
}

impl Host {
    /// A host from its name text and optional port.
    pub fn new(hostname: &str, port: Option<u16>) -> (r: Host)
        ensures
            r@ == (hostname.spec_bytes(), port),
    {
        Host { hostname: copy_bytes(hostname.as_bytes()), port }
    }

    /// The host name bytes.
    pub fn hostname(&self) -> (r: &Vec<u8>)
        ensures
            r@ == self@.0,
    {
        &self.hostname
    }

    /// The port, when one was given.
    pub fn port(&self) -> (r: Option<u16>)
        ensures
            r == self@.1,
    {
        self.port
    }
}

/// What one trimmed host line denotes: everything after the last colon
/// is the port when it is a decimal number up to 65535; otherwise the
/// whole text is the host name.
pub open spec fn spec_host_of(t: Seq<u8>) -> (Seq<u8>, Option<u16>) {
    let j = last_colon(t);
    if j == -1 {
        (t, None)
    } else {
        let after = t.subrange(j + 1, t.len() as int);
        if all_digits(after) && dec_val(after) <= 65535 {
            (t.subrange(0, j), Some(dec_val(after) as u16))
        } else {
            (t, None)
        }
    }
}

impl Header for Host {
    open spec fn spec_name() -> Seq<u8> {
        "Host".spec_bytes()
    }

    /// Exactly one raw line; its trimmed, nonempty text names the host,
    /// with an optional `:port` suffix.
    open spec fn spec_parse(lines: Seq<Seq<u8>>) -> Option<(Seq<u8>, Option<u16>)> {
        if lines.len() == 1 && trim_ows(lines[0]).len() > 0 {
            Some(spec_host_of(trim_ows(lines[0])))
        } else {
            None
        }
    }

    /// One line: the host name, and `:` with the port digits when a port
    /// is present.
    open spec fn spec_format(v: (Seq<u8>, Option<u16>)) -> Seq<Seq<u8>> {
        match v.1 {
            Some(p) => seq![v.0 + seq![58u8] + dec_repr(p as nat)],
            None => seq![v.0],
        }
    }

    fn header_name() -> (r: &'static str) {
        "Host"
    }

    fn parse_header(raw: &Raw) -> (r: Result<Host, HeaderError>) {
        match raw.one() {
            Some(line) => {
                let t = trim_bytes(line.as_slice());
                if t.len() == 0 {
                    return Err(HeaderError::Grammar);
                }
                let mut j: usize = t.len();
                let ghost tv = t@;
                proof {
                    assert(tv.subrange(0, tv.len() as int) =~= tv);
                }
                while j > 0
                    invariant
                        j <= tv.len(),
                        t@ == tv,
                        raw@.len() == 1,
                        tv == trim_ows(raw@[0]),
                        tv.len() > 0,
                        last_colon(tv) == last_colon(tv.subrange(0, j as int)),
                    decreases j,
                {
                    proof {
                        let sub = tv.subrange(0, j as int);
                        assert(sub[sub.len() - 1] == tv[j - 1]);
                        assert(sub.subrange(0, sub.len() - 1) =~= tv.subrange(0, j - 1));
                    }
                    if t[j - 1] == 58 {
                        proof {
                            assert(last_colon(tv) == j - 1);
                        }
                        let after = vstd::slice::slice_subrange(t.as_slice(), j, t.len());
                        match parse_dec_u64(after) {
                            Some(p) => {
                                if p <= 65535 {
                                    let host = copy_bytes(
                                        vstd::slice::slice_subrange(t.as_slice(), 0, j - 1),
                                    );
                                    return Ok(Host { hostname: host, port: Some(p as u16) });
                                } else {
                                    return Ok(Host { hostname: t, port: None });
                                }
                            }
                            None => {
                                return Ok(Host { hostname: t, port: None });
                            }
                        }
                    }
                    j -= 1;
                }
                proof {
                    assert(tv.subrange(0, 0) =~= Seq::<u8>::empty());
                    assert(last_colon(tv) == -1);
                }
                Ok(Host { hostname: t, port: None })
            }
            None => Err(HeaderError::Cardinality),
        }
    }

    fn fmt_header(&self) -> (r: Raw) {
        match self.port {
            Some(p) => {
                let mut line = copy_bytes(self.hostname.as_slice());
                let ghost base = line@;
                line.push(58);
                let digits = fmt_dec_u64(p as u64);
                let ghost dv = digits@;
                let mut k: usize = 0;
                while k < digits.len()
                    invariant
                        k <= dv.len(),
                        digits@ == dv,
                        line@ == base + seq![58u8] + dv.take(k as int),
                    decreases dv.len() - k,
                {
                    line.push(digits[k]);
                    proof {
                        assert(dv.take(k + 1) =~= dv.take(k as int).push(dv[k as int]));
                        assert((base + seq![58u8] + dv.take(k as int)).push(dv[k as int]) =~= base
                            + seq![58u8] + dv.take(k + 1));
                    }
                    k += 1;
                }
                proof {
                    assert(dv.take(dv.len() as int) =~= dv);
                    assert((p as u64) as nat == p as nat);
                }
                let r = Raw::from_line(line);
                proof {
                    assert(r@ =~~= Self::spec_format(self@));
                }
                r
            }
            None => {
                let r = Raw::from_line(copy_bytes(self.hostname.as_slice()));
                proof {
                    assert(r@ =~~= Self::spec_format(self@));
                }
                r
            }
        }
    }
}

/// An entity tag: an opaque quoted validator, optionally weak.
#[derive(Debug, Clone, PartialEq, Eq)]
pub struct EntityTag {
    /// Whether the tag is a weak validator, written with a `W/` prefix.
    pub weak: bool,
    /// The bytes between the quotes.
    pub tag: Vec<u8>,
}

/// A byte allowed inside an entity tag's quotes.
pub open spec fn is_etag_byte(b: u8) -> bool {
    b == 33 || (35 <= b && b <= 126) || b >= 128
}

/// Whether the line starts with the weak-validator prefix `W/`.
pub open spec fn etag_weak(t: Seq<u8>) -> bool {
    t.len() >= 2 && t[0] == 87 && t[1] == 47
}

/// The quoted part of the line: what follows the `W/` prefix, if any.
pub open spec fn etag_quoted(t: Seq<u8>) -> Seq<u8> {
    if etag_weak(t) {
        t.subrange(2, t.len() as int)
    } else {
        t
    }
}

/// Whether `q` is a double-quoted string of entity-tag bytes.
pub open spec fn etag_shape_ok(q: Seq<u8>) -> bool {
    q.len() >= 2 && q[0] == 34 && q[q.len() - 1] == 34 && (forall|i: int|
        0 < i < q.len() - 1 ==> is_etag_byte(q[i]))
}

/// What one trimmed entity-tag line denotes: an optional `W/`, then the
/// tag bytes between double quotes.
pub open spec fn spec_etag_of(t: Seq<u8>) -> Option<(bool, Seq<u8>)> {
    if etag_shape_ok(etag_quoted(t)) {
        Some((etag_weak(t), etag_quoted(t).subrange(1, etag_quoted(t).len() - 1)))
    } else {
        None
    }
}

/// Whether every byte strictly between the first and last position is
/// allowed inside an entity tag's quotes.
fn etag_bytes_ok(q: &[u8]) -> (r: bool)
    requires
        q@.len() >= 2,
    ensures
        r == (forall|m: int| 0 < m < q@.len() - 1 ==> is_etag_byte(q@[m])),
{
    let qn = q.len();
    let mut i: usize = 1;
    while i < qn - 1
        invariant
            1 <= i <= qn - 1,
            qn == q@.len(),
            qn >= 2,
            forall|m: int| 0 < m < i ==> is_etag_byte(q@[m]),
        decreases qn - i,
    {
        let b = q[i];
        if !(b == 33 || (35 <= b && b <= 126) || b >= 128) {
            return false;
        }
        i += 1;
    }
    true
}

/// `ETag`: a single-valued header holding an entity tag.
#[derive(Debug, Clone, PartialEq, Eq)]
pub struct ETag(pub EntityTag);

impl View for ETag {
    type V = (bool, Seq<u8>);

    open spec fn view(&self) -> (bool, Seq<u8>) {
        (self.0.weak, self.0.tag@)
    }
}

impl Header for ETag {
    open spec fn spec_name() -> Seq<u8> {
        "ETag".spec_bytes()
    }

    /// Exactly one raw line holding a well-formed entity tag.
    open spec fn spec_parse(lines: Seq<Seq<u8>>) -> Option<(bool, Seq<u8>)> {
        if lines.len() == 1 {
            spec_etag_of(trim_ows(lines[0]))
        } else {
            None
        }
    }

    /// One line: `W/` for a weak tag, then the tag bytes in quotes.
    open spec fn spec_format(v: (bool, Seq<u8>)) -> Seq<Seq<u8>> {
        seq![
            (if v.0 {
                seq![87u8, 47u8]
            } else {
                Seq::<u8>::empty()
            }) + seq![34u8] + v.1 + seq![34u8],
        ]
    }

    fn header_name() -> (r: &'static str) {
        "ETag"
    }

    fn parse_header(raw: &Raw) -> (r: Result<ETag, HeaderError>) {
        match raw.one() {
            Some(line) => {
                let t = trim_bytes(line.as_slice());
                let weak = t.len() >= 2 && t[0] == 87 && t[1] == 47;
                let q = if weak {
                    vstd::slice::slice_subrange(t.as_slice(), 2, t.len())
                } else {
                    t.as_slice()
                };
                let qn = q.len();
                if qn < 2 || q[0] != 34 || q[qn - 1] != 34 {
                    return Err(HeaderError::Grammar);
                }
                if !etag_bytes_ok(q) {
                    proof {
                        let tspec = trim_ows(raw@[0]);
                        assert(q@ == etag_quoted(tspec));
                        assert(!etag_shape_ok(etag_quoted(tspec)));
                        assert(spec_etag_of(tspec) is None);
                    }
                    return Err(HeaderError::Grammar);
                }
                let tag = copy_bytes(vstd::slice::slice_subrange(q, 1, qn - 1));
                Ok(ETag(EntityTag { weak, tag }))
            }
            None => Err(HeaderError::Cardinality),
        }
    }

    fn fmt_header(&self) -> (r: Raw) {
        let mut line: Vec<u8> = Vec::new();
        if self.0.weak {
            line.push(87);
            line.push(47);
        }
        line.push(34);
        let ghost base = line@;
        let tag = &self.0.tag;
        let mut k: usize = 0;
        while k < tag.len()
            invariant
                k <= tag@.len(),
                line@ == base + tag@.take(k as int),
            decreases tag@.len() - k,
        {
            line.push(tag[k]);
            proof {
                assert(tag@.take(k + 1) =~= tag@.take(k as int).push(tag@[k as int]));
                assert((base + tag@.take(k as int)).push(tag@[k as int]) =~= base + tag@.take(
                    k + 1,
                ));
            }
            k += 1;
        }
        line.push(34);
        proof {
            assert(tag@.take(tag@.len() as int) =~= tag@);
        }
        let r = Raw::from_line(line);
        proof {
            assert(r@ =~~= Self::spec_format(self@));
        }
        r
    }
}

} // verus!
