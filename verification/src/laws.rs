//! The engine's cross-cutting laws, stated over the same specification
//! functions that the executable contracts use, and proved once for every
//! value.

use vstd::prelude::*;

use crate::common::{
    is_etag_byte, spec_fmt_codings, ContentEncoding, ContentLength, ETag, Host, Te,
};
use crate::compat::lines_for;
use crate::header::Header;
use crate::wire::{
    all_digits, dec_repr, dec_val, fold_name, is_ows, join_elems, lemma_dec_repr_val,
    lemma_list_round_trip, lines_elems, list_elems, plain_elem, trim_back, trim_front, trim_ows,
};

verus! {

/// The canonical digits of a number are stable under trimming: they hold
/// no whitespace.
proof fn lemma_trim_digits(s: Seq<u8>)
    requires
        all_digits(s),
    ensures
        trim_ows(s) == s,
{
    assert(!is_ows(s[0]));
    assert(!is_ows(s[s.len() - 1]));
    assert(trim_front(s) == s);
    assert(trim_back(s) == s);
}

/// Parsing a formatted byte count gives back exactly that count, so
/// formatting, parsing, and formatting again emits the same bytes.
pub proof fn lemma_content_length_round_trip(v: int)
    requires
        0 <= v <= u64::MAX,
    ensures
        ContentLength::spec_parse(ContentLength::spec_format(v)) == Some(v),
{
    lemma_dec_repr_val(v as nat);
    lemma_trim_digits(dec_repr(v as nat));
}

/// Splitting the joined line of a coding list gives back exactly its
/// elements, provided every element is a plain token. An element holding
/// a comma, a quote, or surrounding whitespace would be re-split or
/// re-trimmed differently and is left out.
pub proof fn lemma_codings_round_trip(toks: Seq<Seq<u8>>)
    requires
        forall|k: int| 0 <= k < toks.len() ==> plain_elem(#[trigger] toks[k]),
    ensures
        lines_elems(spec_fmt_codings(toks)) == toks,
{
    if toks.len() == 0 {
        assert(lines_elems(spec_fmt_codings(toks)) =~~= toks);
    } else {
        let line = join_elems(toks);
        lemma_list_round_trip(toks);
        let lines = spec_fmt_codings(toks);
        assert(lines[0] == line);
        assert(lines.len() == 1);
        assert(lines.subrange(1, 1) =~= Seq::<Seq<u8>>::empty());
        assert(lines_elems(lines.subrange(1, 1)) == Seq::<Seq<u8>>::empty());
        assert(lines_elems(lines) == list_elems(line) + lines_elems(lines.subrange(1, 1)));
        assert(list_elems(line) + Seq::<Seq<u8>>::empty() =~= list_elems(line));
    }
}

/// Round trip for the content-coding list header: parsing a formatted
/// value recovers the value.
pub proof fn lemma_content_encoding_round_trip(toks: Seq<Seq<u8>>)
    requires
        forall|k: int| 0 <= k < toks.len() ==> plain_elem(#[trigger] toks[k]),
    ensures
        ContentEncoding::spec_parse(ContentEncoding::spec_format(toks)) == Some(toks),
{
    lemma_codings_round_trip(toks);
}

/// Round trip for the TE list header: parsing a formatted value recovers
/// the value.
pub proof fn lemma_te_round_trip(toks: Seq<Seq<u8>>)
    requires
        forall|k: int| 0 <= k < toks.len() ==> plain_elem(#[trigger] toks[k]),
    ensures
        Te::spec_parse(Te::spec_format(toks)) == Some(toks),
{
    lemma_codings_round_trip(toks);
}

/// Round trip for the entity-tag header: parsing a formatted tag recovers
/// the tag, for every tag whose bytes are legal between quotes.
pub proof fn lemma_etag_round_trip(v: (bool, Seq<u8>))
    requires
        forall|i: int| 0 <= i < v.1.len() ==> is_etag_byte(#[trigger] v.1[i]),
    ensures
        ETag::spec_parse(ETag::spec_format(v)) == Some(v),
{
    let line = ETag::spec_format(v)[0];
    let prefix: Seq<u8> = if v.0 {
        seq![87u8, 47u8]
    } else {
        Seq::<u8>::empty()
    };
    assert(line =~= prefix + seq![34u8] + v.1 + seq![34u8]);
    assert(!is_ows(line[0]));
    assert(!is_ows(line[line.len() - 1]));
    assert(trim_front(line) == line);
    assert(trim_back(line) == line);
    assert(crate::common::etag_weak(line) == v.0) by {
        if v.0 {
            assert(line[0] == 87 && line[1] == 47);
        } else {
            assert(line[0] == 34);
        }
    }
    let q = crate::common::etag_quoted(line);
    assert(q =~= seq![34u8] + v.1 + seq![34u8]);
    assert(crate::common::etag_shape_ok(q)) by {
        assert(q[0] == 34 && q[q.len() - 1] == 34);
        assert(forall|i: int| 0 < i < q.len() - 1 ==> q[i] == v.1[i - 1]);
    }
    assert(q.subrange(1, q.len() - 1) =~= v.1);
    assert(ETag::spec_format(v).subrange(1, 1) =~= Seq::<Seq<u8>>::empty());
}

/// The last colon of a line is at `j` when `j` holds a colon and nothing
/// after it does.
proof fn lemma_last_colon_at(s: Seq<u8>, j: int)
    requires
        0 <= j < s.len(),
        s[j] == 58,
        forall|m: int| j < m < s.len() ==> s[m] != 58,
    ensures
        crate::common::last_colon(s) == j,
    decreases s.len(),
{
    if s.len() - 1 == j {
    } else {
        assert(s[s.len() - 1] != 58);
        let d = s.subrange(0, s.len() - 1);
        assert(d[j] == s[j]);
        assert(forall|m: int| j < m < d.len() ==> d[m] == s[m]);
        lemma_last_colon_at(d, j);
    }
}

/// Round trip for the host header: parsing a formatted host recovers the
/// host and port. The host name must be nonempty without surrounding
/// whitespace, and a host given without a port must not itself end in
/// what reads as a port, else re-parsing would split it; a name such as
/// `a:1` with no port is left out.
pub proof fn lemma_host_round_trip(v: (Seq<u8>, Option<u16>))
    requires
        v.0.len() > 0,
        !is_ows(v.0[0]),
        !is_ows(v.0[v.0.len() - 1]),
        v.1 is None ==> crate::common::spec_host_of(v.0) == (v.0, None::<u16>),
    ensures
        Host::spec_parse(Host::spec_format(v)) == Some(v),
{
    match v.1 {
        Some(p) => {
            let h = v.0;
            let digits = dec_repr(p as nat);
            let line = h + seq![58u8] + digits;
            assert(Host::spec_format(v)[0] == line);
            assert(Host::spec_format(v).len() == 1);
            lemma_dec_repr_val(p as nat);
            assert(line[0] == h[0]);
            assert(line[line.len() - 1] == digits[digits.len() - 1]);
            assert(!is_ows(line[line.len() - 1]));
            assert(trim_front(line) == line);
            assert(trim_back(line) == line);
            assert(trim_ows(line) == line);
            let j = h.len() as int;
            assert(line[j] == 58);
            assert(forall|m: int| j < m < line.len() ==> line[m] == digits[m - j - 1]);
            assert(forall|m: int| j < m < line.len() ==> line[m] != 58);
            lemma_last_colon_at(line, j);
            let after = line.subrange(j + 1, line.len() as int);
            assert(after =~= digits);
            assert(all_digits(after) && dec_val(after) == p);
            assert(line.subrange(0, j) =~= h);
            assert(crate::common::spec_host_of(line) == (h, Some(p)));
        }
        None => {
            let h = v.0;
            assert(Host::spec_format(v)[0] == h);
            assert(Host::spec_format(v).len() == 1);
            assert(trim_front(h) == h);
            assert(trim_back(h) == h);
            assert(trim_ows(h) == h);
        }
    }
}

/// A list-valued header decodes zero raw lines as the empty list, never
/// as an error.
pub proof fn lemma_empty_decode_is_empty_list()
    ensures
        ContentEncoding::spec_parse(Seq::<Seq<u8>>::empty()) == Some(Seq::<Seq<u8>>::empty()),
        Te::spec_parse(Seq::<Seq<u8>>::empty()) == Some(Seq::<Seq<u8>>::empty()),
{
}

/// Encode then decode on the byte-oriented map recovers the value: after
/// the overwrite that a successful `encode` promises, the lines under the
/// header's name decode to exactly the encoded value. Stated for the
/// byte-count header over every count, and for the coding list headers
/// over every list of plain tokens.
pub proof fn lemma_encode_decode_content_length(
    m: Map<Seq<u8>, Seq<Seq<u8>>>,
    v: int,
)
    requires
        0 <= v <= u64::MAX,
    ensures
        ContentLength::spec_parse(
            lines_for(
                m.insert(fold_name(ContentLength::spec_name()), ContentLength::spec_format(v)),
                ContentLength::spec_name(),
            ),
        ) == Some(v),
{
    lemma_content_length_round_trip(v);
    crate::wire::lemma_fold_name_idempotent(ContentLength::spec_name());
}

/// Encode then decode for the coding list header, over every list of
/// plain tokens that formats to at least one line.
pub proof fn lemma_encode_decode_content_encoding(
    m: Map<Seq<u8>, Seq<Seq<u8>>>,
    toks: Seq<Seq<u8>>,
)
    requires
        toks.len() > 0,
        forall|k: int| 0 <= k < toks.len() ==> plain_elem(#[trigger] toks[k]),
    ensures
        ContentEncoding::spec_parse(
            lines_for(
                m.insert(
                    fold_name(ContentEncoding::spec_name()),
                    ContentEncoding::spec_format(toks),
                ),
                ContentEncoding::spec_name(),
            ),
        ) == Some(toks),
{
    lemma_content_encoding_round_trip(toks);
    crate::wire::lemma_fold_name_idempotent(ContentEncoding::spec_name());
}

/// Two appended encodings decode as one list holding both values'
/// elements in append order: the lines of the first formatted value
/// followed by the lines of the second parse to the concatenation.
pub proof fn lemma_encode_append_order(toks1: Seq<Seq<u8>>, toks2: Seq<Seq<u8>>)
    requires
        forall|k: int| 0 <= k < toks1.len() ==> plain_elem(#[trigger] toks1[k]),
        forall|k: int| 0 <= k < toks2.len() ==> plain_elem(#[trigger] toks2[k]),
    ensures
        ContentEncoding::spec_parse(
            ContentEncoding::spec_format(toks1) + ContentEncoding::spec_format(toks2),
        ) == Some(toks1 + toks2),
{
    let l1 = ContentEncoding::spec_format(toks1);
    let l2 = ContentEncoding::spec_format(toks2);
    lemma_codings_round_trip(toks1);
    lemma_codings_round_trip(toks2);
    lemma_lines_elems_concat(l1, l2);
    assert(lines_elems(l1 + l2) == toks1 + toks2);
}

/// The elements of concatenated line sequences are the elements of each,
/// in order.
proof fn lemma_lines_elems_concat(a: Seq<Seq<u8>>, b: Seq<Seq<u8>>)
    ensures
        lines_elems(a + b) == lines_elems(a) + lines_elems(b),
    decreases a.len(),
{
    if a.len() == 0 {
        assert(a + b =~= b);
        assert(lines_elems(a) =~= Seq::<Seq<u8>>::empty());
        assert(lines_elems(a) + lines_elems(b) =~= lines_elems(b));
    } else {
        let t = a.subrange(1, a.len() as int);
        assert((a + b)[0] == a[0]);
        assert((a + b).subrange(1, (a + b).len() as int) =~= t + b);
        lemma_lines_elems_concat(t, b);
        assert(lines_elems(a + b) == list_elems(a[0]) + (lines_elems(t) + lines_elems(b)));
        assert(lines_elems(a) == list_elems(a[0]) + lines_elems(t));
        assert(list_elems(a[0]) + (lines_elems(t) + lines_elems(b)) =~= (list_elems(a[0])
            + lines_elems(t)) + lines_elems(b));
    }
}

/// A stored value is found under any casing of its name: a round trip
/// through `set` and `get` recovers the typed value, whatever the header.
/// The lines that `set` stores are the value's formatted lines, and `get`
/// parses exactly those lines.
pub proof fn lemma_set_get_round_trip<H: Header>(
    m: Map<Seq<u8>, Seq<Seq<u8>>>,
    v: H::V,
)
    requires
        H::spec_parse(H::spec_format(v)) == Some(v),
    ensures
        ({
            let m2 = m.insert(fold_name(H::spec_name()), H::spec_format(v));
            m2.contains_key(fold_name(H::spec_name())) && H::spec_parse(
                m2[fold_name(H::spec_name())],
            ) == Some(v)
        }),
{
}

} // verus!
