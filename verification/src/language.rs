//! The language-preference list header and the language-tag values it
//! carries. Whether text is a well-formed language tag is decided by the
//! `language-tags` crate behind a trusted wrapper; everything else — list
//! splitting, quality weights, formatting — is verified.

use vstd::prelude::*;
use vstd::string::StringSliceAdditionalSpecFns;

use crate::header::Header;
use crate::quality::{
    fmt_quality_suffix, parse_quality_elem, spec_fmt_quality, spec_parse_qelem, QualityItem,
};
use crate::raw::Raw;
use crate::wire::{copy_bytes, join_list, lines_elems, split_list_line};
use crate::HeaderError;

verus! {

/// Whether these bytes are a well-formed language tag, as the
/// `language-tags` crate decides it: a function of the bytes alone.
pub uninterp spec fn well_formed_language_tag(b: Seq<u8>) -> bool;

/// Relies on `language_tags::LanguageTag::parse`: it accepts exactly the
/// well-formed tags, and its verdict depends on the input text alone.
#[verifier::external_body]
fn is_language_tag(b: &[u8]) -> (r: bool)
    ensures
        r == well_formed_language_tag(b@),
{
    match core::str::from_utf8(b) {
        Ok(s) => language_tags::LanguageTag::parse(s).is_ok(),
        Err(_) => false,
    }
}

/// A byte this library additionally requires in a stored tag: letters,
/// digits, `-`, or `*`, so that a stored tag survives list joining and
/// quality splitting byte for byte.
pub open spec fn is_tag_byte(b: u8) -> bool {
    (48 <= b && b <= 57) || (65 <= b && b <= 90) || (97 <= b && b <= 122) || b == 45 || b == 42
}

/// A tag this library stores: nonempty tag-byte text that the
/// `language-tags` crate accepts.
pub open spec fn lang_tag_wf(b: Seq<u8>) -> bool {
    b.len() > 0 && (forall|i: int| 0 <= i < b.len() ==> is_tag_byte(b[i]))
        && well_formed_language_tag(b)
}

/// A language tag, stored as the wire text it was read from.
#[derive(Debug, Clone, PartialEq, Eq)]
pub struct LanguageTag {
    bytes: Vec<u8>,
}

impl View for LanguageTag {
    type V = Seq<u8>;

    closed spec fn view(&self) -> Seq<u8> {
        self.bytes@
    }
}

impl DeepView for LanguageTag {
    type V = Seq<u8>;

    open spec fn deep_view(&self) -> Seq<u8> {
        self@
    }
}

impl LanguageTag {
    /// Reads a tag from text; absent when the text is not a well-formed
    /// tag of plain tag bytes.
    pub fn parse(s: &str) -> (r: Option<LanguageTag>)
        ensures
            match r {
                Some(t) => t@ == s.spec_bytes() && lang_tag_wf(t@),
                None => !lang_tag_wf(s.spec_bytes()),
            },
    {
        let b = copy_bytes(s.as_bytes());
        if !tag_bytes_ok(b.as_slice()) {
            return None;
        }
        if !is_language_tag(b.as_slice()) {
            return None;
        }
        Some(LanguageTag { bytes: b })
    }

    /// The tag's wire bytes.
    pub fn as_bytes(&self) -> (r: &Vec<u8>)
        ensures
            r@ == self@,
    {
        &self.bytes
    }
}

/// Whether the bytes are nonempty plain tag bytes.
fn tag_bytes_ok(b: &[u8]) -> (r: bool)
    ensures
        r == (b@.len() > 0 && forall|i: int| 0 <= i < b@.len() ==> is_tag_byte(b@[i])),
{
    let n = b.len();
    if n == 0 {
        return false;
    }
    let mut i: usize = 0;
    while i < n
        invariant
            i <= n,
            n == b@.len(),
            forall|m: int| 0 <= m < i ==> is_tag_byte(b@[m]),
        decreases n - i,
    {
        let c = b[i];
        if !((48 <= c && c <= 57) || (65 <= c && c <= 90) || (97 <= c && c <= 122) || c == 45
            || c == 42) {
            return false;
        }
        i += 1;
    }
    true
}

/// What a sequence of list elements denotes as weighted language tags:
/// each element is a tag with an optional quality parameter; one bad
/// element rejects the list.
pub open spec fn parse_lang_elems(elems: Seq<Seq<u8>>) -> Option<Seq<(Seq<u8>, int)>>
    decreases elems.len(),
{
    if elems.len() == 0 {
        Some(Seq::empty())
    } else {
        match spec_parse_qelem(elems[0]) {
            Some(vw) => if lang_tag_wf(vw.0) {
                match parse_lang_elems(elems.subrange(1, elems.len() as int)) {
                    Some(t) => Some(seq![vw] + t),
                    None => None,
                }
            } else {
                None
            },
            None => None,
        }
    }
}

/// The wire element of one weighted tag: the tag bytes, then the quality
/// suffix when the weight is not the default.
pub open spec fn lang_elem_bytes(v: (Seq<u8>, int)) -> Seq<u8> {
    v.0 + spec_fmt_quality(v.1)
}

/// `Accept-Language`: a list-valued header of language ranges, each with
/// an optional preference weight, in wire order. The engine never
/// reorders a parsed list; wire order may be meaningful.
#[derive(Debug, Clone, PartialEq, Eq)]
pub struct AcceptLanguage(pub Vec<QualityItem<LanguageTag>>);

impl View for AcceptLanguage {
    type V = Seq<(Seq<u8>, int)>;

    open spec fn view(&self) -> Seq<(Seq<u8>, int)> {
        self.0.deep_view()
    }
}

impl Header for AcceptLanguage {
    open spec fn spec_name() -> Seq<u8> {
        "Accept-Language".spec_bytes()
    }

    /// Any number of raw lines; every trimmed nonempty list element must
    /// be a well-formed tag with an optional quality parameter. Zero
    /// lines parse as the empty list.
    open spec fn spec_parse(lines: Seq<Seq<u8>>) -> Option<Seq<(Seq<u8>, int)>> {
        parse_lang_elems(lines_elems(lines))
    }

    /// No lines when the list is empty, else one comma-joined line of the
    /// weighted tags.
    open spec fn spec_format(v: Seq<(Seq<u8>, int)>) -> Seq<Seq<u8>> {
        if v.len() == 0 {
            Seq::empty()
        } else {
            seq![crate::wire::join_elems(v.map_values(|p: (Seq<u8>, int)| lang_elem_bytes(p)))]
        }
    }

    fn header_name() -> (r: &'static str) {
        "Accept-Language"
    }

    fn parse_header(raw: &Raw) -> (r: Result<AcceptLanguage, HeaderError>) {
        let mut elems: Vec<Vec<u8>> = Vec::new();
        let n = raw.len();
        let mut i: usize = 0;
        proof {
            assert(raw@.take(0) =~= Seq::<Seq<u8>>::empty());
            assert(lines_elems(raw@.take(0)) =~= Seq::<Seq<u8>>::empty());
            assert(elems.deep_view() =~= Seq::<Seq<u8>>::empty());
        }
        while i < n
            invariant
                i <= n,
                n == raw@.len(),
                elems.deep_view() == lines_elems(raw@.take(i as int)),
            decreases n - i,
        {
            let mut line_elems = split_list_line(raw.get(i).as_slice());
            let ghost prior = elems.deep_view();
            let ghost added = line_elems.deep_view();
            elems.append(&mut line_elems);
            proof {
                assert(elems.deep_view() =~~= prior + added);
                assert(raw@.take(i + 1) =~= raw@.take(i as int).push(raw@[i as int]));
                crate::wire::lemma_lines_elems_push(raw@.take(i as int), raw@[i as int]);
            }
            i += 1;
        }
        proof {
            assert(raw@.take(n as int) =~= raw@);
        }
        let ghost all = elems.deep_view();
        let mut out: Vec<QualityItem<LanguageTag>> = Vec::new();
        let m = elems.len();
        let mut j: usize = 0;
        proof {
            assert(all.subrange(0, all.len() as int) =~= all);
        }
        while j < m
            invariant
                j <= m,
                m == all.len(),
                elems.deep_view() == all,
                all == lines_elems(raw@),
                parse_lang_elems(all) == (match parse_lang_elems(
                    all.subrange(j as int, all.len() as int),
                ) {
                    Some(t) => Some(out.deep_view() + t),
                    None => None::<Seq<(Seq<u8>, int)>>,
                }),
            decreases m - j,
        {
            let ghost subj = all.subrange(j as int, all.len() as int);
            proof {
                assert(elems@[j as int]@ == all[j as int]);
                assert(subj[0] == all[j as int]);
                assert(subj.subrange(1, subj.len() as int) =~= all.subrange(
                    j + 1,
                    all.len() as int,
                ));
            }
            let vw = match parse_quality_elem(elems[j].as_slice()) {
                Ok(vw) => vw,
                Err(e) => {
                    proof {
                        assert(parse_lang_elems(subj) is None);
                    }
                    return Err(e);
                }
            };
            let (val, weight) = vw;
            if !tag_bytes_ok(val.as_slice()) {
                proof {
                    assert(!lang_tag_wf(val@));
                    assert(parse_lang_elems(subj) is None);
                }
                return Err(HeaderError::Grammar);
            }
            if !is_language_tag(val.as_slice()) {
                proof {
                    assert(!lang_tag_wf(val@));
                    assert(parse_lang_elems(subj) is None);
                }
                return Err(HeaderError::Grammar);
            }
            let ghost vws = (val@, weight.0 as int);
            let ghost outprior = out.deep_view();
            out.push(
                QualityItem { item: LanguageTag { bytes: val }, quality: weight },
            );
            proof {
                assert(lang_tag_wf(vws.0));
                assert(spec_parse_qelem(subj[0]) == Some(vws));
                assert(out.deep_view() =~~= outprior.push(vws));
                match parse_lang_elems(all.subrange(j + 1, all.len() as int)) {
                    Some(t) => {
                        assert(parse_lang_elems(subj) == Some(seq![vws] + t));
                        assert(outprior + (seq![vws] + t) =~~= outprior.push(vws) + t);
                    }
                    None => {
                        assert(parse_lang_elems(subj) is None);
                    }
                }
            }
            j += 1;
        }
        proof {
            assert(all.subrange(m as int, all.len() as int) =~= Seq::<Seq<u8>>::empty());
            assert(parse_lang_elems(Seq::<Seq<u8>>::empty()) == Some(
                Seq::<(Seq<u8>, int)>::empty(),
            ));
            assert(out.deep_view() + Seq::<(Seq<u8>, int)>::empty() =~~= out.deep_view());
        }
        Ok(AcceptLanguage(out))
    }

    fn fmt_header(&self) -> (r: Raw) {
        if self.0.len() == 0 {
            let r = Raw::new();
            proof {
                assert(r@ =~~= Self::spec_format(self@));
            }
            return r;
        }
        let mut toks: Vec<Vec<u8>> = Vec::new();
        let n = self.0.len();
        let mut i: usize = 0;
        proof {
            assert(toks.deep_view() =~= self@.map_values(
                |p: (Seq<u8>, int)| lang_elem_bytes(p),
            ).take(0));
        }
        while i < n
            invariant
                i <= n,
                n == self@.len(),
                toks.deep_view() == self@.map_values(|p: (Seq<u8>, int)| lang_elem_bytes(p)).take(
                    i as int,
                ),
            decreases n - i,
        {
            let it = &self.0[i];
            let mut tok = copy_bytes(it.item.as_bytes().as_slice());
            let ghost base = tok@;
            let mut suffix = fmt_quality_suffix(&it.quality);
            let ghost suf = suffix@;
            tok.append(&mut suffix);
            proof {
                assert(tok@ =~= base + suf);
                assert(self@[i as int] == (self.0@[i as int].item@, self.0@[i as int].quality.0 as int));
                assert(tok@ =~= lang_elem_bytes(self@[i as int]));
            }
            let ghost prior = toks.deep_view();
            toks.push(tok);
            proof {
                let mapped = self@.map_values(|p: (Seq<u8>, int)| lang_elem_bytes(p));
                assert(toks.deep_view() =~~= prior.push(lang_elem_bytes(self@[i as int])));
                assert(mapped.take(i + 1) =~= mapped.take(i as int).push(mapped[i as int]));
            }
            i += 1;
        }
        proof {
            let mapped = self@.map_values(|p: (Seq<u8>, int)| lang_elem_bytes(p));
            assert(mapped.take(n as int) =~= mapped);
        }
        let r = Raw::from_line(join_list(&toks));
        proof {
            assert(r@ =~~= Self::spec_format(self@));
        }
        r
    }
}

/// Scanning for a semicolon skips over bytes that are neither a
/// semicolon nor a quote.
proof fn lemma_find_semi_plain(s: Seq<u8>, i: int, j: int)
    requires
        0 <= i <= j <= s.len(),
        forall|m: int|
            i <= m < j ==> s[m] != crate::wire::SEMI && s[m] != crate::wire::DQUOTE,
    ensures
        crate::quality::find_semi(s, i, false, false) == crate::quality::find_semi(
            s,
            j,
            false,
            false,
        ),
    decreases j - i,
{
    if i < j {
        lemma_find_semi_plain(s, i + 1, j);
    }
}

/// Parsing the formatted element of one weighted tag gives back exactly
/// the tag and the weight.
proof fn lemma_lang_elem_round_trip(tag: Seq<u8>, w: int)
    requires
        tag.len() > 0,
        forall|i: int| 0 <= i < tag.len() ==> is_tag_byte(#[trigger] tag[i]),
        0 <= w <= 1000,
    ensures
        spec_parse_qelem(lang_elem_bytes((tag, w))) == Some((tag, w)),
{
    let suffix = spec_fmt_quality(w);
    let elem = tag + suffix;
    assert(forall|m: int| 0 <= m < tag.len() ==> elem[m] == tag[m]);
    assert(forall|m: int|
        tag.len() <= m < elem.len() ==> elem[m] == suffix[m - tag.len()]);
    assert(forall|m: int|
        0 <= m < tag.len() ==> elem[m] != crate::wire::SEMI && elem[m]
            != crate::wire::DQUOTE);
    lemma_find_semi_plain(elem, 0, tag.len() as int);
    assert(!crate::wire::is_ows(tag[0]));
    assert(!crate::wire::is_ows(tag[tag.len() - 1]));
    if w == 1000 {
        assert(elem =~= tag);
        assert(crate::quality::find_semi(elem, tag.len() as int, false, false) == -1);
        assert(crate::wire::trim_front(tag) == tag);
        assert(crate::wire::trim_back(tag) == tag);
    } else {
        let repr = crate::quality::qvalue_repr(w);
        assert(suffix == seq![crate::wire::SEMI, 113u8, 61u8] + repr);
        assert(elem[tag.len() as int] == crate::wire::SEMI);
        let j = tag.len() as int;
        assert(crate::quality::find_semi(elem, j, false, false) == j);
        let val = elem.subrange(0, j);
        assert(val =~= tag);
        assert(crate::wire::trim_ows(val) == tag) by {
            assert(crate::wire::trim_front(tag) == tag);
            assert(crate::wire::trim_back(tag) == tag);
        }
        let param = elem.subrange(j + 1, elem.len() as int);
        assert(param =~= seq![113u8, 61u8] + repr);
        assert(repr.len() > 0);
        assert(!crate::wire::is_ows(param[0]));
        assert(crate::wire::is_digit(repr[repr.len() - 1]) || repr[repr.len() - 1] == 48) by {
            if w == 0 {
            } else if w % 100 == 0 {
            } else if w % 10 == 0 {
            }
        }
        assert(!crate::wire::is_ows(param[param.len() - 1]));
        assert(crate::wire::trim_ows(param) == param) by {
            assert(crate::wire::trim_front(param) == param);
            assert(crate::wire::trim_back(param) == param);
        }
        assert(param[0] == 113 && param[1] == 61);
        assert(param.subrange(2, param.len() as int) =~= repr);
        crate::quality::lemma_quality_repr_round_trip(w);
    }
}

/// Round trip for the language-preference header: parsing a formatted
/// value recovers every weighted tag, in order. Every stored tag is a
/// plain well-formed tag, so the joined line re-splits and re-parses to
/// the same list.
pub proof fn lemma_accept_language_round_trip(v: Seq<(Seq<u8>, int)>)
    requires
        forall|k: int|
            0 <= k < v.len() ==> lang_tag_wf((#[trigger] v[k]).0) && 0 <= v[k].1 <= 1000,
    ensures
        AcceptLanguage::spec_parse(AcceptLanguage::spec_format(v)) == Some(v),
{
    let mapped = v.map_values(|p: (Seq<u8>, int)| lang_elem_bytes(p));
    assert forall|k: int| 0 <= k < mapped.len() implies crate::wire::plain_elem(
        #[trigger] mapped[k],
    ) by {
        let tag = v[k].0;
        let w = v[k].1;
        let e = mapped[k];
        assert(e == lang_elem_bytes(v[k]));
        assert(forall|m: int| 0 <= m < tag.len() ==> e[m] == tag[m]);
        assert(forall|m: int|
            tag.len() <= m < e.len() ==> e[m] == spec_fmt_quality(w)[m - tag.len()]);
        assert(!crate::wire::is_ows(e[0]));
        assert(!crate::wire::is_ows(e[e.len() - 1])) by {
            if w < 1000 {
                let repr = crate::quality::qvalue_repr(w);
                assert(e[e.len() - 1] == repr[repr.len() - 1]);
            }
        }
    }
    if v.len() == 0 {
        assert(AcceptLanguage::spec_format(v) =~= Seq::<Seq<u8>>::empty());
        assert(lines_elems(Seq::<Seq<u8>>::empty()) =~= Seq::<Seq<u8>>::empty());
        assert(parse_lang_elems(Seq::<Seq<u8>>::empty()) =~~= Some(v));
    } else {
        let lines = AcceptLanguage::spec_format(v);
        crate::wire::lemma_list_round_trip(mapped);
        assert(lines[0] == crate::wire::join_elems(mapped));
        assert(lines.len() == 1);
        assert(lines.subrange(1, 1) =~= Seq::<Seq<u8>>::empty());
        assert(lines_elems(lines.subrange(1, 1)) == Seq::<Seq<u8>>::empty());
        assert(lines_elems(lines) == crate::wire::list_elems(lines[0]) + lines_elems(
            lines.subrange(1, 1),
        ));
        assert(crate::wire::list_elems(lines[0]) + Seq::<Seq<u8>>::empty()
            =~= crate::wire::list_elems(lines[0]));
        assert(lines_elems(lines) == mapped);
        lemma_parse_mapped(v);
    }
}

/// Parsing the mapped elements of well-formed weighted tags recovers the
/// tags.
proof fn lemma_parse_mapped(v: Seq<(Seq<u8>, int)>)
    requires
        forall|k: int|
            0 <= k < v.len() ==> lang_tag_wf((#[trigger] v[k]).0) && 0 <= v[k].1 <= 1000,
    ensures
        parse_lang_elems(v.map_values(|p: (Seq<u8>, int)| lang_elem_bytes(p))) == Some(v),
    decreases v.len(),
{
    let mapped = v.map_values(|p: (Seq<u8>, int)| lang_elem_bytes(p));
    if v.len() == 0 {
        assert(mapped =~= Seq::<Seq<u8>>::empty());
        assert(parse_lang_elems(mapped) =~~= Some(v));
    } else {
        let rest = v.subrange(1, v.len() as int);
        assert(forall|k: int| 0 <= k < rest.len() ==> rest[k] == v[k + 1]);
        lemma_parse_mapped(rest);
        lemma_lang_elem_round_trip(v[0].0, v[0].1);
        assert(mapped[0] == lang_elem_bytes(v[0]));
        assert(spec_parse_qelem(mapped[0]) == Some((v[0].0, v[0].1)));
        assert((v[0].0, v[0].1) == v[0]);
        assert(mapped.subrange(1, mapped.len() as int) =~= rest.map_values(
            |p: (Seq<u8>, int)| lang_elem_bytes(p),
        ));
        assert(parse_lang_elems(mapped.subrange(1, mapped.len() as int)) == Some(rest));
        assert(seq![v[0]] + rest =~= v);
    }
}

} // verus!
