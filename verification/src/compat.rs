//! Conversion between the typed `Headers` collection and the byte-oriented
//! `http::HeaderMap`, and typed decode/encode directly on such a map.
//!
//! Every call into the `http` crate stands behind a trusted wrapper whose
//! contract is stated over `map_entries`, the case-insensitive mapping from
//! stored (lowercase) name bytes to the ordered value bytes under that
//! name. Everything around the wrappers is verified.

use vstd::prelude::*;
use vstd::string::StringSliceAdditionalSpecFns;

use crate::header::Header;
use crate::headers::{entries_map, idx_of, lemma_idx_of, lemma_map_push, wf_entries, Headers};
use crate::raw::Raw;
use crate::wire::{copy_bytes, fold_name};
use crate::HeaderError;

verus! {

/// A byte `http` accepts in a header name: the token characters, with
/// letters in either case.
pub open spec fn is_name_byte(b: u8) -> bool {
    (48 <= b && b <= 57) || (65 <= b && b <= 90) || (97 <= b && b <= 122) || b == 33 || b == 35
        || b == 36 || b == 37 || b == 38 || b == 39 || b == 42 || b == 43 || b == 45 || b == 46
        || b == 94 || b == 95 || b == 96 || b == 124 || b == 126
}

/// A name `http` accepts: one to 65535 token bytes.
pub open spec fn valid_header_name(s: Seq<u8>) -> bool {
    0 < s.len() <= 65535 && forall|i: int| 0 <= i < s.len() ==> is_name_byte(s[i])
}

/// A byte `http` accepts in a header value: anything but the control
/// bytes, except horizontal tab.
pub open spec fn is_value_byte(b: u8) -> bool {
    (32 <= b && b != 127) || b == 9
}

/// A value `http` accepts.
pub open spec fn valid_header_value(s: Seq<u8>) -> bool {
    forall|i: int| 0 <= i < s.len() ==> is_value_byte(s[i])
}

/// A count of distinct names up to which an `http::HeaderMap` always has
/// room for one more: far below the map's own hard ceiling, so that
/// storage growth cannot fail first.
pub const MAP_NAME_CAP: usize = 4096;

#[verifier::external_type_specification]
#[verifier::external_body]
#[verifier::reject_recursive_types(T)]
pub struct ExHeaderMap<T>(http::HeaderMap<T>);

#[verifier::external_type_specification]
#[verifier::external_body]
pub struct ExHeaderValue(http::header::HeaderValue);

#[verifier::external_type_specification]
#[verifier::external_body]
pub struct ExHeaderName(http::header::HeaderName);

/// What an `http::HeaderMap` holds: its stored (lowercase) name bytes,
/// each mapped to the ordered bytes of the values under that name.
pub uninterp spec fn map_entries(m: http::HeaderMap) -> Map<Seq<u8>, Seq<Seq<u8>>>;

/// The contents of a map that holds nothing.
pub open spec fn no_entries() -> Map<Seq<u8>, Seq<Seq<u8>>> {
    Map::empty()
}

/// Relies on `http::HeaderMap::new`: a fresh map holds nothing.
#[verifier::external_body]
pub fn hm_new() -> (r: http::HeaderMap)
    ensures
        map_entries(r) == no_entries(),
{
    http::HeaderMap::new()
}

/// Relies on `http::header::HeaderName::from_bytes`, which accepts exactly
/// the nonempty token-byte names up to 65535 bytes and lowercases them,
/// and on `http::HeaderMap::contains_key`. A name `from_bytes` refuses is
/// never stored, so lookup under it finds nothing.
#[verifier::external_body]
pub fn hm_contains(m: &http::HeaderMap, name: &[u8]) -> (r: bool)
    ensures
        r == map_entries(*m).contains_key(fold_name(name@)),
{
    match http::header::HeaderName::from_bytes(name) {
        Ok(n) => m.contains_key(&n),
        Err(_) => false,
    }
}

/// Relies on `http::header::HeaderName::from_bytes` (as above) and on
/// `http::HeaderMap::get_all`, whose view yields the values under a name
/// in insertion order; a stored name always has at least one value.
#[verifier::external_body]
pub fn hm_values(m: &http::HeaderMap, name: &[u8]) -> (r: Vec<Vec<u8>>)
    ensures
        r.deep_view() == if map_entries(*m).contains_key(fold_name(name@)) {
            map_entries(*m)[fold_name(name@)]
        } else {
            Seq::<Seq<u8>>::empty()
        },
        map_entries(*m).contains_key(fold_name(name@)) ==> r.deep_view().len() > 0,
{
    match http::header::HeaderName::from_bytes(name) {
        Ok(n) => m.get_all(&n).iter().map(|v| v.as_bytes().to_vec()).collect(),
        Err(_) => Vec::new(),
    }
}

/// Relies on `http::header::HeaderName::from_bytes` and
/// `http::header::HeaderValue::from_bytes`, which accepts exactly the
/// values whose bytes are visible characters, tab, or bytes above 127, and
/// on `http::HeaderMap::try_append`, which adds one more value at the end
/// of the list under the name and fails only when the map cannot grow its
/// storage; a map holding fewer than `MAP_NAME_CAP` distinct names can
/// always grow.
#[verifier::external_body]
pub fn hm_append(m: &mut http::HeaderMap, name: &[u8], value: &[u8]) -> (r: bool)
    ensures
        r ==> map_entries(*final (m)) == map_entries(*old(m)).insert(
            fold_name(name@),
            if map_entries(*old(m)).contains_key(fold_name(name@)) {
                map_entries(*old(m))[fold_name(name@)].push(value@)
            } else {
                seq![value@]
            },
        ),
        !r ==> map_entries(*final (m)) == map_entries(*old(m)),
        valid_header_name(name@) && valid_header_value(value@) && map_entries(
            *old(m),
        ).dom().finite() && map_entries(*old(m)).dom().len() < MAP_NAME_CAP ==> r,
{
    let n = match http::header::HeaderName::from_bytes(name) {
        Ok(n) => n,
        Err(_) => return false,
    };
    let v = match http::header::HeaderValue::from_bytes(value) {
        Ok(v) => v,
        Err(_) => return false,
    };
    m.try_append(n, v).is_ok()
}

/// Relies on `http::header::HeaderName::from_bytes` and on
/// `http::HeaderMap::remove`, which deletes the name and every value under
/// it; a name `from_bytes` refuses was never stored.
#[verifier::external_body]
pub fn hm_remove(m: &mut http::HeaderMap, name: &[u8])
    ensures
        map_entries(*final (m)) == map_entries(*old(m)).remove(fold_name(name@)),
{
    if let Ok(n) = http::header::HeaderName::from_bytes(name) {
        m.remove(&n);
    }
}

/// Relies on `http::HeaderMap::keys`, which yields each stored name once,
/// and on `http::header::HeaderName::as_str`, whose text is the stored
/// lowercase name.
#[verifier::external_body]
pub fn hm_keys(m: &http::HeaderMap) -> (r: Vec<Vec<u8>>)
    ensures
        r.deep_view().no_duplicates(),
        forall|i: int|
            0 <= i < r.deep_view().len() ==> map_entries(*m).contains_key(#[trigger] r.deep_view()[i])
                && fold_name(r.deep_view()[i]) == r.deep_view()[i],
        forall|k: Seq<u8>|
            map_entries(*m).contains_key(k) ==> #[trigger] r.deep_view().contains(k),
{
    m.keys().map(|k| k.as_str().as_bytes().to_vec()).collect()
}

/// The raw lines under `name` in the mapping `m`: its value there, or no
/// lines when the name is absent.
pub open spec fn lines_for(m: Map<Seq<u8>, Seq<Seq<u8>>>, name: Seq<u8>) -> Seq<Seq<u8>> {
    if m.contains_key(fold_name(name)) {
        m[fold_name(name)]
    } else {
        Seq::empty()
    }
}

/// A typed header whose canonical name the `http` crate accepts, so that
/// values of it can be decoded from and encoded into an
/// `http::HeaderMap`.
pub trait StandardHeader: Header {
    /// The canonical name is a name `http` accepts.
    proof fn name_valid()
        ensures
            valid_header_name(Self::spec_name()),
    ;

    /// The `http` crate's form of this header's name.
    fn http_header_name() -> (r: http::header::HeaderName);
}

/// Typed decode and encode on a byte-oriented header collection such as
/// `http::HeaderMap`, whose contents are the mapping `entries()` from
/// stored lowercase name bytes to ordered value bytes.
pub trait TypedHeaders {
    /// The case-insensitive contents of the collection.
    spec fn entries(&self) -> Map<Seq<u8>, Seq<Seq<u8>>>;

    /// Decodes H from the lines under its name. For a list-valued H an
    /// absent name decodes as the empty list; a single-valued H needs
    /// exactly one line. To tell an absent name apart from one that fails
    /// to parse, use `try_decode`.
    fn decode<H: StandardHeader>(&self) -> (r: Result<H, HeaderError>)
        ensures
            match r {
                Ok(v) => H::spec_parse(lines_for(self.entries(), H::spec_name())) == Some(v@),
                Err(_) => H::spec_parse(lines_for(self.entries(), H::spec_name())) is None,
            },
    ;

    /// As `decode`, but absent exactly when the name is wholly missing
    /// from the collection.
    fn try_decode<H: StandardHeader>(&self) -> (r: Option<Result<H, HeaderError>>)
        ensures
            match r {
                None => !self.entries().contains_key(fold_name(H::spec_name())),
                Some(Ok(v)) => self.entries().contains_key(fold_name(H::spec_name()))
                    && H::spec_parse(self.entries()[fold_name(H::spec_name())]) == Some(v@),
                Some(Err(_)) => self.entries().contains_key(fold_name(H::spec_name()))
                    && H::spec_parse(self.entries()[fold_name(H::spec_name())]) is None,
            },
    ;

    /// Formats `value` and overwrites everything stored under its name.
    /// A value that formats to zero lines leaves the name absent. Fails
    /// only when a formatted line holds a byte the collection refuses or
    /// a fresh name would not fit.
    fn encode<H: StandardHeader>(&mut self, value: &H) -> (r: Result<(), HeaderError>)
        ensures
            match r {
                Ok(_) => final (self).entries() == if H::spec_format(value@).len() == 0 {
                    old(self).entries().remove(fold_name(H::spec_name()))
                } else {
                    old(self).entries().insert(fold_name(H::spec_name()), H::spec_format(value@))
                },
                Err(e) => e == HeaderError::Encoding,
            },
            (forall|i: int|
                0 <= i < H::spec_format(value@).len() ==> valid_header_value(
                    #[trigger] H::spec_format(value@)[i],
                )) && old(self).entries().dom().finite() && old(self).entries().dom().len() + 1
                < MAP_NAME_CAP ==> r is Ok,
    ;

    /// Formats `value` and appends its lines after everything already
    /// stored under its name, leaving prior lines intact. Fails, leaving
    /// the collection unchanged up to the lines already appended, only on
    /// a refused byte or a full collection.
    fn encode_append<H: StandardHeader>(&mut self, value: &H) -> (r: Result<(), HeaderError>)
        ensures
            match r {
                Ok(_) => final (self).entries() == if H::spec_format(value@).len() == 0 {
                    old(self).entries()
                } else {
                    old(self).entries().insert(
                        fold_name(H::spec_name()),
                        lines_for(old(self).entries(), H::spec_name()) + H::spec_format(value@),
                    )
                },
                Err(e) => e == HeaderError::Encoding,
            },
            (forall|i: int|
                0 <= i < H::spec_format(value@).len() ==> valid_header_value(
                    #[trigger] H::spec_format(value@)[i],
                )) && old(self).entries().dom().finite() && old(self).entries().dom().len() + 1
                < MAP_NAME_CAP ==> r is Ok,
    ;
}

impl TypedHeaders for http::HeaderMap {
    open spec fn entries(&self) -> Map<Seq<u8>, Seq<Seq<u8>>> {
        map_entries(*self)
    }

    fn decode<H: StandardHeader>(&self) -> (r: Result<H, HeaderError>) {
        let name = H::header_name();
        let vals = hm_values(self, name.as_bytes());
        let raw = raw_from_lines(vals);
        H::parse_header(&raw)
    }

    fn try_decode<H: StandardHeader>(&self) -> (r: Option<Result<H, HeaderError>>) {
        let name = H::header_name();
        if !hm_contains(self, name.as_bytes()) {
            return None;
        }
        let vals = hm_values(self, name.as_bytes());
        let raw = raw_from_lines(vals);
        Some(H::parse_header(&raw))
    }

    fn encode<H: StandardHeader>(&mut self, value: &H) -> (r: Result<(), HeaderError>) {
        let name = H::header_name();
        let lines = value.fmt_header();
        let ghost prior = map_entries(*self);
        hm_remove(self, name.as_bytes());
        let n = lines.len();
        if n == 0 {
            return Ok(());
        }
        let ghost key = fold_name(H::spec_name());
        let ghost removed = map_entries(*self);
        let mut i: usize = 0;
        while i < n
            invariant
                0 < i ==> map_entries(*self) == removed.insert(key, lines@.take(i as int)),
                i == 0 ==> map_entries(*self) == removed,
                !removed.contains_key(key),
                removed.dom().finite() ==> map_entries(*self).dom().finite(),
                removed.dom().finite() ==> map_entries(*self).dom().len() <= removed.dom().len()
                    + 1,
                i <= n,
                n == lines@.len(),
                lines@ == H::spec_format(value@),
                name.spec_bytes() == H::spec_name(),
                key == fold_name(name.spec_bytes()),
                prior == old(self).entries(),
                removed == prior.remove(key),
            decreases n - i,
        {
            let ghost before = map_entries(*self);
            let ok = hm_append(self, name.as_bytes(), lines.get(i).as_slice());
            if !ok {
                proof {
                    if (forall|j: int|
                        0 <= j < H::spec_format(value@).len() ==> valid_header_value(
                            #[trigger] H::spec_format(value@)[j],
                        )) && prior.dom().finite() && prior.dom().len() + 1 < MAP_NAME_CAP {
                        proof_remove_len(prior, key);
                        H::name_valid();
                        assert(valid_header_value(lines@[i as int]));
                        assert(before.dom().finite() && before.dom().len() < MAP_NAME_CAP);
                        assert(false);
                    }
                }
                return Err(HeaderError::Encoding);
            }
            proof {
                if i == 0 {
                    assert(map_entries(*self) =~~= removed.insert(key, seq![lines@[0]]));
                    assert(seq![lines@[0]] =~= lines@.take(1));
                } else {
                    assert(before[key] == lines@.take(i as int));
                    assert(before[key].push(lines@[i as int]) =~= lines@.take(i + 1));
                }
                assert(map_entries(*self).dom() =~= before.dom().insert(key));
            }
            i += 1;
        }
        proof {
            assert(lines@.take(n as int) =~= lines@);
        }
        Ok(())
    }

    fn encode_append<H: StandardHeader>(&mut self, value: &H) -> (r: Result<(), HeaderError>) {
        let name = H::header_name();
        let lines = value.fmt_header();
        let n = lines.len();
        if n == 0 {
            return Ok(());
        }
        let ghost key = fold_name(H::spec_name());
        let ghost start = map_entries(*self);
        let ghost startlines = lines_for(start, H::spec_name());
        let mut i: usize = 0;
        while i < n
            invariant
                0 < i ==> map_entries(*self) == start.insert(
                    key,
                    startlines + lines@.take(i as int),
                ),
                i == 0 ==> map_entries(*self) == start,
                start.contains_key(key) ==> startlines == start[key],
                !start.contains_key(key) ==> startlines == Seq::<Seq<u8>>::empty(),
                start.dom().finite() ==> map_entries(*self).dom().finite(),
                start.dom().finite() ==> map_entries(*self).dom().len() <= start.dom().len() + 1,
                i <= n,
                n == lines@.len(),
                lines@ == H::spec_format(value@),
                name.spec_bytes() == H::spec_name(),
                key == fold_name(name.spec_bytes()),
                start == old(self).entries(),
            decreases n - i,
        {
            let ghost before = map_entries(*self);
            let ok = hm_append(self, name.as_bytes(), lines.get(i).as_slice());
            if !ok {
                proof {
                    if (forall|j: int|
                        0 <= j < H::spec_format(value@).len() ==> valid_header_value(
                            #[trigger] H::spec_format(value@)[j],
                        )) && start.dom().finite() && start.dom().len() + 1 < MAP_NAME_CAP {
                        H::name_valid();
                        assert(valid_header_value(lines@[i as int]));
                        assert(before.dom().finite() && before.dom().len() < MAP_NAME_CAP);
                        assert(false);
                    }
                }
                return Err(HeaderError::Encoding);
            }
            proof {
                if i == 0 {
                    if start.contains_key(key) {
                        assert(startlines.push(lines@[0]) =~= startlines + lines@.take(1));
                    } else {
                        assert(seq![lines@[0]] =~= startlines + lines@.take(1));
                    }
                    assert(map_entries(*self) =~~= start.insert(key, startlines + lines@.take(1)));
                } else {
                    assert(before.contains_key(key));
                    assert(before[key] == startlines + lines@.take(i as int));
                    assert((startlines + lines@.take(i as int)).push(lines@[i as int]) =~= startlines
                        + lines@.take(i + 1));
                    assert(map_entries(*self) =~~= start.insert(
                        key,
                        startlines + lines@.take(i + 1),
                    ));
                }
                assert(map_entries(*self).dom() =~= before.dom().insert(key));
            }
            i += 1;
        }
        proof {
            assert(lines@.take(n as int) =~= lines@);
        }
        Ok(())
    }
}

/// Relies on `http::header::HeaderName::from_bytes` (see `hm_contains`):
/// it accepts every valid name.
#[verifier::external_body]
fn try_header_name(s: &str) -> (r: Option<http::header::HeaderName>)
    ensures
        valid_header_name(s.spec_bytes()) ==> r is Some,
{
    http::header::HeaderName::from_bytes(s.as_bytes()).ok()
}

impl StandardHeader for crate::common::ContentLength {
    proof fn name_valid() {
        reveal_strlit("Content-Length");
        let s = "Content-Length";
        assert(vstd::utf8::is_ascii_chars(s@));
        vstd::utf8::is_ascii_chars_encode_utf8(s@);
        assert(valid_header_name(s.spec_bytes()));
    }

    fn http_header_name() -> (r: http::header::HeaderName) {
        proof {
            Self::name_valid();
        }
        try_header_name(Self::header_name()).unwrap()
    }
}

impl StandardHeader for crate::common::ContentEncoding {
    proof fn name_valid() {
        reveal_strlit("Content-Encoding");
        let s = "Content-Encoding";
        assert(vstd::utf8::is_ascii_chars(s@));
        vstd::utf8::is_ascii_chars_encode_utf8(s@);
        assert(valid_header_name(s.spec_bytes()));
    }

    fn http_header_name() -> (r: http::header::HeaderName) {
        proof {
            Self::name_valid();
        }
        try_header_name(Self::header_name()).unwrap()
    }
}

impl StandardHeader for crate::common::Te {
    proof fn name_valid() {
        reveal_strlit("TE");
        let s = "TE";
        assert(vstd::utf8::is_ascii_chars(s@));
        vstd::utf8::is_ascii_chars_encode_utf8(s@);
        assert(valid_header_name(s.spec_bytes()));
    }

    fn http_header_name() -> (r: http::header::HeaderName) {
        proof {
            Self::name_valid();
        }
        try_header_name(Self::header_name()).unwrap()
    }
}

impl StandardHeader for crate::common::Host {
    proof fn name_valid() {
        reveal_strlit("Host");
        let s = "Host";
        assert(vstd::utf8::is_ascii_chars(s@));
        vstd::utf8::is_ascii_chars_encode_utf8(s@);
        assert(valid_header_name(s.spec_bytes()));
    }

    fn http_header_name() -> (r: http::header::HeaderName) {
        proof {
            Self::name_valid();
        }
        try_header_name(Self::header_name()).unwrap()
    }
}

impl StandardHeader for crate::common::ETag {
    proof fn name_valid() {
        reveal_strlit("ETag");
        let s = "ETag";
        assert(vstd::utf8::is_ascii_chars(s@));
        vstd::utf8::is_ascii_chars_encode_utf8(s@);
        assert(valid_header_name(s.spec_bytes()));
    }

    fn http_header_name() -> (r: http::header::HeaderName) {
        proof {
            Self::name_valid();
        }
        try_header_name(Self::header_name()).unwrap()
    }
}

impl StandardHeader for crate::language::AcceptLanguage {
    proof fn name_valid() {
        reveal_strlit("Accept-Language");
        let s = "Accept-Language";
        assert(vstd::utf8::is_ascii_chars(s@));
        vstd::utf8::is_ascii_chars_encode_utf8(s@);
        assert(valid_header_name(s.spec_bytes()));
    }

    fn http_header_name() -> (r: http::header::HeaderName) {
        proof {
            Self::name_valid();
        }
        try_header_name(Self::header_name()).unwrap()
    }
}

/// Removing a key never grows a finite domain.
proof fn proof_remove_len(m: Map<Seq<u8>, Seq<Seq<u8>>>, k: Seq<u8>)
    requires
        m.dom().finite(),
    ensures
        m.remove(k).dom().finite(),
        m.remove(k).dom().len() <= m.dom().len(),
{
    assert(m.remove(k).dom() =~= m.dom().remove(k));
    if m.dom().contains(k) {
        vstd::set::axiom_set_remove_len(m.dom(), k);
    }
}

/// The mapping `m` without the names that have no lines: what a
/// byte-oriented map can represent, since a name there always carries at
/// least one value.
pub open spec fn nonempty_entries(m: Map<Seq<u8>, Seq<Seq<u8>>>) -> Map<Seq<u8>, Seq<Seq<u8>>> {
    Map::new(|k: Seq<u8>| m.contains_key(k) && m[k].len() > 0, |k: Seq<u8>| m[k])
}

/// Reads a whole `http::HeaderMap` into a `Headers` collection: the
/// collections hold the same case-insensitive mapping, and within each
/// name the lines keep their stored order.
pub fn headers_from_map(m: &http::HeaderMap) -> (h: Headers)
    ensures
        h.wf(),
        h.model() == map_entries(*m),
{
    let keys = hm_keys(m);
    let ghost ks = keys.deep_view();
    let mut h = Headers::new();
    let n = keys.len();
    let mut i: usize = 0;
    proof {
        assert(h.model() =~~= map_entries(*m).restrict(
            Set::new(|k: Seq<u8>| ks.take(0).contains(k)),
        ));
    }
    while i < n
        invariant
            i <= n,
            n == ks.len(),
            keys.deep_view() == ks,
            ks.no_duplicates(),
            forall|j: int|
                0 <= j < ks.len() ==> map_entries(*m).contains_key(#[trigger] ks[j]) && fold_name(
                    ks[j],
                ) == ks[j],
            forall|k: Seq<u8>| map_entries(*m).contains_key(k) ==> #[trigger] ks.contains(k),
            h.wf(),
            h.model() == map_entries(*m).restrict(
                Set::new(|k: Seq<u8>| ks.take(i as int).contains(k)),
            ),
        decreases n - i,
    {
        proof {
            assert(keys@[i as int]@ == ks[i as int]);
        }
        let vals = hm_values(m, keys[i].as_slice());
        let ghost key = ks[i as int];
        let ghost lines = map_entries(*m)[key];
        let ghost mid = h.model();
        proof {
            assert(fold_name(key) == key);
            assert(!mid.contains_key(key)) by {
                if ks.take(i as int).contains(key) {
                    let j = choose|j: int| 0 <= j < i && (#[trigger] ks.take(i as int)[j]) == key;
                    assert(ks[j] == ks[i as int]);
                    assert(false);
                }
            }
        }
        let vn = vals.len();
        let mut j: usize = 0;
        while j < vn
            invariant
                j <= vn,
                vn == lines.len(),
                vals.deep_view() == lines,
                i < ks.len(),
                keys.deep_view() == ks,
                key == ks[i as int],
                fold_name(key) == key,
                h.wf(),
                !mid.contains_key(key),
                j == 0 ==> h.model() == mid,
                j > 0 ==> h.model() == mid.insert(key, lines.take(j as int)),
            decreases vn - j,
        {
            proof {
                assert(vals@[j as int]@ == lines[j as int]);
                assert(keys@[i as int]@ == ks[i as int]);
            }
            h.append_raw_bytes(keys[i].as_slice(), copy_bytes(vals[j].as_slice()));
            proof {
                if j == 0 {
                    assert(seq![lines[0]] =~= lines.take(1));
                } else {
                    assert(lines.take(j as int).push(lines[j as int]) =~= lines.take(j + 1));
                }
            }
            j += 1;
        }
        proof {
            assert(lines.take(vn as int) =~= lines);
            assert(vn > 0);
            assert(h.model() =~~= map_entries(*m).restrict(
                Set::new(|k: Seq<u8>| ks.take(i + 1).contains(k)),
            )) by {
                assert forall|k: Seq<u8>| #[trigger] ks.take(i + 1).contains(k) implies
                    ks.take(i as int).contains(k) || k == key by {
                    let j = choose|j: int| 0 <= j < i + 1 && (#[trigger] ks.take(i + 1)[j]) == k;
                    if j < i {
                        assert(ks.take(i as int)[j] == k);
                    }
                }
                assert forall|k: Seq<u8>| ks.take(i as int).contains(k) implies #[trigger] ks.take(
                    i + 1,
                ).contains(k) by {
                    let j = choose|j: int| 0 <= j < i && (#[trigger] ks.take(i as int)[j]) == k;
                    assert(ks.take(i + 1)[j] == k);
                }
                assert(ks.take(i + 1)[i as int] == key);
            }
        }
        i += 1;
    }
    proof {
        assert(h.model() =~~= map_entries(*m)) by {
            assert forall|k: Seq<u8>| map_entries(*m).contains_key(k) implies #[trigger] ks.take(
                n as int,
            ).contains(k) by {
                assert(ks.contains(k));
                assert(ks.take(n as int) =~= ks);
            }
            assert(ks.take(n as int) =~= ks);
        }
    }
    h
}

/// Writes a whole `Headers` collection into a fresh `http::HeaderMap`:
/// the map holds the collection's case-insensitive mapping, less any name
/// with zero lines, which a byte-oriented map cannot represent and which
/// converts to no entry at all. Every stored name and line must be
/// acceptable to `http`, and the collection must fit below the map's name
/// capacity; the caller checks both, as the byte-oriented side trusts its
/// input.
pub fn map_from_headers(h: &Headers) -> (m: http::HeaderMap)
    requires
        h.wf(),
        h@.len() < MAP_NAME_CAP,
        forall|i: int| 0 <= i < h@.len() ==> valid_header_name(#[trigger] h@[i].0),
        forall|i: int, j: int|
            0 <= i < h@.len() && 0 <= j < h@[i].1.len() ==> valid_header_value(
                #[trigger] h@[i].1[j],
            ),
    ensures
        map_entries(m) == nonempty_entries(h.model()),
{
    let mut m = hm_new();
    let n = h.len();
    let mut i: usize = 0;
    proof {
        assert(h@.take(0) =~= Seq::<crate::headers::EntryView>::empty());
        assert(map_entries(m) =~~= nonempty_entries(entries_map(h@.take(0))));
    }
    while i < n
        invariant
            i <= n,
            n == h@.len(),
            h.wf(),
            h@.len() < MAP_NAME_CAP,
            forall|k: int| 0 <= k < h@.len() ==> valid_header_name(#[trigger] h@[k].0),
            forall|k: int, j: int|
                0 <= k < h@.len() && 0 <= j < h@[k].1.len() ==> valid_header_value(
                    #[trigger] h@[k].1[j],
                ),
            map_entries(m) == nonempty_entries(entries_map(h@.take(i as int))),
            map_entries(m).dom().finite(),
            map_entries(m).dom().len() <= i,
        decreases n - i,
    {
        let name = h.name_at(i);
        let raw = h.raw_at(i);
        let ghost key = fold_name(h@[i as int].0);
        let ghost lines = h@[i as int].1;
        let ghost mid = map_entries(m);
        proof {
            assert(wf_entries(h@.take(i as int))) by {
                assert(forall|a: int, b: int|
                    0 <= a < b < i ==> h@.take(i as int)[a] == h@[a] && h@.take(i as int)[b]
                        == h@[b]);
            }
            assert(idx_of(h@.take(i as int), key) == -1) by {
                lemma_idx_of(h@.take(i as int), key);
                let x = idx_of(h@.take(i as int), key);
                if x >= 0 {
                    assert(fold_name(h@[x].0) == fold_name(h@[i as int].0));
                    assert(false);
                }
            }
            assert(!mid.contains_key(key));
        }
        let vn = raw.len();
        let mut j: usize = 0;
        while j < vn
            invariant
                j <= vn,
                vn == lines.len(),
                i < h@.len(),
                raw@ == lines,
                name@ == h@[i as int].0,
                key == fold_name(name@),
                valid_header_name(name@),
                forall|jj: int| 0 <= jj < lines.len() ==> valid_header_value(#[trigger] lines[jj]),
                h@.len() < MAP_NAME_CAP,
                !mid.contains_key(key),
                mid.dom().finite(),
                mid.dom().len() <= i,
                j == 0 ==> map_entries(m) == mid,
                j > 0 ==> map_entries(m) == mid.insert(key, lines.take(j as int)),
                map_entries(m).dom().finite(),
                map_entries(m).dom().len() <= i + 1,
            decreases vn - j,
        {
            let ok = hm_append(&mut m, name.as_slice(), raw.get(j).as_slice());
            proof {
                assert(ok);
                if j == 0 {
                    assert(seq![lines[0]] =~= lines.take(1));
                } else {
                    assert(lines.take(j as int).push(lines[j as int]) =~= lines.take(j + 1));
                }
                assert(map_entries(m).dom() =~= if j == 0 {
                    mid.dom().insert(key)
                } else {
                    mid.dom().insert(key)
                });
            }
            j += 1;
        }
        proof {
            assert(h@.take(i + 1) =~= h@.take(i as int).push(h@[i as int]));
            lemma_map_push(h@.take(i as int), h@[i as int]);
            assert(entries_map(h@.take(i + 1)) == entries_map(h@.take(i as int)).insert(
                key,
                lines,
            ));
            if vn == 0 {
                assert(map_entries(m) == mid);
                assert(map_entries(m) =~~= nonempty_entries(entries_map(h@.take(i + 1))));
            } else {
                assert(lines.take(vn as int) =~= lines);
                assert(map_entries(m) == mid.insert(key, lines));
                assert(map_entries(m) =~~= nonempty_entries(entries_map(h@.take(i + 1))));
            }
        }
        i += 1;
    }
    proof {
        assert(h@.take(n as int) =~= h@);
    }
    m
}

/// Builds an owned raw value from collected lines.
fn raw_from_lines(lines: Vec<Vec<u8>>) -> (r: Raw)
    ensures
        r@ == lines.deep_view(),
{
    let ghost all = lines.deep_view();
    let mut r = Raw::new();
    let n = lines.len();
    let mut i: usize = 0;
    proof {
        assert(r@ =~= all.take(0));
    }
    while i < n
        invariant
            i <= n,
            n == all.len(),
            lines.deep_view() == all,
            r@ == all.take(i as int),
        decreases n - i,
    {
        proof {
            assert(lines@[i as int]@ == all[i as int]);
        }
        r.push(copy_bytes(lines[i].as_slice()));
        proof {
            assert(all.take(i + 1) =~= all.take(i as int).push(all[i as int]));
        }
        i += 1;
    }
    proof {
        assert(all.take(n as int) =~= all);
    }
    r
}

} // verus!
