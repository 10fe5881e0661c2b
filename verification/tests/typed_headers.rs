use hyperx::common::{ContentEncoding, ContentLength, ETag, Encoding, EntityTag, Host, Te};
use hyperx::compat::{headers_from_map, map_from_headers, TypedHeaders};
use hyperx::header::Header;
use hyperx::headers::Headers;
use hyperx::quality::{fmt_quality_suffix, parse_quality_elem, q, qitem, Quality, QualityItem};
use hyperx::language::{AcceptLanguage, LanguageTag};
use hyperx::raw::Raw;
use hyperx::HeaderError;

#[test]
fn test_empty_decode() {
    let hmap = http::HeaderMap::new();
    let len = hmap.decode::<ContentLength>();
    assert!(len.is_err());
}

#[test]
fn test_empty_decode_etag() {
    let hmap = http::HeaderMap::new();
    let len = hmap.decode::<ETag>();
    assert!(len.is_err());
}

#[test]
fn test_empty_decode_te() {
    let hmap = http::HeaderMap::new();
    let te = hmap.decode::<Te>().unwrap();
    assert_eq!(te, Te(vec![]));
}

#[test]
fn test_empty_decode_content_encoding() {
    let hmap = http::HeaderMap::new();
    let ce = hmap.decode::<ContentEncoding>().unwrap();
    assert_eq!(ce, ContentEncoding(vec![]));
}

#[test]
fn test_empty_try_decode() {
    let hmap = http::HeaderMap::new();
    let len = hmap.try_decode::<ContentLength>();
    assert!(len.is_none());
}

#[test]
fn test_empty_try_decode_te() {
    let hmap = http::HeaderMap::new();
    let te = hmap.try_decode::<Te>();
    assert!(te.is_none());
}

#[test]
fn test_decode() {
    let mut hmap = http::HeaderMap::new();
    hmap.insert(http::header::CONTENT_LENGTH, "11".parse().unwrap());
    let len: ContentLength = hmap.decode().unwrap();
    assert_eq!(len.0, 11);
}

#[test]
fn test_encode_decode() {
    let mut hmap = http::HeaderMap::new();
    hmap.encode(&ContentLength(11)).unwrap();
    let len: ContentLength = hmap.decode().unwrap();
    assert_eq!(len.0, 11);
}

#[test]
fn test_encode_append() {
    let mut hmap = http::HeaderMap::new();
    hmap.encode_append(&ContentEncoding(vec![Encoding::Identity]))
        .unwrap();
    hmap.encode_append(&ContentEncoding(vec![Encoding::Gzip, Encoding::Chunked]))
        .unwrap();
    let ce: ContentEncoding = hmap.decode().unwrap();
    assert_eq!(
        ce.0,
        vec![Encoding::Identity, Encoding::Gzip, Encoding::Chunked]
    );
}

#[test]
fn test_compat_convert() {
    let mut orig_hyper_headers = Headers::new();
    orig_hyper_headers.set(ContentLength(11));
    orig_hyper_headers.set(Host::new("foo.bar", None));
    orig_hyper_headers.append_raw("x-foo", b"bar".to_vec());
    orig_hyper_headers.append_raw("x-foo", b"quux".to_vec());

    let mut orig_http_headers = http::HeaderMap::new();
    orig_http_headers.insert(http::header::CONTENT_LENGTH, "11".parse().unwrap());
    orig_http_headers.insert(http::header::HOST, "foo.bar".parse().unwrap());
    orig_http_headers.append("x-foo", "bar".parse().unwrap());
    orig_http_headers.append("x-foo", "quux".parse().unwrap());

    let conv_hyper_headers: Headers = headers_from_map(&orig_http_headers.clone());
    let conv_http_headers: http::HeaderMap = map_from_headers(&orig_hyper_headers.clone());
    assert_eq!(orig_hyper_headers, conv_hyper_headers);
    assert_eq!(orig_http_headers, conv_http_headers);

    let conv_hyper_headers: Headers = headers_from_map(&orig_http_headers);
    assert_eq!(orig_hyper_headers, conv_hyper_headers);
}

#[test]
fn test_compat_value_parse() {
    let mut hheads = http::HeaderMap::new();
    hheads.insert(http::header::CONTENT_ENCODING, "chunked, gzip".parse().unwrap());
    let val = hheads.get(http::header::CONTENT_ENCODING).unwrap();
    let raw = Raw::from_line(val.as_bytes().to_vec());
    let ce = ContentEncoding::parse_header(&raw).unwrap();
    assert_eq!(ce, ContentEncoding(vec![Encoding::Chunked, Encoding::Gzip]))
}

#[test]
fn test_compat_multi_value_parse() {
    let mut hheads = http::HeaderMap::new();
    hheads.insert(http::header::CONTENT_ENCODING, "chunked, gzip".parse().unwrap());
    hheads.append(http::header::CONTENT_ENCODING, "br".parse().unwrap());

    let mut raw = Raw::new();
    for val in hheads.get_all(http::header::CONTENT_ENCODING) {
        raw.push(val.as_bytes().to_vec());
    }
    let ce = ContentEncoding::parse_header(&raw).unwrap();
    assert_eq!(
        ce,
        ContentEncoding(vec![
            Encoding::Chunked,
            Encoding::Gzip,
            Encoding::Brotli
        ])
    )
}

#[test]
fn test_round_trip_content_length() {
    let v = ContentLength(1024);
    let wire = v.fmt_header();
    let parsed = ContentLength::parse_header(&wire).unwrap();
    assert_eq!(parsed, v);
    let rewire = parsed.fmt_header();
    assert_eq!(rewire.len(), 1);
    assert_eq!(rewire.get(0), wire.get(0));
    assert_eq!(wire.get(0).as_slice(), b"1024");
}

#[test]
fn test_round_trip_content_encoding() {
    let v = ContentEncoding(vec![
        Encoding::Gzip,
        Encoding::Brotli,
        Encoding::EncodingExt(b"zstd".to_vec()),
    ]);
    let wire = v.fmt_header();
    assert_eq!(wire.len(), 1);
    assert_eq!(wire.get(0).as_slice(), b"gzip, br, zstd");
    let parsed = ContentEncoding::parse_header(&wire).unwrap();
    assert_eq!(parsed, v);
}

#[test]
fn test_round_trip_etag() {
    let v = ETag(EntityTag { weak: true, tag: b"xyzzy".to_vec() });
    let wire = v.fmt_header();
    assert_eq!(wire.get(0).as_slice(), b"W/\"xyzzy\"");
    let parsed = ETag::parse_header(&wire).unwrap();
    assert_eq!(parsed, v);
}

#[test]
fn test_round_trip_host() {
    let v = Host::new("example.com", Some(8080));
    let wire = v.fmt_header();
    assert_eq!(wire.get(0).as_slice(), b"example.com:8080");
    let parsed = Host::parse_header(&wire).unwrap();
    assert_eq!(parsed, v);
    assert_eq!(parsed.port(), Some(8080));
}

#[test]
fn test_empty_list_formats_absent() {
    let v = ContentEncoding(vec![]);
    let wire = v.fmt_header();
    assert_eq!(wire.len(), 0);
}

#[test]
fn test_two_raw_lines_equal_one_joined() {
    let mut two = Headers::new();
    two.append_raw("content-encoding", b"gzip".to_vec());
    two.append_raw("content-encoding", b"br".to_vec());
    let ce_two: ContentEncoding = two.get().unwrap();
    assert_eq!(ce_two.0, vec![Encoding::Gzip, Encoding::Brotli]);

    let mut one = Headers::new();
    one.append_raw("content-encoding", b"gzip, br".to_vec());
    let ce_one: ContentEncoding = one.get().unwrap();
    assert_eq!(ce_one.0, ce_two.0);
}

#[test]
fn test_quality_parse_examples() {
    let (v, w) = parse_quality_elem(b"en;q=0.7").unwrap();
    assert_eq!(v, b"en".to_vec());
    assert_eq!(w, Quality(700));

    let (v, w) = parse_quality_elem(b"en").unwrap();
    assert_eq!(v, b"en".to_vec());
    assert_eq!(w, Quality(1000));

    let (v, w) = parse_quality_elem(b"en;q=1.000").unwrap();
    assert_eq!(v, b"en".to_vec());
    assert_eq!(w, Quality(1000));
    assert_eq!(fmt_quality_suffix(&w), Vec::<u8>::new());

    assert!(parse_quality_elem(b"en;q=1.5").is_err());
}

#[test]
fn test_quality_format_minimal_digits() {
    assert_eq!(fmt_quality_suffix(&Quality(700)), b";q=0.7".to_vec());
    assert_eq!(fmt_quality_suffix(&Quality(750)), b";q=0.75".to_vec());
    assert_eq!(fmt_quality_suffix(&Quality(755)), b";q=0.755".to_vec());
    assert_eq!(fmt_quality_suffix(&Quality(0)), b";q=0".to_vec());
    let item: QualityItem<u8> = qitem(7);
    assert_eq!(item.quality, Quality(1000));
    assert_eq!(q(500), Quality(500));
}

#[test]
fn test_encode_decode_many_values() {
    for n in 0..200u64 {
        let mut hmap = http::HeaderMap::new();
        hmap.encode(&ContentLength(n * n * 31 + n)).unwrap();
        let back: ContentLength = hmap.decode().unwrap();
        assert_eq!(back.0, n * n * 31 + n);
    }
    let samples: Vec<Vec<Encoding>> = vec![
        vec![],
        vec![Encoding::Gzip],
        vec![Encoding::Chunked, Encoding::Brotli],
        vec![Encoding::Deflate, Encoding::Compress, Encoding::Trailers],
        vec![Encoding::EncodingExt(b"lz4".to_vec()), Encoding::Identity],
    ];
    for sample in samples {
        let mut hmap = http::HeaderMap::new();
        hmap.encode(&Te(sample.clone())).unwrap();
        let back: Te = hmap.decode().unwrap();
        assert_eq!(back.0, sample);
    }
}

#[test]
fn test_case_insensitive_lookup() {
    let mut headers = Headers::new();
    headers.append_raw("X-Foo", b"bar".to_vec());
    assert!(headers.get_raw(b"x-foo").is_some());
    assert!(headers.get_raw(b"X-FOO").is_some());
    assert_eq!(headers.get_raw(b"x-foo").unwrap().get(0).as_slice(), b"bar");
    assert_eq!(headers.get_raw(b"X-FOO").unwrap().get(0).as_slice(), b"bar");
    assert!(headers.get_raw(b"x-bar").is_none());
}

#[test]
fn test_headers_equality_ignores_case_and_order() {
    let mut a = Headers::new();
    a.append_raw("X-Foo", b"bar".to_vec());
    a.set(ContentLength(7));

    let mut b = Headers::new();
    b.set(ContentLength(7));
    b.append_raw("x-FOO", b"bar".to_vec());

    assert_eq!(a, b);

    let mut c = Headers::new();
    c.set(ContentLength(7));
    c.append_raw("x-foo", b"baz".to_vec());
    assert_ne!(a, c);
}

#[test]
fn test_headers_set_get_remove() {
    let mut headers = Headers::new();
    headers.set(ContentLength(42));
    assert!(headers.has::<ContentLength>());
    let len: ContentLength = headers.get().unwrap();
    assert_eq!(len.0, 42);
    headers.set(ContentLength(43));
    let len: ContentLength = headers.get().unwrap();
    assert_eq!(len.0, 43);
    assert_eq!(headers.len(), 1);
    headers.remove::<ContentLength>();
    assert!(!headers.has::<ContentLength>());
    assert!(headers.get::<ContentLength>().is_none());
}

#[test]
fn test_try_get_distinguishes_absent_from_bad() {
    let mut headers = Headers::new();
    assert!(headers.try_get::<ContentLength>().is_none());
    headers.append_raw("content-length", b"not-a-number".to_vec());
    match headers.try_get::<ContentLength>() {
        Some(Err(HeaderError::Grammar)) => {}
        other => panic!("unexpected: {:?}", other),
    }
    assert!(headers.get::<ContentLength>().is_none());
}

#[test]
fn test_error_variants() {
    let mut raw = Raw::new();
    raw.push(b"1".to_vec());
    raw.push(b"2".to_vec());
    assert_eq!(
        ContentLength::parse_header(&raw),
        Err(HeaderError::Cardinality)
    );
    let bad = Raw::from_line(b"12a".to_vec());
    assert_eq!(ContentLength::parse_header(&bad), Err(HeaderError::Grammar));
    let mut hmap = http::HeaderMap::new();
    let r = hmap.encode(&ContentEncoding(vec![Encoding::EncodingExt(
        b"bad\nbyte".to_vec(),
    )]));
    assert_eq!(r, Err(HeaderError::Encoding));
    assert!(hmap.is_empty());
}

#[test]
fn test_quoted_commas_not_split() {
    let raw = Raw::from_line(b"\"a, b\", c".to_vec());
    let ce = ContentEncoding::parse_header(&raw).unwrap();
    assert_eq!(
        ce.0,
        vec![
            Encoding::EncodingExt(b"\"a, b\"".to_vec()),
            Encoding::EncodingExt(b"c".to_vec())
        ]
    );
}

#[test]
fn test_accept_language_parse() {
    let raw = Raw::from_line(b"da, en-gb;q=0.8, en;q=0.7".to_vec());
    let al = AcceptLanguage::parse_header(&raw).unwrap();
    assert_eq!(al.0.len(), 3);
    assert_eq!(al.0[0].item.as_bytes().as_slice(), b"da");
    assert_eq!(al.0[0].quality, Quality(1000));
    assert_eq!(al.0[1].item.as_bytes().as_slice(), b"en-gb");
    assert_eq!(al.0[1].quality, Quality(800));
    assert_eq!(al.0[2].item.as_bytes().as_slice(), b"en");
    assert_eq!(al.0[2].quality, Quality(700));

    let raw = Raw::from_line(b"en-US, en; q=0.5, fr".to_vec());
    let al = AcceptLanguage::parse_header(&raw).unwrap();
    let expected = AcceptLanguage(vec![
        qitem(LanguageTag::parse("en-US").unwrap()),
        QualityItem::new(LanguageTag::parse("en").unwrap(), q(500)),
        qitem(LanguageTag::parse("fr").unwrap()),
    ]);
    assert_eq!(al, expected);
}

#[test]
fn test_accept_language_round_trip() {
    let v = AcceptLanguage(vec![
        qitem(LanguageTag::parse("da").unwrap()),
        QualityItem::new(LanguageTag::parse("en-US").unwrap(), q(800)),
        QualityItem::new(LanguageTag::parse("en").unwrap(), q(700)),
    ]);
    let wire = v.fmt_header();
    assert_eq!(wire.get(0).as_slice(), b"da, en-US;q=0.8, en;q=0.7");
    let parsed = AcceptLanguage::parse_header(&wire).unwrap();
    assert_eq!(parsed, v);
}

#[test]
fn test_language_tag_validation() {
    assert!(LanguageTag::parse("en-US").is_some());
    assert!(LanguageTag::parse("not a tag !!").is_none());
    assert!(LanguageTag::parse("").is_none());
    let raw = Raw::from_line(b"en-US, x123456789-not-well-formed-000000".to_vec());
    assert!(AcceptLanguage::parse_header(&raw).is_err());
}

#[test]
fn test_raw_one_and_replace() {
    let mut raw = Raw::new();
    assert!(raw.one().is_none());
    raw.push(b"x".to_vec());
    assert_eq!(raw.one().unwrap().as_slice(), b"x");
    raw.push(b"y".to_vec());
    assert!(raw.one().is_none());
    raw.replace(b"z".to_vec());
    assert_eq!(raw.one().unwrap().as_slice(), b"z");
    assert_eq!(raw.len(), 1);
}
