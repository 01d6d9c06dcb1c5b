use http_compression::codec::{parse_encoding_with_quality, Codec};
use http_compression::quality::{Quality, ONE};

#[test]
fn test_content_encoding() {
    assert_eq!(Codec::Zstd.content_encoding(), "zstd");
    assert_eq!(Codec::Brotli.content_encoding(), "br");
    assert_eq!(Codec::Gzip.content_encoding(), "gzip");
    assert_eq!(Codec::Deflate.content_encoding(), "deflate");
}

#[test]
fn test_from_accept_encoding_simple() {
    assert_eq!(Codec::from_accept_encoding("zstd"), Some(Codec::Zstd));
    assert_eq!(Codec::from_accept_encoding("br"), Some(Codec::Brotli));
    assert_eq!(Codec::from_accept_encoding("gzip"), Some(Codec::Gzip));
    assert_eq!(Codec::from_accept_encoding("deflate"), Some(Codec::Deflate));
}

#[test]
fn test_from_accept_encoding_multiple() {
    // With equal quality, prefer zstd
    assert_eq!(
        Codec::from_accept_encoding("gzip, br, zstd"),
        Some(Codec::Zstd)
    );
}

#[test]
fn test_from_accept_encoding_with_quality() {
    assert_eq!(
        Codec::from_accept_encoding("gzip;q=1.0, br;q=0.5"),
        Some(Codec::Gzip)
    );
    assert_eq!(
        Codec::from_accept_encoding("gzip;q=0.5, br;q=1.0"),
        Some(Codec::Brotli)
    );
}

#[test]
fn test_from_accept_encoding_unsupported() {
    assert_eq!(Codec::from_accept_encoding("identity"), None);
    assert_eq!(Codec::from_accept_encoding("compress"), None);
}

#[test]
fn test_from_accept_encoding_quality_zero() {
    assert_eq!(Codec::from_accept_encoding("gzip;q=0"), None);
    assert_eq!(
        Codec::from_accept_encoding("gzip;q=0, br"),
        Some(Codec::Brotli)
    );
}

#[test]
fn documented_header_prefers_brotli() {
    assert_eq!(
        Codec::from_accept_encoding("gzip, br;q=1.0, zstd;q=0.8"),
        Some(Codec::Brotli)
    );
}

#[test]
fn aliases_name_codecs() {
    assert_eq!(Codec::from_accept_encoding("brotli"), Some(Codec::Brotli));
    assert_eq!(Codec::from_accept_encoding("x-gzip"), Some(Codec::Gzip));
}

#[test]
fn names_are_told_apart_by_case() {
    assert_eq!(Codec::from_accept_encoding("GZIP"), None);
    assert_eq!(Codec::from_accept_encoding("Br"), None);
}

#[test]
fn equal_quality_goes_by_priority() {
    assert_eq!(
        Codec::from_accept_encoding("deflate;q=0.5, gzip;q=0.5"),
        Some(Codec::Gzip)
    );
    assert_eq!(
        Codec::from_accept_encoding("deflate, gzip, br"),
        Some(Codec::Brotli)
    );
    assert!(Codec::Zstd.priority() < Codec::Brotli.priority());
    assert!(Codec::Brotli.priority() < Codec::Gzip.priority());
    assert!(Codec::Gzip.priority() < Codec::Deflate.priority());
}

#[test]
fn order_of_entries_does_not_matter() {
    let entries = ["zstd;q=0.3", "br;q=0.9", "gzip;q=0.9", "deflate;q=0.1"];
    for i in 0..entries.len() {
        let mut turned = entries.to_vec();
        turned.rotate_left(i);
        let header = turned.join(",");
        assert_eq!(
            Codec::from_accept_encoding(&header),
            Some(Codec::Brotli),
            "{header}"
        );
    }
}

#[test]
fn qualities_within_single_precision_are_equal() {
    // The two numbers round to the same single-precision value
    assert_eq!(
        Codec::from_accept_encoding("gzip;q=0.50000001, zstd;q=0.5"),
        Some(Codec::Zstd)
    );
    assert_eq!(
        Codec::from_accept_encoding("gzip;q=0.5000001, zstd;q=0.5"),
        Some(Codec::Gzip)
    );
}

#[test]
fn unreadable_quality_counts_as_one() {
    assert_eq!(
        Codec::from_accept_encoding("gzip;q=high, br;q=0.9"),
        Some(Codec::Gzip)
    );
    assert_eq!(
        Codec::from_accept_encoding("gzip;q= 0.1, br;q=0.9"),
        Some(Codec::Gzip)
    );
    assert_eq!(
        Codec::from_accept_encoding("gzip;level=0, br;q=0.9"),
        Some(Codec::Gzip)
    );
    assert_eq!(
        Codec::from_accept_encoding("gzip;q=0;x=1, br;q=0.9"),
        Some(Codec::Gzip)
    );
}

#[test]
fn capital_q_gives_a_quality() {
    assert_eq!(
        Codec::from_accept_encoding("gzip;Q=0.2, br;Q=0.3"),
        Some(Codec::Brotli)
    );
}

#[test]
fn zero_has_many_spellings() {
    for zero in ["0", "0.0", "0.000", "-0", "+0", "0e5", ".0", "0.", "1e-60"] {
        let header = format!("gzip;q={zero}");
        assert_eq!(Codec::from_accept_encoding(&header), None, "{header}");
    }
}

#[test]
fn qualities_outside_the_usual_range() {
    assert_eq!(
        Codec::from_accept_encoding("gzip;q=-1"),
        Some(Codec::Gzip)
    );
    assert_eq!(
        Codec::from_accept_encoding("zstd;q=-2, gzip;q=-1"),
        Some(Codec::Gzip)
    );
    assert_eq!(
        Codec::from_accept_encoding("zstd;q=1e30, gzip;q=inf"),
        Some(Codec::Gzip)
    );
    assert_eq!(
        Codec::from_accept_encoding("zstd;q=1e999999999999, gzip;q=infinity, br;q=1"),
        Some(Codec::Zstd)
    );
}

#[test]
fn a_quality_that_is_no_number_stands_only_when_first() {
    assert_eq!(
        Codec::from_accept_encoding("gzip;q=nan, zstd"),
        Some(Codec::Gzip)
    );
    assert_eq!(
        Codec::from_accept_encoding("deflate, gzip;q=NaN"),
        Some(Codec::Deflate)
    );
    assert_eq!(
        Codec::from_accept_encoding("identity, gzip;q=nan, deflate;q=nan"),
        Some(Codec::Gzip)
    );
}

#[test]
fn empty_entries_are_skipped() {
    assert_eq!(Codec::from_accept_encoding(""), None);
    assert_eq!(Codec::from_accept_encoding(","), None);
    assert_eq!(Codec::from_accept_encoding(", ,gzip,,"), Some(Codec::Gzip));
    assert_eq!(Codec::from_accept_encoding(";q=1"), None);
}

#[test]
fn white_space_is_trimmed() {
    assert_eq!(
        Codec::from_accept_encoding("\t gzip ; q=0.5 ,\u{a0}br\u{3000}; Q=0.6 "),
        Some(Codec::Brotli)
    );
    assert_eq!(Codec::from_accept_encoding("g zip"), None);
}

#[test]
fn own_name_is_accepted() {
    for codec in [Codec::Zstd, Codec::Brotli, Codec::Gzip, Codec::Deflate] {
        assert_eq!(
            Codec::from_accept_encoding(codec.content_encoding()),
            Some(codec)
        );
    }
}

#[test]
fn unsupported_entries_change_nothing() {
    assert_eq!(
        Codec::from_accept_encoding("identity, gzip;q=0.4, compress, *"),
        Some(Codec::Gzip)
    );
}

#[test]
fn entry_parts() {
    let entry: Vec<char> = "br;q=0.5".chars().collect();
    let (encoding, quality) = parse_encoding_with_quality(&entry);
    assert_eq!(encoding, ['b', 'r']);
    assert_eq!(quality, Quality::Number(0x3f00_0000));
    let entry: Vec<char> = " gzip ".chars().collect();
    let (encoding, quality) = parse_encoding_with_quality(&entry);
    assert_eq!(encoding, ['g', 'z', 'i', 'p']);
    assert_eq!(quality, Quality::Number(ONE));
}
