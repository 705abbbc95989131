use bt::filter::{decode_filters, match_by_regex, RssFilter, RssFilterChain};

#[test]
fn test_match_by_regex() {
    assert!(match_by_regex(
        "CR|Crunchyroll",
        "[Up to 21°C] Yuru Camp△ Season 3 - 01 (cr 1920x1080 AVC AAC MKV) [5BE12A49].mkv"
    ));
    assert!(match_by_regex(
        "CR|Crunchyroll",
        "[Up to 21°C] Yuru Camp△ Season 3 - 01 (crunchyroll 1920x1080 AVC AAC MKV) [5BE12A49].mkv"
    ));
    assert!(!match_by_regex(
        "CR|Crunchyroll",
        "[Up to 21°C] Yuru Camp△ Season 3 - 01 (Baha 1920x1080 AVC AAC MKV) [5BE12A49].mkv"
    ));

    assert!(match_by_regex(
        r"\.mkv$",
        "[Up to 21°C] Yuru Camp△ Season 3 - 01 (CR 1920x1080 AVC AAC MKV) [5BE12A49].mkv"
    ));
    assert!(match_by_regex(
        r"\.mkv$",
        "[Up to 21°C] Yuru Camp△ Season 3 - 01 (CR 1920x1080 AVC AAC MKV) [5BE12A49].MKV"
    ));
    assert!(!match_by_regex(
        r"\.mkv$",
        "[Up to 21°C] Yuru Camp△ Season 3 - 01 (CR 1920x1080 AVC AAC MKV) [5BE12A49].mp4"
    ));
}

#[test]
fn test_broken_pattern_matches_nothing() {
    assert!(!match_by_regex("(", "anything("));
}

#[test]
fn test_filter_chain() {
    let filter_chain = RssFilterChain(vec![
        RssFilter::FilenameRegex("CR|Crunchyroll".to_string()),
        RssFilter::FilenameRegex("Baha".to_string()),
        RssFilter::FilenameRegex(r"\.mp4$".to_string()),
    ]);

    let filenames = vec![
        "[Up to 21°C] Yuru Camp△ Season 3 - 01 (CR 1920x1080 AVC AAC MKV) [5BE12A49].mkv",
        "[Up to 21°C] Yuru Camp△ Season 3 - 01 (crunchyroll 1920x1080 AVC AAC MKV) [5BE12A49].mkv",
        "[Up to 21°C] Yuru Camp△ Season 3 - 01 (Baha 1920x1080 AVC AAC MKV) [5BE12A49].mkv",
        "[Up to 21°C] Yuru Camp△ Season 3 - 01 (Baha 1920x1080 AVC AAC MKV) [5BE12A49].mp4",
        "[Up to 21°C] Yuru Camp△ Season 3 - 01 (friDay 1920x1080 AVC AAC MKV) [5BE12A49].mkv",
    ];
    let results = vec![false, false, false, false, true];
    for (filename, result) in filenames.iter().zip(results.iter()) {
        assert_eq!(filter_chain.is_match(filename), *result, "{}", filename);
    }
}

#[test]
fn test_filter_chain_exclude_only() {
    let filter_chain = RssFilterChain(vec![RssFilter::FilenameRegex(r"\.mp4$".to_string())]);

    let filenames = vec![
        "[Up to 21°C] Yuru Camp△ Season 3 - 01 (CR 1920x1080 AVC AAC MKV) [5BE12A49].mkv",
        "[Up to 21°C] Yuru Camp△ Season 3 - 01 (crunchyroll 1920x1080 AVC AAC MKV) [5BE12A49].mkv",
        "[Up to 21°C] Yuru Camp△ Season 3 - 01 (Baha 1920x1080 AVC AAC MKV) [5BE12A49].mkv",
        "[Up to 21°C] Yuru Camp△ Season 3 - 01 (Baha 1920x1080 AVC AAC MKV) [5BE12A49].mp4",
    ];
    let results = vec![true, true, true, false];
    for (filename, result) in filenames.iter().zip(results.iter()) {
        assert_eq!(filter_chain.is_match(filename), *result, "{}", filename);
    }
}

#[test]
fn test_empty_chain_admits_all() {
    let chain = RssFilterChain(Vec::new());
    assert!(chain.is_match("anything at all"));
    assert!(chain.is_admitted(Some("anything")));
    // An item whose torrent name could not be fetched is admitted.
    assert!(chain.is_admitted(None));
}

#[test]
fn test_filter_labels() {
    let f = RssFilter::FilenameRegex(r"\.mp4$".to_string());
    assert_eq!(f.to_label(), r"FilenameRegex-\.mp4$");
    match RssFilter::from_label(r"FilenameRegex-\.mp4$") {
        Some(RssFilter::FilenameRegex(p)) => assert_eq!(p, r"\.mp4$"),
        None => panic!("label not recognised"),
    }
    assert!(RssFilter::from_label("SomethingElse-x").is_none());
}

#[test]
fn test_filters_json_round_trip() {
    let chain = RssFilterChain(vec![
        RssFilter::FilenameRegex(r"\.mp4$".to_string()),
        RssFilter::FilenameRegex("CR|Crunchyroll".to_string()),
        RssFilter::FilenameRegex("quote\"back\\slash\ttab".to_string()),
    ]);
    let text = chain.encode();
    assert_eq!(
        text,
        "[\"FilenameRegex-\\\\.mp4$\",\"FilenameRegex-CR|Crunchyroll\",\"FilenameRegex-quote\\\"back\\\\slash\\ttab\"]"
    );
    let back = decode_filters(&text).unwrap();
    assert_eq!(back.0.len(), 3);
    let RssFilter::FilenameRegex(p0) = &back.0[0];
    let RssFilter::FilenameRegex(p1) = &back.0[1];
    let RssFilter::FilenameRegex(p2) = &back.0[2];
    assert_eq!(p0, r"\.mp4$");
    assert_eq!(p1, "CR|Crunchyroll");
    assert_eq!(p2, "quote\"back\\slash\ttab");
}

#[test]
fn test_filters_json_empty_and_bad() {
    let chain = RssFilterChain(Vec::new());
    assert_eq!(chain.encode(), "[]");
    assert_eq!(decode_filters("[]").unwrap().0.len(), 0);
    assert!(decode_filters("").is_none());
    assert!(decode_filters("{\"a\":1}").is_none());
    assert!(decode_filters("[\"NotAFilter-x\"]").is_none());
}
