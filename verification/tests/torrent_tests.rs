use bt::bencode::{encode_canonical, parse_value, BencodeValue};
use bt::cache::TorrentCache;
use bt::torrent::{Torrent, TorrentFileError};
use sha1::Digest;

fn torrent_bytes(name: &str) -> Vec<u8> {
    format!(
        "d8:announce0:4:infod6:lengthi0e4:name{}:{}12:piece lengthi0e6:pieces0:ee",
        name.len(),
        name
    )
    .into_bytes()
}

fn info_slice(name: &str) -> Vec<u8> {
    format!(
        "d6:lengthi0e4:name{}:{}12:piece lengthi0e6:pieces0:e",
        name.len(),
        name
    )
    .into_bytes()
}

#[test]
fn test_from_bytes_reads_name() {
    let t = Torrent::from_bytes(&torrent_bytes("Show.S01E07.mkv")).unwrap();
    assert_eq!(t.get_info_name(), "Show.S01E07.mkv");
    assert_eq!(t.raw_bytes(), torrent_bytes("Show.S01E07.mkv"));
}

#[test]
fn test_torrent_id_is_sha1_of_info() {
    let t = Torrent::from_bytes(&torrent_bytes("Show.mkv")).unwrap();
    let mut h = sha1::Sha1::new();
    h.update(&info_slice("Show.mkv"));
    let expected: Vec<u8> = h.finalize().to_vec();
    assert_eq!(t.torrent_id(), expected);
    assert_eq!(t.torrent_id_hex(), hex::encode(&expected));
}

#[test]
fn test_torrent_id_v2_truncated_sha256() {
    let bytes = b"d4:infod6:lengthi0e12:meta versioni2e4:name5:a.mkv12:piece lengthi0e6:pieces0:ee".to_vec();
    let info = b"d6:lengthi0e12:meta versioni2e4:name5:a.mkv12:piece lengthi0e6:pieces0:e".to_vec();
    let t = Torrent::from_bytes(&bytes).unwrap();
    let mut h = sha2::Sha256::new();
    sha2::Digest::update(&mut h, &info);
    let full: Vec<u8> = h.finalize().to_vec();
    assert_eq!(t.torrent_id(), full[..20].to_vec());
}

#[test]
fn test_from_bytes_errors() {
    assert!(matches!(
        Torrent::from_bytes(&b"not bencode".to_vec()),
        Err(TorrentFileError::NotBencode)
    ));
    assert!(matches!(
        Torrent::from_bytes(&b"le".to_vec()),
        Err(TorrentFileError::RootNotDict)
    ));
    assert!(matches!(
        Torrent::from_bytes(&b"d1:ai1ee".to_vec()),
        Err(TorrentFileError::InfoMissing)
    ));
    assert!(matches!(
        Torrent::from_bytes(
            &b"d4:infod12:meta versioni3e4:name1:xee".to_vec()
        ),
        Err(TorrentFileError::UnsupportedMetaVersion)
    ));
    assert!(matches!(
        Torrent::from_bytes(&b"d4:infod6:lengthi0eee".to_vec()),
        Err(TorrentFileError::NameInvalid)
    ));
}

#[test]
fn test_bencode_reencode_is_byte_identical() {
    // Keys in the source are already sorted: re-encoding reproduces the
    // parsed bytes exactly.
    let bytes = torrent_bytes("迷宫饭");
    let parsed = parse_value(&bytes, 0).unwrap();
    assert_eq!(parsed.end, bytes.len());
    let out = encode_canonical(&parsed.value);
    assert_eq!(out, bytes);
}

#[test]
fn test_bencode_canonicalises_unsorted_dict() {
    let bytes = b"d1:bi1e1:ai0ee".to_vec();
    let parsed = parse_value(&bytes, 0).unwrap();
    let out = encode_canonical(&parsed.value);
    assert_eq!(out, b"d1:ai0e1:bi1ee".to_vec());
}

#[test]
fn test_bencode_rejects_noncanonical_numbers() {
    assert!(parse_value(&b"i03e".to_vec(), 0).is_none());
    assert!(parse_value(&b"i-0e".to_vec(), 0).is_none());
    assert!(parse_value(&b"01:a".to_vec(), 0).is_none());
    assert!(parse_value(&b"i1x".to_vec(), 0).is_none());
    assert!(parse_value(&b"5:ab".to_vec(), 0).is_none());
}

#[test]
fn test_bencode_values() {
    let parsed = parse_value(&b"li-12e3:abce".to_vec(), 0).unwrap();
    match parsed.value {
        BencodeValue::List(items) => {
            assert_eq!(items.len(), 2);
            assert!(matches!(items[0], BencodeValue::Int(-12)));
            match &items[1] {
                BencodeValue::Bytes(b) => assert_eq!(b, &b"abc".to_vec()),
                other => panic!("unexpected value: {:?}", other),
            }
        },
        other => panic!("unexpected value: {:?}", other),
    }
}

#[test]
fn test_cache_hit_and_miss() {
    let mut cache = TorrentCache::new();
    assert_eq!(cache.len(), 0);
    assert!(cache.lookup("https://example.com/a.torrent").is_none());
    let t = Torrent::from_bytes(&torrent_bytes("A.mkv")).unwrap();
    cache.insert("https://example.com/a.torrent", t);
    let got = cache.lookup("https://example.com/a.torrent").unwrap();
    assert_eq!(got.get_info_name(), "A.mkv");
    assert_eq!(cache.len(), 1);
}

#[test]
fn test_cache_evicts_least_recently_used() {
    let mut cache = TorrentCache::new();
    for k in 0..100u32 {
        let name = format!("N{}.mkv", k);
        let t = Torrent::from_bytes(&torrent_bytes(&name)).unwrap();
        cache.insert(&format!("https://example.com/{}.torrent", k), t);
    }
    assert_eq!(cache.len(), 100);
    // Refresh the oldest entry, then add a 101st distinct url: the least
    // recently used one — now the second — leaves.
    assert!(cache.lookup("https://example.com/0.torrent").is_some());
    let t = Torrent::from_bytes(&torrent_bytes("Last.mkv")).unwrap();
    cache.insert("https://example.com/last.torrent", t);
    assert_eq!(cache.len(), 100);
    assert!(cache.lookup("https://example.com/0.torrent").is_some());
    assert!(cache.lookup("https://example.com/1.torrent").is_none());
    assert!(cache.lookup("https://example.com/last.torrent").is_some());
}
