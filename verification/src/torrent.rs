//! Torrent metadata: the reference a feed hands to the downloader, and the
//! parsed `.torrent` data behind it.
use vstd::prelude::*;

use crate::renamer::clone_opt_string;
use sha1::Digest;

verus! {

/// Reference to a `.torrent` resource, with optional placement suggestions.
#[derive(Debug)]
pub struct TorrentMeta {
    /// Where the `.torrent` file is fetched from.
    pub url: String,
    /// Suggested download directory.
    pub save_path: Option<String>,
    /// Suggested client category.
    pub category: Option<String>,
}

impl Clone for TorrentMeta {
    fn clone(&self) -> (r: Self)
        ensures
            r == *self,
    {
        TorrentMeta {
            url: self.url.clone(),
            save_path: clone_opt_string(&self.save_path),
            category: clone_opt_string(&self.category),
        }
    }
}

/// A torrent whose file could not be fetched or understood: the url and the
/// underlying cause.
#[derive(Debug)]
pub struct TorrentInaccessibleError {
    pub url: String,
    pub detail: String,
}

impl TorrentInaccessibleError {
    pub fn new(url: String, detail: String) -> (r: Self)
        ensures
            r.url == url,
            r.detail == detail,
    {
        TorrentInaccessibleError { url, detail }
    }
}

/// Why a `.torrent` file was rejected.
#[derive(Debug, Clone, Copy, PartialEq, Eq, Structural)]
pub enum TorrentFileError {
    /// The bytes are not one whole bencode value.
    NotBencode,
    /// The root value is not a dictionary.
    RootNotDict,
    /// The root has no `info` dictionary.
    InfoMissing,
    /// The `info` dictionary's `meta version` is one this library does not
    /// compute an id for.
    UnsupportedMetaVersion,
    /// The `info` dictionary's `name` is missing or not text.
    NameInvalid,
}

/// The SHA-1 digest of a byte sequence.
pub uninterp spec fn sha1_of(data: Seq<u8>) -> Seq<u8>;

/// Relies on the sha1 crate's `Sha1`: the digest is a function of the input
/// bytes alone and is 20 bytes long.
#[verifier::external_body]
fn sha1_digest(data: &Vec<u8>) -> (r: Vec<u8>)
    ensures
        r@ == sha1_of(data@),
        r@.len() == 20,
{
    let mut h = sha1::Sha1::new();
    h.update(data.as_slice());
    h.finalize().to_vec()
}

/// The SHA-256 digest of a byte sequence.
pub uninterp spec fn sha256_of(data: Seq<u8>) -> Seq<u8>;

/// Relies on the sha2 crate's `Sha256`: the digest is a function of the
/// input bytes alone and is 32 bytes long.
#[verifier::external_body]
fn sha256_digest(data: &Vec<u8>) -> (r: Vec<u8>)
    ensures
        r@ == sha256_of(data@),
        r@.len() == 32,
{
    let mut h = sha2::Sha256::new();
    h.update(data.as_slice());
    h.finalize().to_vec()
}

/// The lowercase hex character for `d`.
pub open spec fn spec_hex_digit(d: int) -> char {
    seq![
        '0',
        '1',
        '2',
        '3',
        '4',
        '5',
        '6',
        '7',
        '8',
        '9',
        'a',
        'b',
        'c',
        'd',
        'e',
        'f',
    ][d]
}

/// The lowercase hex encoding of a byte sequence: two characters per byte,
/// high nibble first.
pub open spec fn spec_hex_lower(b: Seq<u8>) -> Seq<char>
    decreases b.len(),
{
    if b.len() == 0 {
        Seq::empty()
    } else {
        seq![
            spec_hex_digit(b.first() as int / 16),
            spec_hex_digit((b.first() % 16) as int),
        ] + spec_hex_lower(b.drop_first())
    }
}

/// The lowercase hex character for `d`.
fn hex_char_of(d: u8) -> (r: char)
    requires
        d < 16,
    ensures
        r == spec_hex_digit(d as int),
{
    match d {
        0 => '0',
        1 => '1',
        2 => '2',
        3 => '3',
        4 => '4',
        5 => '5',
        6 => '6',
        7 => '7',
        8 => '8',
        9 => '9',
        10 => 'a',
        11 => 'b',
        12 => 'c',
        13 => 'd',
        14 => 'e',
        _ => 'f',
    }
}

/// The lowercase hex encoding of the bytes: two characters per byte, high
/// nibble first.
fn hex_lower(b: &Vec<u8>) -> (r: String)
    ensures
        r@ == spec_hex_lower(b@),
{
    let mut out: Vec<char> = Vec::new();
    let mut j: usize = 0;
    proof {
        assert(b@.skip(0) == b@);
    }
    while j < b.len()
        invariant
            j <= b@.len(),
            out@ + spec_hex_lower(b@.skip(j as int)) == spec_hex_lower(b@),
        decreases b@.len() - j,
    {
        let ghost rest = b@.skip(j as int);
        let ghost out0 = out@;
        proof {
            assert(rest.first() == b@[j as int]);
            assert(rest.drop_first() =~= b@.skip(j + 1 as int));
        }
        let x = b[j];
        out.push(hex_char_of(x / 16));
        out.push(hex_char_of(x % 16));
        proof {
            assert(out@ =~= out0 + seq![
                spec_hex_digit(rest.first() as int / 16),
                spec_hex_digit((rest.first() % 16) as int),
            ]);
        }
        j = j + 1;
    }
    proof {
        assert(spec_hex_lower(b@.skip(b@.len() as int)) =~= Seq::<char>::empty());
        assert(out@ + Seq::<char>::empty() =~= out@);
    }
    crate::text::string_from_chars(&out)
}

/// Relies on std's `String::from_utf8`: it succeeds exactly on valid UTF-8
/// and returns the string those bytes encode.
#[verifier::external_body]
fn utf8_to_string(b: &Vec<u8>) -> (r: Option<String>)
    ensures
        r is Some <==> vstd::utf8::valid_utf8(b@),
        match r {
            Some(s) => vstd::utf8::encode_utf8(s@) == b@,
            None => true,
        },
{
    String::from_utf8(b.clone()).ok()
}

/// First value stored under `key`, at or after `i`.
pub open spec fn spec_dict_get(
    pairs: Seq<(Seq<u8>, crate::bencode::BValue)>,
    key: Seq<u8>,
    i: int,
) -> Option<crate::bencode::BValue>
    decreases pairs.len() - i,
{
    if i < 0 {
        spec_dict_get(pairs, key, 0)
    } else if i >= pairs.len() {
        None
    } else if pairs[i].0 == key {
        Some(pairs[i].1)
    } else {
        spec_dict_get(pairs, key, i + 1)
    }
}

/// Look a key up in a parsed dictionary.
fn dict_get<'a>(
    pairs: &'a Vec<(Vec<u8>, crate::bencode::BencodeValue)>,
    key: &Vec<u8>,
) -> (r: Option<&'a crate::bencode::BencodeValue>)
    ensures
        match r {
            Some(val) => spec_dict_get(crate::bencode::view_pairs(pairs@, 0), key@, 0) == Some(
                crate::bencode::view_value(*val),
            ),
            None => spec_dict_get(crate::bencode::view_pairs(pairs@, 0), key@, 0) is None,
        },
{
    let ghost pv = crate::bencode::view_pairs(pairs@, 0);
    proof {
        crate::bencode::lemma_view_pairs_index_pub(pairs@, 0);
    }
    let mut j: usize = 0;
    #[verifier::loop_isolation(false)]
    while j < pairs.len()
        invariant
            j <= pairs@.len(),
            spec_dict_get(pv, key@, 0) == spec_dict_get(pv, key@, j as int),
        decreases pairs@.len() - j,
    {
        if bytes_equal(&pairs[j].0, key) {
            return Some(&pairs[j].1);
        }
        j = j + 1;
    }
    None
}

/// Whether two byte vectors hold the same bytes.
fn bytes_equal(a: &Vec<u8>, b: &Vec<u8>) -> (r: bool)
    ensures
        r == (a@ == b@),
{
    if a.len() != b.len() {
        proof {
            assert(a@.len() != b@.len());
        }
        return false;
    }
    let mut j: usize = 0;
    while j < a.len()
        invariant
            j <= a@.len(),
            a@.len() == b@.len(),
            forall|k: int| 0 <= k < j ==> a@[k] == b@[k],
        decreases a@.len() - j,
    {
        if a[j] != b[j] {
            return false;
        }
        j = j + 1;
    }
    proof {
        assert(a@ =~= b@);
    }
    true
}

/// The `info` key.
pub open spec fn spec_info_key() -> Seq<u8> {
    seq![105u8, 110u8, 102u8, 111u8]
}

/// The `name` key.
pub open spec fn spec_name_key() -> Seq<u8> {
    seq![110u8, 97u8, 109u8, 101u8]
}

/// The `meta version` key.
pub open spec fn spec_meta_version_key() -> Seq<u8> {
    seq![109u8, 101u8, 116u8, 97u8, 32u8, 118u8, 101u8, 114u8, 115u8, 105u8, 111u8, 110u8]
}

/// The torrent id of an `info` dictionary whose canonical encoding is
/// `enc`: its SHA-1 for version 1, its SHA-256 truncated to 20 bytes for
/// version 2.
pub open spec fn spec_torrent_id(enc: Seq<u8>, v2: bool) -> Seq<u8> {
    if v2 {
        sha256_of(enc).take(20)
    } else {
        sha1_of(enc)
    }
}

/// A parsed `.torrent` file: its raw bytes, its declared name, its computed
/// torrent id, and — as the specification-level remainder of parsing — its
/// whole dictionary.
pub struct Torrent {
    pub raw: Vec<u8>,
    pub id_bytes: Vec<u8>,
    pub name: String,
    /// The parsed root dictionary, kept at the specification level.
    pub root: Ghost<crate::bencode::BValue>,
}

impl Clone for Torrent {
    fn clone(&self) -> (r: Self)
        ensures
            r.raw@ == self.raw@,
            r.id_bytes@ == self.id_bytes@,
            r.name == self.name,
            r.root == self.root,
    {
        Torrent {
            raw: clone_bytes(&self.raw),
            id_bytes: clone_bytes(&self.id_bytes),
            name: self.name.clone(),
            root: self.root,
        }
    }
}

/// A copy of a byte vector with the same bytes.
pub fn clone_bytes(v: &Vec<u8>) -> (r: Vec<u8>)
    ensures
        r@ == v@,
{
    let mut out: Vec<u8> = Vec::new();
    let mut j: usize = 0;
    while j < v.len()
        invariant
            j <= v@.len(),
            out@ == v@.subrange(0, j as int),
        decreases v@.len() - j,
    {
        out.push(v[j]);
        assert(out@ == v@.subrange(0, j + 1 as int));
        j = j + 1;
    }
    proof {
        assert(v@.subrange(0, v@.len() as int) == v@);
    }
    out
}

/// Why `from_bytes` rejects the given bytes, or nothing when it accepts
/// them: not one whole bencode value, a non-dictionary root, a missing or
/// non-dictionary `info`, a `meta version` other than 2, or a missing,
/// non-textual or non-UTF-8 `name` — the first that applies, in that order.
pub open spec fn spec_torrent_error(bytes: Seq<u8>) -> Option<TorrentFileError> {
    let parsed = crate::bencode::spec_parse(bytes, 0);
    if !(parsed is Some) || parsed->Some_0.1 != bytes.len() {
        Some(TorrentFileError::NotBencode)
    } else if !(parsed->Some_0.0 is Dict) {
        Some(TorrentFileError::RootNotDict)
    } else {
        let info = spec_dict_get(parsed->Some_0.0->Dict_0, spec_info_key(), 0);
        if !(info is Some) || !(info->Some_0 is Dict) {
            Some(TorrentFileError::InfoMissing)
        } else {
            let mv = spec_dict_get(info->Some_0->Dict_0, spec_meta_version_key(), 0);
            if mv is Some && mv->Some_0 != crate::bencode::BValue::Int(2) {
                Some(TorrentFileError::UnsupportedMetaVersion)
            } else {
                let nb = spec_dict_get(info->Some_0->Dict_0, spec_name_key(), 0);
                if !(nb is Some) || !(nb->Some_0 is Bytes) || !vstd::utf8::valid_utf8(
                    nb->Some_0->Bytes_0,
                ) {
                    Some(TorrentFileError::NameInvalid)
                } else {
                    None
                }
            }
        }
    }
}

impl Torrent {
    /// Parse a `.torrent` file: it succeeds exactly when the bytes are one
    /// whole bencode dictionary holding an `info` dictionary with a textual
    /// `name` and a `meta version` that is absent or 2, and fails with the
    /// error `spec_torrent_error` names otherwise. The torrent id is the
    /// SHA-1 of the info dictionary's canonical encoding, or its truncated
    /// SHA-256 when `meta version` is 2.
    pub fn from_bytes(bytes: &Vec<u8>) -> (r: Result<Torrent, TorrentFileError>)
        ensures
            ({
                let parsed = crate::bencode::spec_parse(bytes@, 0);
                match r {
                    Ok(t) => {
                        &&& spec_torrent_error(bytes@) is None
                        &&& parsed is Some
                        &&& parsed->Some_0.1 == bytes@.len()
                        &&& t.root@ == parsed->Some_0.0
                        &&& t.raw@ == bytes@
                        &&& parsed->Some_0.0 is Dict
                        &&& ({
                            let pairs = parsed->Some_0.0->Dict_0;
                            let info = spec_dict_get(pairs, spec_info_key(), 0);
                            &&& info is Some
                            &&& info->Some_0 is Dict
                            &&& ({
                                let ipairs = info->Some_0->Dict_0;
                                let mv = spec_dict_get(ipairs, spec_meta_version_key(), 0);
                                let v2 = mv == Some(crate::bencode::BValue::Int(2));
                                &&& (mv is Some ==> (mv->Some_0 is Int && mv->Some_0->Int_0 == 2))
                                &&& t.id_bytes@ == spec_torrent_id(
                                    crate::bencode::spec_encode(
                                        crate::bencode::spec_canon(info->Some_0),
                                    ),
                                    v2,
                                )
                                &&& t.id_bytes@.len() == 20
                                &&& ({
                                    let nb = spec_dict_get(ipairs, spec_name_key(), 0);
                                    &&& nb is Some
                                    &&& nb->Some_0 is Bytes
                                    &&& vstd::utf8::encode_utf8(t.name@) == nb->Some_0->Bytes_0
                                })
                            })
                        })
                    },
                    Err(e) => spec_torrent_error(bytes@) == Some(e),
                }
            }),
    {
        let parsed = match crate::bencode::parse_value(bytes, 0) {
            Some(p) => p,
            None => {
                return Err(TorrentFileError::NotBencode);
            },
        };
        if parsed.end != bytes.len() {
            return Err(TorrentFileError::NotBencode);
        }
        let root = parsed.value;
        let pairs = match &root {
            crate::bencode::BencodeValue::Dict(d) => d,
            _ => {
                return Err(TorrentFileError::RootNotDict);
            },
        };
        let mut info_key: Vec<u8> = Vec::new();
        info_key.push(105);
        info_key.push(110);
        info_key.push(102);
        info_key.push(111);
        proof {
            assert(info_key@ =~= spec_info_key());
        }
        let info = match dict_get(pairs, &info_key) {
            Some(v) => v,
            None => {
                return Err(TorrentFileError::InfoMissing);
            },
        };
        let ipairs = match info {
            crate::bencode::BencodeValue::Dict(d) => d,
            _ => {
                return Err(TorrentFileError::InfoMissing);
            },
        };
        let mut mv_key: Vec<u8> = Vec::new();
        mv_key.push(109);
        mv_key.push(101);
        mv_key.push(116);
        mv_key.push(97);
        mv_key.push(32);
        mv_key.push(118);
        mv_key.push(101);
        mv_key.push(114);
        mv_key.push(115);
        mv_key.push(105);
        mv_key.push(111);
        mv_key.push(110);
        proof {
            assert(mv_key@ =~= spec_meta_version_key());
        }
        let v2 = match dict_get(ipairs, &mv_key) {
            None => false,
            Some(crate::bencode::BencodeValue::Int(x)) => {
                if *x == 2 {
                    true
                } else {
                    return Err(TorrentFileError::UnsupportedMetaVersion);
                }
            },
            Some(_) => {
                return Err(TorrentFileError::UnsupportedMetaVersion);
            },
        };
        let enc = crate::bencode::encode_canonical(info);
        let id_bytes = if v2 {
            let h = sha256_digest(&enc);
            crate::bencode::take_bytes(&h, 20)
        } else {
            sha1_digest(&enc)
        };
        let mut name_key: Vec<u8> = Vec::new();
        name_key.push(110);
        name_key.push(97);
        name_key.push(109);
        name_key.push(101);
        proof {
            assert(name_key@ =~= spec_name_key());
        }
        let name_bytes = match dict_get(ipairs, &name_key) {
            Some(crate::bencode::BencodeValue::Bytes(nb)) => nb,
            _ => {
                return Err(TorrentFileError::NameInvalid);
            },
        };
        let name = match utf8_to_string(name_bytes) {
            Some(s) => s,
            None => {
                return Err(TorrentFileError::NameInvalid);
            },
        };
        let ghost rootv = crate::bencode::view_value(root);
        Ok(Torrent { raw: clone_bytes(bytes), id_bytes, name, root: Ghost(rootv) })
    }

    /// The torrent id: 20 bytes.
    pub fn torrent_id(&self) -> (r: Vec<u8>)
        ensures
            r@ == self.id_bytes@,
    {
        clone_bytes(&self.id_bytes)
    }

    /// The torrent id, hex-encoded.
    pub fn torrent_id_hex(&self) -> (r: String)
        ensures
            r@ == spec_hex_lower(self.id_bytes@),
    {
        hex_lower(&self.id_bytes)
    }

    /// The declared name of the torrent's file or directory.
    pub fn get_info_name(&self) -> (r: String)
        ensures
            r == self.name,
    {
        self.name.clone()
    }

    /// The raw file bytes.
    pub fn raw_bytes(&self) -> (r: Vec<u8>)
        ensures
            r@ == self.raw@,
    {
        clone_bytes(&self.raw)
    }

    /// The id, as recorded.
    pub open spec fn spec_id(&self) -> Seq<u8> {
        self.id_bytes@
    }

    /// The name, as recorded.
    pub open spec fn spec_name(&self) -> Seq<char> {
        self.name@
    }
}

} // verus!
