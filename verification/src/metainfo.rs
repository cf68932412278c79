//! The torrent descriptor: the `info` dictionary (single- or multi-file), the
//! tracker lists around it, and the info-hash derived from the raw bytes of
//! `info` exactly as they stood in the file.
use vstd::prelude::*;

verus! {

use crate::bencode::{BNode, BValue, DecodeError, bview, bview_seq, bview_entries, dict_lookup,
    dict_get, bytes_eq, decode, spec_decode, spec_encode, sp_value, sp_dict, lookup_is_u64,
    lookup_is_text};
use crate::bittorrent::{InfoHash, sha1_of};
use crate::util::utf8_to_string;
use vstd::string::{StringExecFns, StringSliceAdditionalSpecFns};
use vstd::utf8::{valid_utf8, decode_utf8};

/// Lowercase hex digit of `n < 16`.
pub open spec fn hex_digit(n: u8) -> char {
    if n < 10 {
        (48 + n) as char
    } else {
        (87 + n) as char
    }
}

/// Lowercase hexadecimal text of a byte sequence, two digits per byte.
pub open spec fn spec_hex_encode(s: Seq<u8>) -> Seq<char>
    decreases s.len(),
{
    if s.len() == 0 {
        Seq::empty()
    } else {
        seq![hex_digit(s[0] / 16), hex_digit(s[0] % 16)] + spec_hex_encode(s.drop_first())
    }
}

/// Relies on `hex::encode`: lowercase hexadecimal, exactly two digits per
/// input byte, in input order.
#[verifier::external_body]
fn hex_encode(data: &[u8]) -> (r: String)
    ensures
        r@ == spec_hex_encode(data@),
{
    hex::encode(data)
}

pub open spec fn k_length() -> Seq<u8> {
    "length".spec_bytes()
}

pub open spec fn k_path() -> Seq<u8> {
    "path".spec_bytes()
}

pub open spec fn k_md5sum() -> Seq<u8> {
    "md5sum".spec_bytes()
}

pub open spec fn k_name() -> Seq<u8> {
    "name".spec_bytes()
}

pub open spec fn k_piece_length() -> Seq<u8> {
    "piece length".spec_bytes()
}

pub open spec fn k_pieces() -> Seq<u8> {
    "pieces".spec_bytes()
}

pub open spec fn k_private() -> Seq<u8> {
    "private".spec_bytes()
}

pub open spec fn k_files() -> Seq<u8> {
    "files".spec_bytes()
}

pub open spec fn k_announce() -> Seq<u8> {
    "announce".spec_bytes()
}

pub open spec fn k_announce_list() -> Seq<u8> {
    "announce-list".spec_bytes()
}

pub open spec fn k_created_by() -> Seq<u8> {
    "created by".spec_bytes()
}

pub open spec fn k_info() -> Seq<u8> {
    "info".spec_bytes()
}

pub open spec fn k_comment() -> Seq<u8> {
    "comment".spec_bytes()
}

pub open spec fn k_creation_date() -> Seq<u8> {
    "creation date".spec_bytes()
}

pub open spec fn k_encoding() -> Seq<u8> {
    "encoding".spec_bytes()
}

/// One declared file of a multi-file torrent.
#[derive(PartialEq, Debug)]
pub struct File {
    pub length: u64,
    pub path: Vec<String>,
    pub md5sum: Option<String>,
}

/// The file dictionary is a closed schema of these keys.
pub open spec fn file_keys_known(es: Seq<(Seq<u8>, BNode)>) -> bool {
    forall|j: int|
        0 <= j < es.len() ==> ((#[trigger] es[j]).0 == k_length() || es[j].0 == k_path() || es[j].0
            == k_md5sum())
}

/// The path entries of a file, decoded to text.
pub open spec fn path_strings(items: Seq<BNode>) -> Seq<Seq<char>> {
    Seq::new(
        items.len(),
        (|i: int|
            if 0 <= i < items.len() && items[i] is Bytes {
                decode_utf8(items[i]->Bytes_0)
            } else {
                Seq::empty()
            }),
    )
}

/// Exactly when a bencode value decodes as a file entry.
pub open spec fn file_decodable(n: BNode) -> bool {
    &&& n matches BNode::Dict(es)
    &&& file_keys_known(es)
    &&& dict_lookup(es, k_length()) matches Some(BNode::Int(l)) && 0 <= l <= u64::MAX
    &&& dict_lookup(es, k_path()) matches Some(BNode::List(items)) && (forall|k: int|
        0 <= k < items.len() ==> (#[trigger] items[k]) is Bytes && valid_utf8(items[k]->Bytes_0))
    &&& (match dict_lookup(es, k_md5sum()) {
        Some(n2) => n2 matches BNode::Bytes(b) && valid_utf8(b),
        None => true,
    })
}

/// The relation between a decoded file entry and its dictionary.
pub open spec fn file_matches(f: File, n: BNode) -> bool {
    &&& n matches BNode::Dict(es)
    &&& dict_lookup(es, k_length()) matches Some(BNode::Int(l)) && f.length == l
    &&& dict_lookup(es, k_path()) matches Some(BNode::List(items)) && f.path.deep_view()
        == path_strings(items)
    &&& (match dict_lookup(es, k_md5sum()) {
        Some(BNode::Bytes(b)) => f.md5sum matches Some(m) && m@ == decode_utf8(b),
        Some(_) => false,
        None => f.md5sum is None,
    })
}

impl File {
    /// Decode a file entry: closed schema of `length`, `path` and an
    /// optional `md5sum`.
    pub fn decode_bencode_object(v: &BValue) -> (r: Result<File, DecodeError>)
        ensures
            r is Ok <==> file_decodable(bview(*v)),
            r matches Ok(f) ==> file_matches(f, bview(*v)),
            r matches Err(e) ==> {
                &&& ((bview(*v) matches BNode::Dict(es) && !file_keys_known(es))
                    ==> e is UnexpectedField)
                &&& ((bview(*v) matches BNode::Dict(es) && file_keys_known(es) && dict_lookup(
                    es,
                    k_length(),
                ) is None) ==> e is MissingField)
                &&& ((bview(*v) matches BNode::Dict(es) && file_keys_known(es) && lookup_is_u64(
                    dict_lookup(es, k_length()),
                ) && dict_lookup(es, k_path()) is None) ==> e is MissingField)
            },
    {
        let entries = match v {
            BValue::Dict(es) => es,
            _ => {
                return Err(DecodeError::UnexpectedField(String::from_str("file")));
            },
        };
        let ghost esv = bview_entries(entries@);
        proof {
            assert(bview(*v) == BNode::Dict(esv));
        }
        let mut j: usize = 0;
        while j < entries.len()
            invariant
                0 <= j <= entries@.len(),
                esv == bview_entries(entries@),
                bview(*v) == BNode::Dict(esv),
                forall|t: int|
                    0 <= t < j ==> ((#[trigger] esv[t]).0 == k_length() || esv[t].0 == k_path()
                        || esv[t].0 == k_md5sum()),
            decreases entries@.len() - j,
        {
            let k = &entries[j].0;
            proof {
                assert(esv[j as int].0 == k@);
            }
            let known = bytes_eq(k.as_slice(), "length".as_bytes()) || bytes_eq(
                k.as_slice(),
                "path".as_bytes(),
            ) || bytes_eq(k.as_slice(), "md5sum".as_bytes());
            if !known {
                proof {
                    assert(esv[j as int].0 != k_length() && esv[j as int].0 != k_path() && esv[
                        j as int
                    ].0 != k_md5sum());
                    assert(!file_keys_known(esv));
                }
                return Err(DecodeError::UnexpectedField(String::from_str("file")));
            }
            j = j + 1;
        }
        proof {
            assert(file_keys_known(esv));
        }
        let length: u64 = match dict_get(entries, "length".as_bytes()) {
            Some(BValue::Int(i)) => {
                if *i < 0 {
                    return Err(DecodeError::InvalidField(String::from_str("length")));
                }
                *i as u64
            },
            Some(_) => {
                return Err(DecodeError::InvalidField(String::from_str("length")));
            },
            None => {
                return Err(DecodeError::MissingField(String::from_str("length")));
            },
        };
        let path: Vec<String> = match dict_get(entries, "path".as_bytes()) {
            Some(BValue::List(items)) => {
                let ghost itemsv = bview_seq(items@);
                let mut acc: Vec<String> = Vec::new();
                let mut t: usize = 0;
                while t < items.len()
                    invariant
                        0 <= t <= items@.len(),
                        itemsv == bview_seq(items@),
                        bview(*v) == BNode::Dict(esv),
                        file_keys_known(esv),
                        dict_lookup(esv, k_length()) is Some,
                        dict_lookup(esv, k_path()) == Some(BNode::List(itemsv)),
                        acc@.len() == t,
                        forall|u: int|
                            0 <= u < t ==> (#[trigger] itemsv[u]) is Bytes && valid_utf8(
                                itemsv[u]->Bytes_0,
                            ) && acc@[u]@ == decode_utf8(itemsv[u]->Bytes_0),
                    decreases items@.len() - t,
                {
                    proof {
                        assert(itemsv[t as int] == bview(items@[t as int]));
                    }
                    match &items[t] {
                        BValue::Bytes(b) => {
                            match utf8_to_string(b) {
                                Some(s) => {
                                    acc.push(s);
                                },
                                None => {
                                    return Err(
                                        DecodeError::InvalidField(String::from_str("path")),
                                    );
                                },
                            }
                        },
                        _ => {
                            return Err(DecodeError::InvalidField(String::from_str("path")));
                        },
                    }
                    t = t + 1;
                }
                proof {
                    assert(acc.deep_view() =~= path_strings(itemsv));
                }
                acc
            },
            Some(_) => {
                return Err(DecodeError::InvalidField(String::from_str("path")));
            },
            None => {
                return Err(DecodeError::MissingField(String::from_str("path")));
            },
        };
        let md5sum: Option<String> = match dict_get(entries, "md5sum".as_bytes()) {
            Some(BValue::Bytes(b)) => {
                match utf8_to_string(b) {
                    Some(s) => Some(s),
                    None => {
                        return Err(DecodeError::InvalidField(String::from_str("md5sum")));
                    },
                }
            },
            Some(_) => {
                return Err(DecodeError::InvalidField(String::from_str("md5sum")));
            },
            None => None,
        };
        Ok(File { length, path, md5sum })
    }
}

/// The payload layout of a torrent: one file, or a directory of files. The
/// piece digests are kept as lowercase hex text, one 40-character string per
/// 20-byte digest, in piece-index order.
#[derive(PartialEq, Debug)]
pub enum Info {
    SingleFileInfo {
        name: String,
        piece_length: u64,
        pieces: Vec<String>,
        length: u64,
        private: Option<bool>,
    },
    MultiFileInfo {
        name: String,
        piece_length: u64,
        pieces: Vec<String>,
        private: Option<bool>,
        files: Vec<File>,
    },
}

/// The info dictionary is a closed schema of these keys.
pub open spec fn info_keys_known(es: Seq<(Seq<u8>, BNode)>) -> bool {
    forall|j: int|
        0 <= j < es.len() ==> ((#[trigger] es[j]).0 == k_name() || es[j].0 == k_piece_length()
            || es[j].0 == k_pieces() || es[j].0 == k_length() || es[j].0 == k_private() || es[j].0
            == k_files())
}

/// Exactly when a bencode value decodes as an info dictionary: the common
/// keys are well-formed, and `length` (single-file) or otherwise `files`
/// (multi-file) selects the variant; with neither the decode fails.
pub open spec fn info_decodable(n: BNode) -> bool {
    &&& n matches BNode::Dict(es)
    &&& info_keys_known(es)
    &&& dict_lookup(es, k_name()) matches Some(BNode::Bytes(b)) && valid_utf8(b)
    &&& dict_lookup(es, k_piece_length()) matches Some(BNode::Int(pl)) && 0 <= pl <= u64::MAX
    &&& dict_lookup(es, k_pieces()) matches Some(BNode::Bytes(pb)) && pb.len() % 20 == 0
    &&& (match dict_lookup(es, k_private()) {
        Some(n2) => n2 matches BNode::Int(pv) && 0 <= pv <= 255,
        None => true,
    })
    &&& (match dict_lookup(es, k_length()) {
        Some(BNode::Int(l)) => 0 <= l <= u64::MAX,
        Some(_) => false,
        None => dict_lookup(es, k_files()) matches Some(BNode::List(fitems)) && (forall|k: int|
            0 <= k < fitems.len() ==> file_decodable(#[trigger] fitems[k])),
    })
}

/// The fields shared by both variants, against the dictionary.
pub open spec fn info_common_matches(
    es: Seq<(Seq<u8>, BNode)>,
    name: String,
    piece_length: u64,
    pieces: Seq<String>,
    private: Option<bool>,
) -> bool {
    &&& dict_lookup(es, k_name()) matches Some(BNode::Bytes(b)) && name@ == decode_utf8(b)
    &&& dict_lookup(es, k_piece_length()) matches Some(BNode::Int(pl)) && piece_length == pl
    &&& dict_lookup(es, k_pieces()) matches Some(BNode::Bytes(pb)) && pieces.len() == pb.len() / 20
        && (forall|k: int|
        0 <= k < pieces.len() ==> (#[trigger] pieces[k])@ == spec_hex_encode(
            pb.subrange(20 * k, 20 * k + 20),
        ))
    &&& (match dict_lookup(es, k_private()) {
        Some(BNode::Int(pv)) => private matches Some(fl) && fl == (pv == 1),
        Some(_) => false,
        None => private is None,
    })
}

/// The relation between a decoded info and its dictionary.
pub open spec fn info_matches(i: Info, n: BNode) -> bool {
    &&& n matches BNode::Dict(es)
    &&& (match i {
        Info::SingleFileInfo { name, piece_length, pieces, length, private } => {
            &&& dict_lookup(es, k_length()) matches Some(BNode::Int(l)) && length == l
            &&& info_common_matches(es, name, piece_length, pieces@, private)
        },
        Info::MultiFileInfo { name, piece_length, pieces, private, files } => {
            &&& dict_lookup(es, k_length()) is None
            &&& dict_lookup(es, k_files()) matches Some(BNode::List(fitems)) && files@.len()
                == fitems.len() && (forall|k: int|
                0 <= k < fitems.len() ==> file_matches(#[trigger] files@[k], fitems[k]))
            &&& info_common_matches(es, name, piece_length, pieces@, private)
        },
    })
}

impl Info {
    /// Decode the info dictionary. `length` selects the single-file variant;
    /// otherwise `files` must be present and selects the multi-file variant.
    pub fn decode_bencode_object(v: &BValue) -> (r: Result<Info, DecodeError>)
        ensures
            r is Ok <==> info_decodable(bview(*v)),
            r matches Ok(i) ==> info_matches(i, bview(*v)),
            r matches Err(e) ==> {
                &&& ((bview(*v) matches BNode::Dict(es) && !info_keys_known(es))
                    ==> e is UnexpectedField)
                &&& ((bview(*v) matches BNode::Dict(es) && info_keys_known(es) && dict_lookup(
                    es,
                    k_name(),
                ) is None) ==> e is MissingField)
                &&& ((bview(*v) matches BNode::Dict(es) && info_keys_known(es) && lookup_is_text(
                    dict_lookup(es, k_name()),
                ) && dict_lookup(es, k_piece_length()) is None) ==> e is MissingField)
                &&& ((bview(*v) matches BNode::Dict(es) && info_keys_known(es) && lookup_is_text(
                    dict_lookup(es, k_name()),
                ) && lookup_is_u64(dict_lookup(es, k_piece_length())) && dict_lookup(
                    es,
                    k_pieces(),
                ) is None) ==> e is MissingField)
                &&& ((bview(*v) matches BNode::Dict(es) && info_keys_known(es) && lookup_is_text(
                    dict_lookup(es, k_name()),
                ) && lookup_is_u64(dict_lookup(es, k_piece_length())) && (dict_lookup(
                    es,
                    k_pieces(),
                ) matches Some(BNode::Bytes(pb)) && pb.len() % 20 == 0) && (match dict_lookup(
                    es,
                    k_private(),
                ) {
                    Some(pn) => pn matches BNode::Int(pv) && 0 <= pv <= 255,
                    None => true,
                }) && dict_lookup(es, k_length()) is None && dict_lookup(es, k_files()) is None)
                    ==> e is MissingField)
            },
    {
        let entries = match v {
            BValue::Dict(es) => es,
            _ => {
                return Err(DecodeError::InvalidField(String::from_str("info")));
            },
        };
        let ghost esv = bview_entries(entries@);
        proof {
            assert(bview(*v) == BNode::Dict(esv));
        }
        let mut j: usize = 0;
        while j < entries.len()
            invariant
                0 <= j <= entries@.len(),
                esv == bview_entries(entries@),
                bview(*v) == BNode::Dict(esv),
                forall|t: int|
                    0 <= t < j ==> ((#[trigger] esv[t]).0 == k_name() || esv[t].0
                        == k_piece_length() || esv[t].0 == k_pieces() || esv[t].0 == k_length()
                        || esv[t].0 == k_private() || esv[t].0 == k_files()),
            decreases entries@.len() - j,
        {
            let k = &entries[j].0;
            proof {
                assert(esv[j as int].0 == k@);
            }
            let known = bytes_eq(k.as_slice(), "name".as_bytes()) || bytes_eq(
                k.as_slice(),
                "piece length".as_bytes(),
            ) || bytes_eq(k.as_slice(), "pieces".as_bytes()) || bytes_eq(
                k.as_slice(),
                "length".as_bytes(),
            ) || bytes_eq(k.as_slice(), "private".as_bytes()) || bytes_eq(
                k.as_slice(),
                "files".as_bytes(),
            );
            if !known {
                proof {
                    assert(esv[j as int].0 != k_name() && esv[j as int].0 != k_piece_length()
                        && esv[j as int].0 != k_pieces() && esv[j as int].0 != k_length() && esv[
                        j as int
                    ].0 != k_private() && esv[j as int].0 != k_files());
                    assert(!info_keys_known(esv));
                }
                return Err(DecodeError::UnexpectedField(String::from_str("info")));
            }
            j = j + 1;
        }
        proof {
            assert(info_keys_known(esv));
        }
        let name: String = match dict_get(entries, "name".as_bytes()) {
            Some(BValue::Bytes(b)) => {
                match utf8_to_string(b) {
                    Some(s) => s,
                    None => {
                        return Err(DecodeError::InvalidField(String::from_str("name")));
                    },
                }
            },
            Some(_) => {
                return Err(DecodeError::InvalidField(String::from_str("name")));
            },
            None => {
                return Err(DecodeError::MissingField(String::from_str("name")));
            },
        };
        let piece_length: u64 = match dict_get(entries, "piece length".as_bytes()) {
            Some(BValue::Int(i)) => {
                if *i < 0 {
                    return Err(DecodeError::InvalidField(String::from_str("piece length")));
                }
                *i as u64
            },
            Some(_) => {
                return Err(DecodeError::InvalidField(String::from_str("piece length")));
            },
            None => {
                return Err(DecodeError::MissingField(String::from_str("piece length")));
            },
        };
        let pieces: Vec<String> = match dict_get(entries, "pieces".as_bytes()) {
            Some(BValue::Bytes(pb)) => {
                if pb.len() % 20 != 0 {
                    return Err(DecodeError::InvalidField(String::from_str("pieces")));
                }
                let n = pb.len() / 20;
                let mut acc: Vec<String> = Vec::new();
                let mut t: usize = 0;
                while t < n
                    invariant
                        0 <= t <= n,
                        pb@.len() <= usize::MAX,
                        n == pb@.len() / 20,
                        pb@.len() % 20 == 0,
                        bview(*v) == BNode::Dict(esv),
                        dict_lookup(esv, k_pieces()) == Some(BNode::Bytes(pb@)),
                        acc@.len() == t,
                        forall|u: int|
                            0 <= u < t ==> (#[trigger] acc@[u])@ == spec_hex_encode(
                                pb@.subrange(20 * u, 20 * u + 20),
                            ),
                    decreases n - t,
                {
                    proof {
                        assert(pb@.len() == 20 * (pb@.len() / 20));
                        assert(20 * (t as int) + 20 <= pb@.len());
                    }
                    let chunk = vstd::slice::slice_subrange(pb.as_slice(), 20 * t, 20 * t + 20);
                    let h = hex_encode(chunk);
                    acc.push(h);
                    t = t + 1;
                }
                acc
            },
            Some(_) => {
                return Err(DecodeError::InvalidField(String::from_str("pieces")));
            },
            None => {
                return Err(DecodeError::MissingField(String::from_str("pieces")));
            },
        };
        let private: Option<bool> = match dict_get(entries, "private".as_bytes()) {
            Some(BValue::Int(i)) => {
                if *i < 0 || *i > 255 {
                    return Err(DecodeError::InvalidField(String::from_str("private")));
                }
                Some(*i == 1)
            },
            Some(_) => {
                return Err(DecodeError::InvalidField(String::from_str("private")));
            },
            None => None,
        };
        match dict_get(entries, "length".as_bytes()) {
            Some(BValue::Int(l)) => {
                if *l < 0 {
                    return Err(DecodeError::InvalidField(String::from_str("length")));
                }
                Ok(
                    Info::SingleFileInfo {
                        name,
                        piece_length,
                        pieces,
                        length: *l as u64,
                        private,
                    },
                )
            },
            Some(_) => {
                return Err(DecodeError::InvalidField(String::from_str("length")));
            },
            None => {
                let files: Vec<File> = match dict_get(entries, "files".as_bytes()) {
                    Some(BValue::List(fitems)) => {
                        let ghost fv = bview_seq(fitems@);
                        let mut acc: Vec<File> = Vec::new();
                        let mut t: usize = 0;
                        while t < fitems.len()
                            invariant
                                0 <= t <= fitems@.len(),
                                fv == bview_seq(fitems@),
                                bview(*v) == BNode::Dict(esv),
                                info_keys_known(esv),
                                dict_lookup(esv, k_name()) is Some,
                                dict_lookup(esv, k_piece_length()) is Some,
                                dict_lookup(esv, k_pieces()) is Some,
                                dict_lookup(esv, k_files()) == Some(BNode::List(fv)),
                                dict_lookup(esv, k_length()) is None,
                                acc@.len() == t,
                                forall|u: int|
                                    0 <= u < t ==> file_decodable(#[trigger] fv[u]) && file_matches(
                                        acc@[u],
                                        fv[u],
                                    ),
                            decreases fitems@.len() - t,
                        {
                            proof {
                                assert(fv[t as int] == bview(fitems@[t as int]));
                            }
                            match File::decode_bencode_object(&fitems[t]) {
                                Ok(f) => {
                                    acc.push(f);
                                },
                                Err(e) => {
                                    proof {
                                        assert(!file_decodable(fv[t as int]));
                                        assert(!info_decodable(bview(*v))) by {
                                            if info_decodable(bview(*v)) {
                                                let fitems2 = dict_lookup(
                                                    esv,
                                                    k_files(),
                                                )->Some_0->List_0;
                                                assert(fitems2 == fv);
                                                assert(0 <= t < fitems2.len());
                                                assert(file_decodable(fitems2[t as int]));
                                            }
                                        }
                                    }
                                    return Err(e);
                                },
                            }
                            t = t + 1;
                        }
                        acc
                    },
                    Some(_) => {
                        return Err(DecodeError::InvalidField(String::from_str("files")));
                    },
                    None => {
                        return Err(DecodeError::MissingField(String::from_str("files")));
                    },
                };
                Ok(Info::MultiFileInfo { name, piece_length, pieces, private, files })
            },
        }
    }
}

/// Every tier of an announce list is a list of UTF-8 byte strings.
pub open spec fn announce_tiers_ok(tiers: Seq<BNode>) -> bool {
    forall|ti: int|
        0 <= ti < tiers.len() ==> ((#[trigger] tiers[ti]) matches BNode::List(urls) && (forall|
            u: int,
        |
            0 <= u < urls.len() ==> (#[trigger] urls[u]) is Bytes && valid_utf8(
                urls[u]->Bytes_0,
            )))
}

/// The URLs of one tier, decoded to text.
pub open spec fn tier_strings(t: BNode) -> Seq<Seq<char>> {
    if t is List {
        Seq::new(
            t->List_0.len(),
            (|i: int|
                if 0 <= i < t->List_0.len() && t->List_0[i] is Bytes {
                    decode_utf8(t->List_0[i]->Bytes_0)
                } else {
                    Seq::empty()
                }),
        )
    } else {
        Seq::empty()
    }
}

/// All tiers flattened in order: the simplified tracker list of the core.
pub open spec fn flat_tiers(tiers: Seq<BNode>) -> Seq<Seq<char>>
    decreases tiers.len(),
{
    if tiers.len() == 0 {
        Seq::empty()
    } else {
        tier_strings(tiers[0]) + flat_tiers(tiers.drop_first())
    }
}

proof fn lemma_flat_concat(a: Seq<BNode>, b: Seq<BNode>)
    ensures
        flat_tiers(a + b) == flat_tiers(a) + flat_tiers(b),
    decreases a.len(),
{
    if a.len() == 0 {
        assert(a + b =~= b);
        assert(flat_tiers(a) + flat_tiers(b) =~= flat_tiers(b));
    } else {
        lemma_flat_concat(a.drop_first(), b);
        assert((a + b).drop_first() =~= a.drop_first() + b);
        assert((a + b)[0] == a[0]);
        assert(tier_strings(a[0]) + (flat_tiers(a.drop_first()) + flat_tiers(b)) =~= (tier_strings(
            a[0],
        ) + flat_tiers(a.drop_first())) + flat_tiers(b));
    }
}


/// A malformed URL entry refutes the announce-list well-formedness.
proof fn lemma_bad_url(
    esv: Seq<(Seq<u8>, BNode)>,
    tiersv: Seq<BNode>,
    urlsv: Seq<BNode>,
    ti: int,
    ui: int,
)
    requires
        dict_lookup(esv, k_announce_list()) == Some(BNode::List(tiersv)),
        0 <= ti < tiersv.len(),
        tiersv[ti] == BNode::List(urlsv),
        0 <= ui < urlsv.len(),
        !(urlsv[ui] is Bytes && valid_utf8(urlsv[ui]->Bytes_0)),
    ensures
        !metainfo_decodable(BNode::Dict(esv)),
{
    assert(!announce_tiers_ok(tiersv)) by {
        if announce_tiers_ok(tiersv) {
            assert(tiersv[ti] matches BNode::List(uu) && uu == urlsv);
            let uu = tiersv[ti]->List_0;
            assert(uu[ui] is Bytes && valid_utf8(uu[ui]->Bytes_0));
        }
    }
}

/// A decoded torrent file. `announce_list`, when the torrent has one, is the
/// tiers flattened tier-by-tier into one ordered list.
#[derive(PartialEq, Debug)]
pub struct MetaInfoFile {
    pub announce: String,
    pub announce_list: Option<Vec<String>>,
    pub info: Info,
    pub created_by: Option<String>,
    pub creation_date: Option<u64>,
    pub comment: Option<String>,
    pub encoding: Option<String>,
    pub info_hash: InfoHash,
}

/// Exactly when a bencode document decodes as a torrent descriptor. The top
/// level is an open schema: unknown keys are ignored.
pub open spec fn metainfo_decodable(n: BNode) -> bool {
    &&& n matches BNode::Dict(es)
    &&& dict_lookup(es, k_announce()) matches Some(BNode::Bytes(ab)) && valid_utf8(ab)
    &&& (match dict_lookup(es, k_announce_list()) {
        Some(BNode::List(tiers)) => announce_tiers_ok(tiers),
        Some(_) => true,
        None => true,
    })
    &&& (match dict_lookup(es, k_created_by()) {
        Some(n2) => n2 matches BNode::Bytes(b) && valid_utf8(b),
        None => true,
    })
    &&& (match dict_lookup(es, k_comment()) {
        Some(n2) => n2 matches BNode::Bytes(b) && valid_utf8(b),
        None => true,
    })
    &&& (match dict_lookup(es, k_encoding()) {
        Some(n2) => n2 matches BNode::Bytes(b) && valid_utf8(b),
        None => true,
    })
    &&& (match dict_lookup(es, k_creation_date()) {
        Some(n2) => n2 matches BNode::Int(i) && 0 <= i <= u64::MAX,
        None => true,
    })
    &&& dict_lookup(es, k_info()) matches Some(infon) && info_decodable(infon)
}

/// The relation between a decoded descriptor and its document, including the
/// load-bearing clause: the info-hash is the SHA-1 digest of the raw bytes of
/// the `info` value exactly as they stood in the input.
pub open spec fn metainfo_matches(m: MetaInfoFile, n: BNode) -> bool {
    &&& n matches BNode::Dict(es)
    &&& dict_lookup(es, k_announce()) matches Some(BNode::Bytes(ab)) && m.announce@ == decode_utf8(
        ab,
    )
    &&& (match dict_lookup(es, k_announce_list()) {
        Some(BNode::List(tiers)) => m.announce_list matches Some(al) && al.deep_view()
            == flat_tiers(tiers),
        Some(_) => m.announce_list is None,
        None => m.announce_list is None,
    })
    &&& (match dict_lookup(es, k_created_by()) {
        Some(BNode::Bytes(b)) => m.created_by matches Some(s) && s@ == decode_utf8(b),
        Some(_) => false,
        None => m.created_by is None,
    })
    &&& (match dict_lookup(es, k_comment()) {
        Some(BNode::Bytes(b)) => m.comment matches Some(s) && s@ == decode_utf8(b),
        Some(_) => false,
        None => m.comment is None,
    })
    &&& (match dict_lookup(es, k_encoding()) {
        Some(BNode::Bytes(b)) => m.encoding matches Some(s) && s@ == decode_utf8(b),
        Some(_) => false,
        None => m.encoding is None,
    })
    &&& (match dict_lookup(es, k_creation_date()) {
        Some(BNode::Int(i)) => m.creation_date matches Some(d) && d == i,
        Some(_) => false,
        None => m.creation_date is None,
    })
    &&& dict_lookup(es, k_info()) matches Some(infon) && info_matches(m.info, infon)
        && m.info_hash@ == sha1_of(spec_encode(infon)) && m.info_hash@.len() == 20
}

impl MetaInfoFile {
    /// Decode a whole torrent file. The document must be a single bencode
    /// dictionary; the raw byte span of the `info` value is captured during
    /// the scan and hashed verbatim, never re-encoded.
    pub fn from_bencode(bytes: &[u8]) -> (r: Result<MetaInfoFile, DecodeError>)
        ensures
            (match spec_decode(bytes@) {
                Err(off) => r matches Err(e) && (e matches DecodeError::MalformedEncoding(o) && o
                    == off),
                Ok(n) => {
                    &&& r is Ok <==> metainfo_decodable(n)
                    &&& (r matches Ok(m) ==> metainfo_matches(m, n))
                    &&& (r matches Err(e) ==> {
                        &&& ((n matches BNode::Dict(es) && dict_lookup(es, k_info()) is None)
                            ==> e is MissingField)
                        &&& ((n matches BNode::Dict(es) && dict_lookup(es, k_info()) matches Some(
                            infon,
                        ) && info_decodable(infon) && dict_lookup(es, k_announce()) is None)
                            ==> e is MissingField)
                    })
                },
            }),
    {
        let ghost s = bytes@;
        let v = match decode(bytes) {
            Ok(v) => v,
            Err(e) => {
                return Err(e);
            },
        };
        let entries = match &v {
            BValue::Dict(es) => es,
            _ => {
                return Err(DecodeError::InvalidField(String::from_str("metainfo")));
            },
        };
        let ghost esv = bview_entries(entries@);
        proof {
            assert(bview(v) == BNode::Dict(esv));
            assert(sp_value(s, 0) == Ok::<(BNode, int), int>((BNode::Dict(esv), s.len() as int)));
            assert(sp_dict(s, 1) == Ok::<(Seq<(Seq<u8>, BNode)>, int), int>(
                (esv, s.len() as int),
            ));
            assert(esv.skip(0) =~= esv);
        }
        // Rescan the top level to capture the raw byte span of `info`.
        let mut cur: usize = 1;
        let ghost mut gi: int = 0;
        let mut info_a: usize = 0;
        let mut info_b: usize = 0;
        let mut have_info = false;
        loop
            invariant
                1 <= cur <= s.len(),
                bytes@ == s,
                spec_decode(s) == Ok::<BNode, int>(BNode::Dict(esv)),
                0 <= gi <= esv.len(),
                sp_dict(s, cur as int) == Ok::<(Seq<(Seq<u8>, BNode)>, int), int>(
                    (esv.skip(gi), s.len() as int),
                ),
                !have_info ==> dict_lookup(esv, k_info()) == dict_lookup(
                    esv.skip(gi),
                    k_info(),
                ),
                have_info ==> (dict_lookup(esv, k_info()) matches Some(ni) && 0 <= info_a <= info_b
                    <= s.len() && s.subrange(info_a as int, info_b as int) == spec_encode(ni)),
            ensures
                have_info,
                dict_lookup(esv, k_info()) matches Some(ni) && 0 <= info_a <= info_b <= s.len()
                    && s.subrange(info_a as int, info_b as int) == spec_encode(ni),
            decreases s.len() - cur,
        {
            if bytes[cur] == 101 {
                proof {
                    assert(esv.skip(gi).len() == 0);
                    assert(gi == esv.len());
                }
                if !have_info {
                    proof {
                        assert(dict_lookup(esv, k_info()) is None);
                        assert(!metainfo_decodable(BNode::Dict(esv)));
                    }
                    return Err(DecodeError::MissingField(String::from_str("info")));
                }
                break ;
            }
            let (key, kend) = match crate::bencode::parse_bstr(bytes, cur) {
                Ok(p) => p,
                Err(_) => {
                    // cannot happen: `decode` already parsed this very span
                    proof {
                        assert(false);
                    }
                    return Err(DecodeError::MalformedEncoding(cur));
                },
            };
            let (val, vend) = match crate::bencode::parse_value(bytes, kend) {
                Ok(p) => p,
                Err(_) => {
                    // cannot happen: `decode` already parsed this very span
                    proof {
                        assert(false);
                    }
                    return Err(DecodeError::MalformedEncoding(kend));
                },
            };
            proof {
                let sd = sp_dict(s, vend as int);
                if sd is Err {
                    assert(false);
                }
                let rest = sd->Ok_0.0;
                let e2 = sd->Ok_0.1;
                assert(seq![(key@, bview(val))] + rest == esv.skip(gi));
                assert(0 <= gi < esv.len()) by {
                    assert(esv.skip(gi).len() == (seq![(key@, bview(val))] + rest).len());
                }
                assert(esv.skip(gi)[0] == esv[gi]);
                assert((seq![(key@, bview(val))] + rest)[0] == (key@, bview(val)));
                assert(esv[gi] == (key@, bview(val)));
                assert(rest =~= esv.skip(gi).drop_first());
                assert(esv.skip(gi).drop_first() =~= esv.skip(gi + 1));
                assert(e2 == s.len());
                if !have_info {
                    if key@ == k_info() {
                        crate::bencode::lemma_sp_sound(s, kend as int);
                        assert(dict_lookup(esv.skip(gi), k_info()) == Some(esv[gi].1));
                    } else {
                        assert(dict_lookup(esv.skip(gi), k_info()) == dict_lookup(
                            esv.skip(gi).drop_first(),
                            k_info(),
                        ));
                        assert(esv.skip(gi).drop_first() =~= esv.skip(gi + 1));
                    }
                }
            }
            if !have_info && bytes_eq(key.as_slice(), "info".as_bytes()) {
                info_a = kend;
                info_b = vend;
                have_info = true;
            }
            cur = vend;
            proof {
                gi = gi + 1;
            }
        }
        let info_hash = InfoHash::from_info_bytes(
            vstd::slice::slice_subrange(bytes, info_a, info_b),
        );
        let info_val = match dict_get(entries, "info".as_bytes()) {
            Some(iv) => iv,
            None => {
                // cannot happen: the scan above found the key
                proof {
                    assert(false);
                }
                return Err(DecodeError::MissingField(String::from_str("info")));
            },
        };
        let info = match Info::decode_bencode_object(info_val) {
            Ok(i) => i,
            Err(e) => {
                return Err(e);
            },
        };
        let announce: String = match dict_get(entries, "announce".as_bytes()) {
            Some(BValue::Bytes(b)) => {
                match utf8_to_string(b) {
                    Some(st) => st,
                    None => {
                        return Err(DecodeError::InvalidField(String::from_str("announce")));
                    },
                }
            },
            Some(_) => {
                return Err(DecodeError::InvalidField(String::from_str("announce")));
            },
            None => {
                return Err(DecodeError::MissingField(String::from_str("announce")));
            },
        };
        let announce_list: Option<Vec<String>> = match dict_get(
            entries,
            "announce-list".as_bytes(),
        ) {
            Some(BValue::List(tiers)) => {
                let ghost tiersv = bview_seq(tiers@);
                let mut acc: Vec<String> = Vec::new();
                let mut ti: usize = 0;
                proof {
                    assert(tiersv.take(0) =~= Seq::<BNode>::empty());
                    assert(acc.deep_view() =~= flat_tiers(tiersv.take(0)));
                }
                while ti < tiers.len()
                    invariant
                        0 <= ti <= tiers@.len(),
                        tiersv == bview_seq(tiers@),
                        bview(v) == BNode::Dict(esv),
                        bytes@ == s,
                        spec_decode(s) == Ok::<BNode, int>(BNode::Dict(esv)),
                        dict_lookup(esv, k_info()) is Some,
                        dict_lookup(esv, k_announce()) is Some,
                        dict_lookup(esv, k_announce_list()) == Some(BNode::List(tiersv)),
                        acc.deep_view() == flat_tiers(tiersv.take(ti as int)),
                        forall|u: int|
                            0 <= u < ti ==> ((#[trigger] tiersv[u]) matches BNode::List(urls) && (
                            forall|w: int|
                                0 <= w < urls.len() ==> (#[trigger] urls[w]) is Bytes && valid_utf8(
                                    urls[w]->Bytes_0,
                                ))),
                    decreases tiers@.len() - ti,
                {
                    proof {
                        assert(tiersv[ti as int] == bview(tiers@[ti as int]));
                    }
                    match &tiers[ti] {
                        BValue::List(urls) => {
                            let ghost urlsv = bview_seq(urls@);
                            let mut ui: usize = 0;
                            proof {
                                assert(tier_strings(tiersv[ti as int]).take(0) =~= Seq::<
                                    Seq<char>,
                                >::empty());
                                assert(acc.deep_view() + tier_strings(tiersv[ti as int]).take(0)
                                    =~= acc.deep_view());
                            }
                            let ghost acc0 = acc.deep_view();
                            while ui < urls.len()
                                invariant
                                    0 <= ui <= urls@.len(),
                                    urlsv == bview_seq(urls@),
                                    tiersv[ti as int] == BNode::List(urlsv),
                                    0 <= ti < tiersv.len(),
                                    bview(v) == BNode::Dict(esv),
                                    bytes@ == s,
                                    spec_decode(s) == Ok::<BNode, int>(BNode::Dict(esv)),
                                    dict_lookup(esv, k_info()) is Some,
                                    dict_lookup(esv, k_announce()) is Some,
                                    dict_lookup(esv, k_announce_list()) == Some(
                                        BNode::List(tiersv),
                                    ),
                                    acc.deep_view() == acc0 + tier_strings(
                                        tiersv[ti as int],
                                    ).take(ui as int),
                                    forall|w: int|
                                        0 <= w < ui ==> (#[trigger] urlsv[w]) is Bytes
                                            && valid_utf8(urlsv[w]->Bytes_0),
                                decreases urls@.len() - ui,
                            {
                                proof {
                                    assert(urlsv[ui as int] == bview(urls@[ui as int]));
                                }
                                match &urls[ui] {
                                    BValue::Bytes(b) => {
                                        match utf8_to_string(b) {
                                            Some(st) => {
                                                let ghost prev = acc.deep_view();
                                                acc.push(st);
                                                proof {
                                                    let tsv = tier_strings(tiersv[ti as int]);
                                                    assert(acc.deep_view() =~= prev.push(
                                                        decode_utf8(urlsv[ui as int]->Bytes_0),
                                                    ));
                                                    assert(tsv.take(ui as int + 1) =~= tsv.take(
                                                        ui as int,
                                                    ).push(tsv[ui as int]));
                                                    assert(acc.deep_view() =~= acc0 + tsv.take(
                                                        ui as int + 1,
                                                    ));
                                                }
                                            },
                                            None => {
                                                proof {
                                                    lemma_bad_url(esv, tiersv, urlsv, ti as int,
                                                        ui as int);
                                                }
                                                return Err(
                                                    DecodeError::InvalidField(
                                                        String::from_str("announce-list"),
                                                    ),
                                                );
                                            },
                                        }
                                    },
                                    _ => {
                                        proof {
                                            lemma_bad_url(esv, tiersv, urlsv, ti as int, ui as int);
                                        }
                                        return Err(
                                            DecodeError::InvalidField(
                                                String::from_str("announce-list"),
                                            ),
                                        );
                                    },
                                }
                                ui = ui + 1;
                            }
                            proof {
                                let tsv = tier_strings(tiersv[ti as int]);
                                assert(tsv.take(urlsv.len() as int) =~= tsv);
                            }
                        },
                        _ => {
                            proof {
                                assert(!announce_tiers_ok(tiersv)) by {
                                    if announce_tiers_ok(tiersv) {
                                        assert(tiersv[ti as int] is List);
                                    }
                                }
                                assert(!metainfo_decodable(BNode::Dict(esv)));
                            }
                            return Err(
                                DecodeError::InvalidField(String::from_str("announce-list")),
                            );
                        },
                    }
                    proof {
                        lemma_flat_concat(tiersv.take(ti as int), seq![tiersv[ti as int]]);
                        assert(tiersv.take(ti as int + 1) =~= tiersv.take(ti as int) + seq![
                            tiersv[ti as int],
                        ]);
                        assert(seq![tiersv[ti as int]].drop_first() =~= Seq::<BNode>::empty());
                        assert(flat_tiers(Seq::<BNode>::empty()) =~= Seq::<Seq<char>>::empty());
                        assert(flat_tiers(seq![tiersv[ti as int]]) =~= tier_strings(
                            tiersv[ti as int],
                        ));
                    }
                    ti = ti + 1;
                }
                proof {
                    assert(tiersv.take(tiersv.len() as int) =~= tiersv);
                }
                Some(acc)
            },
            Some(_) => None,
            None => None,
        };
        let created_by: Option<String> = match dict_get(entries, "created by".as_bytes()) {
            Some(BValue::Bytes(b)) => {
                match utf8_to_string(b) {
                    Some(st) => Some(st),
                    None => {
                        return Err(DecodeError::InvalidField(String::from_str("created by")));
                    },
                }
            },
            Some(_) => {
                return Err(DecodeError::InvalidField(String::from_str("created by")));
            },
            None => None,
        };
        let comment: Option<String> = match dict_get(entries, "comment".as_bytes()) {
            Some(BValue::Bytes(b)) => {
                match utf8_to_string(b) {
                    Some(st) => Some(st),
                    None => {
                        return Err(DecodeError::InvalidField(String::from_str("comment")));
                    },
                }
            },
            Some(_) => {
                return Err(DecodeError::InvalidField(String::from_str("comment")));
            },
            None => None,
        };
        let encoding: Option<String> = match dict_get(entries, "encoding".as_bytes()) {
            Some(BValue::Bytes(b)) => {
                match utf8_to_string(b) {
                    Some(st) => Some(st),
                    None => {
                        return Err(DecodeError::InvalidField(String::from_str("encoding")));
                    },
                }
            },
            Some(_) => {
                return Err(DecodeError::InvalidField(String::from_str("encoding")));
            },
            None => None,
        };
        let creation_date: Option<u64> = match dict_get(entries, "creation date".as_bytes()) {
            Some(BValue::Int(i)) => {
                if *i < 0 {
                    return Err(DecodeError::InvalidField(String::from_str("creation date")));
                }
                Some(*i as u64)
            },
            Some(_) => {
                return Err(DecodeError::InvalidField(String::from_str("creation date")));
            },
            None => None,
        };
        Ok(
            MetaInfoFile {
                announce,
                announce_list,
                info,
                created_by,
                creation_date,
                comment,
                encoding,
                info_hash,
            },
        )
    }
}

} // verus!
