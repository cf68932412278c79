//! Identities and tracker-facing data of the client: peer ids, the info-hash,
//! download progress counters, and the peers a tracker hands back.
use vstd::prelude::*;

use rand::RngCore;

verus! {

use crate::bencode::{BNode, BValue, DecodeError, bview, bview_seq, bview_entries, dict_lookup,
    dict_get, bytes_eq, spec_decode, decode, lookup_is_u64, lookup_is_text};
use crate::util::{dec_str, u64_to_string, utf8_to_string};
use vstd::string::{StringExecFns, StringSliceAdditionalSpecFns};
use vstd::utf8::{valid_utf8, decode_utf8};

/// The SHA-1 digest of a byte sequence, as the `sha1_checked` crate computes
/// it: a fixed function of the input bytes alone.
pub uninterp spec fn sha1_of(data: Seq<u8>) -> Seq<u8>;

/// Relies on `sha1_checked::Sha1::try_digest`: the 20-byte SHA-1 digest of
/// the input, a function of the input bytes alone (collision detection picks
/// deterministically between the plain and the mitigated digest).
#[verifier::external_body]
pub(crate) fn sha1_digest(data: &[u8]) -> (r: Vec<u8>)
    ensures
        r@ == sha1_of(data@),
        r@.len() == 20,
{
    sha1_checked::Sha1::try_digest(data).hash().to_vec()
}

/// Relies on `rand::thread_rng` and `RngCore::fill_bytes`: fills a buffer of
/// the asked length with random bytes; nothing holds of the values.
#[verifier::external_body]
fn random_bytes(n: usize) -> (r: Vec<u8>)
    ensures
        r@.len() == n,
{
    let mut v = vec![0u8; n];
    rand::thread_rng().fill_bytes(&mut v);
    v
}

/// The fixed client signature that starts every generated peer id.
pub open spec fn spec_client_prefix() -> Seq<u8> {
    seq![45u8, 76u8, 84u8, 48u8, 48u8, 49u8, 48u8, 45u8]
}

/// The 20-byte identity of this client instance.
#[derive(Debug, PartialEq, Clone)]
pub struct PeerId(Vec<u8>);

impl View for PeerId {
    type V = Seq<u8>;

    closed spec fn view(&self) -> Seq<u8> {
        self.0@
    }
}

impl PeerId {
    /// A fresh peer id: the client signature followed by 12 random bytes.
    pub fn new() -> (r: Self)
        ensures
            r@.len() == 20,
            r@.subrange(0, 8) == spec_client_prefix(),
    {
        let mut bytes: Vec<u8> = Vec::new();
        bytes.push(45);
        bytes.push(76);
        bytes.push(84);
        bytes.push(48);
        bytes.push(48);
        bytes.push(49);
        bytes.push(48);
        bytes.push(45);
        let mut rnd = random_bytes(12);
        bytes.append(&mut rnd);
        proof {
            assert(bytes@.subrange(0, 8) =~= spec_client_prefix());
        }
        PeerId(bytes)
    }

    pub fn from_bytes(b: &[u8]) -> (r: Self)
        ensures
            r@ == b@,
    {
        PeerId(vstd::slice::slice_to_vec(b))
    }

    pub fn as_bytes(&self) -> (r: &[u8])
        ensures
            r@ == self@,
    {
        self.0.as_slice()
    }
}

/// The 20-byte SHA-1 digest of the raw bencoded `info` dictionary: the
/// swarm's identity. Equality is byte-exact.
#[derive(Debug, PartialEq, Clone)]
pub struct InfoHash(Vec<u8>);

impl View for InfoHash {
    type V = Seq<u8>;

    closed spec fn view(&self) -> Seq<u8> {
        self.0@
    }
}

impl InfoHash {
    /// Derive the info-hash from the raw bytes of the `info` dictionary as
    /// they stood in the torrent file.
    pub fn from_info_bytes(info_bytes: &[u8]) -> (r: Self)
        ensures
            r@ == sha1_of(info_bytes@),
            r@.len() == 20,
    {
        InfoHash(sha1_digest(info_bytes))
    }

    pub fn as_bytes(&self) -> (r: &[u8])
        ensures
            r@ == self@,
    {
        self.0.as_slice()
    }
}

/// Errors of one peer connection attempt.
#[derive(Debug)]
pub enum PeerConnectionError {
    InvalidUrl(String),
    SocketUnavailable(String),
    Other(String),
}

/// Aggregate download state, read by the tracker client when it builds an
/// announce request and written only by the piece manager.
#[derive(Debug)]
pub struct DownloadProgress {
    pub bytes_total: u64,
    pub bytes_downloaded: u64,
    pub bytes_uploaded: u64,
    pub pieces_fetched: Vec<bool>,
}

impl Default for DownloadProgress {
    fn default() -> (r: Self)
        ensures
            r.bytes_total == 0,
            r.bytes_downloaded == 0,
            r.bytes_uploaded == 0,
            r.pieces_fetched@.len() == 0,
    {
        DownloadProgress { bytes_total: 0, bytes_downloaded: 0, bytes_uploaded: 0, pieces_fetched: Vec::new() }
    }
}

impl DownloadProgress {
    /// The download is finished exactly when every byte has arrived.
    pub fn finished(&self) -> (r: bool)
        ensures
            r == (self.bytes_downloaded == self.bytes_total),
    {
        self.bytes_downloaded == self.bytes_total
    }
}

/// The dotted-decimal text of a compact peer entry's IPv4 address.
pub open spec fn spec_ipv4(six: Seq<u8>) -> Seq<char> {
    dec_str(six[0] as int) + seq!['.'] + dec_str(six[1] as int) + seq!['.'] + dec_str(
        six[2] as int,
    ) + seq!['.'] + dec_str(six[3] as int)
}

/// The big-endian port of a compact peer entry's trailing two bytes.
pub open spec fn spec_port(six: Seq<u8>) -> int {
    six[4] * 256 + six[5]
}

/// A remote peer as a tracker reports it.
#[derive(Debug, PartialEq)]
pub struct Peer {
    pub id: Option<PeerId>,
    pub ip: String,
    pub port: usize,
}

/// The relation between a peer and the 6-byte compact entry it was read from.
pub open spec fn peer_matches_compact(p: Peer, six: Seq<u8>) -> bool {
    &&& p.id is None
    &&& p.ip@ == spec_ipv4(six)
    &&& p.port == spec_port(six)
}

impl Peer {
    /// `ip:port`, the address a connection is opened to.
    pub fn hostname(&self) -> (r: String)
        ensures
            r@ == self.ip@ + seq![':'] + dec_str(self.port as int),
    {
        let mut out = self.ip.clone();
        out.push(':');
        let ps = u64_to_string(self.port as u64);
        out.append(ps.as_str());
        proof {
            assert(out@ =~= self.ip@ + seq![':'] + dec_str(self.port as int));
        }
        out
    }

    /// Decode one entry of a compact peer blob: 4 address octets in
    /// dotted-decimal and a big-endian 2-byte port.
    pub fn from_slice(b: &[u8]) -> (r: Self)
        requires
            b@.len() == 6,
        ensures
            peer_matches_compact(r, b@),
    {
        let mut ip = u64_to_string(b[0] as u64);
        ip.push('.');
        let o1 = u64_to_string(b[1] as u64);
        ip.append(o1.as_str());
        ip.push('.');
        let o2 = u64_to_string(b[2] as u64);
        ip.append(o2.as_str());
        ip.push('.');
        let o3 = u64_to_string(b[3] as u64);
        ip.append(o3.as_str());
        proof {
            assert(ip@ =~= spec_ipv4(b@));
        }
        let port: usize = (b[4] as usize) * 256 + (b[5] as usize);
        Peer { id: None, ip, port }
    }
}

/// Decode a compact peer blob: `Some` exactly when the length is a multiple
/// of six, and then one peer per 6-byte entry, in order.
pub fn decode_compact_peers(b: &[u8]) -> (r: Option<Vec<Peer>>)
    ensures
        r is Some <==> b@.len() % 6 == 0,
        (match r {
            Some(ps) => ps@.len() == b@.len() / 6 && (forall|k: int|
                0 <= k < ps@.len() ==> peer_matches_compact(
                    #[trigger] ps@[k],
                    b@.subrange(6 * k, 6 * k + 6),
                )),
            None => true,
        }),
{
    if b.len() % 6 != 0 {
        return None;
    }
    let n = b.len() / 6;
    let mut peers: Vec<Peer> = Vec::new();
    let mut k: usize = 0;
    while k < n
        invariant
            0 <= k <= n,
            b@.len() <= usize::MAX,
            n == b@.len() / 6,
            b@.len() % 6 == 0,
            peers@.len() == k,
            forall|j: int|
                0 <= j < k ==> peer_matches_compact(
                    #[trigger] peers@[j],
                    b@.subrange(6 * j, 6 * j + 6),
                ),
        decreases n - k,
    {
        proof {
            assert(b@.len() == 6 * (b@.len() / 6));
            assert(6 * (k as int) + 6 <= b@.len());
        }
        let chunk = vstd::slice::slice_subrange(b, 6 * k, 6 * k + 6);
        let p = Peer::from_slice(chunk);
        peers.push(p);
        k = k + 1;
    }
    Some(peers)
}

/// Keys of the tracker-response schemas, as raw bytes.
pub open spec fn k_id() -> Seq<u8> {
    "id".spec_bytes()
}

pub open spec fn k_ip() -> Seq<u8> {
    "ip".spec_bytes()
}

pub open spec fn k_port() -> Seq<u8> {
    "port".spec_bytes()
}

pub open spec fn k_peers() -> Seq<u8> {
    "peers".spec_bytes()
}

pub open spec fn k_tracker_id() -> Seq<u8> {
    "tracker_id".spec_bytes()
}

pub open spec fn k_complete() -> Seq<u8> {
    "complete".spec_bytes()
}

pub open spec fn k_incomplete() -> Seq<u8> {
    "incomplete".spec_bytes()
}

pub open spec fn k_interval() -> Seq<u8> {
    "interval".spec_bytes()
}

pub open spec fn k_min_interval() -> Seq<u8> {
    "min interval".spec_bytes()
}

pub open spec fn k_warning() -> Seq<u8> {
    "warning message".spec_bytes()
}

pub open spec fn k_failure_reason() -> Seq<u8> {
    "failure reason".spec_bytes()
}

/// The peer dictionary is a closed schema: only these keys may appear.
pub open spec fn peer_keys_known(es: Seq<(Seq<u8>, BNode)>) -> bool {
    forall|j: int|
        0 <= j < es.len() ==> ((#[trigger] es[j]).0 == k_id() || es[j].0 == k_ip() || es[j].0
            == k_port())
}

/// Exactly when a bencode value decodes as a peer dictionary.
pub open spec fn peer_decodable(n: BNode) -> bool {
    &&& n matches BNode::Dict(es)
    &&& peer_keys_known(es)
    &&& dict_lookup(es, k_ip()) matches Some(BNode::Bytes(b)) && valid_utf8(b)
    &&& dict_lookup(es, k_port()) matches Some(BNode::Int(i)) && 0 <= i <= usize::MAX
    &&& (match dict_lookup(es, k_id()) {
        Some(idn) => idn is Bytes,
        None => true,
    })
}

/// The relation between a decoded peer and its dictionary.
pub open spec fn peer_matches(p: Peer, n: BNode) -> bool {
    &&& n matches BNode::Dict(es)
    &&& dict_lookup(es, k_ip()) matches Some(BNode::Bytes(ipb)) && p.ip@ == decode_utf8(ipb)
    &&& dict_lookup(es, k_port()) matches Some(BNode::Int(pi)) && p.port == pi
    &&& (match dict_lookup(es, k_id()) {
        Some(BNode::Bytes(idb)) => p.id matches Some(pid) && pid@ == idb,
        Some(_) => false,
        None => p.id is None,
    })
}

impl Peer {
    /// Decode the dictionary form of a peer entry: closed schema of
    /// `id` (optional), `ip` and `port`.
    pub fn decode_bencode_object(v: &BValue) -> (r: Result<Peer, DecodeError>)
        ensures
            r is Ok <==> peer_decodable(bview(*v)),
            r matches Ok(p) ==> peer_matches(p, bview(*v)),
            r matches Err(e) ==> {
                &&& ((bview(*v) matches BNode::Dict(es) && !peer_keys_known(es))
                    ==> e is UnexpectedField)
                &&& ((bview(*v) matches BNode::Dict(es) && peer_keys_known(es) && dict_lookup(
                    es,
                    k_ip(),
                ) is None) ==> e is MissingField)
                &&& ((bview(*v) matches BNode::Dict(es) && peer_keys_known(es) && lookup_is_text(
                    dict_lookup(es, k_ip()),
                ) && dict_lookup(es, k_port()) is None) ==> e is MissingField)
            },
    {
        let entries = match v {
            BValue::Dict(es) => es,
            _ => {
                return Err(DecodeError::InvalidField(String::from_str("peer")));
            },
        };
        let ghost esv = bview_entries(entries@);
        proof {
            assert(bview(*v) == BNode::Dict(esv));
        }
        let mut j: usize = 0;
        while j < entries.len()
            invariant
                0 <= j <= entries@.len(),
                esv == bview_entries(entries@),
                bview(*v) == BNode::Dict(esv),
                forall|t: int|
                    0 <= t < j ==> ((#[trigger] esv[t]).0 == k_id() || esv[t].0 == k_ip()
                        || esv[t].0 == k_port()),
            decreases entries@.len() - j,
        {
            let k = &entries[j].0;
            proof {
                assert(esv[j as int].0 == k@);
            }
            let known = bytes_eq(k.as_slice(), "id".as_bytes()) || bytes_eq(
                k.as_slice(),
                "ip".as_bytes(),
            ) || bytes_eq(k.as_slice(), "port".as_bytes());
            if !known {
                proof {
                    assert(esv[j as int].0 != k_id() && esv[j as int].0 != k_ip() && esv[
                        j as int
                    ].0 != k_port());
                    assert(!peer_keys_known(esv));
                }
                return Err(DecodeError::UnexpectedField(String::from_str("peer")));
            }
            j = j + 1;
        }
        proof {
            assert(peer_keys_known(esv));
        }
        let ip_bytes = match dict_get(entries, "ip".as_bytes()) {
            Some(BValue::Bytes(b)) => b,
            Some(_) => {
                return Err(DecodeError::InvalidField(String::from_str("ip")));
            },
            None => {
                return Err(DecodeError::MissingField(String::from_str("ip")));
            },
        };
        let ip = match utf8_to_string(ip_bytes) {
            Some(s) => s,
            None => {
                return Err(DecodeError::InvalidField(String::from_str("ip")));
            },
        };
        let port_i: i64 = match dict_get(entries, "port".as_bytes()) {
            Some(BValue::Int(i)) => *i,
            Some(_) => {
                return Err(DecodeError::InvalidField(String::from_str("port")));
            },
            None => {
                return Err(DecodeError::MissingField(String::from_str("port")));
            },
        };
        if port_i < 0 || (port_i as u64) > (usize::MAX as u64) {
            return Err(DecodeError::InvalidField(String::from_str("port")));
        }
        let id = match dict_get(entries, "id".as_bytes()) {
            Some(BValue::Bytes(b)) => Some(PeerId::from_bytes(b.as_slice())),
            Some(_) => {
                return Err(DecodeError::InvalidField(String::from_str("id")));
            },
            None => None,
        };
        Ok(Peer { id, ip, port: port_i as usize })
    }
}

/// A successful announce: scheduling hints, swarm counters and the peers.
#[derive(Debug, PartialEq)]
pub struct PeerInfoResult {
    pub warning_message: Option<String>,
    pub interval: u64,
    pub min_interval: Option<u64>,
    pub tracker_id: Option<String>,
    pub complete: u64,
    pub incomplete: u64,
    pub peers: Vec<Peer>,
}

/// The announce-success dictionary is a closed schema of these keys.
pub open spec fn pir_keys_known(es: Seq<(Seq<u8>, BNode)>) -> bool {
    forall|j: int|
        0 <= j < es.len() ==> ((#[trigger] es[j]).0 == k_peers() || es[j].0 == k_tracker_id()
            || es[j].0 == k_complete() || es[j].0 == k_incomplete() || es[j].0 == k_interval()
            || es[j].0 == k_min_interval() || es[j].0 == k_warning())
}

/// Exactly when a bencode value decodes as an announce success record.
/// `peers` is a list of peer dictionaries, or a compact blob whose length is
/// a multiple of six; the dictionary-list form is tried first.
pub open spec fn pir_decodable(n: BNode) -> bool {
    &&& n matches BNode::Dict(es)
    &&& pir_keys_known(es)
    &&& dict_lookup(es, k_interval()) matches Some(BNode::Int(i)) && 0 <= i <= u64::MAX
    &&& dict_lookup(es, k_complete()) matches Some(BNode::Int(c)) && 0 <= c <= u64::MAX
    &&& dict_lookup(es, k_incomplete()) matches Some(BNode::Int(ic)) && 0 <= ic <= u64::MAX
    &&& (match dict_lookup(es, k_peers()) {
        Some(BNode::List(items)) => forall|k: int|
            0 <= k < items.len() ==> peer_decodable(#[trigger] items[k]),
        Some(BNode::Bytes(b)) => b.len() % 6 == 0,
        Some(_) => false,
        None => false,
    })
    &&& (match dict_lookup(es, k_warning()) {
        Some(n2) => n2 matches BNode::Bytes(b) && valid_utf8(b),
        None => true,
    })
    &&& (match dict_lookup(es, k_min_interval()) {
        Some(n2) => n2 matches BNode::Int(i) && 0 <= i <= u64::MAX,
        None => true,
    })
    &&& (match dict_lookup(es, k_tracker_id()) {
        Some(n2) => n2 matches BNode::Bytes(b) && valid_utf8(b),
        None => true,
    })
}

/// The relation between a decoded announce success and its dictionary.
pub open spec fn pir_matches(p: PeerInfoResult, n: BNode) -> bool {
    &&& n matches BNode::Dict(es)
    &&& dict_lookup(es, k_interval()) matches Some(BNode::Int(i)) && p.interval == i
    &&& dict_lookup(es, k_complete()) matches Some(BNode::Int(c)) && p.complete == c
    &&& dict_lookup(es, k_incomplete()) matches Some(BNode::Int(ic)) && p.incomplete == ic
    &&& (match dict_lookup(es, k_peers()) {
        Some(BNode::List(items)) => p.peers@.len() == items.len() && (forall|k: int|
            0 <= k < items.len() ==> peer_matches(#[trigger] p.peers@[k], items[k])),
        Some(BNode::Bytes(b)) => p.peers@.len() == b.len() / 6 && (forall|k: int|
            0 <= k < p.peers@.len() ==> peer_matches_compact(
                #[trigger] p.peers@[k],
                b.subrange(6 * k, 6 * k + 6),
            )),
        Some(_) => false,
        None => false,
    })
    &&& (match dict_lookup(es, k_warning()) {
        Some(BNode::Bytes(b)) => p.warning_message matches Some(w) && w@ == decode_utf8(b),
        Some(_) => false,
        None => p.warning_message is None,
    })
    &&& (match dict_lookup(es, k_min_interval()) {
        Some(BNode::Int(i)) => p.min_interval matches Some(mi) && mi == i,
        Some(_) => false,
        None => p.min_interval is None,
    })
    &&& (match dict_lookup(es, k_tracker_id()) {
        Some(BNode::Bytes(b)) => p.tracker_id matches Some(t) && t@ == decode_utf8(b),
        Some(_) => false,
        None => p.tracker_id is None,
    })
}

impl PeerInfoResult {
    /// Decode the announce-success dictionary.
    pub fn decode_bencode_object(v: &BValue) -> (r: Result<PeerInfoResult, DecodeError>)
        ensures
            r is Ok <==> pir_decodable(bview(*v)),
            r matches Ok(p) ==> pir_matches(p, bview(*v)),
            r matches Err(e) ==> {
                &&& ((bview(*v) matches BNode::Dict(es) && !pir_keys_known(es))
                    ==> e is UnexpectedField)
                &&& ((bview(*v) matches BNode::Dict(es) && pir_keys_known(es) && dict_lookup(
                    es,
                    k_interval(),
                ) is None) ==> e is MissingField)
                &&& ((bview(*v) matches BNode::Dict(es) && pir_keys_known(es) && lookup_is_u64(
                    dict_lookup(es, k_interval()),
                ) && dict_lookup(es, k_complete()) is None) ==> e is MissingField)
                &&& ((bview(*v) matches BNode::Dict(es) && pir_keys_known(es) && lookup_is_u64(
                    dict_lookup(es, k_interval()),
                ) && lookup_is_u64(dict_lookup(es, k_complete())) && dict_lookup(
                    es,
                    k_incomplete(),
                ) is None) ==> e is MissingField)
                &&& ((bview(*v) matches BNode::Dict(es) && pir_keys_known(es) && lookup_is_u64(
                    dict_lookup(es, k_interval()),
                ) && lookup_is_u64(dict_lookup(es, k_complete())) && lookup_is_u64(
                    dict_lookup(es, k_incomplete()),
                ) && dict_lookup(es, k_peers()) is None) ==> e is MissingField)
            },
    {
        let entries = match v {
            BValue::Dict(es) => es,
            _ => {
                return Err(DecodeError::InvalidField(String::from_str("announce response")));
            },
        };
        let ghost esv = bview_entries(entries@);
        proof {
            assert(bview(*v) == BNode::Dict(esv));
        }
        let mut j: usize = 0;
        while j < entries.len()
            invariant
                0 <= j <= entries@.len(),
                esv == bview_entries(entries@),
                bview(*v) == BNode::Dict(esv),
                forall|t: int|
                    0 <= t < j ==> ((#[trigger] esv[t]).0 == k_peers() || esv[t].0
                        == k_tracker_id() || esv[t].0 == k_complete() || esv[t].0 == k_incomplete()
                        || esv[t].0 == k_interval() || esv[t].0 == k_min_interval() || esv[t].0
                        == k_warning()),
            decreases entries@.len() - j,
        {
            let k = &entries[j].0;
            proof {
                assert(esv[j as int].0 == k@);
            }
            let known = bytes_eq(k.as_slice(), "peers".as_bytes()) || bytes_eq(
                k.as_slice(),
                "tracker_id".as_bytes(),
            ) || bytes_eq(k.as_slice(), "complete".as_bytes()) || bytes_eq(
                k.as_slice(),
                "incomplete".as_bytes(),
            ) || bytes_eq(k.as_slice(), "interval".as_bytes()) || bytes_eq(
                k.as_slice(),
                "min interval".as_bytes(),
            ) || bytes_eq(k.as_slice(), "warning message".as_bytes());
            if !known {
                proof {
                    assert(esv[j as int].0 != k_peers() && esv[j as int].0 != k_tracker_id() && esv[
                        j as int
                    ].0 != k_complete() && esv[j as int].0 != k_incomplete() && esv[j as int].0
                        != k_interval() && esv[j as int].0 != k_min_interval() && esv[j as int].0
                        != k_warning());
                    assert(!pir_keys_known(esv));
                }
                return Err(DecodeError::UnexpectedField(String::from_str("announce response")));
            }
            j = j + 1;
        }
        proof {
            assert(pir_keys_known(esv));
        }
        let interval = match dict_get(entries, "interval".as_bytes()) {
            Some(BValue::Int(i)) => {
                if *i < 0 {
                    return Err(DecodeError::InvalidField(String::from_str("interval")));
                }
                *i as u64
            },
            Some(_) => {
                return Err(DecodeError::InvalidField(String::from_str("interval")));
            },
            None => {
                return Err(DecodeError::MissingField(String::from_str("interval")));
            },
        };
        let complete = match dict_get(entries, "complete".as_bytes()) {
            Some(BValue::Int(i)) => {
                if *i < 0 {
                    return Err(DecodeError::InvalidField(String::from_str("complete")));
                }
                *i as u64
            },
            Some(_) => {
                return Err(DecodeError::InvalidField(String::from_str("complete")));
            },
            None => {
                return Err(DecodeError::MissingField(String::from_str("complete")));
            },
        };
        let incomplete = match dict_get(entries, "incomplete".as_bytes()) {
            Some(BValue::Int(i)) => {
                if *i < 0 {
                    return Err(DecodeError::InvalidField(String::from_str("incomplete")));
                }
                *i as u64
            },
            Some(_) => {
                return Err(DecodeError::InvalidField(String::from_str("incomplete")));
            },
            None => {
                return Err(DecodeError::MissingField(String::from_str("incomplete")));
            },
        };
        let peers: Vec<Peer> = match dict_get(entries, "peers".as_bytes()) {
            Some(BValue::List(items)) => {
                let mut acc: Vec<Peer> = Vec::new();
                let ghost itemsv = bview_seq(items@);
                let mut t: usize = 0;
                while t < items.len()
                    invariant
                        0 <= t <= items@.len(),
                        itemsv == bview_seq(items@),
                        bview(*v) == BNode::Dict(esv),
                        pir_keys_known(esv),
                        dict_lookup(esv, k_interval()) is Some,
                        dict_lookup(esv, k_complete()) is Some,
                        dict_lookup(esv, k_incomplete()) is Some,
                        dict_lookup(esv, k_peers()) == Some(BNode::List(itemsv)),
                        acc@.len() == t,
                        forall|u: int|
                            0 <= u < t ==> peer_decodable(#[trigger] itemsv[u]) && peer_matches(
                                acc@[u],
                                itemsv[u],
                            ),
                    decreases items@.len() - t,
                {
                    proof {
                        assert(itemsv[t as int] == bview(items@[t as int]));
                    }
                    match Peer::decode_bencode_object(&items[t]) {
                        Ok(p) => {
                            acc.push(p);
                        },
                        Err(e) => {
                            proof {
                                assert(!peer_decodable(itemsv[t as int]));
                                assert(!pir_decodable(bview(*v))) by {
                                    if pir_decodable(bview(*v)) {
                                        assert(dict_lookup(esv, k_peers()) matches Some(
                                            BNode::List(its),
                                        ) && its == itemsv);
                                        assert(0 <= t < itemsv.len());
                                        assert(peer_decodable(itemsv[t as int]));
                                    }
                                }
                            }
                            return Err(e);
                        },
                    }
                    t = t + 1;
                }
                acc
            },
            Some(BValue::Bytes(b)) => {
                match decode_compact_peers(b.as_slice()) {
                    Some(ps) => ps,
                    None => {
                        return Err(DecodeError::InvalidField(String::from_str("peers")));
                    },
                }
            },
            Some(_) => {
                return Err(DecodeError::InvalidField(String::from_str("peers")));
            },
            None => {
                return Err(DecodeError::MissingField(String::from_str("peers")));
            },
        };
        let warning_message = match dict_get(entries, "warning message".as_bytes()) {
            Some(BValue::Bytes(b)) => {
                match utf8_to_string(b) {
                    Some(s) => Some(s),
                    None => {
                        return Err(DecodeError::InvalidField(String::from_str("warning message")));
                    },
                }
            },
            Some(_) => {
                return Err(DecodeError::InvalidField(String::from_str("warning message")));
            },
            None => None,
        };
        let min_interval = match dict_get(entries, "min interval".as_bytes()) {
            Some(BValue::Int(i)) => {
                if *i < 0 {
                    return Err(DecodeError::InvalidField(String::from_str("min interval")));
                }
                Some(*i as u64)
            },
            Some(_) => {
                return Err(DecodeError::InvalidField(String::from_str("min interval")));
            },
            None => None,
        };
        let tracker_id = match dict_get(entries, "tracker_id".as_bytes()) {
            Some(BValue::Bytes(b)) => {
                match utf8_to_string(b) {
                    Some(s) => Some(s),
                    None => {
                        return Err(DecodeError::InvalidField(String::from_str("tracker_id")));
                    },
                }
            },
            Some(_) => {
                return Err(DecodeError::InvalidField(String::from_str("tracker_id")));
            },
            None => None,
        };
        Ok(
            PeerInfoResult {
                warning_message,
                interval,
                min_interval,
                tracker_id,
                complete,
                incomplete,
                peers,
            },
        )
    }

    /// Decode a whole announce-success body from raw bytes.
    pub fn from_bytes(bytes: Vec<u8>) -> (r: Result<PeerInfoResult, TorrentError>)
        ensures
            (match spec_decode(bytes@) {
                Err(_) => r matches Err(e) && e is InvalidAnnounceResponse,
                Ok(n) => {
                    &&& r is Ok <==> pir_decodable(n)
                    &&& (r matches Ok(p) ==> pir_matches(p, n))
                    &&& (r matches Err(e) ==> e is InvalidAnnounceResponse)
                },
            }),
    {
        match decode(bytes.as_slice()) {
            Err(_) => Err(
                TorrentError::InvalidAnnounceResponse(String::from_str("malformed bencode")),
            ),
            Ok(v) => match PeerInfoResult::decode_bencode_object(&v) {
                Ok(p) => Ok(p),
                Err(_) => Err(
                    TorrentError::InvalidAnnounceResponse(
                        String::from_str("unexpected announce schema"),
                    ),
                ),
            },
        }
    }
}

/// An announce the tracker rejected, with its stated reason.
#[derive(Debug, PartialEq)]
pub struct AnnounceFailResult {
    pub failure_reason: String,
}

/// Exactly when a tracker response carries a `failure reason` key: the
/// response is then a failure whatever else it holds.
pub open spec fn fail_decodable(n: BNode) -> bool {
    &&& n matches BNode::Dict(es)
    &&& dict_lookup(es, k_failure_reason()) matches Some(BNode::Bytes(b)) && valid_utf8(b)
}

pub open spec fn fail_msg_matches(m: Seq<char>, n: BNode) -> bool {
    &&& n matches BNode::Dict(es)
    &&& dict_lookup(es, k_failure_reason()) matches Some(BNode::Bytes(b)) && m == decode_utf8(b)
}

impl AnnounceFailResult {
    /// Probe a tracker response for a `failure reason` key (open schema:
    /// every other key is ignored).
    pub fn decode_bencode_object(v: &BValue) -> (r: Result<AnnounceFailResult, DecodeError>)
        ensures
            r is Ok <==> fail_decodable(bview(*v)),
            r matches Ok(a) ==> fail_msg_matches(a.failure_reason@, bview(*v)),
    {
        let entries = match v {
            BValue::Dict(es) => es,
            _ => {
                return Err(DecodeError::InvalidField(String::from_str("tracker response")));
            },
        };
        match dict_get(entries, "failure reason".as_bytes()) {
            Some(BValue::Bytes(b)) => {
                match utf8_to_string(b) {
                    Some(s) => Ok(AnnounceFailResult { failure_reason: s }),
                    None => Err(DecodeError::InvalidField(String::from_str("failure reason"))),
                }
            },
            Some(_) => Err(DecodeError::InvalidField(String::from_str("failure reason"))),
            None => Err(DecodeError::MissingField(String::from_str("failure reason"))),
        }
    }
}

/// An announce error as the tracker client reports it.
#[derive(Debug, PartialEq)]
pub struct AnnounceError(pub String);

/// Errors of the tracker client.
#[derive(Debug)]
pub enum TorrentError {
    TrackerError(String),
    InvalidAnnounceResponse(String),
    InvalidTrackerUrl(String),
}

/// Decode a tracker's 200-response body. A `failure reason` key always wins:
/// whatever else the dictionary holds, the announce is then a failure carrying
/// that reason. Otherwise the body must decode as an announce success record.
pub fn decode_announce_response(bytes: &[u8]) -> (r: Result<PeerInfoResult, TorrentError>)
    ensures
        (match spec_decode(bytes@) {
            Err(_) => r matches Err(e) && e is InvalidAnnounceResponse,
            Ok(n) => {
                &&& (fail_decodable(n) ==> (r matches Err(e) && (e matches
                    TorrentError::TrackerError(m) && fail_msg_matches(m@, n))))
                &&& (!fail_decodable(n) ==> {
                    &&& r is Ok <==> pir_decodable(n)
                    &&& (r matches Ok(p) ==> pir_matches(p, n))
                    &&& (r matches Err(e) ==> e is InvalidAnnounceResponse)
                })
            },
        }),
{
    match decode(bytes) {
        Err(_) => Err(TorrentError::InvalidAnnounceResponse(String::from_str("malformed bencode"))),
        Ok(v) => {
            match AnnounceFailResult::decode_bencode_object(&v) {
                Ok(f) => Err(TorrentError::TrackerError(f.failure_reason)),
                Err(_) => match PeerInfoResult::decode_bencode_object(&v) {
                    Ok(p) => Ok(p),
                    Err(_) => Err(
                        TorrentError::InvalidAnnounceResponse(
                            String::from_str("unexpected announce schema"),
                        ),
                    ),
                },
            }
        },
    }
}

} // verus!
