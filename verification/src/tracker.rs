//! The compute side of the tracker client: the announce query built from the
//! swarm identity and a progress snapshot, and the announce schedule.
use vstd::prelude::*;

verus! {

use crate::bittorrent::{DownloadProgress, InfoHash, PeerId};
use crate::util::{dec_str, spec_url_encode, u64_to_string, url_encode_byte_string};
use vstd::string::StringExecFns;

/// The announce query string for one request: the binary identities are
/// percent-escaped bytewise; `downloaded` is reported once something arrived,
/// `event=started` before that, and `event=finished` when everything has.
pub open spec fn spec_announce_query(
    ih: Seq<u8>,
    pid: Seq<u8>,
    port: int,
    down: int,
    total: int,
) -> Seq<char> {
    "info_hash="@ + spec_url_encode(ih) + "&peer_id="@ + spec_url_encode(pid) + "&port="@
        + dec_str(port) + (if down > 0 {
        "&downloaded="@ + dec_str(down) + (if down == total {
            "&event=finished"@
        } else {
            Seq::<char>::empty()
        })
    } else {
        "&event=started"@
    })
}

/// Build the query part of an announce request.
pub fn announce_query(
    info_hash: &InfoHash,
    peer_id: &PeerId,
    port: u64,
    progress: &DownloadProgress,
) -> (r: String)
    ensures
        r@ == spec_announce_query(
            info_hash@,
            peer_id@,
            port as int,
            progress.bytes_downloaded as int,
            progress.bytes_total as int,
        ),
{
    let mut out = String::from_str("info_hash=");
    let ihs = url_encode_byte_string(vstd::slice::slice_to_vec(info_hash.as_bytes()));
    out.append(ihs.as_str());
    out.append("&peer_id=");
    let pids = url_encode_byte_string(vstd::slice::slice_to_vec(peer_id.as_bytes()));
    out.append(pids.as_str());
    out.append("&port=");
    let ps = u64_to_string(port);
    out.append(ps.as_str());
    if progress.bytes_downloaded > 0 {
        out.append("&downloaded=");
        let ds = u64_to_string(progress.bytes_downloaded);
        out.append(ds.as_str());
        if progress.finished() {
            out.append("&event=finished");
        }
    } else {
        out.append("&event=started");
    }
    proof {
        assert(out@ =~= spec_announce_query(
            info_hash@,
            peer_id@,
            port as int,
            progress.bytes_downloaded as int,
            progress.bytes_total as int,
        ));
    }
    out
}

/// Seconds to wait before the next announce: the interval the tracker gave,
/// or a fixed minute when it gave none. Failures reuse the same schedule, so
/// an unreachable tracker is retried rather than abandoned.
pub fn next_announce_delay(interval: Option<u64>) -> (r: u64)
    ensures
        r == (match interval {
            Some(i) => i,
            None => 60u64,
        }),
{
    match interval {
        Some(i) => i,
        None => 60,
    }
}

} // verus!
