//! The tracker protocol: the request parameter set, the raw percent-encoding
//! of the 20-byte binary identifiers, and the bencoded response with its
//! compact peer list of 6-byte records.

use crate::bencode::{dict_lookup, spec_decode, BValue, BencodeError, BencodeValue};
use crate::hashes::split_records;
use vstd::prelude::*;

verus! {

/// The query parameters of a tracker announce. The content identifier is not
/// a field: it is percent-encoded byte-by-byte and appended separately, so
/// that its raw bytes are not reinterpreted as text.
#[derive(Debug, Clone)]
pub struct TrackerRequest {
    /// A client-chosen identifier of exactly 20 bytes.
    pub peer_id: String,
    /// The port the client listens on.
    pub port: u16,
    /// Total bytes uploaded so far.
    pub uploaded: usize,
    /// Total bytes downloaded so far.
    pub downloaded: usize,
    /// Bytes left to download.
    pub left: usize,
    /// Compact-response flag, always 1.
    pub compact: u8,
}

impl TrackerRequest {
    /// Assembles a request; the compact flag is fixed to 1.
    pub fn new(peer_id: String, port: u16, uploaded: usize, downloaded: usize, left: usize) -> (r:
        TrackerRequest)
        requires
            peer_id@.len() == 20,
        ensures
            r.peer_id@ == peer_id@,
            r.port == port,
            r.uploaded == uploaded,
            r.downloaded == downloaded,
            r.left == left,
            r.compact == 1,
    {
        TrackerRequest { peer_id, port, uploaded, downloaded, left, compact: 1 }
    }
}

/// The lowercase hex digit of a nibble.
pub open spec fn hex_digit(v: u8) -> u8
    recommends
        v < 16,
{
    if v < 10 {
        (48 + v) as u8
    } else {
        (87 + v) as u8
    }
}

/// Every byte as `%` and two lowercase hex digits, high nibble first.
pub open spec fn percent_encoding(b: Seq<u8>) -> Seq<u8>
    decreases b.len(),
{
    if b.len() == 0 {
        Seq::empty()
    } else {
        seq![37u8, hex_digit(b[0] / 16), hex_digit(b[0] % 16)] + percent_encoding(b.skip(1))
    }
}

proof fn lemma_percent_push(t: Seq<u8>, x: u8)
    ensures
        percent_encoding(t.push(x)) == percent_encoding(t) + seq![
            37u8,
            hex_digit(x / 16),
            hex_digit(x % 16),
        ],
    decreases t.len(),
{
    if t.len() == 0 {
        assert(t.push(x)[0] == x);
        assert(t.push(x).skip(1) =~= Seq::<u8>::empty());
        assert(percent_encoding(Seq::<u8>::empty()) == Seq::<u8>::empty());
        assert(percent_encoding(t.push(x)) == seq![37u8, hex_digit(x / 16), hex_digit(x % 16)]
            + Seq::<u8>::empty());
        assert(seq![37u8, hex_digit(x / 16), hex_digit(x % 16)] + Seq::<u8>::empty() =~= seq![
            37u8,
            hex_digit(x / 16),
            hex_digit(x % 16),
        ]);
        assert(percent_encoding(t) + seq![37u8, hex_digit(x / 16), hex_digit(x % 16)] =~= seq![
            37u8,
            hex_digit(x / 16),
            hex_digit(x % 16),
        ]);
    } else {
        assert(t.push(x)[0] == t[0]);
        assert(t.push(x).skip(1) =~= t.skip(1).push(x));
        lemma_percent_push(t.skip(1), x);
        assert(seq![37u8, hex_digit(t[0] / 16), hex_digit(t[0] % 16)] + (percent_encoding(t.skip(1))
            + seq![37u8, hex_digit(x / 16), hex_digit(x % 16)]) =~= (seq![
            37u8,
            hex_digit(t[0] / 16),
            hex_digit(t[0] % 16),
        ] + percent_encoding(t.skip(1))) + seq![37u8, hex_digit(x / 16), hex_digit(x % 16)]);
    }
}

/// Relies on hex::encode: two lowercase hex digits per byte, high nibble
/// first.
#[verifier::external_body]
fn hex_byte(b: u8) -> (r: Vec<u8>)
    ensures
        r@ == seq![hex_digit(b / 16), hex_digit(b % 16)],
{
    hex::encode([b]).into_bytes()
}

/// Percent-encodes a raw 20-byte identifier for a tracker query: every byte,
/// URL-safe or not, becomes `%` followed by two lowercase hex digits.
pub fn urlencode(t: &[u8; 20]) -> (r: Vec<u8>)
    ensures
        r@ == percent_encoding(t@),
{
    let mut out: Vec<u8> = Vec::new();
    let mut k: usize = 0;
    proof {
        assert(t@.take(0) =~= Seq::<u8>::empty());
    }
    while k < 20
        invariant
            k <= 20,
            out@ == percent_encoding(t@.take(k as int)),
        decreases 20 - k,
    {
        let ghost prev = out@;
        let b = t[k];
        out.push(37);
        let h = hex_byte(b);
        out.push(h[0]);
        out.push(h[1]);
        proof {
            assert(t@.take(k as int).push(t@[k as int]) =~= t@.take(k as int + 1));
            lemma_percent_push(t@.take(k as int), t@[k as int]);
            assert(out@ =~= prev + seq![37u8, hex_digit(b / 16), hex_digit(b % 16)]);
        }
        k = k + 1;
    }
    proof {
        assert(t@.take(20) =~= t@);
    }
    out
}

/// One peer of a compact peer list: a 4-byte IPv4 address in network byte
/// order and a big-endian 16-bit port.
#[derive(Debug, Clone)]
pub struct PeerAddr {
    pub ip: [u8; 4],
    pub port: u16,
}

/// The peers of a tracker response, decoded from its 6-byte records.
#[derive(Debug, Clone)]
pub struct Peers(pub Vec<PeerAddr>);

/// A tracker's reply: re-poll interval and compact peer list.
#[derive(Debug, Clone)]
pub struct TrackerResponse {
    pub interval: usize,
    pub peers: Peers,
}

/// The wire form of one peer: 4 address bytes, then the port big-endian.
pub open spec fn peer_bytes(p: PeerAddr) -> Seq<u8> {
    p.ip@ + seq![(p.port / 256) as u8, (p.port % 256) as u8]
}

/// The compact wire form of a peer list: concatenated 6-byte records.
pub open spec fn peers_bytes(ps: Seq<PeerAddr>) -> Seq<u8>
    decreases ps.len(),
{
    if ps.len() == 0 {
        Seq::empty()
    } else {
        peer_bytes(ps[0]) + peers_bytes(ps.skip(1))
    }
}

proof fn lemma_peers_bytes_push(t: Seq<PeerAddr>, x: PeerAddr)
    ensures
        peers_bytes(t.push(x)) == peers_bytes(t) + peer_bytes(x),
    decreases t.len(),
{
    if t.len() == 0 {
        assert(t.push(x)[0] == x);
        assert(t.push(x).skip(1) =~= Seq::<PeerAddr>::empty());
        assert(peers_bytes(Seq::<PeerAddr>::empty()) == Seq::<u8>::empty());
        assert(peers_bytes(t.push(x)) == peer_bytes(x) + Seq::<u8>::empty());
        assert(peer_bytes(x) + Seq::<u8>::empty() =~= peer_bytes(x));
        assert(peers_bytes(t) + peer_bytes(x) =~= peer_bytes(x));
    } else {
        assert(t.push(x)[0] == t[0]);
        assert(t.push(x).skip(1) =~= t.skip(1).push(x));
        lemma_peers_bytes_push(t.skip(1), x);
        assert(peer_bytes(t[0]) + (peers_bytes(t.skip(1)) + peer_bytes(x)) =~= (peer_bytes(t[0])
            + peers_bytes(t.skip(1))) + peer_bytes(x));
    }
}

impl Peers {
    /// Serializes the peer list back into its compact wire form, 6 bytes
    /// per peer in list order; an empty list gives zero bytes.
    pub fn to_bytes(&self) -> (r: Vec<u8>)
        ensures
            r@ == peers_bytes(self.0@),
            r@.len() == 6 * self.0@.len(),
    {
        let mut out: Vec<u8> = Vec::new();
        let mut k: usize = 0;
        proof {
            assert(self.0@.take(0) =~= Seq::<PeerAddr>::empty());
        }
        while k < self.0.len()
            invariant
                k <= self.0.len(),
                out@ == peers_bytes(self.0@.take(k as int)),
                out@.len() == 6 * k,
            decreases self.0.len() - k,
        {
            let ghost prev = out@;
            let p = &self.0[k];
            out.push(p.ip[0]);
            out.push(p.ip[1]);
            out.push(p.ip[2]);
            out.push(p.ip[3]);
            out.push((p.port / 256) as u8);
            out.push((p.port % 256) as u8);
            proof {
                assert(self.0@.take(k as int).push(self.0@[k as int]) =~= self.0@.take(
                    k as int + 1,
                ));
                lemma_peers_bytes_push(self.0@.take(k as int), self.0@[k as int]);
                assert(out@ =~= prev + peer_bytes(self.0@[k as int]));
            }
            k = k + 1;
        }
        proof {
            assert(self.0@.take(self.0@.len() as int) =~= self.0@);
        }
        out
    }
}

/// The distinct ways a tracker reply can be rejected.
#[derive(Clone, Copy, Debug, PartialEq, Eq, Structural)]
pub enum TrackerError {
    /// The reply is not well-formed bencode.
    Bencode(BencodeError),
    /// The reply is not a dictionary, or `interval` or `peers` is absent,
    /// of the wrong bencode type, or out of range.
    MalformedResponse,
    /// The `peers` byte string length is not a multiple of 6.
    InvalidPeersLength,
}

pub open spec fn key_interval() -> Seq<u8> {
    seq![105u8, 110, 116, 101, 114, 118, 97, 108]
}

pub open spec fn key_peers() -> Seq<u8> {
    seq![112u8, 101, 101, 114, 115]
}

fn key_interval_exec() -> (r: Vec<u8>)
    ensures
        r@ == key_interval(),
{
    let mut v: Vec<u8> = Vec::new();
    v.push(105);
    v.push(110);
    v.push(116);
    v.push(101);
    v.push(114);
    v.push(118);
    v.push(97);
    v.push(108);
    proof {
        assert(v@ =~= key_interval());
    }
    v
}

fn key_peers_exec() -> (r: Vec<u8>)
    ensures
        r@ == key_peers(),
{
    let mut v: Vec<u8> = Vec::new();
    v.push(112);
    v.push(101);
    v.push(101);
    v.push(114);
    v.push(115);
    proof {
        assert(v@ =~= key_peers());
    }
    v
}

/// The meaning of a tracker reply: its interval and the raw bytes of its
/// compact peer list; trailing input after the top-level value is ignored.
pub open spec fn tracker_response_of(s: Seq<u8>) -> Result<(int, Seq<u8>), TrackerError> {
    match spec_decode(s) {
        Err(e) => Err(TrackerError::Bencode(e)),
        Ok((v, _rest)) => match v {
            BValue::Dict(es) => match (
                dict_lookup(es, key_interval()),
                dict_lookup(es, key_peers()),
            ) {
                (Some(BValue::Int(iv)), Some(BValue::Bytes(pb))) => if 0 <= iv <= usize::MAX
                    as int {
                    if pb.len() % 6 == 0 {
                        Ok((iv, pb))
                    } else {
                        Err(TrackerError::InvalidPeersLength)
                    }
                } else {
                    Err(TrackerError::MalformedResponse)
                },
                _ => Err(TrackerError::MalformedResponse),
            },
            _ => Err(TrackerError::MalformedResponse),
        },
    }
}

impl TrackerResponse {
    /// Parses a bencoded tracker reply: `interval` as an integer, `peers` as
    /// a byte string of 6-byte records, each the peer's IPv4 address in
    /// network byte order followed by its big-endian port.
    pub fn parse(bytes: &Vec<u8>) -> (r: Result<TrackerResponse, TrackerError>)
        ensures
            match r {
                Ok(tr) => match tracker_response_of(bytes@) {
                    Ok(m) => tr.interval as int == m.0 && tr.peers.0@.len() * 6 == m.1.len() && (
                    forall|i: int|
                        0 <= i < tr.peers.0@.len() ==> (#[trigger] tr.peers.0@[i]).ip@
                            == m.1.subrange(i * 6, i * 6 + 4) && (tr.peers.0@[i]).port as int == (
                        m.1[i * 6 + 4] as int) * 256 + (m.1[i * 6 + 5] as int)),
                    Err(_) => false,
                },
                Err(e) => tracker_response_of(bytes@) == Err::<(int, Seq<u8>), TrackerError>(e),
            },
    {
        let decoded = match BencodeValue::decode(bytes) {
            Ok(p) => p.0,
            Err(e) => {
                return Err(TrackerError::Bencode(e));
            },
        };
        let entries = match &decoded {
            BencodeValue::Dictionary(es) => es,
            _ => {
                return Err(TrackerError::MalformedResponse);
            },
        };
        let k_interval = key_interval_exec();
        let k_peers = key_peers_exec();
        let iv = crate::bencode::dict_get(entries, &k_interval);
        let pv = crate::bencode::dict_get(entries, &k_peers);
        let (interval, pb) = match (iv, pv) {
            (Some(BencodeValue::Integer(i0)), Some(BencodeValue::ByteString(pb))) => {
                let i0 = *i0;
                if i0 < 0 || (i0 as u64) > (usize::MAX as u64) {
                    return Err(TrackerError::MalformedResponse);
                }
                (i0 as usize, pb)
            },
            _ => {
                return Err(TrackerError::MalformedResponse);
            },
        };
        let records = match split_records::<6>(pb) {
            Ok(rs) => rs,
            Err(_) => {
                return Err(TrackerError::InvalidPeersLength);
            },
        };
        let mut peers: Vec<PeerAddr> = Vec::new();
        let mut k: usize = 0;
        while k < records.len()
            invariant
                k <= records.len(),
                peers@.len() == k,
                records@.len() * 6 == pb@.len(),
                forall|i: int|
                    0 <= i < records@.len() ==> #[trigger] records@[i]@ == pb@.subrange(
                        i * 6,
                        (i + 1) * 6,
                    ),
                forall|i: int|
                    0 <= i < k ==> (#[trigger] peers@[i]).ip@ == pb@.subrange(i * 6, i * 6 + 4) && (
                    peers@[i]).port as int == (pb@[i * 6 + 4] as int) * 256 + (pb@[i * 6
                        + 5] as int),
            decreases records.len() - k,
        {
            let rec = &records[k];
            let mut ip = [0u8; 4];
            ip[0] = rec[0];
            ip[1] = rec[1];
            ip[2] = rec[2];
            ip[3] = rec[3];
            let port: u16 = (rec[4] as u16) * 256 + (rec[5] as u16);
            proof {
                assert(rec@ == pb@.subrange(k as int * 6, (k as int + 1) * 6));
                assert(pb@.subrange(k as int * 6, (k as int + 1) * 6)[4] == pb@[k as int * 6 + 4]);
                assert(pb@.subrange(k as int * 6, (k as int + 1) * 6)[5] == pb@[k as int * 6 + 5]);
                assert(ip@ =~= pb@.subrange(k as int * 6, k as int * 6 + 4));
                assert(rec@[4] == pb@[k as int * 6 + 4]);
                assert(rec@[5] == pb@[k as int * 6 + 5]);
            }
            peers.push(PeerAddr { ip, port });
            k = k + 1;
        }
        Ok(TrackerResponse { interval, peers: Peers(peers) })
    }
}

} // verus!
