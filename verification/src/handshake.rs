//! The fixed 68-byte peer handshake: length-prefixed protocol name, eight
//! reserved zero bytes, the content identifier, and the peer identifier.
//! The message has no delimiter of its own; its fixed length is what makes a
//! single fixed-size read safe.

use vstd::prelude::*;

verus! {

/// The local half of a handshake: what we send.
#[derive(Debug, Clone)]
pub struct HandShake {
    pub info_hash: [u8; 20],
    pub peer_id: [u8; 20],
}

/// The distinct ways a handshake reply can be rejected.
#[derive(Clone, Copy, Debug, PartialEq, Eq, Structural)]
pub enum HandshakeError {
    /// Fewer than 68 bytes arrived before the stream closed.
    Truncated,
    /// The length prefix or the protocol name is wrong.
    ProtocolMismatch,
    /// The echoed content identifier differs from the one sent.
    IdentifierMismatch,
}

/// The 19 ASCII bytes of "BitTorrent protocol".
pub open spec fn protocol_name() -> Seq<u8> {
    seq![66u8, 105, 116, 84, 111, 114, 114, 101, 110, 116, 32, 112, 114, 111, 116, 111, 99, 111,
        108]
}

/// The eight reserved bytes, all zero.
pub open spec fn reserved_bytes() -> Seq<u8> {
    seq![0u8, 0, 0, 0, 0, 0, 0, 0]
}

/// The fixed 68-byte layout: 19, the protocol name, 8 reserved zeros, the
/// content identifier, the peer identifier.
pub open spec fn spec_handshake_bytes(info_hash: Seq<u8>, peer_id: Seq<u8>) -> Seq<u8> {
    seq![19u8] + protocol_name() + reserved_bytes() + info_hash + peer_id
}

/// A 68-byte reply is valid when it leads with 19, carries the exact
/// protocol name, and echoes the expected content identifier.
pub open spec fn reply_valid(reply: Seq<u8>, expected: Seq<u8>) -> bool {
    reply.len() == 68 && reply[0] == 19 && reply.subrange(1, 20) == protocol_name()
        && reply.subrange(28, 48) == expected
}

fn push_protocol_name(out: &mut Vec<u8>)
    ensures
        final(out)@ == old(out)@ + protocol_name(),
{
    out.push(66);
    out.push(105);
    out.push(116);
    out.push(84);
    out.push(111);
    out.push(114);
    out.push(114);
    out.push(101);
    out.push(110);
    out.push(116);
    out.push(32);
    out.push(112);
    out.push(114);
    out.push(111);
    out.push(116);
    out.push(111);
    out.push(99);
    out.push(111);
    out.push(108);
    proof {
        assert(out@ =~= old(out)@ + protocol_name());
    }
}

impl HandShake {
    /// Assembles the local half of a handshake.
    pub fn new(info_hash: [u8; 20], peer_id: [u8; 20]) -> (r: HandShake)
        ensures
            r.info_hash == info_hash,
            r.peer_id == peer_id,
    {
        HandShake { info_hash, peer_id }
    }

    /// Serializes the message: exactly 68 bytes in the fixed layout, built
    /// by explicit, bounds-checked concatenation.
    pub fn to_bytes(&self) -> (r: Vec<u8>)
        ensures
            r@ == spec_handshake_bytes(self.info_hash@, self.peer_id@),
            r@.len() == 68,
    {
        let mut out: Vec<u8> = Vec::new();
        out.push(19);
        push_protocol_name(&mut out);
        let mut j: usize = 0;
        while j < 8
            invariant
                j <= 8,
                out@ == seq![19u8] + protocol_name() + reserved_bytes().take(j as int),
            decreases 8 - j,
        {
            out.push(0);
            proof {
                assert(reserved_bytes().take(j as int).push(0u8) =~= reserved_bytes().take(
                    j as int + 1,
                ));
                assert((seq![19u8] + protocol_name() + reserved_bytes().take(j as int)).push(0u8)
                    =~= seq![19u8] + protocol_name() + reserved_bytes().take(j as int + 1));
            }
            j = j + 1;
        }
        proof {
            assert(reserved_bytes().take(8) =~= reserved_bytes());
        }
        let ghost mid = seq![19u8] + protocol_name() + reserved_bytes();
        let mut k: usize = 0;
        while k < 20
            invariant
                k <= 20,
                out@ == mid + self.info_hash@.take(k as int),
            decreases 20 - k,
        {
            out.push(self.info_hash[k]);
            proof {
                assert(self.info_hash@.take(k as int).push(self.info_hash@[k as int])
                    =~= self.info_hash@.take(k as int + 1));
                assert((mid + self.info_hash@.take(k as int)).push(self.info_hash@[k as int]) =~= mid
                    + self.info_hash@.take(k as int + 1));
            }
            k = k + 1;
        }
        proof {
            assert(self.info_hash@.take(20) =~= self.info_hash@);
        }
        let ghost mid2 = mid + self.info_hash@;
        let mut k2: usize = 0;
        while k2 < 20
            invariant
                k2 <= 20,
                out@ == mid2 + self.peer_id@.take(k2 as int),
            decreases 20 - k2,
        {
            out.push(self.peer_id[k2]);
            proof {
                assert(self.peer_id@.take(k2 as int).push(self.peer_id@[k2 as int])
                    =~= self.peer_id@.take(k2 as int + 1));
                assert((mid2 + self.peer_id@.take(k2 as int)).push(self.peer_id@[k2 as int])
                    =~= mid2 + self.peer_id@.take(k2 as int + 1));
            }
            k2 = k2 + 1;
        }
        proof {
            assert(self.peer_id@.take(20) =~= self.peer_id@);
            assert(out@ =~= spec_handshake_bytes(self.info_hash@, self.peer_id@));
        }
        out
    }

    /// Validates a reply against the identifier that was sent. A short read
    /// is Truncated; a wrong length prefix or protocol name is a protocol
    /// mismatch; a different echoed identifier means the peer serves another
    /// torrent. On success the remote peer identifier, bytes 48 to 67, is
    /// returned unchanged and unvalidated.
    pub fn validate_reply(reply: &Vec<u8>, expected: &[u8; 20]) -> (r: Result<
        [u8; 20],
        HandshakeError,
    >)
        requires
            reply@.len() <= 68,
        ensures
            match r {
                Ok(pid) => reply_valid(reply@, expected@) && pid@ == reply@.subrange(48, 68),
                Err(HandshakeError::Truncated) => reply@.len() < 68,
                Err(HandshakeError::ProtocolMismatch) => reply@.len() == 68 && (reply@[0] != 19
                    || reply@.subrange(1, 20) != protocol_name()),
                Err(HandshakeError::IdentifierMismatch) => reply@.len() == 68 && reply@[0] == 19
                    && reply@.subrange(1, 20) == protocol_name() && reply@.subrange(28, 48)
                    != expected@,
            },
    {
        if reply.len() < 68 {
            return Err(HandshakeError::Truncated);
        }
        if reply[0] != 19 {
            return Err(HandshakeError::ProtocolMismatch);
        }
        let proto = {
            let mut v: Vec<u8> = Vec::new();
            push_protocol_name(&mut v);
            proof {
                assert(Seq::<u8>::empty() + protocol_name() =~= protocol_name());
            }
            v
        };
        let mut j: usize = 0;
        while j < 19
            invariant
                j <= 19,
                reply@.len() == 68,
                proto@ == protocol_name(),
                forall|q: int| 0 <= q < j ==> reply@[1 + q] == protocol_name()[q],
            decreases 19 - j,
        {
            if reply[1 + j] != proto[j] {
                proof {
                    assert(reply@.subrange(1, 20)[j as int] == reply@[1 + j as int]);
                    assert(reply@.subrange(1, 20) != protocol_name());
                }
                return Err(HandshakeError::ProtocolMismatch);
            }
            j = j + 1;
        }
        proof {
            assert(reply@.subrange(1, 20) =~= protocol_name());
        }
        let mut k: usize = 0;
        while k < 20
            invariant
                k <= 20,
                reply@.len() == 68,
                reply@[0] == 19,
                reply@.subrange(1, 20) == protocol_name(),
                forall|q: int| 0 <= q < k ==> reply@[28 + q] == expected@[q],
            decreases 20 - k,
        {
            if reply[28 + k] != expected[k] {
                proof {
                    assert(reply@.subrange(28, 48)[k as int] == reply@[28 + k as int]);
                    assert(reply@.subrange(28, 48) != expected@) by {
                        if reply@.subrange(28, 48) == expected@ {
                            assert(expected@[k as int] == reply@.subrange(28, 48)[k as int]);
                        }
                    }
                }
                return Err(HandshakeError::IdentifierMismatch);
            }
            k = k + 1;
        }
        proof {
            assert(reply@.subrange(28, 48) =~= expected@);
        }
        let mut pid = [0u8; 20];
        let mut m: usize = 0;
        while m < 20
            invariant
                m <= 20,
                reply@.len() == 68,
                reply@[0] == 19,
                reply@.subrange(1, 20) == protocol_name(),
                reply@.subrange(28, 48) == expected@,
                pid@.len() == 20,
                forall|q: int| 0 <= q < m ==> pid@[q] == reply@[48 + q],
            decreases 20 - m,
        {
            pid[m] = reply[48 + m];
            m = m + 1;
        }
        proof {
            assert(pid@ =~= reply@.subrange(48, 68));
        }
        Ok(pid)
    }
}

} // verus!
