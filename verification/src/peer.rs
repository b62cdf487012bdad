//! The peer handshake: a fixed 68-byte record exchanged verbatim in
//! both directions at the start of a peer session.  The record is
//! packed and unpacked field by field at fixed offsets; nothing relies
//! on in-memory layout.

use vstd::prelude::*;

use crate::TorrentError;

verus! {

/// The 19 bytes of the literal protocol tag `BitTorrent protocol`.
pub open spec fn protocol_tag() -> Seq<u8> {
    seq![
        66u8,
        105u8,
        116u8,
        84u8,
        111u8,
        114u8,
        114u8,
        101u8,
        110u8,
        116u8,
        32u8,
        112u8,
        114u8,
        111u8,
        116u8,
        111u8,
        99u8,
        111u8,
        108u8,
    ]
}

/// The wire form of a handshake record: tag length, tag, reserved
/// bytes, identity, peer id — 68 bytes, no padding.
pub open spec fn handshake_bytes(h: Handshake) -> Seq<u8> {
    seq![h.protocol_length] + h.protocol@ + h.reserved@ + h.info_hash@ + h.peer_id@
}

/// A received 68-byte buffer is acceptable exactly when its first
/// byte is 19 and the 19 tag bytes match the protocol tag.
pub open spec fn handshake_acceptable(bytes: Seq<u8>) -> bool {
    bytes.len() == 68 && bytes[0] == 19 && bytes.subrange(1, 20) == protocol_tag()
}

/// An outgoing record built with the literal tag packs to an
/// acceptable buffer, and its identity and peer id sit at their fixed
/// offsets.
pub proof fn lemma_handshake_round_trip(h: Handshake)
    requires
        h.protocol_length == 19,
        h.protocol@ == protocol_tag(),
    ensures
        handshake_acceptable(handshake_bytes(h)),
        handshake_bytes(h).subrange(20, 28) == h.reserved@,
        handshake_bytes(h).subrange(28, 48) == h.info_hash@,
        handshake_bytes(h).subrange(48, 68) == h.peer_id@,
{
    let bs = handshake_bytes(h);
    assert(bs.len() == 68);
    assert(bs.subrange(1, 20) =~= h.protocol@);
    assert(bs.subrange(20, 28) =~= h.reserved@);
    assert(bs.subrange(28, 48) =~= h.info_hash@);
    assert(bs.subrange(48, 68) =~= h.peer_id@);
}

/// The fixed 68-byte handshake record.
pub struct Handshake {
    pub protocol_length: u8,
    pub protocol: [u8; 19],
    pub reserved: [u8; 8],
    pub info_hash: [u8; 20],
    pub peer_id: [u8; 20],
}

impl Handshake {
    /// Builds the outgoing record: tag length 19, the literal protocol
    /// tag, 8 zero reserved bytes, then the identity and peer id.
    pub fn new(info_hash: [u8; 20], peer_id: [u8; 20]) -> (h: Handshake)
        ensures
            h.protocol_length == 19,
            h.protocol@ == protocol_tag(),
            forall|j: int| 0 <= j < 8 ==> h.reserved@[j] == 0,
            h.info_hash@ == info_hash@,
            h.peer_id@ == peer_id@,
    {
        let h = Handshake {
            protocol_length: 19,
            protocol: [
                66u8,
                105u8,
                116u8,
                84u8,
                111u8,
                114u8,
                114u8,
                101u8,
                110u8,
                116u8,
                32u8,
                112u8,
                114u8,
                111u8,
                116u8,
                111u8,
                99u8,
                111u8,
                108u8,
            ],
            reserved: [0u8; 8],
            info_hash,
            peer_id,
        };
        proof {
            assert(h.protocol@ =~= protocol_tag());
        }
        h
    }

    /// Packs the record into its 68-byte wire form.
    #[verifier::loop_isolation(false)]
    pub fn to_bytes(&self) -> (r: Vec<u8>)
        ensures
            r@ == handshake_bytes(*self),
            r@.len() == 68,
    {
        let mut out: Vec<u8> = Vec::new();
        out.push(self.protocol_length);
        let ghost p1 = out@;
        let mut j: usize = 0;
        while j < 19
            invariant
                j <= 19,
                out@ == p1 + self.protocol@.take(j as int),
            decreases 19 - j,
        {
            out.push(self.protocol[j]);
            proof {
                assert(out@ =~= p1 + self.protocol@.take(j + 1));
            }
            j = j + 1;
        }
        proof {
            assert(self.protocol@.take(19) =~= self.protocol@);
        }
        let ghost p2 = out@;
        let mut j: usize = 0;
        while j < 8
            invariant
                j <= 8,
                out@ == p2 + self.reserved@.take(j as int),
            decreases 8 - j,
        {
            out.push(self.reserved[j]);
            proof {
                assert(out@ =~= p2 + self.reserved@.take(j + 1));
            }
            j = j + 1;
        }
        proof {
            assert(self.reserved@.take(8) =~= self.reserved@);
        }
        let ghost p3 = out@;
        let mut j: usize = 0;
        while j < 20
            invariant
                j <= 20,
                out@ == p3 + self.info_hash@.take(j as int),
            decreases 20 - j,
        {
            out.push(self.info_hash[j]);
            proof {
                assert(out@ =~= p3 + self.info_hash@.take(j + 1));
            }
            j = j + 1;
        }
        proof {
            assert(self.info_hash@.take(20) =~= self.info_hash@);
        }
        let ghost p4 = out@;
        let mut j: usize = 0;
        while j < 20
            invariant
                j <= 20,
                out@ == p4 + self.peer_id@.take(j as int),
            decreases 20 - j,
        {
            out.push(self.peer_id[j]);
            proof {
                assert(out@ =~= p4 + self.peer_id@.take(j + 1));
            }
            j = j + 1;
        }
        proof {
            assert(self.peer_id@.take(20) =~= self.peer_id@);
            assert(out@ =~= handshake_bytes(*self));
        }
        out
    }

    /// Unpacks a received buffer, validating the tag length and the
    /// tag.  A buffer that is not 68 bytes, whose tag length is not
    /// 19, or whose tag differs fails with `ProtocolMismatch` and
    /// yields no record, hence no peer id.
    #[verifier::loop_isolation(false)]
    pub fn parse(bytes: &[u8]) -> (r: Result<Handshake, TorrentError>)
        ensures
            match r {
                Ok(h) => handshake_acceptable(bytes@) && h.protocol_length == 19 && h.protocol@
                    == protocol_tag() && h.reserved@ == bytes@.subrange(20, 28) && h.info_hash@
                    == bytes@.subrange(28, 48) && h.peer_id@ == bytes@.subrange(48, 68),
                Err(e) => e == TorrentError::ProtocolMismatch && !handshake_acceptable(bytes@),
            },
    {
        if bytes.len() != 68 {
            return Err(TorrentError::ProtocolMismatch);
        }
        if bytes[0] != 19 {
            return Err(TorrentError::ProtocolMismatch);
        }
        let tag: [u8; 19] = [
            66u8,
            105u8,
            116u8,
            84u8,
            111u8,
            114u8,
            114u8,
            101u8,
            110u8,
            116u8,
            32u8,
            112u8,
            114u8,
            111u8,
            116u8,
            111u8,
            99u8,
            111u8,
            108u8,
        ];
        proof {
            assert(tag@ =~= protocol_tag());
        }
        let mut j: usize = 0;
        while j < 19
            invariant
                j <= 19,
                forall|k: int| 0 <= k < j ==> bytes@[1 + k] == protocol_tag()[k],
            decreases 19 - j,
        {
            if bytes[1 + j] != tag[j] {
                proof {
                    assert(bytes@.subrange(1, 20)[j as int] == bytes@[1 + j]);
                    assert(bytes@.subrange(1, 20) != protocol_tag());
                }
                return Err(TorrentError::ProtocolMismatch);
            }
            j = j + 1;
        }
        proof {
            assert(bytes@.subrange(1, 20) =~= protocol_tag());
        }
        let mut reserved = [0u8; 8];
        let mut j: usize = 0;
        while j < 8
            invariant
                j <= 8,
                forall|k: int| 0 <= k < j ==> reserved@[k] == bytes@[20 + k],
            decreases 8 - j,
        {
            reserved[j] = bytes[20 + j];
            j = j + 1;
        }
        proof {
            assert(reserved@ =~= bytes@.subrange(20, 28));
        }
        let mut info_hash = [0u8; 20];
        let mut j: usize = 0;
        while j < 20
            invariant
                j <= 20,
                forall|k: int| 0 <= k < j ==> info_hash@[k] == bytes@[28 + k],
            decreases 20 - j,
        {
            info_hash[j] = bytes[28 + j];
            j = j + 1;
        }
        proof {
            assert(info_hash@ =~= bytes@.subrange(28, 48));
        }
        let mut peer_id = [0u8; 20];
        let mut j: usize = 0;
        while j < 20
            invariant
                j <= 20,
                forall|k: int| 0 <= k < j ==> peer_id@[k] == bytes@[48 + k],
            decreases 20 - j,
        {
            peer_id[j] = bytes[48 + j];
            j = j + 1;
        }
        proof {
            assert(peer_id@ =~= bytes@.subrange(48, 68));
        }
        let tag2: [u8; 19] = tag;
        Ok(
            Handshake {
                protocol_length: 19,
                protocol: tag2,
                reserved,
                info_hash,
                peer_id,
            },
        )
    }
}

} // verus!
