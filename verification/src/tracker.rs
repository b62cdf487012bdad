//! The tracker protocol: building the URL-encoded discovery request,
//! and decoding the compact peer-list response.

use vstd::prelude::*;

use crate::TorrentError;
use crate::bencode::{
    Bval, digits_of, is_digit, lemma_digits_of, push_digits, spec_decode_at, decode_bencoded_value,
    BencodeValue,
};
use crate::torrent::{spec_lookup, bytes_to_string, lemma_ascii_decode};
use vstd::utf8::{
    valid_utf8, decode_utf8, encode_utf8, encode_utf8_valid_utf8, decode_utf8_encode_utf8,
    valid_utf8_concat,
};

verus! {

broadcast use vstd::std_specs::vec::group_vec_axioms;

/// One peer address from a compact 6-byte record: 4 IPv4 octets and a
/// big-endian port.
#[derive(Debug, PartialEq, Eq)]
pub struct PeerAddr {
    pub ip: [u8; 4],
    pub port: u16,
}

/// The ordered peer list of a tracker response.
#[derive(Debug, PartialEq, Eq)]
pub struct Peers(pub Vec<PeerAddr>);

/// The fields of a tracker discovery request.  `info_hash` holds the
/// identity already percent-encoded byte-for-byte; it bypasses form
/// encoding and is appended verbatim.
pub struct TrackerRequest {
    pub info_hash: String,
    pub peer_id: String,
    pub port: u16,
    pub uploaded: usize,
    pub downloaded: usize,
    pub left: usize,
    pub compact: u8,
}

/// A decoded tracker response: the poll interval in seconds and the
/// compact peer list.
#[derive(Debug, PartialEq, Eq)]
pub struct TrackerResponse {
    pub interval: usize,
    pub peers: Peers,
}

// ------------------------------------------------------------------
// The request query string.
// ------------------------------------------------------------------

/// The bytes form encoding leaves as they are: ASCII letters, digits,
/// `*`, `-`, `.` and `_`.
pub open spec fn form_unreserved(b: u8) -> bool {
    ||| (48 <= b && b <= 57)
    ||| (65 <= b && b <= 90)
    ||| (97 <= b && b <= 122)
    ||| b == 42
    ||| b == 45
    ||| b == 46
    ||| b == 95
}

/// The uppercase hex digit byte for a nibble.
pub open spec fn hex_upper(n: u8) -> u8 {
    if n < 10 {
        (48 + n) as u8
    } else {
        (55 + n) as u8
    }
}

/// One byte under `application/x-www-form-urlencoded`: kept, `+` for
/// a space, or `%XX` with uppercase hex.
pub open spec fn form_byte(b: u8) -> Seq<u8> {
    if form_unreserved(b) {
        seq![b]
    } else if b == 32 {
        seq![43u8]
    } else {
        seq![37u8, hex_upper(b / 16), hex_upper(b % 16)]
    }
}

/// Standard form encoding of a byte sequence.
pub open spec fn form_encoded(bs: Seq<u8>) -> Seq<u8>
    decreases bs.len(),
{
    if bs.len() == 0 {
        Seq::empty()
    } else {
        form_byte(bs[0]) + form_encoded(bs.drop_first())
    }
}

/// All bytes below 128.
pub open spec fn all_ascii(bs: Seq<u8>) -> bool {
    forall|i: int| 0 <= i < bs.len() ==> bs[i] < 128
}

pub proof fn lemma_form_encoded_push(bs: Seq<u8>, x: u8)
    ensures
        form_encoded(bs.push(x)) == form_encoded(bs) + form_byte(x),
    decreases bs.len(),
{
    assert(bs.push(x)[bs.len() as int] == x);
    if bs.len() == 0 {
        let rest = bs.push(x).drop_first();
        assert(rest =~= Seq::<u8>::empty());
        assert(form_encoded(rest) =~= Seq::<u8>::empty());
        assert(form_encoded(bs) =~= Seq::<u8>::empty());
        assert(form_encoded(bs.push(x)) =~= form_encoded(bs) + form_byte(x));
    } else {
        assert(bs.push(x)[0] == bs[0]);
        assert(bs.push(x).drop_first() =~= bs.drop_first().push(x));
        lemma_form_encoded_push(bs.drop_first(), x);
        assert(form_encoded(bs.push(x)) =~= form_encoded(bs) + form_byte(x));
    }
}

pub proof fn lemma_form_encoded_ascii(bs: Seq<u8>)
    ensures
        all_ascii(form_encoded(bs)),
    decreases bs.len(),
{
    if bs.len() > 0 {
        lemma_form_encoded_ascii(bs.drop_first());
        assert forall|i: int|
            0 <= i < form_encoded(bs).len() implies form_encoded(bs)[i] < 128 by {
            let fb = form_byte(bs[0]);
            if i >= fb.len() {
                assert(form_encoded(bs)[i] == form_encoded(bs.drop_first())[i - fb.len()]);
            }
        }
    }
}

pub proof fn lemma_digits_ascii(n: nat)
    ensures
        all_ascii(digits_of(n)),
{
    lemma_digits_of(n);
    assert forall|i: int| 0 <= i < digits_of(n).len() implies digits_of(n)[i] < 128 by {
        assert(is_digit(digits_of(n)[i]));
    }
}

/// The query string of a request, as bytes: every field form-encoded
/// in order, then the percent-encoded identity appended verbatim.
pub open spec fn spec_query(req: TrackerRequest) -> Seq<u8> {
    seq![112u8, 101u8, 101u8, 114u8, 95u8, 105u8, 100u8, 61u8] + form_encoded(
        encode_utf8(req.peer_id@),
    ) + seq![38u8, 112u8, 111u8, 114u8, 116u8, 61u8] + digits_of(req.port as nat) + seq![
        38u8,
        117u8,
        112u8,
        108u8,
        111u8,
        97u8,
        100u8,
        101u8,
        100u8,
        61u8,
    ] + digits_of(req.uploaded as nat) + seq![
        38u8,
        100u8,
        111u8,
        119u8,
        110u8,
        108u8,
        111u8,
        97u8,
        100u8,
        101u8,
        100u8,
        61u8,
    ] + digits_of(req.downloaded as nat) + seq![38u8, 108u8, 101u8, 102u8, 116u8, 61u8]
        + digits_of(req.left as nat) + seq![38u8, 99u8, 111u8, 109u8, 112u8, 97u8, 99u8, 116u8, 61u8]
        + digits_of(req.compact as nat) + seq![
        38u8,
        105u8,
        110u8,
        102u8,
        111u8,
        95u8,
        104u8,
        97u8,
        115u8,
        104u8,
        61u8,
    ] + encode_utf8(req.info_hash@)
}

/// Appends a byte slice.
fn push_all(out: &mut Vec<u8>, s: &[u8])
    ensures
        final(out)@ == old(out)@ + s@,
{
    let mut i: usize = 0;
    while i < s.len()
        invariant
            i <= s@.len(),
            out@ == old(out)@ + s@.take(i as int),
        decreases s@.len() - i,
    {
        out.push(s[i]);
        proof {
            assert(out@ =~= old(out)@ + s@.take(i + 1));
        }
        i = i + 1;
    }
    proof {
        assert(s@.take(s@.len() as int) =~= s@);
    }
}

/// The uppercase hex digit byte for a nibble.
fn hex_upper_byte(n: u8) -> (r: u8)
    requires
        n < 16,
    ensures
        r == hex_upper(n),
{
    if n < 10 {
        48 + n
    } else {
        55 + n
    }
}

/// Appends the form encoding of a byte slice.
fn push_form_encoded(out: &mut Vec<u8>, s: &[u8])
    ensures
        final(out)@ == old(out)@ + form_encoded(s@),
{
    proof {
        assert(s@.take(0) =~= Seq::<u8>::empty());
        assert(out@ =~= out@ + form_encoded(s@.take(0)));
    }
    let mut i: usize = 0;
    while i < s.len()
        invariant
            i <= s@.len(),
            out@ == old(out)@ + form_encoded(s@.take(i as int)),
        decreases s@.len() - i,
    {
        let b = s[i];
        if (48 <= b && b <= 57) || (65 <= b && b <= 90) || (97 <= b && b <= 122) || b == 42 || b
            == 45 || b == 46 || b == 95 {
            out.push(b);
        } else if b == 32 {
            out.push(43);
        } else {
            out.push(37);
            out.push(hex_upper_byte(b / 16));
            out.push(hex_upper_byte(b % 16));
        }
        proof {
            assert(s@.take(i + 1) =~= s@.take(i as int).push(s@[i as int]));
            lemma_form_encoded_push(s@.take(i as int), s@[i as int]);
            assert(out@ =~= old(out)@ + form_encoded(s@.take(i + 1)));
        }
        i = i + 1;
    }
    proof {
        assert(s@.take(s@.len() as int) =~= s@);
    }
}

impl TrackerRequest {
    /// Builds the query string: `peer_id`, `port`, `uploaded`,
    /// `downloaded`, `left` and `compact` form-encoded in that order,
    /// then `info_hash` appended verbatim, since the raw 20-byte
    /// identity is not valid UTF-8 and was percent-encoded separately.
    pub fn build_request(&self) -> (r: String)
        ensures
            encode_utf8(r@) == spec_query(*self),
            r@ == decode_utf8(spec_query(*self)),
    {
        let mut out: Vec<u8> = Vec::new();
        let seg_peer_id: [u8; 8] = [112u8, 101u8, 101u8, 114u8, 95u8, 105u8, 100u8, 61u8];
        let seg_port: [u8; 6] = [38u8, 112u8, 111u8, 114u8, 116u8, 61u8];
        let seg_uploaded: [u8; 10] = [38u8, 117u8, 112u8, 108u8, 111u8, 97u8, 100u8, 101u8, 100u8, 61u8];
        let seg_downloaded: [u8; 12] = [
            38u8,
            100u8,
            111u8,
            119u8,
            110u8,
            108u8,
            111u8,
            97u8,
            100u8,
            101u8,
            100u8,
            61u8,
        ];
        let seg_left: [u8; 6] = [38u8, 108u8, 101u8, 102u8, 116u8, 61u8];
        let seg_compact: [u8; 9] = [38u8, 99u8, 111u8, 109u8, 112u8, 97u8, 99u8, 116u8, 61u8];
        let seg_info_hash: [u8; 11] = [
            38u8,
            105u8,
            110u8,
            102u8,
            111u8,
            95u8,
            104u8,
            97u8,
            115u8,
            104u8,
            61u8,
        ];
        push_all(&mut out, seg_peer_id.as_slice());
        push_form_encoded(&mut out, self.peer_id.as_str().as_bytes());
        push_all(&mut out, seg_port.as_slice());
        push_digits(self.port as u64, &mut out);
        push_all(&mut out, seg_uploaded.as_slice());
        push_digits(self.uploaded as u64, &mut out);
        push_all(&mut out, seg_downloaded.as_slice());
        push_digits(self.downloaded as u64, &mut out);
        push_all(&mut out, seg_left.as_slice());
        push_digits(self.left as u64, &mut out);
        push_all(&mut out, seg_compact.as_slice());
        push_digits(self.compact as u64, &mut out);
        push_all(&mut out, seg_info_hash.as_slice());
        let ghost ascii_part = out@;
        push_all(&mut out, self.info_hash.as_str().as_bytes());
        proof {
            assert(out@ =~= spec_query(*self));
            assert(all_ascii(ascii_part)) by {
                lemma_form_encoded_ascii(encode_utf8(self.peer_id@));
                lemma_digits_ascii(self.port as nat);
                lemma_digits_ascii(self.uploaded as nat);
                lemma_digits_ascii(self.downloaded as nat);
                lemma_digits_ascii(self.left as nat);
                lemma_digits_ascii(self.compact as nat);
                assert forall|i: int| 0 <= i < ascii_part.len() implies ascii_part[i] < 128 by {
                }
            }
            lemma_ascii_decode(ascii_part);
            encode_utf8_valid_utf8(self.info_hash@);
            valid_utf8_concat(ascii_part, encode_utf8(self.info_hash@));
            assert(out@ =~= ascii_part + encode_utf8(self.info_hash@));
            assert(valid_utf8(out@));
        }
        match bytes_to_string(out) {
            Some(s) => {
                proof {
                    decode_utf8_encode_utf8(spec_query(*self));
                }
                s
            },
            None => {
                proof {
                    assert(false);
                }
                String::new()
            },
        }
    }
}

// ------------------------------------------------------------------
// The response.
// ------------------------------------------------------------------

pub open spec fn key_interval() -> Seq<u8> {
    seq![105u8, 110u8, 116u8, 101u8, 114u8, 118u8, 97u8, 108u8]
}

pub open spec fn key_peers() -> Seq<u8> {
    seq![112u8, 101u8, 101u8, 114u8, 115u8]
}

/// A response whose fields are present with the right kinds: an
/// `interval` integer in range, and a `peers` byte string.
pub open spec fn response_shape_ok(b: Bval) -> bool {
    match b {
        Bval::Dict(tp) => {
            &&& (spec_lookup(tp, key_interval()) matches Some(Bval::Int(i)) && 0 <= i
                <= usize::MAX)
            &&& (spec_lookup(tp, key_peers()) matches Some(Bval::Bytes(pb)))
        },
        _ => false,
    }
}

/// The `peers` byte string splits into whole 6-byte records.
pub open spec fn peers_len_ok(b: Bval) -> bool {
    match b {
        Bval::Dict(tp) => spec_lookup(tp, key_peers()) matches Some(Bval::Bytes(pb)) && pb.len()
            % 6 == 0,
        _ => false,
    }
}

/// The `j`-th compact record: 4 IPv4 octets, then a big-endian port.
pub open spec fn addr_matches(a: PeerAddr, bs: Seq<u8>, j: int) -> bool {
    &&& a.ip@ == bs.subrange(6 * j, 6 * j + 4)
    &&& a.port == bs[6 * j + 4] * 256 + bs[6 * j + 5]
}

pub open spec fn peers_match(ps: Seq<PeerAddr>, bs: Seq<u8>) -> bool {
    &&& ps.len() == bs.len() / 6
    &&& forall|j: int| 0 <= j < ps.len() ==> addr_matches(#[trigger] ps[j], bs, j)
}

pub open spec fn response_matches(r: TrackerResponse, b: Bval) -> bool {
    match b {
        Bval::Dict(tp) => {
            &&& (spec_lookup(tp, key_interval()) matches Some(Bval::Int(i)) && r.interval == i)
            &&& (spec_lookup(tp, key_peers()) matches Some(Bval::Bytes(pb)) && peers_match(
                r.peers.0@,
                pb,
            ))
        },
        _ => false,
    }
}

/// What `decode_response` returns on success.
pub open spec fn response_outcome_ok(bytes: Seq<u8>, r: TrackerResponse) -> bool {
    match spec_decode_at(bytes, 0) {
        Ok(p) => p.1 == bytes.len() && response_shape_ok(p.0) && peers_len_ok(p.0)
            && response_matches(r, p.0),
        Err(_) => false,
    }
}

/// Which error `decode_response` returns, and when.
pub open spec fn response_outcome_err(bytes: Seq<u8>, e: TorrentError) -> bool {
    match spec_decode_at(bytes, 0) {
        Ok(p) => if p.1 != bytes.len() {
            e == TorrentError::MalformedEncoding
        } else if !response_shape_ok(p.0) {
            e == TorrentError::SchemaError
        } else if !peers_len_ok(p.0) {
            e == TorrentError::MalformedEncoding
        } else {
            false
        },
        Err(de) => e == de,
    }
}

/// Splits a flat peers string into 6-byte records.
#[verifier::loop_isolation(false)]
fn parse_peers(pb: &[u8]) -> (r: Vec<PeerAddr>)
    requires
        pb@.len() % 6 == 0,
    ensures
        peers_match(r@, pb@),
{
    let count = pb.len() / 6;
    proof {
        assert(6 * (pb@.len() / 6) <= pb@.len()) by (nonlinear_arith);
    }
    let mut out: Vec<PeerAddr> = Vec::new();
    let mut j: usize = 0;
    while j < count
        invariant
            j <= count,
            count == pb@.len() / 6,
            out@.len() == j,
            forall|k: int| 0 <= k < j ==> addr_matches(#[trigger] out@[k], pb@, k),
        decreases count - j,
    {
        proof {
            assert(6 * (j + 1) <= 6 * (pb@.len() / 6)) by (nonlinear_arith)
                requires
                    j + 1 <= pb@.len() / 6,
            ;
        }
        let k = 6 * j;
        let ip: [u8; 4] = [pb[k], pb[k + 1], pb[k + 2], pb[k + 3]];
        let port: u16 = (pb[k + 4] as u16) * 256 + (pb[k + 5] as u16);
        let addr = PeerAddr { ip, port };
        proof {
            assert(addr.ip@ =~= pb@.subrange(6 * (j as int), 6 * (j as int) + 4));
        }
        out.push(addr);
        j = j + 1;
    }
    out
}

/// Decodes a tracker response: a bencode dictionary with an
/// `interval` integer and a compact `peers` byte string whose length
/// must split into whole 6-byte records — 4 big-endian IPv4 octets
/// and a 2-byte big-endian port each.  Decode errors pass through;
/// trailing bytes and a `peers` length not a multiple of 6 are
/// `MalformedEncoding`; a missing or mistyped field is `SchemaError`.
pub fn decode_response(bytes: &[u8]) -> (r: Result<TrackerResponse, TorrentError>)
    ensures
        match r {
            Ok(resp) => response_outcome_ok(bytes@, resp),
            Err(e) => response_outcome_err(bytes@, e),
        },
{
    let (value, pos) = match decode_bencoded_value(bytes) {
        Ok(p) => p,
        Err(e) => {
            return Err(e);
        },
    };
    if pos != bytes.len() {
        return Err(TorrentError::MalformedEncoding);
    }
    let tp = match &value {
        BencodeValue::Dictionary(tp) => tp,
        _ => {
            return Err(TorrentError::SchemaError);
        },
    };
    let interval_key: [u8; 8] = [105u8, 110u8, 116u8, 101u8, 114u8, 118u8, 97u8, 108u8];
    proof {
        assert(interval_key@ =~= key_interval());
    }
    let iv = match crate::torrent::dict_get(tp, interval_key.as_slice()) {
        Some(BencodeValue::Integer(iv)) => *iv,
        _ => {
            return Err(TorrentError::SchemaError);
        },
    };
    let interval = match crate::torrent::int_to_usize(iv) {
        Some(u) => u,
        None => {
            return Err(TorrentError::SchemaError);
        },
    };
    let peers_key: [u8; 5] = [112u8, 101u8, 101u8, 114u8, 115u8];
    proof {
        assert(peers_key@ =~= key_peers());
    }
    let pb = match crate::torrent::dict_get(tp, peers_key.as_slice()) {
        Some(BencodeValue::ByteString(pb)) => pb,
        _ => {
            return Err(TorrentError::SchemaError);
        },
    };
    if pb.len() % 6 != 0 {
        return Err(TorrentError::MalformedEncoding);
    }
    let peers = parse_peers(pb.as_slice());
    Ok(TrackerResponse { interval, peers: Peers(peers) })
}

} // verus!
