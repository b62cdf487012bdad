//! The metainfo model: the structured view of a decoded metainfo
//! document, and the 20-byte identity derived from its `info`
//! dictionary.

use vstd::prelude::*;

use crate::TorrentError;
use crate::bencode::{
    BencodeValue, Bval, bval_of, bpairs_of, bvals_of, encoded, encode_bencoded_value,
    spec_decode_at, decode_bencoded_value, lemma_bpairs_of_index, lemma_bvals_of_index,
};
use vstd::slice::slice_to_vec;
use crate::hashes::PieceHashList;
use sha1::Digest;
use vstd::utf8::{
    valid_utf8, decode_utf8, encode_utf8, is_ascii_chars, is_ascii_chars_encode_utf8,
    encode_utf8_valid_utf8, encode_utf8_decode_utf8, decode_utf8_encode_utf8,
};

verus! {

broadcast use vstd::std_specs::vec::group_vec_axioms;

/// A parsed metainfo document: the tracker URL and the file info.
#[derive(Debug, PartialEq, Eq)]
pub struct Torrent {
    pub announce: String,
    pub info: Info,
}

/// The `info` dictionary of a metainfo document, in structured form.
///
/// `source` retains the decoded `info` dictionary exactly as the
/// source document held it, entry order included: the identity hash
/// re-encodes it, and must reproduce the source bytes.
#[derive(Debug, PartialEq, Eq)]
pub struct Info {
    pub name: String,
    pub piece_length: usize,
    pub pieces: PieceHashList,
    pub keys: Keys,
    pub source: BencodeValue,
}

/// The file layout: a single file with its length, or an ordered list
/// of file entries.  Which one a document means is discriminated at
/// parse time solely by whether its `info` dictionary carries a
/// `length` key or a `files` key.
#[derive(Debug, PartialEq, Eq)]
pub enum Keys {
    SingleFile { length: usize },
    MultiFile { files: Vec<File> },
}

/// One entry of a multi-file layout.
#[derive(Debug, PartialEq, Eq)]
pub struct File {
    pub length: usize,
    pub path: Vec<String>,
}

// ------------------------------------------------------------------
// Dictionary lookup.
// ------------------------------------------------------------------

/// First-match lookup among dictionary entries.
pub open spec fn spec_lookup(pairs: Seq<(Seq<u8>, Bval)>, key: Seq<u8>) -> Option<Bval>
    decreases pairs.len(),
{
    if pairs.len() == 0 {
        None
    } else if pairs[0].0 == key {
        Some(pairs[0].1)
    } else {
        spec_lookup(pairs.drop_first(), key)
    }
}

pub open spec fn key_announce() -> Seq<u8> {
    seq![97u8, 110u8, 110u8, 111u8, 117u8, 110u8, 99u8, 101u8]
}

pub open spec fn key_info() -> Seq<u8> {
    seq![105u8, 110u8, 102u8, 111u8]
}

pub open spec fn key_name() -> Seq<u8> {
    seq![110u8, 97u8, 109u8, 101u8]
}

pub open spec fn key_piece_length() -> Seq<u8> {
    seq![112u8, 105u8, 101u8, 99u8, 101u8, 32u8, 108u8, 101u8, 110u8, 103u8, 116u8, 104u8]
}

pub open spec fn key_pieces() -> Seq<u8> {
    seq![112u8, 105u8, 101u8, 99u8, 101u8, 115u8]
}

pub open spec fn key_length() -> Seq<u8> {
    seq![108u8, 101u8, 110u8, 103u8, 116u8, 104u8]
}

pub open spec fn key_files() -> Seq<u8> {
    seq![102u8, 105u8, 108u8, 101u8, 115u8]
}

pub open spec fn key_path() -> Seq<u8> {
    seq![112u8, 97u8, 116u8, 104u8]
}

/// Byte-slice equality.
fn bytes_eq(a: &[u8], b: &[u8]) -> (r: bool)
    ensures
        r == (a@ == b@),
{
    if a.len() != b.len() {
        proof {
            assert(a@ != b@);
        }
        return false;
    }
    let mut i: usize = 0;
    while i < a.len()
        invariant
            i <= a@.len(),
            a@.len() == b@.len(),
            forall|k: int| 0 <= k < i ==> a@[k] == b@[k],
        decreases a@.len() - i,
    {
        if a[i] != b[i] {
            proof {
                assert(a@ != b@);
            }
            return false;
        }
        i = i + 1;
    }
    proof {
        assert(a@ =~= b@);
    }
    true
}

/// First-match lookup in a decoded dictionary.
pub(crate) fn dict_get<'a>(pairs: &'a Vec<(Vec<u8>, BencodeValue)>, key: &[u8]) -> (r: Option<
    &'a BencodeValue,
>)
    ensures
        match r {
            Some(v) => spec_lookup(bpairs_of(pairs@), key@) == Some(v@),
            None => spec_lookup(bpairs_of(pairs@), key@) is None,
        },
{
    proof {
        lemma_bpairs_of_index(pairs@);
        assert(bpairs_of(pairs@).skip(0) =~= bpairs_of(pairs@));
    }
    let ghost gp = bpairs_of(pairs@);
    let mut i: usize = 0;
    while i < pairs.len()
        invariant
            i <= pairs@.len(),
            gp == bpairs_of(pairs@),
            gp.len() == pairs@.len(),
            forall|k: int| 0 <= k < pairs@.len() ==> gp[k] == (pairs@[k].0@, bval_of(pairs@[k].1)),
            spec_lookup(gp, key@) == spec_lookup(gp.skip(i as int), key@),
        decreases pairs@.len() - i,
    {
        proof {
            assert(gp.skip(i as int).len() > 0);
            assert(gp.skip(i as int)[0] == gp[i as int]);
        }
        if bytes_eq(pairs[i].0.as_slice(), key) {
            return Some(&pairs[i].1);
        }
        proof {
            assert(gp.skip(i as int).drop_first() =~= gp.skip(i + 1));
        }
        i = i + 1;
    }
    proof {
        assert(gp.skip(pairs@.len() as int) =~= Seq::<(Seq<u8>, Bval)>::empty());
    }
    None
}

// ------------------------------------------------------------------
// The identity hash.
// ------------------------------------------------------------------

/// The SHA-1 digest of a byte sequence.  Named, not written out: the
/// digest is a function of the input bytes alone, and the trusted
/// wrapper below is the only thing said about it.
pub uninterp spec fn sha1_of(bytes: Seq<u8>) -> Seq<u8>;

/// Relies on `sha1::Sha1` through the `digest` traits: the SHA-1
/// digest of the given bytes, 20 bytes determined by the input alone.
#[verifier::external_body]
fn sha1_digest(bytes: &Vec<u8>) -> (r: [u8; 20])
    ensures
        r@ == sha1_of(bytes@),
{
    let mut hasher = sha1::Sha1::new();
    hasher.update(bytes.as_slice());
    let out = hasher.finalize();
    out.into()
}

/// The lowercase hex digit byte for a nibble.
pub open spec fn hex_digit(n: u8) -> u8 {
    if n < 10 {
        (48 + n) as u8
    } else {
        (87 + n) as u8
    }
}

/// `%xx` for every byte, lowercase hex: the byte-for-byte percent
/// encoding of a raw identity.
pub open spec fn percent_encoded(bs: Seq<u8>) -> Seq<u8>
    decreases bs.len(),
{
    if bs.len() == 0 {
        Seq::empty()
    } else {
        seq![37u8, hex_digit(bs[0] / 16), hex_digit(bs[0] % 16)] + percent_encoded(bs.drop_first())
    }
}

pub proof fn lemma_percent_encoded_push(bs: Seq<u8>, x: u8)
    ensures
        percent_encoded(bs.push(x)) == percent_encoded(bs) + seq![
            37u8,
            hex_digit(x / 16),
            hex_digit(x % 16),
        ],
    decreases bs.len(),
{
    assert(bs.push(x)[bs.len() as int] == x);
    if bs.len() == 0 {
        let rest = bs.push(x).drop_first();
        assert(rest =~= Seq::<u8>::empty());
        assert(percent_encoded(rest) =~= Seq::<u8>::empty());
        assert(percent_encoded(bs) =~= Seq::<u8>::empty());
        assert(percent_encoded(bs.push(x)) =~= percent_encoded(bs) + seq![
            37u8,
            hex_digit(x / 16),
            hex_digit(x % 16),
        ]);
    } else {
        assert(bs.push(x)[0] == bs[0]);
        assert(bs.push(x).drop_first() =~= bs.drop_first().push(x));
        lemma_percent_encoded_push(bs.drop_first(), x);
        assert(percent_encoded(bs.push(x)) =~= percent_encoded(bs) + seq![
            37u8,
            hex_digit(x / 16),
            hex_digit(x % 16),
        ]);
    }
}

/// Every byte of a percent encoding is ASCII.
pub proof fn lemma_percent_encoded_ascii(bs: Seq<u8>)
    ensures
        forall|i: int| 0 <= i < percent_encoded(bs).len() ==> percent_encoded(bs)[i] < 128,
    decreases bs.len(),
{
    if bs.len() > 0 {
        lemma_percent_encoded_ascii(bs.drop_first());
        assert forall|i: int|
            0 <= i < percent_encoded(bs).len() implies percent_encoded(bs)[i] < 128 by {
            if i >= 3 {
                assert(percent_encoded(bs)[i] == percent_encoded(bs.drop_first())[i - 3]);
            }
        }
    }
}

/// Bytes below 128 are valid UTF-8 and decode to themselves.
pub proof fn lemma_ascii_decode(bs: Seq<u8>)
    requires
        forall|i: int| 0 <= i < bs.len() ==> bs[i] < 128,
    ensures
        valid_utf8(bs),
        decode_utf8(bs).len() == bs.len(),
        forall|i: int| 0 <= i < bs.len() ==> decode_utf8(bs)[i] == bs[i] as char,
{
    let chars = Seq::new(bs.len(), |i: int| bs[i] as char);
    assert(is_ascii_chars(chars)) by {
        assert forall|i: int| 0 <= i < chars.len() implies '\0' <= #[trigger] chars[i]
            <= '\u{7f}' by {
            assert(bs[i] < 128);
        }
    }
    is_ascii_chars_encode_utf8(chars);
    assert(encode_utf8(chars) =~= bs) by {
        assert forall|i: int| 0 <= i < chars.len() implies encode_utf8(chars)[i] == bs[i] by {
            assert(chars[i] as u8 == encode_utf8(chars)[i]);
            assert(chars[i] == bs[i] as char);
        }
    }
    encode_utf8_valid_utf8(chars);
    encode_utf8_decode_utf8(chars);
    assert(decode_utf8(bs) == chars);
}

/// Relies on `String::from_utf8`: it returns the decoded string
/// exactly when the bytes are valid UTF-8, and its error otherwise.
#[verifier::external_body]
pub(crate) fn bytes_to_string(bytes: Vec<u8>) -> (r: Option<String>)
    ensures
        match r {
            Some(s) => valid_utf8(bytes@) && s@ == decode_utf8(bytes@),
            None => !valid_utf8(bytes@),
        },
{
    match String::from_utf8(bytes) {
        Ok(s) => Some(s),
        Err(_) => None,
    }
}

impl Torrent {
    /// The 20-byte content identity: SHA-1 of the `info` dictionary
    /// re-encoded canonically, with its entries in the exact order the
    /// source document had them.
    pub fn info_hash(&self) -> (r: [u8; 20])
        ensures
            r@ == sha1_of(encoded(self.info.source@)),
    {
        let enc = encode_bencoded_value(&self.info.source);
        sha1_digest(&enc)
    }

    /// Percent-encodes an identity byte-for-byte: `%` then two
    /// lowercase hex digits for every byte.
    pub fn encode_hash(&self, info_hash: [u8; 20]) -> (r: String)
        ensures
            encode_utf8(r@) == percent_encoded(info_hash@),
            r@ == decode_utf8(percent_encoded(info_hash@)),
    {
        let mut out: Vec<u8> = Vec::new();
        proof {
            assert(info_hash@.take(0) =~= Seq::<u8>::empty());
            assert(out@ =~= percent_encoded(info_hash@.take(0)));
        }
        let mut j: usize = 0;
        while j < 20
            invariant
                j <= 20,
                out@ == percent_encoded(info_hash@.take(j as int)),
            decreases 20 - j,
        {
            let b = info_hash[j];
            out.push(37);
            out.push(hex_byte(b / 16));
            out.push(hex_byte(b % 16));
            proof {
                assert(info_hash@.take(j + 1) =~= info_hash@.take(j as int).push(
                    info_hash@[j as int],
                ));
                lemma_percent_encoded_push(info_hash@.take(j as int), info_hash@[j as int]);
                assert(out@ =~= percent_encoded(info_hash@.take(j + 1)));
            }
            j = j + 1;
        }
        proof {
            assert(info_hash@.take(20) =~= info_hash@);
            lemma_percent_encoded_ascii(info_hash@);
            lemma_ascii_decode(out@);
        }
        match bytes_to_string(out) {
            Some(s) => {
                proof {
                    decode_utf8_encode_utf8(percent_encoded(info_hash@));
                }
                s
            },
            None => {
                proof {
                    assert(false);
                }
                String::new()
            },
        }
    }
}

/// The identity is deterministic: two documents holding the same
/// `info` dictionary get byte-identical identities.
pub proof fn lemma_identity_deterministic(a: Torrent, b: Torrent)
    requires
        a.info.source == b.info.source,
    ensures
        sha1_of(encoded(a.info.source@)) == sha1_of(encoded(b.info.source@)),
{
}

/// The lowercase hex digit byte for a nibble.
fn hex_byte(n: u8) -> (r: u8)
    requires
        n < 16,
    ensures
        r == hex_digit(n),
{
    if n < 10 {
        48 + n
    } else {
        87 + n
    }
}

// ------------------------------------------------------------------
// The metainfo schema.
// ------------------------------------------------------------------

/// Every path segment is a byte string holding valid UTF-8.
pub open spec fn path_ok(segs: Seq<Bval>) -> bool {
    forall|j: int|
        0 <= j < segs.len() ==> (#[trigger] segs[j] matches Bval::Bytes(sb) && valid_utf8(sb))
}

/// A well-formed file entry: a dictionary with a `length` integer in
/// range and a `path` list of UTF-8 byte strings.
pub open spec fn file_ok(b: Bval) -> bool {
    match b {
        Bval::Dict(fp) => {
            &&& (spec_lookup(fp, key_length()) matches Some(Bval::Int(l)) && 0 <= l <= usize::MAX)
            &&& (spec_lookup(fp, key_path()) matches Some(Bval::List(segs)) && path_ok(segs))
        },
        _ => false,
    }
}

pub open spec fn files_ok(fs: Seq<Bval>) -> bool {
    forall|j: int| 0 <= j < fs.len() ==> file_ok(#[trigger] fs[j])
}

/// Exactly one of `length` and `files` is present and well-formed:
/// a document carrying neither or both does not parse.
pub open spec fn layout_ok(pairs: Seq<(Seq<u8>, Bval)>) -> bool {
    ||| (spec_lookup(pairs, key_length()) matches Some(Bval::Int(l)) && 0 <= l <= usize::MAX
        && spec_lookup(pairs, key_files()) is None)
    ||| (spec_lookup(pairs, key_length()) is None && (spec_lookup(pairs, key_files()) matches Some(
        Bval::List(fs),
    ) && files_ok(fs)))
}

/// A well-formed `info` dictionary.
pub open spec fn info_ok(pairs: Seq<(Seq<u8>, Bval)>) -> bool {
    &&& (spec_lookup(pairs, key_name()) matches Some(Bval::Bytes(nb)) && valid_utf8(nb))
    &&& (spec_lookup(pairs, key_piece_length()) matches Some(Bval::Int(pl)) && 1 <= pl
        <= usize::MAX)
    &&& (spec_lookup(pairs, key_pieces()) matches Some(Bval::Bytes(pb)) && pb.len() % 20 == 0)
    &&& layout_ok(pairs)
}

/// A well-formed metainfo document: a dictionary with an `announce`
/// UTF-8 byte string and a well-formed `info` dictionary.
pub open spec fn torrent_ok(b: Bval) -> bool {
    match b {
        Bval::Dict(tp) => {
            &&& (spec_lookup(tp, key_announce()) matches Some(Bval::Bytes(ab)) && valid_utf8(ab))
            &&& (spec_lookup(tp, key_info()) matches Some(Bval::Dict(ip)) && info_ok(ip))
        },
        _ => false,
    }
}

pub open spec fn path_matches(path: Seq<String>, segs: Seq<Bval>) -> bool {
    &&& path.len() == segs.len()
    &&& forall|j: int|
        0 <= j < path.len() ==> (#[trigger] segs[j] matches Bval::Bytes(sb) && path[j]@
            == decode_utf8(sb))
}

pub open spec fn file_matches(f: File, b: Bval) -> bool {
    match b {
        Bval::Dict(fp) => {
            &&& (spec_lookup(fp, key_length()) matches Some(Bval::Int(l)) && f.length == l)
            &&& (spec_lookup(fp, key_path()) matches Some(Bval::List(segs)) && path_matches(
                f.path@,
                segs,
            ))
        },
        _ => false,
    }
}

pub open spec fn files_match(files: Seq<File>, fs: Seq<Bval>) -> bool {
    &&& files.len() == fs.len()
    &&& forall|j: int| 0 <= j < files.len() ==> file_matches(#[trigger] files[j], fs[j])
}

pub open spec fn layout_matches(keys: Keys, pairs: Seq<(Seq<u8>, Bval)>) -> bool {
    match keys {
        Keys::SingleFile { length } => spec_lookup(pairs, key_length()) matches Some(
            Bval::Int(l),
        ) && length == l,
        Keys::MultiFile { files } => spec_lookup(pairs, key_files()) matches Some(Bval::List(fs))
            && files_match(files@, fs),
    }
}

/// How a parsed `Info` relates to the source `info` dictionary it was
/// read from.
pub open spec fn info_matches(info: Info, pairs: Seq<(Seq<u8>, Bval)>) -> bool {
    &&& info.source@ == Bval::Dict(pairs)
    &&& (spec_lookup(pairs, key_name()) matches Some(Bval::Bytes(nb)) && info.name@
        == decode_utf8(nb))
    &&& (spec_lookup(pairs, key_piece_length()) matches Some(Bval::Int(pl)) && info.piece_length
        == pl)
    &&& (spec_lookup(pairs, key_pieces()) matches Some(Bval::Bytes(pb)) && info.pieces@ == pb)
    &&& layout_matches(info.keys, pairs)
}

/// How a parsed `Torrent` relates to the decoded document.
pub open spec fn torrent_matches(t: Torrent, b: Bval) -> bool {
    match b {
        Bval::Dict(tp) => {
            &&& (spec_lookup(tp, key_announce()) matches Some(Bval::Bytes(ab)) && t.announce@
                == decode_utf8(ab))
            &&& (spec_lookup(tp, key_info()) matches Some(Bval::Dict(ip)) && info_matches(
                t.info,
                ip,
            ))
        },
        _ => false,
    }
}

/// What `parse_torrent` returns on success.
pub open spec fn parse_outcome_ok(bytes: Seq<u8>, t: Torrent) -> bool {
    match spec_decode_at(bytes, 0) {
        Ok(p) => p.1 == bytes.len() && torrent_ok(p.0) && torrent_matches(t, p.0),
        Err(_) => false,
    }
}

/// Which error `parse_torrent` returns, and when.
pub open spec fn parse_outcome_err(bytes: Seq<u8>, e: TorrentError) -> bool {
    match spec_decode_at(bytes, 0) {
        Ok(p) => if p.1 != bytes.len() {
            e == TorrentError::MalformedEncoding
        } else {
            !torrent_ok(p.0) && e == TorrentError::SchemaError
        },
        Err(de) => e == de,
    }
}

// ------------------------------------------------------------------
// Parsing.
// ------------------------------------------------------------------

/// The index of the first entry holding `key`, with what the lookup
/// yields there.
fn find_key(pairs: &Vec<(Vec<u8>, BencodeValue)>, key: &[u8]) -> (r: Option<usize>)
    ensures
        match r {
            Some(i) => i < pairs@.len() && pairs@[i as int].0@ == key@ && spec_lookup(
                bpairs_of(pairs@),
                key@,
            ) == Some(bval_of(pairs@[i as int].1)),
            None => spec_lookup(bpairs_of(pairs@), key@) is None,
        },
{
    proof {
        lemma_bpairs_of_index(pairs@);
        assert(bpairs_of(pairs@).skip(0) =~= bpairs_of(pairs@));
    }
    let ghost gp = bpairs_of(pairs@);
    let mut i: usize = 0;
    while i < pairs.len()
        invariant
            i <= pairs@.len(),
            gp == bpairs_of(pairs@),
            gp.len() == pairs@.len(),
            forall|k: int| 0 <= k < pairs@.len() ==> gp[k] == (pairs@[k].0@, bval_of(pairs@[k].1)),
            spec_lookup(gp, key@) == spec_lookup(gp.skip(i as int), key@),
        decreases pairs@.len() - i,
    {
        proof {
            assert(gp.skip(i as int).len() > 0);
            assert(gp.skip(i as int)[0] == gp[i as int]);
        }
        if bytes_eq(pairs[i].0.as_slice(), key) {
            return Some(i);
        }
        proof {
            assert(gp.skip(i as int).drop_first() =~= gp.skip(i + 1));
        }
        i = i + 1;
    }
    proof {
        assert(gp.skip(pairs@.len() as int) =~= Seq::<(Seq<u8>, Bval)>::empty());
    }
    None
}

/// A bencode integer as a `usize`, when it fits.
pub(crate) fn int_to_usize(i: i64) -> (r: Option<usize>)
    ensures
        match r {
            Some(u) => 0 <= i as int <= usize::MAX && u as int == i as int,
            None => !(0 <= i as int <= usize::MAX),
        },
{
    if i < 0 {
        return None;
    }
    let u = i as u64;
    if u > usize::MAX as u64 {
        return None;
    }
    Some(u as usize)
}

/// Looks `key` up and decodes its byte-string value as UTF-8.
fn get_string_field(pairs: &Vec<(Vec<u8>, BencodeValue)>, key: &[u8]) -> (r: Result<
    String,
    TorrentError,
>)
    ensures
        match r {
            Ok(s) => spec_lookup(bpairs_of(pairs@), key@) matches Some(Bval::Bytes(b))
                && valid_utf8(b) && s@ == decode_utf8(b),
            Err(e) => e == TorrentError::SchemaError && !(spec_lookup(bpairs_of(pairs@), key@)
                matches Some(Bval::Bytes(b)) && valid_utf8(b)),
        },
{
    let vb = match dict_get(pairs, key) {
        Some(BencodeValue::ByteString(vb)) => vb,
        _ => {
            return Err(TorrentError::SchemaError);
        },
    };
    match bytes_to_string(slice_to_vec(vb.as_slice())) {
        Some(s) => Ok(s),
        None => Err(TorrentError::SchemaError),
    }
}

/// Builds the path of one file entry.
#[verifier::loop_isolation(false)]
fn build_path(segs: &Vec<BencodeValue>) -> (r: Result<Vec<String>, TorrentError>)
    ensures
        match r {
            Ok(p) => path_ok(bvals_of(segs@)) && path_matches(p@, bvals_of(segs@)),
            Err(e) => e == TorrentError::SchemaError && !path_ok(bvals_of(segs@)),
        },
{
    proof {
        lemma_bvals_of_index(segs@);
    }
    let ghost gs = bvals_of(segs@);
    let mut out: Vec<String> = Vec::new();
    let mut i: usize = 0;
    while i < segs.len()
        invariant
            i <= segs@.len(),
            out@.len() == i,
            forall|k: int|
                0 <= k < i ==> (#[trigger] gs[k] matches Bval::Bytes(sb) && valid_utf8(sb)
                    && out@[k]@ == decode_utf8(sb)),
        decreases segs@.len() - i,
    {
        let sb = match &segs[i] {
            BencodeValue::ByteString(sb) => sb,
            _ => {
                proof {
                    assert(!(gs[i as int] matches Bval::Bytes(x) && valid_utf8(x)));
                }
                return Err(TorrentError::SchemaError);
            },
        };
        let s = match bytes_to_string(slice_to_vec(sb.as_slice())) {
            Some(s) => s,
            None => {
                proof {
                    assert(!(gs[i as int] matches Bval::Bytes(x) && valid_utf8(x)));
                }
                return Err(TorrentError::SchemaError);
            },
        };
        out.push(s);
        i = i + 1;
    }
    Ok(out)
}

/// Builds one file entry.
fn build_file(v: &BencodeValue) -> (r: Result<File, TorrentError>)
    ensures
        match r {
            Ok(f) => file_ok(v@) && file_matches(f, v@),
            Err(e) => e == TorrentError::SchemaError && !file_ok(v@),
        },
{
    let fp = match v {
        BencodeValue::Dictionary(fp) => fp,
        _ => {
            return Err(TorrentError::SchemaError);
        },
    };
    let length_key: [u8; 6] = [108u8, 101u8, 110u8, 103u8, 116u8, 104u8];
    proof {
        assert(length_key@ =~= key_length());
    }
    let li = match dict_get(fp, length_key.as_slice()) {
        Some(BencodeValue::Integer(li)) => *li,
        _ => {
            return Err(TorrentError::SchemaError);
        },
    };
    let length = match int_to_usize(li) {
        Some(u) => u,
        None => {
            return Err(TorrentError::SchemaError);
        },
    };
    let path_key: [u8; 4] = [112u8, 97u8, 116u8, 104u8];
    proof {
        assert(path_key@ =~= key_path());
    }
    let segs = match dict_get(fp, path_key.as_slice()) {
        Some(BencodeValue::List(segs)) => segs,
        _ => {
            return Err(TorrentError::SchemaError);
        },
    };
    let path = match build_path(segs) {
        Ok(p) => p,
        Err(e) => {
            return Err(e);
        },
    };
    Ok(File { length, path })
}

/// Builds the ordered file list of a multi-file layout.
#[verifier::loop_isolation(false)]
fn build_files(fs: &Vec<BencodeValue>) -> (r: Result<Vec<File>, TorrentError>)
    ensures
        match r {
            Ok(files) => files_ok(bvals_of(fs@)) && files_match(files@, bvals_of(fs@)),
            Err(e) => e == TorrentError::SchemaError && !files_ok(bvals_of(fs@)),
        },
{
    proof {
        lemma_bvals_of_index(fs@);
    }
    let ghost gf = bvals_of(fs@);
    let mut out: Vec<File> = Vec::new();
    let mut i: usize = 0;
    while i < fs.len()
        invariant
            i <= fs@.len(),
            out@.len() == i,
            forall|k: int| 0 <= k < i ==> file_ok(#[trigger] gf[k]),
            forall|k: int| 0 <= k < i ==> file_matches(#[trigger] out@[k], gf[k]),
        decreases fs@.len() - i,
    {
        let f = match build_file(&fs[i]) {
            Ok(f) => f,
            Err(e) => {
                proof {
                    assert(!file_ok(gf[i as int]));
                }
                return Err(e);
            },
        };
        out.push(f);
        i = i + 1;
    }
    Ok(out)
}

/// Builds a `Torrent` from a decoded document.
fn build_torrent(v: BencodeValue) -> (r: Result<Torrent, TorrentError>)
    ensures
        match r {
            Ok(t) => torrent_ok(v@) && torrent_matches(t, v@),
            Err(e) => e == TorrentError::SchemaError && !torrent_ok(v@),
        },
{
    let mut tp = match v {
        BencodeValue::Dictionary(tp) => tp,
        _ => {
            return Err(TorrentError::SchemaError);
        },
    };
    let ghost gtp = bpairs_of(tp@);
    let announce_key: [u8; 8] = [97u8, 110u8, 110u8, 111u8, 117u8, 110u8, 99u8, 101u8];
    proof {
        assert(announce_key@ =~= key_announce());
    }
    let announce = match get_string_field(&tp, announce_key.as_slice()) {
        Ok(s) => s,
        Err(e) => {
            return Err(e);
        },
    };
    let info_key: [u8; 4] = [105u8, 110u8, 102u8, 111u8];
    proof {
        assert(info_key@ =~= key_info());
    }
    let idx = match find_key(&tp, info_key.as_slice()) {
        Some(i) => i,
        None => {
            return Err(TorrentError::SchemaError);
        },
    };
    let pair = tp.remove(idx);
    let ipvec = match pair.1 {
        BencodeValue::Dictionary(ip) => ip,
        _ => {
            return Err(TorrentError::SchemaError);
        },
    };
    let ghost gip = bpairs_of(ipvec@);
    proof {
        assert(spec_lookup(gtp, key_info()) == Some(Bval::Dict(gip)));
    }
    let name_key: [u8; 4] = [110u8, 97u8, 109u8, 101u8];
    proof {
        assert(name_key@ =~= key_name());
    }
    let name = match get_string_field(&ipvec, name_key.as_slice()) {
        Ok(s) => s,
        Err(e) => {
            return Err(e);
        },
    };
    let plen_key: [u8; 12] = [
        112u8,
        105u8,
        101u8,
        99u8,
        101u8,
        32u8,
        108u8,
        101u8,
        110u8,
        103u8,
        116u8,
        104u8,
    ];
    proof {
        assert(plen_key@ =~= key_piece_length());
    }
    let pli = match dict_get(&ipvec, plen_key.as_slice()) {
        Some(BencodeValue::Integer(pli)) => *pli,
        _ => {
            return Err(TorrentError::SchemaError);
        },
    };
    if pli < 1 {
        return Err(TorrentError::SchemaError);
    }
    let piece_length = match int_to_usize(pli) {
        Some(u) => u,
        None => {
            return Err(TorrentError::SchemaError);
        },
    };
    let pieces_key: [u8; 6] = [112u8, 105u8, 101u8, 99u8, 101u8, 115u8];
    proof {
        assert(pieces_key@ =~= key_pieces());
    }
    let pb = match dict_get(&ipvec, pieces_key.as_slice()) {
        Some(BencodeValue::ByteString(pb)) => pb,
        _ => {
            return Err(TorrentError::SchemaError);
        },
    };
    let pieces = match PieceHashList::new(slice_to_vec(pb.as_slice())) {
        Ok(h) => h,
        Err(e) => {
            return Err(e);
        },
    };
    let length_key: [u8; 6] = [108u8, 101u8, 110u8, 103u8, 116u8, 104u8];
    proof {
        assert(length_key@ =~= key_length());
    }
    let files_key: [u8; 5] = [102u8, 105u8, 108u8, 101u8, 115u8];
    proof {
        assert(files_key@ =~= key_files());
    }
    let has_length = match dict_get(&ipvec, length_key.as_slice()) {
        Some(_) => true,
        None => false,
    };
    let keys: Keys = if has_length {
        match dict_get(&ipvec, files_key.as_slice()) {
            Some(_) => {
                return Err(TorrentError::SchemaError);
            },
            None => {},
        }
        let li = match dict_get(&ipvec, length_key.as_slice()) {
            Some(BencodeValue::Integer(li)) => *li,
            _ => {
                return Err(TorrentError::SchemaError);
            },
        };
        let length = match int_to_usize(li) {
            Some(u) => u,
            None => {
                return Err(TorrentError::SchemaError);
            },
        };
        Keys::SingleFile { length }
    } else {
        let fs = match dict_get(&ipvec, files_key.as_slice()) {
            Some(BencodeValue::List(fs)) => fs,
            _ => {
                return Err(TorrentError::SchemaError);
            },
        };
        let files = match build_files(fs) {
            Ok(files) => files,
            Err(e) => {
                return Err(e);
            },
        };
        Keys::MultiFile { files }
    };
    let info = Info { name, piece_length, pieces, keys, source: BencodeValue::Dictionary(ipvec) };
    Ok(Torrent { announce, info })
}

/// Parses a metainfo document from its raw bytes: decodes the bencode
/// document, requires every byte consumed, and maps the dictionary
/// fields by key name.  Decode errors pass through; trailing bytes
/// are `MalformedEncoding`; a missing or mistyped field, a hash
/// buffer whose length is not a multiple of 20, and invalid UTF-8 are
/// `SchemaError`.
pub fn parse_torrent(bytes: &[u8]) -> (r: Result<Torrent, TorrentError>)
    ensures
        match r {
            Ok(t) => parse_outcome_ok(bytes@, t),
            Err(e) => parse_outcome_err(bytes@, e),
        },
{
    let (value, pos) = match decode_bencoded_value(bytes) {
        Ok(p) => p,
        Err(e) => {
            return Err(e);
        },
    };
    if pos != bytes.len() {
        return Err(TorrentError::MalformedEncoding);
    }
    build_torrent(value)
}

} // verus!
