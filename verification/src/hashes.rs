//! The binary-hash container: an ordered sequence of fixed-size
//! 20-byte piece hashes, stored as one flat concatenated buffer.

use vstd::prelude::*;

use crate::TorrentError;

verus! {

broadcast use vstd::std_specs::vec::group_vec_axioms;

/// An ordered sequence of 20-byte piece hashes, stored internally as
/// one flat buffer whose length is an exact multiple of 20.  It is
/// constructed only from a single decoded byte string, and re-encoding
/// returns that byte string unchanged.
#[derive(Debug, PartialEq, Eq)]
pub struct PieceHashList {
    data: Vec<u8>,
}

impl View for PieceHashList {
    type V = Seq<u8>;

    closed spec fn view(&self) -> Seq<u8> {
        self.data@
    }
}

impl PieceHashList {
    /// The stored buffer's length is an exact multiple of 20.
    pub open spec fn wf(&self) -> bool {
        self@.len() % 20 == 0
    }

    /// Wraps a flat hash buffer.  Succeeds exactly when the length is
    /// a multiple of 20; the list then holds `len / 20` hashes.
    pub fn new(bytes: Vec<u8>) -> (r: Result<PieceHashList, TorrentError>)
        ensures
            match r {
                Ok(h) => bytes@.len() % 20 == 0 && h@ == bytes@ && h.wf(),
                Err(e) => bytes@.len() % 20 != 0 && e == TorrentError::SchemaError,
            },
    {
        if bytes.len() % 20 == 0 {
            Ok(PieceHashList { data: bytes })
        } else {
            Err(TorrentError::SchemaError)
        }
    }

    /// The number of 20-byte hashes held.
    pub fn count(&self) -> (n: usize)
        ensures
            n == self@.len() / 20,
    {
        self.data.len() / 20
    }

    /// The `i`-th 20-byte hash.
    #[verifier::loop_isolation(false)]
    pub fn hash_at(&self, i: usize) -> (r: Vec<u8>)
        requires
            i < self@.len() / 20,
        ensures
            r@ == self@.subrange(20 * i, 20 * i + 20),
    {
        let len = self.data.len();
        proof {
            assert(20 * (i + 1) <= 20 * (self@.len() / 20)) by (nonlinear_arith)
                requires
                    i + 1 <= self@.len() / 20,
            ;
            assert(20 * (self@.len() / 20) <= self@.len()) by (nonlinear_arith);
            assert(20 * (i as int) + 20 <= len);
        }
        let start = 20 * i;
        let mut out: Vec<u8> = Vec::new();
        proof {
            assert(out@ =~= self@.subrange(start as int, start as int));
        }
        let mut j: usize = 0;
        while j < 20
            invariant
                j <= 20,
                start == 20 * i,
                start + 20 <= self@.len(),
                out@ == self@.subrange(start as int, start as int + j as int),
            decreases 20 - j,
        {
            out.push(self.data[start + j]);
            proof {
                assert(out@ =~= self@.subrange(start as int, start as int + j + 1));
            }
            j = j + 1;
        }
        out
    }

    /// Re-encoding: the flat byte string the list was built from, all
    /// hashes concatenated in order.
    pub fn as_flat_bytes(&self) -> (r: &Vec<u8>)
        ensures
            r@ == self@,
    {
        &self.data
    }
}

} // verus!
