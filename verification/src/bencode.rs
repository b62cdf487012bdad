//! The bencode codec: a recursive decoder and encoder for the four
//! bencode value kinds (byte string, integer, list, dictionary).
//!
//! The decoder accepts exactly the canonical encodings that the encoder
//! produces: integers and length prefixes may not carry leading zeros,
//! and `-0` is rejected.  Both directions are specified against the
//! mathematical encoding function [`encoded`] and the mathematical
//! decoder [`spec_decode_at`]; [`lemma_decode_encoded`] proves that
//! every encoding decodes back to its tree, and [`lemma_decode_sound`]
//! that whatever decodes is the encoding of what comes back.

use vstd::prelude::*;

use crate::TorrentError;

verus! {

broadcast use vstd::std_specs::vec::group_vec_axioms;

/// Mathematical model of a bencode value.  The exec type
/// [`BencodeValue`] views to this.
pub ghost enum Bval {
    Bytes(Seq<u8>),
    Int(int),
    List(Seq<Bval>),
    Dict(Seq<(Seq<u8>, Bval)>),
}

/// A decoded bencode value.  Dictionary entries keep the order in which
/// the source encoded them; the codec never reorders keys.
#[derive(Debug, PartialEq, Eq)]
pub enum BencodeValue {
    ByteString(Vec<u8>),
    Integer(i64),
    List(Vec<BencodeValue>),
    Dictionary(Vec<(Vec<u8>, BencodeValue)>),
}

pub open spec fn bval_of(v: BencodeValue) -> Bval
    decreases v,
{
    match v {
        BencodeValue::ByteString(b) => Bval::Bytes(b@),
        BencodeValue::Integer(i) => Bval::Int(i as int),
        BencodeValue::List(es) => Bval::List(bvals_of(es@)),
        BencodeValue::Dictionary(ps) => Bval::Dict(bpairs_of(ps@)),
    }
}

pub open spec fn bvals_of(es: Seq<BencodeValue>) -> Seq<Bval>
    decreases es,
{
    if es.len() == 0 {
        Seq::empty()
    } else {
        seq![bval_of(es[0])] + bvals_of(es.drop_first())
    }
}

pub open spec fn bpairs_of(ps: Seq<(Vec<u8>, BencodeValue)>) -> Seq<(Seq<u8>, Bval)>
    decreases ps,
{
    if ps.len() == 0 {
        Seq::empty()
    } else {
        seq![(ps[0].0@, bval_of(ps[0].1))] + bpairs_of(ps.drop_first())
    }
}

impl View for BencodeValue {
    type V = Bval;

    open spec fn view(&self) -> Bval {
        bval_of(*self)
    }
}

/// A value tree is valid when every integer in it fits a signed 64-bit
/// word; those are the trees the exec types can hold.
pub open spec fn bval_valid(b: Bval) -> bool
    decreases b,
{
    match b {
        Bval::Bytes(_) => true,
        Bval::Int(i) => i64::MIN <= i <= i64::MAX,
        Bval::List(items) => bvals_valid(items),
        Bval::Dict(pairs) => bpairs_valid(pairs),
    }
}

pub open spec fn bvals_valid(items: Seq<Bval>) -> bool
    decreases items,
{
    items.len() == 0 || (bval_valid(items[0]) && bvals_valid(items.drop_first()))
}

pub open spec fn bpairs_valid(pairs: Seq<(Seq<u8>, Bval)>) -> bool
    decreases pairs,
{
    pairs.len() == 0 || (bval_valid(pairs[0].1) && bpairs_valid(pairs.drop_first()))
}

pub proof fn lemma_bvals_of_index(es: Seq<BencodeValue>)
    ensures
        bvals_of(es).len() == es.len(),
        forall|i: int| 0 <= i < es.len() ==> bvals_of(es)[i] == bval_of(es[i]),
    decreases es,
{
    if es.len() > 0 {
        lemma_bvals_of_index(es.drop_first());
        assert forall|i: int| 0 <= i < es.len() implies bvals_of(es)[i] == bval_of(es[i]) by {
            if i > 0 {
                assert(bvals_of(es)[i] == bvals_of(es.drop_first())[i - 1]);
                assert(es.drop_first()[i - 1] == es[i]);
            }
        }
    }
}

pub proof fn lemma_bpairs_of_index(ps: Seq<(Vec<u8>, BencodeValue)>)
    ensures
        bpairs_of(ps).len() == ps.len(),
        forall|i: int|
            0 <= i < ps.len() ==> bpairs_of(ps)[i] == (ps[i].0@, bval_of(ps[i].1)),
    decreases ps,
{
    if ps.len() > 0 {
        lemma_bpairs_of_index(ps.drop_first());
        assert forall|i: int|
            0 <= i < ps.len() implies bpairs_of(ps)[i] == (ps[i].0@, bval_of(ps[i].1)) by {
            if i > 0 {
                assert(bpairs_of(ps)[i] == bpairs_of(ps.drop_first())[i - 1]);
                assert(ps.drop_first()[i - 1] == ps[i]);
            }
        }
    }
}

// ------------------------------------------------------------------
// The canonical encoding.
// ------------------------------------------------------------------

pub open spec fn is_digit(b: u8) -> bool {
    48 <= b && b <= 57
}

/// The decimal digits of `n`, most significant first, as ASCII bytes.
pub open spec fn digits_of(n: nat) -> Seq<u8>
    decreases n,
{
    if n < 10 {
        seq![(n + 48) as u8]
    } else {
        digits_of(n / 10) + seq![((n % 10) + 48) as u8]
    }
}

/// The value of a run of ASCII digits, most significant first.
pub open spec fn digits_value(ds: Seq<u8>) -> nat
    decreases ds.len(),
{
    if ds.len() == 0 {
        0
    } else {
        (digits_value(ds.drop_last()) * 10 + (ds.last() - 48)) as nat
    }
}

/// `<len>:<bytes>`: the encoding of a byte string.
pub open spec fn string_encoding(bs: Seq<u8>) -> Seq<u8> {
    digits_of(bs.len()) + seq![58u8] + bs
}

/// The decimal digits of a signed integer, with `-` for negatives.
pub open spec fn int_digits(i: int) -> Seq<u8> {
    if i >= 0 {
        digits_of(i as nat)
    } else {
        seq![45u8] + digits_of((-i) as nat)
    }
}

/// The canonical bencode encoding of a value tree.
pub open spec fn encoded(b: Bval) -> Seq<u8>
    decreases b,
{
    match b {
        Bval::Bytes(bs) => string_encoding(bs),
        Bval::Int(i) => seq![105u8] + int_digits(i) + seq![101u8],
        Bval::List(items) => seq![108u8] + encoded_items(items) + seq![101u8],
        Bval::Dict(pairs) => seq![100u8] + encoded_pairs(pairs) + seq![101u8],
    }
}

pub open spec fn encoded_items(items: Seq<Bval>) -> Seq<u8>
    decreases items,
{
    if items.len() == 0 {
        Seq::empty()
    } else {
        encoded(items[0]) + encoded_items(items.drop_first())
    }
}

pub open spec fn encoded_pairs(pairs: Seq<(Seq<u8>, Bval)>) -> Seq<u8>
    decreases pairs,
{
    if pairs.len() == 0 {
        Seq::empty()
    } else {
        string_encoding(pairs[0].0) + encoded(pairs[0].1) + encoded_pairs(pairs.drop_first())
    }
}

// ------------------------------------------------------------------
// Small lemmas about the view and encoding functions.
// ------------------------------------------------------------------

pub proof fn lemma_bvals_of_push(es: Seq<BencodeValue>, v: BencodeValue)
    ensures
        bvals_of(es.push(v)) == bvals_of(es) + seq![bval_of(v)],
    decreases es.len(),
{
    assert(es.push(v)[es.len() as int] == v);
    if es.len() == 0 {
        let rest = es.push(v).drop_first();
        assert(rest =~= Seq::<BencodeValue>::empty());
        assert(bvals_of(rest) =~= Seq::<Bval>::empty());
        assert(bvals_of(es) =~= Seq::<Bval>::empty());
        assert(bvals_of(es.push(v)) =~= seq![bval_of(v)] + bvals_of(rest));
        assert(bvals_of(es.push(v)) =~= bvals_of(es) + seq![bval_of(v)]);
    } else {
        assert(es.push(v)[0] == es[0]);
        assert(es.push(v).drop_first() =~= es.drop_first().push(v));
        lemma_bvals_of_push(es.drop_first(), v);
        assert(bvals_of(es.push(v)) =~= seq![bval_of(es[0])] + bvals_of(es.drop_first().push(v)));
        assert(bvals_of(es.push(v)) =~= bvals_of(es) + seq![bval_of(v)]);
    }
}

pub proof fn lemma_bpairs_of_push(ps: Seq<(Vec<u8>, BencodeValue)>, p: (Vec<u8>, BencodeValue))
    ensures
        bpairs_of(ps.push(p)) == bpairs_of(ps) + seq![(p.0@, bval_of(p.1))],
    decreases ps.len(),
{
    assert(ps.push(p)[ps.len() as int] == p);
    if ps.len() == 0 {
        let rest = ps.push(p).drop_first();
        assert(rest =~= Seq::<(Vec<u8>, BencodeValue)>::empty());
        assert(bpairs_of(rest) =~= Seq::<(Seq<u8>, Bval)>::empty());
        assert(bpairs_of(ps) =~= Seq::<(Seq<u8>, Bval)>::empty());
        assert(bpairs_of(ps.push(p)) =~= seq![(p.0@, bval_of(p.1))] + bpairs_of(rest));
        assert(bpairs_of(ps.push(p)) =~= bpairs_of(ps) + seq![(p.0@, bval_of(p.1))]);
    } else {
        assert(ps.push(p)[0] == ps[0]);
        assert(ps.push(p).drop_first() =~= ps.drop_first().push(p));
        lemma_bpairs_of_push(ps.drop_first(), p);
        assert(bpairs_of(ps.push(p)) =~= seq![(ps[0].0@, bval_of(ps[0].1))]
            + bpairs_of(ps.drop_first().push(p)));
        assert(bpairs_of(ps.push(p)) =~= bpairs_of(ps) + seq![(p.0@, bval_of(p.1))]);
    }
}

pub proof fn lemma_encoded_items_push(items: Seq<Bval>, x: Bval)
    ensures
        encoded_items(items.push(x)) == encoded_items(items) + encoded(x),
    decreases items.len(),
{
    assert(items.push(x)[items.len() as int] == x);
    if items.len() == 0 {
        let rest = items.push(x).drop_first();
        assert(rest =~= Seq::<Bval>::empty());
        assert(encoded_items(rest) =~= Seq::<u8>::empty());
        assert(encoded_items(items) =~= Seq::<u8>::empty());
        assert(encoded_items(items.push(x)) =~= encoded(x) + encoded_items(rest));
        assert(encoded_items(items.push(x)) =~= encoded_items(items) + encoded(x));
    } else {
        assert(items.push(x)[0] == items[0]);
        assert(items.push(x).drop_first() =~= items.drop_first().push(x));
        lemma_encoded_items_push(items.drop_first(), x);
        assert(encoded_items(items.push(x)) =~= encoded(items[0])
            + encoded_items(items.drop_first().push(x)));
        assert(encoded_items(items.push(x)) =~= encoded_items(items) + encoded(x));
    }
}

pub proof fn lemma_encoded_pairs_push(pairs: Seq<(Seq<u8>, Bval)>, p: (Seq<u8>, Bval))
    ensures
        encoded_pairs(pairs.push(p)) == encoded_pairs(pairs) + string_encoding(p.0) + encoded(p.1),
    decreases pairs.len(),
{
    assert(pairs.push(p)[pairs.len() as int] == p);
    if pairs.len() == 0 {
        let rest = pairs.push(p).drop_first();
        assert(rest =~= Seq::<(Seq<u8>, Bval)>::empty());
        assert(encoded_pairs(rest) =~= Seq::<u8>::empty());
        assert(encoded_pairs(pairs) =~= Seq::<u8>::empty());
        assert(encoded_pairs(pairs.push(p)) =~= string_encoding(p.0) + encoded(p.1)
            + encoded_pairs(rest));
        assert(encoded_pairs(pairs.push(p)) =~= encoded_pairs(pairs) + string_encoding(p.0)
            + encoded(p.1));
    } else {
        assert(pairs.push(p)[0] == pairs[0]);
        assert(pairs.push(p).drop_first() =~= pairs.drop_first().push(p));
        lemma_encoded_pairs_push(pairs.drop_first(), p);
        assert(encoded_pairs(pairs.push(p)) =~= string_encoding(pairs[0].0) + encoded(pairs[0].1)
            + encoded_pairs(pairs.drop_first().push(p)));
        assert(encoded_pairs(pairs.push(p)) =~= encoded_pairs(pairs) + string_encoding(p.0)
            + encoded(p.1));
    }
}

// ------------------------------------------------------------------
// The encoder.
// ------------------------------------------------------------------

/// Appends the decimal digits of `n` to `out`.
pub(crate) fn push_digits(n: u64, out: &mut Vec<u8>)
    ensures
        final(out)@ == old(out)@ + digits_of(n as nat),
    decreases n,
{
    if n < 10 {
        out.push((n + 48) as u8);
        assert(out@ =~= old(out)@ + digits_of(n as nat));
    } else {
        push_digits(n / 10, out);
        out.push(((n % 10) + 48) as u8);
        assert(out@ =~= old(out)@ + digits_of(n as nat));
    }
}

/// Appends the canonical encoding of `v` to `out`.
#[verifier::loop_isolation(false)]
fn encode_into(v: &BencodeValue, out: &mut Vec<u8>)
    ensures
        final(out)@ == old(out)@ + encoded(v@),
    decreases *v,
{
    match v {
        BencodeValue::ByteString(bs) => {
            push_digits(bs.len() as u64, out);
            out.push(58);
            let ghost mid = out@;
            let mut i: usize = 0;
            while i < bs.len()
                invariant
                    i <= bs.len(),
                    out@ == mid + bs@.take(i as int),
                decreases bs.len() - i,
            {
                out.push(bs[i]);
                assert(out@ =~= mid + bs@.take(i + 1));
                i = i + 1;
            }
            assert(bs@.take(bs.len() as int) =~= bs@);
            assert(out@ =~= old(out)@ + encoded(v@));
        }
        BencodeValue::Integer(n) => {
            out.push(105);
            if *n >= 0 {
                push_digits(*n as u64, out);
            } else {
                out.push(45);
                let mag: u64 = ((-(*n + 1)) as u64) + 1;
                assert(mag as nat == (-(*n as int)) as nat);
                push_digits(mag, out);
            }
            out.push(101);
            assert(out@ =~= old(out)@ + encoded(v@));
        }
        BencodeValue::List(es) => {
            out.push(108);
            let ghost base = out@;
            proof {
                assert(es@.take(0) =~= Seq::<BencodeValue>::empty());
                assert(out@ =~= base + encoded_items(bvals_of(es@.take(0))));
            }
            let mut i: usize = 0;
            while i < es.len()
                invariant
                    i <= es.len(),
                    out@ == base + encoded_items(bvals_of(es@.take(i as int))),
                decreases es.len() - i,
            {
                proof {
                    assert(*v == BencodeValue::List(*es));
                    assert(decreases_to!(*v => (*v)->List_0));
                    assert((*v)->List_0 == *es);
                    assert(decreases_to!(*es => es@));
                    assert(decreases_to!(es@ => es@[i as int]));
                }
                encode_into(&es[i], out);
                proof {
                    let t = es@.take(i as int);
                    let x = es@[i as int];
                    assert(es@.take(i + 1) =~= t.push(x));
                    lemma_bvals_of_push(t, x);
                    assert(bvals_of(t) + seq![bval_of(x)] =~= bvals_of(t).push(bval_of(x)));
                    lemma_encoded_items_push(bvals_of(t), bval_of(x));
                    assert(out@ =~= base + encoded_items(bvals_of(es@.take(i + 1))));
                }
                i = i + 1;
            }
            out.push(101);
            proof {
                assert(es@.take(es@.len() as int) =~= es@);
                assert(out@ =~= old(out)@ + encoded(v@));
            }
        }
        BencodeValue::Dictionary(ps) => {
            out.push(100);
            let ghost base = out@;
            proof {
                assert(ps@.take(0) =~= Seq::<(Vec<u8>, BencodeValue)>::empty());
                assert(out@ =~= base + encoded_pairs(bpairs_of(ps@.take(0))));
            }
            let mut i: usize = 0;
            while i < ps.len()
                invariant
                    i <= ps.len(),
                    out@ == base + encoded_pairs(bpairs_of(ps@.take(i as int))),
                decreases ps.len() - i,
            {
                let ghost before = out@;
                push_digits(ps[i].0.len() as u64, out);
                out.push(58);
                let ghost mid = out@;
                let mut j: usize = 0;
                while j < ps[i].0.len()
                    invariant
                        i < ps.len(),
                        j <= ps[i as int].0.len(),
                        out@ == mid + ps[i as int].0@.take(j as int),
                        mid == before + digits_of(ps[i as int].0@.len()) + seq![58u8],
                    decreases ps[i as int].0.len() - j,
                {
                    out.push(ps[i].0[j]);
                    assert(out@ =~= mid + ps[i as int].0@.take(j + 1));
                    j = j + 1;
                }
                proof {
                    assert(ps[i as int].0@.take(ps[i as int].0@.len() as int) =~= ps[i as int].0@);
                    assert(out@ =~= before + string_encoding(ps[i as int].0@));
                }
                proof {
                    assert(*v == BencodeValue::Dictionary(*ps));
                    assert(decreases_to!(*v => (*v)->Dictionary_0));
                    assert((*v)->Dictionary_0 == *ps);
                    assert(decreases_to!(*ps => ps@));
                    assert(decreases_to!(ps@ => ps@[i as int]));
                    assert(decreases_to!(ps@[i as int] => ps@[i as int].1));
                }
                encode_into(&ps[i].1, out);
                proof {
                    let t = ps@.take(i as int);
                    let x = ps@[i as int];
                    let ghost_pair = (x.0@, bval_of(x.1));
                    assert(ps@.take(i + 1) =~= t.push(x));
                    lemma_bpairs_of_push(t, x);
                    assert(bpairs_of(t) + seq![ghost_pair] =~= bpairs_of(t).push(ghost_pair));
                    lemma_encoded_pairs_push(bpairs_of(t), ghost_pair);
                    assert(out@ =~= base + encoded_pairs(bpairs_of(ps@.take(i + 1))));
                }
                i = i + 1;
            }
            out.push(101);
            proof {
                assert(ps@.take(ps@.len() as int) =~= ps@);
                assert(out@ =~= old(out)@ + encoded(v@));
            }
        }
    }
}

// ------------------------------------------------------------------
// The mathematical decoder.
// ------------------------------------------------------------------

/// Position of the first byte at or after `pos` that is not an ASCII
/// digit.
pub open spec fn digit_run_end(s: Seq<u8>, pos: int) -> int
    decreases s.len() - pos,
{
    if pos < 0 || pos >= s.len() || !is_digit(s[pos]) {
        pos
    } else {
        digit_run_end(s, pos + 1)
    }
}

/// Decodes one value at `pos`: the decoded value and the position of
/// the first unconsumed byte, or the error the input deserves.  Only
/// canonical digit runs are accepted: no leading zeros, no `-0`.
pub open spec fn spec_decode_at(s: Seq<u8>, pos: int) -> Result<(Bval, int), TorrentError>
    decreases s.len() - pos, 0int,
{
    if pos < 0 || pos >= s.len() {
        Err(TorrentError::UnsupportedType)
    } else if is_digit(s[pos]) {
        let end = digit_run_end(s, pos);
        if end - pos > 1 && s[pos] == 48 {
            Err(TorrentError::MalformedEncoding)
        } else if end >= s.len() || s[end] != 58 {
            Err(TorrentError::MalformedEncoding)
        } else {
            let n = digits_value(s.subrange(pos, end)) as int;
            if n > s.len() - (end + 1) {
                Err(TorrentError::MalformedEncoding)
            } else {
                Ok((Bval::Bytes(s.subrange(end + 1, end + 1 + n)), end + 1 + n))
            }
        }
    } else if s[pos] == 105 {
        let dstart = if pos + 1 < s.len() && s[pos + 1] == 45 {
            pos + 2
        } else {
            pos + 1
        };
        let end = digit_run_end(s, dstart);
        if end == dstart {
            Err(TorrentError::MalformedEncoding)
        } else if s[dstart] == 48 && (end - dstart > 1 || dstart == pos + 2) {
            Err(TorrentError::MalformedEncoding)
        } else if end >= s.len() || s[end] != 101 {
            Err(TorrentError::MalformedEncoding)
        } else {
            let mag = digits_value(s.subrange(dstart, end)) as int;
            let val = if dstart == pos + 2 {
                -mag
            } else {
                mag
            };
            if val < i64::MIN as int || val > i64::MAX as int {
                Err(TorrentError::MalformedEncoding)
            } else {
                Ok((Bval::Int(val), end + 1))
            }
        }
    } else if s[pos] == 108 {
        match spec_decode_items(s, pos + 1) {
            Ok(r) => Ok((Bval::List(r.0), r.1)),
            Err(e) => Err(e),
        }
    } else if s[pos] == 100 {
        match spec_decode_pairs(s, pos + 1) {
            Ok(r) => Ok((Bval::Dict(r.0), r.1)),
            Err(e) => Err(e),
        }
    } else {
        Err(TorrentError::UnsupportedType)
    }
}

/// Decodes list elements from `pos` up to and including the `e`
/// terminator.
pub open spec fn spec_decode_items(s: Seq<u8>, pos: int) -> Result<(Seq<Bval>, int), TorrentError>
    decreases s.len() - pos, 1int,
{
    if pos < 0 || pos >= s.len() {
        Err(TorrentError::MalformedEncoding)
    } else if s[pos] == 101 {
        Ok((Seq::empty(), pos + 1))
    } else {
        match spec_decode_at(s, pos) {
            Err(e) => Err(e),
            Ok(r) => if pos < r.1 && r.1 <= s.len() {
                match spec_decode_items(s, r.1) {
                    Err(e) => Err(e),
                    Ok(rest) => Ok((seq![r.0] + rest.0, rest.1)),
                }
            } else {
                Err(TorrentError::MalformedEncoding)
            },
        }
    }
}

/// Decodes dictionary entries from `pos` up to and including the `e`
/// terminator; every key must be a byte string.
pub open spec fn spec_decode_pairs(s: Seq<u8>, pos: int) -> Result<
    (Seq<(Seq<u8>, Bval)>, int),
    TorrentError,
>
    decreases s.len() - pos, 1int,
{
    if pos < 0 || pos >= s.len() {
        Err(TorrentError::MalformedEncoding)
    } else if s[pos] == 101 {
        Ok((Seq::empty(), pos + 1))
    } else {
        match spec_decode_at(s, pos) {
            Err(e) => Err(e),
            Ok(kr) => match kr.0 {
                Bval::Bytes(key) => if pos < kr.1 && kr.1 <= s.len() {
                    match spec_decode_at(s, kr.1) {
                        Err(e) => Err(e),
                        Ok(vr) => if kr.1 < vr.1 && vr.1 <= s.len() {
                            match spec_decode_pairs(s, vr.1) {
                                Err(e) => Err(e),
                                Ok(rest) => Ok((seq![(key, vr.0)] + rest.0, rest.1)),
                            }
                        } else {
                            Err(TorrentError::MalformedEncoding)
                        },
                    }
                } else {
                    Err(TorrentError::MalformedEncoding)
                },
                _ => Err(TorrentError::MalformedEncoding),
            },
        }
    }
}

// ------------------------------------------------------------------
// Lemmas about digit runs and digit values.
// ------------------------------------------------------------------

/// Facts about the digit run starting at `pos`.
pub proof fn lemma_digit_run_end(s: Seq<u8>, pos: int)
    requires
        0 <= pos <= s.len(),
    ensures
        pos <= digit_run_end(s, pos) <= s.len(),
        forall|j: int| pos <= j < digit_run_end(s, pos) ==> is_digit(s[j]),
        digit_run_end(s, pos) == s.len() || !is_digit(s[digit_run_end(s, pos)]),
        pos < s.len() && is_digit(s[pos]) ==> digit_run_end(s, pos) > pos,
    decreases s.len() - pos,
{
    if pos < s.len() && is_digit(s[pos]) {
        lemma_digit_run_end(s, pos + 1);
    }
}

pub proof fn lemma_digit_run_end_exact(s: Seq<u8>, pos: int, end: int)
    requires
        0 <= pos <= end <= s.len(),
        forall|j: int| pos <= j < end ==> is_digit(s[j]),
        end == s.len() || !is_digit(s[end]),
    ensures
        digit_run_end(s, pos) == end,
    decreases end - pos,
{
    if pos < end {
        lemma_digit_run_end_exact(s, pos + 1, end);
    }
}

/// Extending a digit run to the right never shrinks its value.
pub proof fn lemma_digits_value_mono(s: Seq<u8>, pos: int, mid: int, end: int)
    requires
        0 <= pos <= mid <= end <= s.len(),
        forall|j: int| pos <= j < end ==> is_digit(s[j]),
    ensures
        digits_value(s.subrange(pos, end)) >= digits_value(s.subrange(pos, mid)),
    decreases end - mid,
{
    if mid < end {
        lemma_digits_value_mono(s, pos, mid, end - 1);
        assert(s.subrange(pos, end).drop_last() =~= s.subrange(pos, end - 1));
        let v = digits_value(s.subrange(pos, end - 1));
        assert(digits_value(s.subrange(pos, end)) >= v * 10) by {
            assert(s.subrange(pos, end).len() > 0);
            assert(s.subrange(pos, end).last() == s[end - 1]);
            assert(is_digit(s[end - 1]));
        }
        assert(v * 10 >= v) by (nonlinear_arith)
            requires
                v >= 0,
        ;
    } else {
        assert(s.subrange(pos, end) =~= s.subrange(pos, mid));
    }
}

/// A digit run that does not begin with `0` has a positive value.
pub proof fn lemma_digits_value_pos(ds: Seq<u8>)
    requires
        ds.len() >= 1,
        forall|j: int| 0 <= j < ds.len() ==> is_digit(ds[j]),
        ds[0] != 48,
    ensures
        digits_value(ds) >= 1,
    decreases ds.len(),
{
    if ds.len() == 1 {
        assert(ds.drop_last() =~= Seq::<u8>::empty());
    } else {
        assert(ds.drop_last()[0] == ds[0]);
        lemma_digits_value_pos(ds.drop_last());
    }
}

/// A canonical digit run is the decimal form of its own value: the
/// digits of `digits_value(ds)` are `ds` again.
pub proof fn lemma_digits_of_value(ds: Seq<u8>)
    requires
        ds.len() >= 1,
        forall|j: int| 0 <= j < ds.len() ==> is_digit(ds[j]),
        ds.len() == 1 || ds[0] != 48,
    ensures
        digits_of(digits_value(ds)) == ds,
    decreases ds.len(),
{
    let v = digits_value(ds);
    let d = (ds.last() - 48) as nat;
    if ds.len() == 1 {
        assert(ds.drop_last() =~= Seq::<u8>::empty());
        assert(digits_value(Seq::<u8>::empty()) == 0);
        assert(v == d);
        assert(v < 10);
        assert(digits_of(v) =~= ds);
    } else {
        let pre = ds.drop_last();
        assert(pre[0] == ds[0]);
        let vp = digits_value(pre);
        lemma_digits_value_pos(pre);
        assert(vp >= 1);
        assert(v == vp * 10 + d);
        assert(v >= 10) by (nonlinear_arith)
            requires
                v == vp * 10 + d,
                vp >= 1,
                d >= 0,
        ;
        assert(v / 10 == vp && v % 10 == d) by (nonlinear_arith)
            requires
                v == vp * 10 + d,
                0 <= d < 10,
                vp >= 0,
        ;
        lemma_digits_of_value(pre);
        assert(digits_of(v) == digits_of(vp) + seq![((v % 10) + 48) as u8]);
        assert(((v % 10) + 48) as u8 == ds.last());
        assert(digits_of(v) =~= ds);
    }
}

/// The decimal digits of `n` are digits, begin with a non-zero digit
/// unless `n` is zero, and evaluate back to `n`.
pub proof fn lemma_digits_of(n: nat)
    ensures
        digits_of(n).len() >= 1,
        forall|j: int| 0 <= j < digits_of(n).len() ==> is_digit(digits_of(n)[j]),
        n >= 1 ==> digits_of(n)[0] != 48,
        n == 0 ==> digits_of(n) == seq![48u8],
        n < 10 <==> digits_of(n).len() == 1,
        digits_value(digits_of(n)) == n,
    decreases n,
{
    if n < 10 {
        assert(digits_value(digits_of(n)) == n) by {
            assert(digits_of(n) == seq![(n + 48) as u8]);
            assert(digits_of(n).last() == (n + 48) as u8);
            assert((n + 48) as u8 == n + 48);
            assert(digits_of(n).drop_last() =~= Seq::<u8>::empty());
            assert(digits_value(Seq::<u8>::empty()) == 0);
        }
    } else {
        lemma_digits_of(n / 10);
        assert(n / 10 >= 1);
        assert(digits_of(n)[0] == digits_of(n / 10)[0]);
        assert(digits_of(n).drop_last() =~= digits_of(n / 10));
        assert(digits_of(n).last() == ((n % 10) + 48) as u8);
        assert(digits_value(digits_of(n)) == (n / 10) * 10 + n % 10);
        assert((n / 10) * 10 + n % 10 == n) by (nonlinear_arith);
    }
}

// ------------------------------------------------------------------
// The decoder.
// ------------------------------------------------------------------

/// Relates the exec decoder's result to the mathematical decoder's.
pub open spec fn decode_matches(
    r: Result<(BencodeValue, usize), TorrentError>,
    m: Result<(Bval, int), TorrentError>,
) -> bool {
    match r {
        Ok(p) => m == Ok::<(Bval, int), TorrentError>((p.0@, p.1 as int)),
        Err(e) => m == Err::<(Bval, int), TorrentError>(e),
    }
}

/// Prepends already-decoded elements to the rest of a list decode.
pub open spec fn items_cont(
    prefix: Seq<Bval>,
    m: Result<(Seq<Bval>, int), TorrentError>,
) -> Result<(Seq<Bval>, int), TorrentError> {
    match m {
        Ok(r) => Ok((prefix + r.0, r.1)),
        Err(e) => Err(e),
    }
}

/// Prepends already-decoded entries to the rest of a dictionary decode.
pub open spec fn pairs_cont(
    prefix: Seq<(Seq<u8>, Bval)>,
    m: Result<(Seq<(Seq<u8>, Bval)>, int), TorrentError>,
) -> Result<(Seq<(Seq<u8>, Bval)>, int), TorrentError> {
    match m {
        Ok(r) => Ok((prefix + r.0, r.1)),
        Err(e) => Err(e),
    }
}

/// Scans the digit run beginning at `from`.
fn scan_digits(input: &[u8], from: usize) -> (end: usize)
    requires
        from <= input@.len(),
    ensures
        from <= end <= input@.len(),
        end as int == digit_run_end(input@, from as int),
        forall|j: int| from <= j < end ==> is_digit(input@[j]),
    decreases input@.len() - from,
{
    let mut end = from;
    while end < input.len() && 48 <= input[end] && input[end] <= 57
        invariant
            from <= end <= input@.len(),
            forall|j: int| from <= j < end ==> is_digit(input@[j]),
        decreases input@.len() - end,
    {
        end = end + 1;
    }
    proof {
        lemma_digit_run_end_exact(input@, from as int, end as int);
    }
    end
}

/// Reads the digit run `[from, end)` as a number, answering `None` as
/// soon as its value exceeds `bound`.
fn parse_digits_bounded(input: &[u8], from: usize, end: usize, bound: u64) -> (r: Option<u64>)
    requires
        from <= end <= input@.len(),
        forall|j: int| from <= j < end ==> is_digit(input@[j]),
    ensures
        match r {
            Some(v) => v as nat == digits_value(input@.subrange(from as int, end as int)) && v
                <= bound,
            None => digits_value(input@.subrange(from as int, end as int)) > bound,
        },
{
    let mut v: u64 = 0;
    let mut i = from;
    proof {
        assert(input@.subrange(from as int, from as int) =~= Seq::<u8>::empty());
    }
    while i < end
        invariant
            from <= i <= end <= input@.len(),
            forall|j: int| from <= j < end ==> is_digit(input@[j]),
            v as nat == digits_value(input@.subrange(from as int, i as int)),
            v <= bound,
        decreases end - i,
    {
        let d = input[i] - 48;
        proof {
            assert(input@.subrange(from as int, i + 1).drop_last() =~= input@.subrange(
                from as int,
                i as int,
            ));
            assert(input@.subrange(from as int, i + 1).last() == input@[i as int]);
        }
        let wide = (v as u128) * 10 + (d as u128);
        proof {
            assert(wide as nat == digits_value(input@.subrange(from as int, i + 1)));
        }
        if wide > bound as u128 {
            proof {
                lemma_digits_value_mono(input@, from as int, i + 1, end as int);
            }
            return None;
        }
        v = wide as u64;
        i = i + 1;
    }
    Some(v)
}

/// Decodes the value beginning at `pos`, returning it together with
/// the position of the first unconsumed byte.
#[verifier::loop_isolation(false)]
pub fn decode_at(input: &[u8], pos: usize) -> (r: Result<(BencodeValue, usize), TorrentError>)
    requires
        pos <= input@.len(),
    ensures
        decode_matches(r, spec_decode_at(input@, pos as int)),
    decreases input@.len() - pos,
{
    if pos >= input.len() {
        return Err(TorrentError::UnsupportedType);
    }
    let b = input[pos];
    if 48 <= b && b <= 57 {
        // byte string: <len>:<bytes>
        let end = scan_digits(input, pos);
        if end - pos > 1 && b == 48 {
            return Err(TorrentError::MalformedEncoding);
        }
        if end >= input.len() || input[end] != 58 {
            return Err(TorrentError::MalformedEncoding);
        }
        let start = end + 1;
        let avail = input.len() - start;
        proof {
            assert(avail as u64 as usize == avail);
        }
        let n: usize = match parse_digits_bounded(input, pos, end, avail as u64) {
            Some(v) => v as usize,
            None => {
                return Err(TorrentError::MalformedEncoding);
            },
        };
        let mut out: Vec<u8> = Vec::new();
        proof {
            assert(out@ =~= input@.subrange(start as int, start as int));
        }
        let mut k: usize = 0;
        while k < n
            invariant
                k <= n,
                out@ == input@.subrange(start as int, start as int + k as int),
            decreases n - k,
        {
            out.push(input[start + k]);
            proof {
                assert(out@ =~= input@.subrange(start as int, start as int + k + 1));
            }
            k = k + 1;
        }
        return Ok((BencodeValue::ByteString(out), start + n));
    }
    if b == 105 {
        // integer: i<decimal>e
        let neg = pos + 1 < input.len() && input[pos + 1] == 45;
        let dstart = if neg {
            pos + 2
        } else {
            pos + 1
        };
        let end = scan_digits(input, dstart);
        if end == dstart {
            return Err(TorrentError::MalformedEncoding);
        }
        if input[dstart] == 48 && (end - dstart > 1 || neg) {
            return Err(TorrentError::MalformedEncoding);
        }
        if end >= input.len() || input[end] != 101 {
            return Err(TorrentError::MalformedEncoding);
        }
        let bound: u64 = if neg {
            0x8000_0000_0000_0000u64
        } else {
            0x7fff_ffff_ffff_ffffu64
        };
        let mag: u64 = match parse_digits_bounded(input, dstart, end, bound) {
            Some(v) => v,
            None => {
                return Err(TorrentError::MalformedEncoding);
            },
        };
        let val: i64 = if neg {
            if mag == 0x8000_0000_0000_0000u64 {
                i64::MIN
            } else {
                -(mag as i64)
            }
        } else {
            mag as i64
        };
        return Ok((BencodeValue::Integer(val), end + 1));
    }
    if b == 108 {
        // list: l<elements>e
        let mut items: Vec<BencodeValue> = Vec::new();
        let mut cur = pos + 1;
        proof {
            assert(bvals_of(items@) =~= Seq::<Bval>::empty());
            match spec_decode_items(input@, pos + 1) {
                Ok(r) => {
                    assert(Seq::<Bval>::empty() + r.0 =~= r.0);
                },
                Err(e) => {},
            }
        }
        loop
            invariant
                pos + 1 <= cur <= input@.len(),
                items_cont(bvals_of(items@), spec_decode_items(input@, cur as int))
                    == spec_decode_items(input@, pos + 1),
            decreases input@.len() - cur,
        {
            if cur >= input.len() {
                return Err(TorrentError::MalformedEncoding);
            }
            if input[cur] == 101 {
                proof {
                    assert(bvals_of(items@) + Seq::<Bval>::empty() =~= bvals_of(items@));
                }
                return Ok((BencodeValue::List(items), cur + 1));
            }
            match decode_at(input, cur) {
                Err(e) => {
                    return Err(e);
                },
                Ok(p) => {
                    let (v, newpos) = p;
                    if newpos <= cur || newpos > input.len() {
                        return Err(TorrentError::MalformedEncoding);
                    }
                    let ghost before = items@;
                    items.push(v);
                    proof {
                        lemma_bvals_of_push(before, v);
                        match spec_decode_items(input@, newpos as int) {
                            Ok(rest) => {
                                assert(bvals_of(before) + (seq![v@] + rest.0) =~= (bvals_of(
                                    before,
                                ) + seq![v@]) + rest.0);
                            },
                            Err(e) => {},
                        }
                    }
                    cur = newpos;
                },
            }
        }
    }
    if b == 100 {
        // dictionary: d<key value pairs>e
        let mut pairs: Vec<(Vec<u8>, BencodeValue)> = Vec::new();
        let mut cur = pos + 1;
        proof {
            assert(bpairs_of(pairs@) =~= Seq::<(Seq<u8>, Bval)>::empty());
            match spec_decode_pairs(input@, pos + 1) {
                Ok(r) => {
                    assert(Seq::<(Seq<u8>, Bval)>::empty() + r.0 =~= r.0);
                },
                Err(e) => {},
            }
        }
        loop
            invariant
                pos + 1 <= cur <= input@.len(),
                pairs_cont(bpairs_of(pairs@), spec_decode_pairs(input@, cur as int))
                    == spec_decode_pairs(input@, pos + 1),
            decreases input@.len() - cur,
        {
            if cur >= input.len() {
                return Err(TorrentError::MalformedEncoding);
            }
            if input[cur] == 101 {
                proof {
                    assert(bpairs_of(pairs@) + Seq::<(Seq<u8>, Bval)>::empty() =~= bpairs_of(
                        pairs@,
                    ));
                }
                return Ok((BencodeValue::Dictionary(pairs), cur + 1));
            }
            let (key, kpos) = match decode_at(input, cur) {
                Err(e) => {
                    return Err(e);
                },
                Ok(p) => p,
            };
            let kb = match key {
                BencodeValue::ByteString(kb) => kb,
                _ => {
                    return Err(TorrentError::MalformedEncoding);
                },
            };
            if kpos <= cur || kpos > input.len() {
                return Err(TorrentError::MalformedEncoding);
            }
            let (val, vpos) = match decode_at(input, kpos) {
                Err(e) => {
                    return Err(e);
                },
                Ok(p) => p,
            };
            if vpos <= kpos || vpos > input.len() {
                return Err(TorrentError::MalformedEncoding);
            }
            let ghost before = pairs@;
            let ghost gp = (kb@, bval_of(val));
            pairs.push((kb, val));
            proof {
                lemma_bpairs_of_push(before, pairs@[pairs@.len() - 1]);
                match spec_decode_pairs(input@, vpos as int) {
                    Ok(rest) => {
                        assert(bpairs_of(before) + (seq![gp] + rest.0) =~= (bpairs_of(before)
                            + seq![gp]) + rest.0);
                    },
                    Err(e) => {},
                }
            }
            cur = vpos;
        }
    }
    Err(TorrentError::UnsupportedType)
}

/// Decodes one bencode value from the front of `input`, returning the
/// value and the position of the first unconsumed byte, so that a
/// caller can thread its own position through a larger buffer.
pub fn decode_bencoded_value(input: &[u8]) -> (r: Result<(BencodeValue, usize), TorrentError>)
    ensures
        decode_matches(r, spec_decode_at(input@, 0)),
{
    decode_at(input, 0)
}

// ------------------------------------------------------------------
// The round trip: decoding an encoding yields the encoded tree.
// ------------------------------------------------------------------

/// One byte of a known subrange of `s`.
pub proof fn lemma_byte_at(s: Seq<u8>, pos: int, t: Seq<u8>, j: int)
    requires
        0 <= pos,
        0 <= j < t.len(),
        pos + t.len() <= s.len(),
        s.subrange(pos, pos + t.len()) == t,
    ensures
        s[pos + j] == t[j],
{
    assert(s.subrange(pos, pos + t.len())[j] == s[pos + j]);
}

/// Splits a known subrange of `s` at a concatenation.
pub proof fn lemma_split_at(s: Seq<u8>, pos: int, a: Seq<u8>, b: Seq<u8>)
    requires
        0 <= pos,
        pos + a.len() + b.len() <= s.len(),
        s.subrange(pos, pos + a.len() + b.len()) == a + b,
    ensures
        s.subrange(pos, pos + a.len()) == a,
        s.subrange(pos + a.len(), pos + a.len() + b.len()) == b,
{
    let l = a.len() + b.len();
    assert(s.subrange(pos, pos + a.len()) =~= a) by {
        assert forall|j: int| 0 <= j < a.len() implies s.subrange(pos, pos + a.len())[j] == a[j]
        by {
            assert(s.subrange(pos, pos + l)[j] == s[pos + j]);
            assert(s.subrange(pos, pos + a.len())[j] == s[pos + j]);
            assert((a + b)[j] == a[j]);
        }
    }
    assert(s.subrange(pos + a.len(), pos + l) =~= b) by {
        assert forall|j: int| 0 <= j < b.len() implies s.subrange(pos + a.len(), pos + l)[j]
            == b[j] by {
            assert(s.subrange(pos, pos + l)[a.len() + j] == s[pos + a.len() + j]);
            assert(s.subrange(pos + a.len(), pos + l)[j] == s[pos + a.len() + j]);
            assert((a + b)[a.len() + j] == b[j]);
        }
    }
}

/// Every encoding is at least two bytes long and never begins with the
/// terminator byte `e`.
pub proof fn lemma_encoded_first(b: Bval)
    ensures
        encoded(b).len() >= 2,
        encoded(b)[0] != 101,
{
    match b {
        Bval::Bytes(bs) => {
            lemma_digits_of(bs.len());
            assert(encoded(b)[0] == digits_of(bs.len())[0]);
            assert(is_digit(encoded(b)[0]));
        },
        Bval::Int(i) => {
            assert(encoded(b)[0] == 105);
        },
        Bval::List(items) => {
            assert(encoded(b)[0] == 108);
        },
        Bval::Dict(pairs) => {
            assert(encoded(b)[0] == 100);
        },
    }
}

/// Decoding at a position where a byte-string encoding lies yields
/// that byte string.
pub proof fn lemma_decode_string(s: Seq<u8>, pos: int, ks: Seq<u8>)
    requires
        0 <= pos,
        pos + string_encoding(ks).len() <= s.len(),
        s.subrange(pos, pos + string_encoding(ks).len()) == string_encoding(ks),
    ensures
        spec_decode_at(s, pos) == Ok::<(Bval, int), TorrentError>(
            (Bval::Bytes(ks), pos + string_encoding(ks).len()),
        ),
{
    let ds = digits_of(ks.len());
    let dlen = ds.len() as int;
    let l = string_encoding(ks).len() as int;
    lemma_digits_of(ks.len());
    assert(string_encoding(ks) == (ds + seq![58u8]) + ks);
    lemma_split_at(s, pos, ds + seq![58u8], ks);
    lemma_split_at(s, pos, ds, seq![58u8]);
    lemma_byte_at(s, pos + dlen, seq![58u8], 0);
    assert(s[pos + dlen] == 58);
    assert forall|j: int| pos <= j < pos + dlen implies is_digit(s[j]) by {
        lemma_byte_at(s, pos, ds, j - pos);
    }
    lemma_byte_at(s, pos, ds, 0);
    assert(s[pos] == ds[0]);
    assert(is_digit(s[pos]));
    let end = pos + dlen;
    lemma_digit_run_end_exact(s, pos, end);
    if dlen > 1 {
        assert(ks.len() >= 10);
        assert(s[pos] != 48);
    }
    assert(digits_value(s.subrange(pos, end)) == ks.len());
    assert(ks.len() <= s.len() - (end + 1));
    assert(s.subrange(end + 1, end + 1 + ks.len()) == ks);
    assert(spec_decode_at(s, pos) == Ok::<(Bval, int), TorrentError>((Bval::Bytes(ks), pos + l)));
}

/// Decoding at a position where the encoding of a valid tree lies
/// yields that tree, whatever follows it.
pub proof fn lemma_decode_encoded(s: Seq<u8>, pos: int, b: Bval)
    requires
        bval_valid(b),
        0 <= pos,
        pos + encoded(b).len() <= s.len(),
        s.subrange(pos, pos + encoded(b).len()) == encoded(b),
    ensures
        spec_decode_at(s, pos) == Ok::<(Bval, int), TorrentError>((b, pos + encoded(b).len())),
    decreases b,
{
    let l = encoded(b).len() as int;
    match b {
        Bval::Bytes(bs) => {
            lemma_decode_string(s, pos, bs);
        },
        Bval::Int(i) => {
            let neg = i < 0;
            let mag: nat = if neg {
                (-i) as nat
            } else {
                i as nat
            };
            let ds = digits_of(mag);
            let dlen = ds.len() as int;
            lemma_digits_of(mag);
            assert(encoded(b) == (seq![105u8] + int_digits(i)) + seq![101u8]);
            lemma_split_at(s, pos, seq![105u8] + int_digits(i), seq![101u8]);
            lemma_split_at(s, pos, seq![105u8], int_digits(i));
            lemma_byte_at(s, pos, seq![105u8], 0);
            assert(s[pos] == 105);
            assert(!is_digit(105u8));
            let dstart = if neg {
                pos + 2
            } else {
                pos + 1
            };
            if neg {
                assert(int_digits(i) == seq![45u8] + ds);
                lemma_split_at(s, pos + 1, seq![45u8], ds);
                lemma_byte_at(s, pos + 1, seq![45u8], 0);
                assert(s[pos + 1] == 45);
            } else {
                assert(int_digits(i) == ds);
                lemma_byte_at(s, pos + 1, ds, 0);
                assert(s[pos + 1] == ds[0]);
                assert(is_digit(s[pos + 1]));
                assert(s[pos + 1] != 45);
            }
            assert(s.subrange(dstart, dstart + dlen) == ds);
            assert forall|j: int| dstart <= j < dstart + dlen implies is_digit(s[j]) by {
                lemma_byte_at(s, dstart, ds, j - dstart);
            }
            let end = dstart + dlen;
            assert(end + 1 == pos + l);
            lemma_byte_at(s, end, seq![101u8], 0);
            assert(s[end] == 101);
            assert(!is_digit(101u8));
            lemma_digit_run_end_exact(s, dstart, end);
            lemma_byte_at(s, dstart, ds, 0);
            assert(s[dstart] == ds[0]);
            if neg {
                assert(mag >= 1);
                assert(s[dstart] != 48);
            } else if dlen > 1 {
                assert(mag >= 10);
                assert(s[dstart] != 48);
            }
            assert(digits_value(s.subrange(dstart, end)) == mag);
            assert(spec_decode_at(s, pos) == Ok::<(Bval, int), TorrentError>((b, pos + l)));
        },
        Bval::List(items) => {
            assert(decreases_to!(b => b->List_0));
            assert(b->List_0 == items);
            let ei = encoded_items(items);
            assert(encoded(b) == (seq![108u8] + ei) + seq![101u8]);
            lemma_split_at(s, pos, seq![108u8] + ei, seq![101u8]);
            lemma_split_at(s, pos, seq![108u8], ei);
            lemma_byte_at(s, pos, seq![108u8], 0);
            assert(s[pos] == 108);
            assert(!is_digit(108u8));
            lemma_byte_at(s, pos + 1 + ei.len(), seq![101u8], 0);
            assert(s[pos + 1 + ei.len()] == 101);
            lemma_decode_encoded_items(s, pos + 1, items);
            assert(spec_decode_at(s, pos) == Ok::<(Bval, int), TorrentError>((b, pos + l)));
        },
        Bval::Dict(pairs) => {
            assert(decreases_to!(b => b->Dict_0));
            assert(b->Dict_0 == pairs);
            let ep = encoded_pairs(pairs);
            assert(encoded(b) == (seq![100u8] + ep) + seq![101u8]);
            lemma_split_at(s, pos, seq![100u8] + ep, seq![101u8]);
            lemma_split_at(s, pos, seq![100u8], ep);
            lemma_byte_at(s, pos, seq![100u8], 0);
            assert(s[pos] == 100);
            assert(!is_digit(100u8));
            lemma_byte_at(s, pos + 1 + ep.len(), seq![101u8], 0);
            assert(s[pos + 1 + ep.len()] == 101);
            lemma_decode_encoded_pairs(s, pos + 1, pairs);
            assert(spec_decode_at(s, pos) == Ok::<(Bval, int), TorrentError>((b, pos + l)));
        },
    }
}

pub proof fn lemma_decode_encoded_items(s: Seq<u8>, pos: int, items: Seq<Bval>)
    requires
        bvals_valid(items),
        0 <= pos,
        pos + encoded_items(items).len() + 1 <= s.len(),
        s.subrange(pos, pos + encoded_items(items).len()) == encoded_items(items),
        s[pos + encoded_items(items).len()] == 101,
    ensures
        spec_decode_items(s, pos) == Ok::<(Seq<Bval>, int), TorrentError>(
            (items, pos + encoded_items(items).len() + 1),
        ),
    decreases items,
{
    if items.len() == 0 {
        assert(s[pos] == 101);
        assert(items =~= Seq::<Bval>::empty());
    } else {
        let x = items[0];
        let e0 = encoded(x);
        let rest = items.drop_first();
        let erest = encoded_items(rest);
        let ilen = encoded_items(items).len() as int;
        assert(encoded_items(items) == e0 + erest);
        lemma_split_at(s, pos, e0, erest);
        lemma_encoded_first(x);
        lemma_byte_at(s, pos, e0, 0);
        assert(s[pos] == e0[0]);
        assert(s[pos] != 101);
        assert(bval_valid(x));
        lemma_decode_encoded(s, pos, x);
        let pos1 = pos + e0.len() as int;
        assert(pos1 + erest.len() == pos + ilen);
        assert(bvals_valid(rest));
        lemma_decode_encoded_items(s, pos1, rest);
        assert(seq![x] + rest =~= items);
        assert(spec_decode_items(s, pos) == Ok::<(Seq<Bval>, int), TorrentError>(
            (items, pos + ilen + 1),
        ));
    }
}

pub proof fn lemma_decode_encoded_pairs(s: Seq<u8>, pos: int, pairs: Seq<(Seq<u8>, Bval)>)
    requires
        bpairs_valid(pairs),
        0 <= pos,
        pos + encoded_pairs(pairs).len() + 1 <= s.len(),
        s.subrange(pos, pos + encoded_pairs(pairs).len()) == encoded_pairs(pairs),
        s[pos + encoded_pairs(pairs).len()] == 101,
    ensures
        spec_decode_pairs(s, pos) == Ok::<(Seq<(Seq<u8>, Bval)>, int), TorrentError>(
            (pairs, pos + encoded_pairs(pairs).len() + 1),
        ),
    decreases pairs,
{
    if pairs.len() == 0 {
        assert(s[pos] == 101);
        assert(pairs =~= Seq::<(Seq<u8>, Bval)>::empty());
    } else {
        let k = pairs[0].0;
        let x = pairs[0].1;
        let ek = string_encoding(k);
        let e0 = encoded(x);
        let rest = pairs.drop_first();
        let erest = encoded_pairs(rest);
        let plen = encoded_pairs(pairs).len() as int;
        assert(encoded_pairs(pairs) == (ek + e0) + erest);
        lemma_split_at(s, pos, ek + e0, erest);
        lemma_split_at(s, pos, ek, e0);
        lemma_digits_of(k.len());
        lemma_byte_at(s, pos, ek, 0);
        assert(ek[0] == digits_of(k.len())[0]);
        assert(is_digit(s[pos]));
        assert(s[pos] != 101);
        lemma_decode_string(s, pos, k);
        let pos1 = pos + ek.len() as int;
        assert(decreases_to!(pairs => pairs[0]));
        assert(decreases_to!(pairs[0] => pairs[0].1));
        assert(bval_valid(x));
        lemma_decode_encoded(s, pos1, x);
        let pos2 = pos1 + e0.len() as int;
        assert(pos2 + erest.len() == pos + plen);
        assert(bpairs_valid(rest));
        lemma_decode_encoded_pairs(s, pos2, rest);
        assert(seq![(k, x)] + rest =~= pairs);
        assert(spec_decode_pairs(s, pos) == Ok::<(Seq<(Seq<u8>, Bval)>, int), TorrentError>(
            (pairs, pos + plen + 1),
        ));
    }
}

/// Soundness of the decoder: whatever it accepts is exactly the
/// canonical encoding of the value it returns.  Together with
/// [`lemma_decode_encoded`] this says the decoder accepts precisely
/// the canonical encodings.
pub proof fn lemma_decode_sound(s: Seq<u8>, pos: int, b: Bval, end: int)
    requires
        spec_decode_at(s, pos) == Ok::<(Bval, int), TorrentError>((b, end)),
    ensures
        0 <= pos < end <= s.len(),
        bval_valid(b),
        s.subrange(pos, end) == encoded(b),
    decreases s.len() - pos, 0int,
{
    assert(0 <= pos < s.len());
    if is_digit(s[pos]) {
        let rend = digit_run_end(s, pos);
        lemma_digit_run_end(s, pos);
        assert(rend > pos);
        assert(rend < s.len() && s[rend] == 58);
        let ds = s.subrange(pos, rend);
        let n = digits_value(ds) as int;
        assert(b == Bval::Bytes(s.subrange(rend + 1, rend + 1 + n)));
        assert(end == rend + 1 + n);
        assert(forall|j: int| 0 <= j < ds.len() ==> is_digit(#[trigger] ds[j]));
        assert(ds[0] == s[pos]);
        assert(ds.len() == 1 || ds[0] != 48);
        lemma_digits_of_value(ds);
        let bs = s.subrange(rend + 1, end);
        assert(bs.len() == n);
        assert(encoded(b) == digits_of(bs.len()) + seq![58u8] + bs);
        assert(s.subrange(pos, end) =~= ds + seq![58u8] + bs) by {
            assert forall|j: int| 0 <= j < end - pos implies s.subrange(pos, end)[j] == (ds
                + seq![58u8] + bs)[j] by {
                assert(s.subrange(pos, end)[j] == s[pos + j]);
                if j < rend - pos {
                    assert(ds[j] == s[pos + j]);
                } else if j == rend - pos {
                } else {
                    assert(bs[j - (rend - pos) - 1] == s[pos + j]);
                }
            }
        }
    } else if s[pos] == 105 {
        let dstart = if pos + 1 < s.len() && s[pos + 1] == 45 {
            pos + 2
        } else {
            pos + 1
        };
        let neg = dstart == pos + 2;
        lemma_digit_run_end(s, dstart);
        let rend = digit_run_end(s, dstart);
        assert(rend != dstart);
        assert(rend < s.len() && s[rend] == 101);
        let ds = s.subrange(dstart, rend);
        assert(forall|j: int| 0 <= j < ds.len() ==> is_digit(#[trigger] ds[j]));
        assert(ds[0] == s[dstart]);
        assert(ds.len() == 1 || ds[0] != 48);
        let mag = digits_value(ds) as int;
        let val = if neg {
            -mag
        } else {
            mag
        };
        assert(b == Bval::Int(val));
        assert(end == rend + 1);
        lemma_digits_of_value(ds);
        if neg {
            assert(s[dstart] != 48);
            lemma_digits_value_pos(ds);
            assert(mag >= 1);
            assert(val < 0);
            assert((-val) as nat == mag);
            assert(int_digits(val) == seq![45u8] + digits_of(mag as nat));
            assert(s.subrange(pos, end) =~= seq![105u8] + int_digits(val) + seq![101u8]) by {
                assert forall|j: int| 0 <= j < end - pos implies s.subrange(pos, end)[j] == (
                seq![105u8] + int_digits(val) + seq![101u8])[j] by {
                    assert(s.subrange(pos, end)[j] == s[pos + j]);
                    if 2 <= j < rend - pos {
                        assert(ds[j - 2] == s[pos + j]);
                    }
                }
            }
        } else {
            assert(val >= 0);
            assert(int_digits(val) == digits_of(mag as nat));
            assert(s.subrange(pos, end) =~= seq![105u8] + int_digits(val) + seq![101u8]) by {
                assert forall|j: int| 0 <= j < end - pos implies s.subrange(pos, end)[j] == (
                seq![105u8] + int_digits(val) + seq![101u8])[j] by {
                    assert(s.subrange(pos, end)[j] == s[pos + j]);
                    if 1 <= j < rend - pos {
                        assert(ds[j - 1] == s[pos + j]);
                    }
                }
            }
        }
    } else if s[pos] == 108 {
        match spec_decode_items(s, pos + 1) {
            Ok(r) => {
                assert(b == Bval::List(r.0));
                assert(end == r.1);
                lemma_decode_sound_items(s, pos + 1, r.0, r.1);
                assert(s.subrange(pos, end) =~= seq![108u8] + encoded_items(r.0) + seq![101u8])
                    by {
                    assert forall|j: int| 0 <= j < end - pos implies s.subrange(pos, end)[j] == (
                    seq![108u8] + encoded_items(r.0) + seq![101u8])[j] by {
                        assert(s.subrange(pos, end)[j] == s[pos + j]);
                        if 1 <= j < end - pos - 1 {
                            assert(s.subrange(pos + 1, end - 1)[j - 1] == s[pos + j]);
                        }
                    }
                }
            },
            Err(e) => {
                assert(false);
            },
        }
    } else if s[pos] == 100 {
        match spec_decode_pairs(s, pos + 1) {
            Ok(r) => {
                assert(b == Bval::Dict(r.0));
                assert(end == r.1);
                lemma_decode_sound_pairs(s, pos + 1, r.0, r.1);
                assert(s.subrange(pos, end) =~= seq![100u8] + encoded_pairs(r.0) + seq![101u8])
                    by {
                    assert forall|j: int| 0 <= j < end - pos implies s.subrange(pos, end)[j] == (
                    seq![100u8] + encoded_pairs(r.0) + seq![101u8])[j] by {
                        assert(s.subrange(pos, end)[j] == s[pos + j]);
                        if 1 <= j < end - pos - 1 {
                            assert(s.subrange(pos + 1, end - 1)[j - 1] == s[pos + j]);
                        }
                    }
                }
            },
            Err(e) => {
                assert(false);
            },
        }
    } else {
        assert(false);
    }
}

pub proof fn lemma_decode_sound_items(s: Seq<u8>, pos: int, items: Seq<Bval>, end: int)
    requires
        spec_decode_items(s, pos) == Ok::<(Seq<Bval>, int), TorrentError>((items, end)),
    ensures
        0 <= pos < end <= s.len(),
        bvals_valid(items),
        s.subrange(pos, end - 1) == encoded_items(items),
        s[end - 1] == 101,
    decreases s.len() - pos, 1int,
{
    assert(0 <= pos < s.len());
    if s[pos] == 101 {
        assert(items =~= Seq::<Bval>::empty());
        assert(end == pos + 1);
        assert(s.subrange(pos, pos) =~= encoded_items(items));
    } else {
        match spec_decode_at(s, pos) {
            Ok(r) => {
                let v = r.0;
                let p2 = r.1;
                assert(pos < p2 <= s.len());
                match spec_decode_items(s, p2) {
                    Ok(rest) => {
                        assert(items == seq![v] + rest.0);
                        assert(end == rest.1);
                        lemma_decode_sound(s, pos, v, p2);
                        lemma_decode_sound_items(s, p2, rest.0, rest.1);
                        assert(items[0] == v);
                        assert(items.drop_first() =~= rest.0);
                        assert(bvals_valid(items));
                        assert(encoded_items(items) == encoded(v) + encoded_items(rest.0));
                        assert(encoded(v).len() == p2 - pos);
                        assert(s.subrange(pos, end - 1) =~= encoded(v) + encoded_items(rest.0))
                            by {
                            assert forall|j: int|
                                0 <= j < end - 1 - pos implies s.subrange(pos, end - 1)[j] == (
                            encoded(v) + encoded_items(rest.0))[j] by {
                                assert(s.subrange(pos, end - 1)[j] == s[pos + j]);
                                if j < p2 - pos {
                                    assert(s.subrange(pos, p2)[j] == s[pos + j]);
                                } else {
                                    assert(s.subrange(p2, end - 1)[j - (p2 - pos)] == s[pos + j]);
                                }
                            }
                        }
                    },
                    Err(e) => {
                        assert(false);
                    },
                }
            },
            Err(e) => {
                assert(false);
            },
        }
    }
}

pub proof fn lemma_decode_sound_pairs(s: Seq<u8>, pos: int, pairs: Seq<(Seq<u8>, Bval)>, end: int)
    requires
        spec_decode_pairs(s, pos) == Ok::<(Seq<(Seq<u8>, Bval)>, int), TorrentError>((pairs, end)),
    ensures
        0 <= pos < end <= s.len(),
        bpairs_valid(pairs),
        s.subrange(pos, end - 1) == encoded_pairs(pairs),
        s[end - 1] == 101,
    decreases s.len() - pos, 1int,
{
    assert(0 <= pos < s.len());
    if s[pos] == 101 {
        assert(pairs =~= Seq::<(Seq<u8>, Bval)>::empty());
        assert(end == pos + 1);
        assert(s.subrange(pos, pos) =~= encoded_pairs(pairs));
    } else {
        match spec_decode_at(s, pos) {
            Ok(kr) => {
                match kr.0 {
                    Bval::Bytes(key) => {
                        let p2 = kr.1;
                        assert(pos < p2 <= s.len());
                        match spec_decode_at(s, p2) {
                            Ok(vr) => {
                                let x = vr.0;
                                let p3 = vr.1;
                                assert(p2 < p3 <= s.len());
                                match spec_decode_pairs(s, p3) {
                                    Ok(rest) => {
                                        assert(pairs == seq![(key, x)] + rest.0);
                                        assert(end == rest.1);
                                        lemma_decode_sound(s, pos, Bval::Bytes(key), p2);
                                        lemma_decode_sound(s, p2, x, p3);
                                        lemma_decode_sound_pairs(s, p3, rest.0, rest.1);
                                        assert(pairs[0] == (key, x));
                                        assert(pairs.drop_first() =~= rest.0);
                                        assert(bpairs_valid(pairs));
                                        assert(encoded(Bval::Bytes(key)) == string_encoding(key));
                                        assert(encoded_pairs(pairs) == string_encoding(key)
                                            + encoded(x) + encoded_pairs(rest.0));
                                        assert(string_encoding(key).len() == p2 - pos);
                                        assert(encoded(x).len() == p3 - p2);
                                        assert(s.subrange(pos, end - 1) =~= string_encoding(key)
                                            + encoded(x) + encoded_pairs(rest.0)) by {
                                            assert forall|j: int|
                                                0 <= j < end - 1 - pos implies s.subrange(
                                                pos,
                                                end - 1,
                                            )[j] == (string_encoding(key) + encoded(x)
                                                + encoded_pairs(rest.0))[j] by {
                                                assert(s.subrange(pos, end - 1)[j] == s[pos + j]);
                                                if j < p2 - pos {
                                                    assert(s.subrange(pos, p2)[j] == s[pos + j]);
                                                } else if j < p3 - pos {
                                                    assert(s.subrange(p2, p3)[j - (p2 - pos)] == s[
                                                        pos + j]);
                                                } else {
                                                    assert(s.subrange(p3, end - 1)[j - (p3 - pos)]
                                                        == s[pos + j]);
                                                }
                                            }
                                        }
                                    },
                                    Err(e) => {
                                        assert(false);
                                    },
                                }
                            },
                            Err(e) => {
                                assert(false);
                            },
                        }
                    },
                    _ => {
                        assert(false);
                    },
                }
            },
            Err(e) => {
                assert(false);
            },
        }
    }
}

/// Round trip: for every valid value tree, decoding its encoding
/// yields the tree back with no byte left over.  Together with the
/// contracts of [`encode_bencoded_value`] and [`decode_bencoded_value`]
/// this says that `decode(encode(v))` returns `v` and an empty
/// remainder.
pub proof fn lemma_round_trip(b: Bval)
    requires
        bval_valid(b),
    ensures
        spec_decode_at(encoded(b), 0) == Ok::<(Bval, int), TorrentError>(
            (b, encoded(b).len() as int),
        ),
{
    assert(encoded(b).subrange(0, encoded(b).len() as int) =~= encoded(b));
    lemma_decode_encoded(encoded(b), 0, b);
}

/// The view of every exec value tree is a valid tree: its integers
/// fit a signed 64-bit word.
pub proof fn lemma_bval_of_valid(v: BencodeValue)
    ensures
        bval_valid(bval_of(v)),
    decreases v,
{
    match v {
        BencodeValue::ByteString(b) => {},
        BencodeValue::Integer(i) => {},
        BencodeValue::List(es) => {
            assert(decreases_to!(v => v->List_0));
            assert(v->List_0 == es);
            assert(decreases_to!(es => es@));
            lemma_bvals_of_valid(es@);
        },
        BencodeValue::Dictionary(ps) => {
            assert(decreases_to!(v => v->Dictionary_0));
            assert(v->Dictionary_0 == ps);
            assert(decreases_to!(ps => ps@));
            lemma_bpairs_of_valid(ps@);
        },
    }
}

pub proof fn lemma_bvals_of_valid(es: Seq<BencodeValue>)
    ensures
        bvals_valid(bvals_of(es)),
    decreases es,
{
    if es.len() > 0 {
        assert(decreases_to!(es => es[0]));
        lemma_bval_of_valid(es[0]);
        lemma_bvals_of_valid(es.drop_first());
        assert((seq![bval_of(es[0])] + bvals_of(es.drop_first())).drop_first() =~= bvals_of(
            es.drop_first(),
        ));
    }
}

pub proof fn lemma_bpairs_of_valid(ps: Seq<(Vec<u8>, BencodeValue)>)
    ensures
        bpairs_valid(bpairs_of(ps)),
    decreases ps,
{
    if ps.len() > 0 {
        assert(decreases_to!(ps => ps[0]));
        assert(decreases_to!(ps[0] => ps[0].1));
        lemma_bval_of_valid(ps[0].1);
        lemma_bpairs_of_valid(ps.drop_first());
        assert((seq![(ps[0].0@, bval_of(ps[0].1))] + bpairs_of(ps.drop_first())).drop_first()
            =~= bpairs_of(ps.drop_first()));
    }
}

/// Encodes a value tree: `<len>:<bytes>` for byte strings,
/// `i<decimal>e` for integers, `l…e` for lists and `d…e` for
/// dictionaries, with dictionary entries in their stored order.
pub fn encode_bencoded_value(v: &BencodeValue) -> (r: Vec<u8>)
    ensures
        r@ == encoded(v@),
{
    let mut out: Vec<u8> = Vec::new();
    encode_into(v, &mut out);
    out
}

} // verus!
