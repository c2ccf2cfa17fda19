//! Value log codec: an append-only sequence of length-prefixed byte records.
//!
//! A cell is the concatenation of `(4-byte little-endian length, payload)`
//! pairs with no overall length prefix. Decoding repeatedly reads a length and
//! then that many payload bytes, and stops as soon as fewer than four bytes
//! remain, or fewer payload bytes remain than the declared length: a truncated
//! trailing record is treated as end of sequence, never as an error, so every
//! earlier complete record stays valid. The codec is encoding-agnostic; the
//! records are opaque bytes.
use vstd::prelude::*;
use vstd::bytes::{
    spec_u32_to_le_bytes, spec_u32_from_le_bytes, u32_to_le_bytes, u32_from_le_bytes,
    lemma_auto_spec_u32_to_from_le_bytes,
};
use vstd::slice::{slice_subrange, slice_to_vec};

verus! {

/// Upper bound (exclusive) on one record's length: it must fit the 4-byte
/// little-endian length prefix.
pub const RECORD_LEN_LIMIT: u64 = 0x1_0000_0000;

/// Whether every record of `vs` fits its 4-byte length prefix.
pub open spec fn all_records_fit(vs: Seq<Seq<u8>>) -> bool {
    forall|i: int| 0 <= i < vs.len() ==> (#[trigger] vs[i]).len() < RECORD_LEN_LIMIT
}

/// Encoding of one record: its length, then its payload.
pub open spec fn spec_encode_record(v: Seq<u8>) -> Seq<u8> {
    spec_u32_to_le_bytes(v.len() as u32) + v
}

/// Encoding of a sequence of records, in order.
pub open spec fn spec_encode_values(vs: Seq<Seq<u8>>) -> Seq<u8>
    decreases vs.len(),
{
    if vs.len() == 0 {
        Seq::empty()
    } else {
        spec_encode_record(vs[0]) + spec_encode_values(vs.drop_first())
    }
}

/// The records a cell holds: read a length, then that many payload bytes,
/// until fewer than four bytes remain or the declared payload is cut short.
pub open spec fn spec_decode_values(b: Seq<u8>) -> Seq<Seq<u8>>
    decreases b.len(),
{
    if b.len() < 4 {
        Seq::empty()
    } else {
        let l = spec_u32_from_le_bytes(b.subrange(0, 4)) as int;
        if b.len() - 4 < l {
            Seq::empty()
        } else {
            seq![b.subrange(4, 4 + l)] + spec_decode_values(b.subrange(4 + l, b.len() as int))
        }
    }
}

/// A cell is well formed when it is exactly the encoding of some record
/// sequence whose records fit their length prefixes.
pub open spec fn cell_wf(b: Seq<u8>) -> bool {
    exists|vs: Seq<Seq<u8>>| all_records_fit(vs) && b == spec_encode_values(vs)
}

/// The empty cell holds no records; decoding it is not an error.
pub proof fn lemma_empty_cell_decodes_empty()
    ensures
        spec_decode_values(Seq::<u8>::empty()) == Seq::<Seq<u8>>::empty(),
        cell_wf(Seq::<u8>::empty()),
{
    let vs = Seq::<Seq<u8>>::empty();
    assert(spec_encode_values(vs) == Seq::<u8>::empty());
    assert(all_records_fit(vs));
}

/// Decoding an encoded record sequence gives the records back, in order.
pub proof fn lemma_values_round_trip(vs: Seq<Seq<u8>>)
    requires
        all_records_fit(vs),
    ensures
        spec_decode_values(spec_encode_values(vs)) == vs,
    decreases vs.len(),
{
    lemma_auto_spec_u32_to_from_le_bytes();
    if vs.len() == 0 {
        assert(spec_decode_values(spec_encode_values(vs)) =~= vs);
    } else {
        let v0 = vs[0];
        let rest = vs.drop_first();
        let b = spec_encode_values(vs);
        let head = spec_encode_record(v0);
        assert(head.len() == 4 + v0.len());
        assert(b == head + spec_encode_values(rest));
        assert(b.subrange(0, 4) =~= spec_u32_to_le_bytes(v0.len() as u32));
        let l = spec_u32_from_le_bytes(b.subrange(0, 4)) as int;
        assert(v0.len() < RECORD_LEN_LIMIT);
        assert(l == v0.len());
        assert(b.len() - 4 >= l);
        assert(b.subrange(4, 4 + l) =~= v0);
        assert(b.subrange(4 + l, b.len() as int) =~= spec_encode_values(rest));
        assert(all_records_fit(rest)) by {
            assert(forall|i: int|
                0 <= i < rest.len() ==> rest[i] == vs[i + 1] && (#[trigger] rest[i]).len()
                    < RECORD_LEN_LIMIT);
        }
        lemma_values_round_trip(rest);
        assert(spec_decode_values(b) =~= vs);
    }
}

/// Appending one record to a sequence appends its encoding to the cell.
pub proof fn lemma_encode_values_snoc(vs: Seq<Seq<u8>>, v: Seq<u8>)
    ensures
        spec_encode_values(vs.push(v)) == spec_encode_values(vs) + spec_encode_record(v),
    decreases vs.len(),
{
    lemma_auto_spec_u32_to_from_le_bytes();
    if vs.len() == 0 {
        let p = vs.push(v);
        assert(p.len() == 1);
        assert(p[0] == v);
        assert(p.drop_first() =~= Seq::<Seq<u8>>::empty());
        assert(spec_encode_values(p.drop_first()) == Seq::<u8>::empty());
        assert(spec_encode_values(p) == spec_encode_record(p[0]) + spec_encode_values(
            p.drop_first(),
        ));
        assert(spec_encode_values(p) =~= spec_encode_record(v));
        assert(spec_encode_values(vs) == Seq::<u8>::empty());
        assert(spec_encode_values(vs) + spec_encode_record(v) =~= spec_encode_record(v));
    } else {
        let t = vs.drop_first();
        lemma_encode_values_snoc(t, v);
        assert(vs.push(v)[0] == vs[0]);
        assert(vs.push(v).drop_first() =~= t.push(v));
        assert(spec_encode_values(vs.push(v)) =~= spec_encode_values(vs) + spec_encode_record(v));
    }
}

/// Appends one record to a cell's bytes.
pub fn append_record(cell: &mut Vec<u8>, v: &Vec<u8>)
    requires
        v@.len() < RECORD_LEN_LIMIT,
    ensures
        final(cell)@ == old(cell)@ + spec_encode_record(v@),
{
    let mut len_bytes = u32_to_le_bytes(v.len() as u32);
    cell.append(&mut len_bytes);
    cell.extend_from_slice(v.as_slice());
    proof {
        lemma_auto_spec_u32_to_from_le_bytes();
        assert(cell@ =~= old(cell)@ + spec_encode_record(v@));
    }
}

/// Decodes a cell into its complete records, in order; a truncated trailing
/// record is treated as end of sequence.
pub fn decode_values(b: &Vec<u8>) -> (r: Vec<Vec<u8>>)
    ensures
        r.deep_view() == spec_decode_values(b@),
{
    let mut r: Vec<Vec<u8>> = Vec::new();
    let mut pos: usize = 0;
    proof {
        assert(b@.subrange(0, b@.len() as int) =~= b@);
        assert(r.deep_view() + spec_decode_values(b@) =~= spec_decode_values(b@));
    }
    while b.len() - pos >= 4
        invariant
            pos <= b@.len(),
            r.deep_view() + spec_decode_values(b@.subrange(pos as int, b@.len() as int))
                == spec_decode_values(b@),
        decreases b@.len() - pos,
    {
        let ghost tail = b@.subrange(pos as int, b@.len() as int);
        let len_u32 = u32_from_le_bytes(slice_subrange(b.as_slice(), pos, pos + 4));
        proof {
            assert(b@.subrange(pos as int, pos as int + 4) =~= tail.subrange(0, 4));
        }
        let len = len_u32 as usize;
        if b.len() - pos - 4 < len {
            proof {
                assert(spec_decode_values(tail) =~= Seq::<Seq<u8>>::empty());
                assert(r.deep_view() + spec_decode_values(tail) =~= r.deep_view());
            }
            return r;
        }
        let payload = slice_to_vec(slice_subrange(b.as_slice(), pos + 4, pos + 4 + len));
        let ghost prev = r.deep_view();
        r.push(payload);
        proof {
            let l = spec_u32_from_le_bytes(tail.subrange(0, 4)) as int;
            assert(l == len);
            assert(payload@ =~= tail.subrange(4, 4 + l));
            let next_tail = b@.subrange(pos as int + 4 + l, b@.len() as int);
            assert(tail.subrange(4 + l, tail.len() as int) =~= next_tail);
            assert(spec_decode_values(tail) == seq![tail.subrange(4, 4 + l)]
                + spec_decode_values(next_tail));
            assert(r.deep_view() =~~= prev.push(payload@));
            assert(r.deep_view() + spec_decode_values(next_tail) =~= prev + spec_decode_values(
                tail,
            ));
        }
        pos = pos + 4 + len;
    }
    proof {
        let tail = b@.subrange(pos as int, b@.len() as int);
        assert(spec_decode_values(tail) =~= Seq::<Seq<u8>>::empty());
        assert(r.deep_view() + spec_decode_values(tail) =~= r.deep_view());
    }
    r
}

} // verus!
