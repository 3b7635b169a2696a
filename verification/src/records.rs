//! Length-indexed packing of several byte regions into one payload:
//! a count, then a pair of 4-byte offsets per region, then the raw
//! bytes. The offsets are absolute positions in the packed buffer, so
//! the receiver can cut the regions back out without re-scanning them
//! for delimiters. Counters and offsets are fixed 4-byte little-endian
//! words, as everywhere on this wire.
use vstd::prelude::*;
use vstd::bytes::{spec_u32_to_le_bytes, spec_u32_from_le_bytes, lemma_auto_spec_u32_to_from_le_bytes,
    u32_to_le_bytes, u32_from_le_bytes};
use vstd::slice::slice_subrange;
use crate::delim::views;
use crate::chunk::spec_concat;
use crate::errors::ProtoError;

verus! {

/// Total length of a sequence of byte regions.
pub open spec fn sum_lens(parts: Seq<Seq<u8>>) -> int
    decreases parts.len(),
{
    if parts.len() == 0 {
        0
    } else {
        parts[0].len() + sum_lens(parts.drop_first())
    }
}

/// The index pairs for regions laid out from `cursor` on: for each
/// region its start offset and its end offset, as 4-byte words.
pub open spec fn spec_index_pairs(parts: Seq<Seq<u8>>, cursor: int) -> Seq<u8>
    decreases parts.len(),
{
    if parts.len() == 0 {
        Seq::empty()
    } else {
        spec_u32_to_le_bytes(cursor as u32)
            + spec_u32_to_le_bytes((cursor + parts[0].len()) as u32)
            + spec_index_pairs(parts.drop_first(), cursor + parts[0].len())
    }
}

/// The index header: the number of 4-byte index words (two per
/// region), then the pairs themselves.
pub open spec fn spec_index_header(parts: Seq<Seq<u8>>, cursor: int) -> Seq<u8> {
    spec_u32_to_le_bytes((2 * parts.len()) as u32) + spec_index_pairs(parts, cursor)
}

/// The counts and offsets of regions laid out from `cursor` on all
/// fit their fixed 4-byte wire fields.
pub open spec fn index_encodable(parts: Seq<Seq<u8>>, cursor: int) -> bool {
    &&& 0 <= cursor
    &&& 2 * parts.len() <= u32::MAX
    &&& cursor + sum_lens(parts) <= u32::MAX
}

/// A whole packed buffer: index header, then the regions back to back.
pub open spec fn spec_pack(parts: Seq<Seq<u8>>) -> Seq<u8> {
    spec_index_header(parts, 4 + 8 * parts.len() as int) + spec_concat(parts)
}

/// Start offset recorded for region `i` of a packed buffer.
pub open spec fn idx_start(data: Seq<u8>, i: int) -> int {
    spec_u32_from_le_bytes(data.subrange(4 + 8 * i, 4 + 8 * i + 4)) as int
}

/// End offset recorded for region `i` of a packed buffer.
pub open spec fn idx_end(data: Seq<u8>, i: int) -> int {
    spec_u32_from_le_bytes(data.subrange(4 + 8 * i + 4, 4 + 8 * i + 8)) as int
}

/// Every recorded pair cuts a region that lies inside the buffer.
pub open spec fn pairs_ok(data: Seq<u8>, k: int) -> bool {
    forall|i: int| 0 <= i < k ==> 0 <= #[trigger] idx_start(data, i) <= idx_end(data, i)
        <= data.len()
}

/// What unpacking a buffer yields: the regions its index cuts out, or
/// the inconsistency that was found.
pub open spec fn spec_deindex(data: Seq<u8>) -> Result<Seq<Seq<u8>>, ProtoError> {
    if data.len() < 4 {
        Err(ProtoError::MalformedHeader)
    } else {
        let n = spec_u32_from_le_bytes(data.subrange(0, 4)) as int;
        if n % 2 != 0 {
            Err(ProtoError::BadRecord)
        } else {
            let k = n / 2;
            if data.len() < 4 + 8 * k {
                Err(ProtoError::BadRecord)
            } else if !pairs_ok(data, k) {
                Err(ProtoError::BadRecord)
            } else {
                Ok(Seq::new(k as nat, |i: int| data.subrange(idx_start(data, i), idx_end(data, i))))
            }
        }
    }
}

/// The regions of a sequence are never negative in total length.
pub proof fn lemma_sum_lens_nonneg(parts: Seq<Seq<u8>>)
    ensures
        sum_lens(parts) >= 0,
    decreases parts.len(),
{
    if parts.len() > 0 {
        lemma_sum_lens_nonneg(parts.drop_first());
    }
}

/// Dropping the first region drops its length from the total.
pub proof fn lemma_sum_lens_take(parts: Seq<Seq<u8>>, i: int)
    requires
        0 <= i < parts.len(),
    ensures
        sum_lens(parts.take(i + 1)) == sum_lens(parts.take(i)) + parts[i].len(),
        sum_lens(parts.take(i)) <= sum_lens(parts),
    decreases parts.len(),
{
    if i == 0 {
        assert(parts.take(0) =~= Seq::<Seq<u8>>::empty());
        assert(parts.take(1).drop_first() =~= Seq::<Seq<u8>>::empty());
        assert(parts.take(1)[0] == parts[0]);
        assert(sum_lens(Seq::<Seq<u8>>::empty()) == 0);
        assert(sum_lens(parts.take(1)) == parts[0].len());
        lemma_sum_lens_nonneg(parts.drop_first());
        assert(parts.take(0).len() == 0);
    } else {
        lemma_sum_lens_take(parts.drop_first(), i - 1);
        assert(parts.take(i + 1).drop_first() =~= parts.drop_first().take(i));
        assert(parts.take(i).drop_first() =~= parts.drop_first().take(i - 1));
        assert(parts.take(i + 1)[0] == parts[0]);
        assert(parts.take(i)[0] == parts[0]);
        assert(parts.drop_first()[i - 1] == parts[i]);
    }
}

/// Number of bytes the index pairs occupy.
pub proof fn lemma_index_pairs_len(parts: Seq<Seq<u8>>, cursor: int)
    ensures
        spec_index_pairs(parts, cursor).len() == 8 * parts.len(),
    decreases parts.len(),
{
    lemma_auto_spec_u32_to_from_le_bytes();
    if parts.len() > 0 {
        assert(spec_u32_to_le_bytes(cursor as u32).len() == 4);
        assert(spec_u32_to_le_bytes((cursor + parts[0].len()) as u32).len() == 4);
        lemma_index_pairs_len(parts.drop_first(), cursor + parts[0].len());
    }
}

/// The pair recorded for region `i` holds its start and end offsets.
pub proof fn lemma_index_pairs_at(parts: Seq<Seq<u8>>, cursor: int, i: int)
    requires
        0 <= i < parts.len(),
    ensures
        spec_index_pairs(parts, cursor).subrange(8 * i, 8 * i + 4)
            == spec_u32_to_le_bytes((cursor + sum_lens(parts.take(i))) as u32),
        spec_index_pairs(parts, cursor).subrange(8 * i + 4, 8 * i + 8)
            == spec_u32_to_le_bytes((cursor + sum_lens(parts.take(i)) + parts[i].len()) as u32),
    decreases parts.len(),
{
    lemma_auto_spec_u32_to_from_le_bytes();
    lemma_index_pairs_len(parts, cursor);
    let s = spec_index_pairs(parts, cursor);
    let a = spec_u32_to_le_bytes(cursor as u32);
    let b = spec_u32_to_le_bytes((cursor + parts[0].len()) as u32);
    let rest = spec_index_pairs(parts.drop_first(), cursor + parts[0].len());
    assert(a.len() == 4 && b.len() == 4);
    if i == 0 {
        assert(parts.take(0) =~= Seq::<Seq<u8>>::empty());
        assert(s.subrange(0, 4) =~= a);
        assert(s.subrange(4, 8) =~= b);
    } else {
        lemma_index_pairs_at(parts.drop_first(), cursor + parts[0].len(), i - 1);
        lemma_index_pairs_len(parts.drop_first(), cursor + parts[0].len());
        assert(s.subrange(8 * i, 8 * i + 4) =~= rest.subrange(8 * (i - 1), 8 * (i - 1) + 4));
        assert(s.subrange(8 * i + 4, 8 * i + 8) =~= rest.subrange(8 * (i - 1) + 4, 8 * (i - 1) + 8));
        assert(parts.drop_first().take(i - 1) =~= parts.take(i).drop_first());
        assert(parts.take(i)[0] == parts[0]);
        assert(sum_lens(parts.take(i)) == parts[0].len() + sum_lens(parts.drop_first().take(i - 1)));
        assert(parts.drop_first()[i - 1] == parts[i]);
        assert(parts.drop_first().take(i) =~= parts.take(i + 1).drop_first());
    }
}

/// Total length of a concatenation.
pub proof fn lemma_concat_len(parts: Seq<Seq<u8>>)
    ensures
        spec_concat(parts).len() == sum_lens(parts),
    decreases parts.len(),
{
    if parts.len() > 0 {
        lemma_concat_len(parts.drop_first());
    }
}

/// Region `i` sits in the concatenation at the offset given by the
/// lengths of the regions before it.
pub proof fn lemma_concat_at(parts: Seq<Seq<u8>>, i: int)
    requires
        0 <= i < parts.len(),
    ensures
        spec_concat(parts).subrange(
            sum_lens(parts.take(i)),
            sum_lens(parts.take(i)) + parts[i].len(),
        ) == parts[i],
    decreases parts.len(),
{
    lemma_concat_len(parts);
    lemma_sum_lens_take(parts, i);
    if i == 0 {
        assert(parts.take(0) =~= Seq::<Seq<u8>>::empty());
        lemma_concat_len(parts.drop_first());
        lemma_sum_lens_nonneg(parts.drop_first());
        assert(spec_concat(parts).subrange(0, parts[0].len() as int) =~= parts[0]);
    } else {
        lemma_concat_at(parts.drop_first(), i - 1);
        lemma_concat_len(parts.drop_first());
        assert(parts.drop_first().take(i - 1) =~= parts.take(i).drop_first());
        assert(parts.take(i)[0] == parts[0]);
        assert(sum_lens(parts.take(i)) == parts[0].len() + sum_lens(parts.drop_first().take(i - 1)));
        assert(parts.drop_first()[i - 1] == parts[i]);
        lemma_sum_lens_take(parts.drop_first(), i - 1);
        lemma_sum_lens_nonneg(parts.drop_first().take(i - 1));
        lemma_sum_lens_rest(parts.drop_first(), i);
        assert(sum_lens(parts.drop_first().take(i - 1)) + parts.drop_first()[i - 1].len()
            == sum_lens(parts.drop_first().take(i)));
        assert(sum_lens(parts.drop_first().take(i)) <= sum_lens(parts.drop_first()));
        assert(spec_concat(parts) == parts[0] + spec_concat(parts.drop_first()));
        assert(spec_concat(parts).subrange(
            sum_lens(parts.take(i)),
            sum_lens(parts.take(i)) + parts[i].len(),
        ) =~= spec_concat(parts.drop_first()).subrange(
            sum_lens(parts.drop_first().take(i - 1)),
            sum_lens(parts.drop_first().take(i - 1)) + parts.drop_first()[i - 1].len(),
        ));
    }
}

/// Unpacking a packed buffer returns exactly the regions that were
/// packed.
pub proof fn lemma_pack_round_trip(parts: Seq<Seq<u8>>)
    requires
        index_encodable(parts, 4 + 8 * parts.len() as int),
    ensures
        spec_deindex(spec_pack(parts)) == Ok::<Seq<Seq<u8>>, ProtoError>(parts),
{
    lemma_auto_spec_u32_to_from_le_bytes();
    let k = parts.len() as int;
    let cursor = 4 + 8 * k;
    let data = spec_pack(parts);
    let cnt = spec_u32_to_le_bytes((2 * k) as u32);
    let pairs = spec_index_pairs(parts, cursor);
    lemma_index_pairs_len(parts, cursor);
    lemma_concat_len(parts);
    lemma_sum_lens_nonneg(parts);
    assert(cnt.len() == 4);
    assert(data.len() == 4 + 8 * k + sum_lens(parts));
    assert(data.subrange(0, 4) =~= cnt);
    assert(spec_u32_from_le_bytes(data.subrange(0, 4)) == (2 * k) as u32);
    assert((2 * k) % 2 == 0);
    assert forall|i: int| 0 <= i < k implies {
        &&& idx_start(data, i) == cursor + sum_lens(parts.take(i))
        &&& idx_end(data, i) == cursor + sum_lens(parts.take(i)) + parts[i].len()
    } by {
        lemma_index_pairs_at(parts, cursor, i);
        assert(data.subrange(4 + 8 * i, 4 + 8 * i + 4) =~= pairs.subrange(8 * i, 8 * i + 4));
        assert(data.subrange(4 + 8 * i + 4, 4 + 8 * i + 8) =~= pairs.subrange(
            8 * i + 4,
            8 * i + 8,
        ));
        lemma_sum_lens_take(parts, i);
        lemma_sum_lens_nonneg(parts.take(i));
        lemma_sum_lens_rest(parts, i + 1);
        assert(cursor + sum_lens(parts.take(i)) + parts[i].len() <= u32::MAX);
    }
    assert(pairs_ok(data, k)) by {
        assert forall|i: int| 0 <= i < k implies 0 <= #[trigger] idx_start(data, i)
            <= idx_end(data, i) <= data.len() by {
            lemma_sum_lens_take(parts, i);
            lemma_sum_lens_nonneg(parts.take(i));
            assert(sum_lens(parts.take(i)) + parts[i].len() == sum_lens(parts.take(i + 1)));
            assert(parts.take(i + 1).len() == i + 1);
            lemma_sum_lens_rest(parts, i + 1);
        }
    }
    let out = spec_deindex(data).unwrap();
    assert forall|i: int| 0 <= i < k implies out[i] == parts[i] by {
        lemma_concat_at(parts, i);
        lemma_sum_lens_take(parts, i);
        lemma_sum_lens_nonneg(parts.take(i));
        lemma_sum_lens_rest(parts, i + 1);
        assert(data.subrange(idx_start(data, i), idx_end(data, i)) =~= spec_concat(
            parts,
        ).subrange(sum_lens(parts.take(i)), sum_lens(parts.take(i)) + parts[i].len()));
    }
    assert(out =~= parts);
}

/// The regions up to `i` never exceed the total.
pub proof fn lemma_sum_lens_rest(parts: Seq<Seq<u8>>, i: int)
    requires
        0 <= i <= parts.len(),
    ensures
        sum_lens(parts.take(i)) <= sum_lens(parts),
{
    if i == parts.len() {
        assert(parts.take(i) =~= parts);
    } else {
        lemma_sum_lens_take(parts, i);
    }
}

/// Appending one more region to a concatenation appends its bytes.
pub proof fn lemma_concat_take_snoc(parts: Seq<Seq<u8>>, i: int)
    requires
        0 <= i < parts.len(),
    ensures
        spec_concat(parts.take(i + 1)) == spec_concat(parts.take(i)) + parts[i],
    decreases i,
{
    if i == 0 {
        assert(parts.take(0) =~= Seq::<Seq<u8>>::empty());
        assert(parts.take(1).drop_first() =~= Seq::<Seq<u8>>::empty());
        assert(parts.take(1)[0] == parts[0]);
        assert(spec_concat(parts.take(1)) =~= spec_concat(parts.take(0)) + parts[0]);
    } else {
        lemma_concat_take_snoc(parts.drop_first(), i - 1);
        assert(parts.take(i + 1).drop_first() =~= parts.drop_first().take(i));
        assert(parts.take(i).drop_first() =~= parts.drop_first().take(i - 1));
        assert(parts.take(i + 1)[0] == parts[0]);
        assert(parts.take(i)[0] == parts[0]);
        assert(parts.drop_first()[i - 1] == parts[i]);
        assert(spec_concat(parts.take(i + 1)) =~= spec_concat(parts.take(i)) + parts[i]);
    }
}

/// Builds the index header for regions to be laid out from `cursor`
/// on: the count word and one offset pair per region. The caller
/// appends the regions themselves after the header. Refused when a
/// count or offset would not fit its 4-byte wire field.
pub fn index_data(data: &Vec<Vec<u8>>, cursor: usize) -> (r: Result<Vec<u8>, ProtoError>)
    ensures
        r is Ok <==> index_encodable(views(data@), cursor as int),
        r matches Ok(v) ==> v@ == spec_index_header(views(data@), cursor as int),
        r is Err ==> r == Err::<Vec<u8>, ProtoError>(ProtoError::TooLarge),
{
    let ghost pvs = views(data@);
    if data.len() > (u32::MAX / 2) as usize {
        proof {
            lemma_sum_lens_nonneg(pvs);
        }
        return Err(ProtoError::TooLarge);
    }
    if cursor as u64 > u32::MAX as u64 {
        proof {
            lemma_sum_lens_nonneg(pvs);
        }
        return Err(ProtoError::TooLarge);
    }
    let mut ordered: Vec<u8> = Vec::new();
    let mut cur: u64 = cursor as u64;
    let mut i: usize = 0;
    proof {
        assert(pvs.take(0) =~= Seq::<Seq<u8>>::empty());
        assert(pvs.skip(0) =~= pvs);
    }
    while i < data.len()
        invariant
            i <= data@.len(),
            pvs == views(data@),
            cur == cursor + sum_lens(pvs.take(i as int)),
            cur <= u32::MAX,
            ordered@ + spec_index_pairs(pvs.skip(i as int), cur as int)
                == spec_index_pairs(pvs, cursor as int),
        decreases data@.len() - i,
    {
        let len_i: usize = data[i].len();
        proof {
            assert(pvs[i as int] == data@[i as int]@);
        }
        let end_wide: u128 = cur as u128 + len_i as u128;
        if end_wide > u32::MAX as u128 {
            proof {
                lemma_sum_lens_take(pvs, i as int);
                lemma_sum_lens_rest2(pvs, i as int + 1);
            }
            return Err(ProtoError::TooLarge);
        }
        let end: u64 = end_wide as u64;
        let ghost prev = ordered@;
        let sb = u32_to_le_bytes(cur as u32);
        ordered.extend_from_slice(sb.as_slice());
        let eb = u32_to_le_bytes(end as u32);
        ordered.extend_from_slice(eb.as_slice());
        proof {
            let rem = pvs.skip(i as int);
            assert(rem[0] == pvs[i as int]);
            assert(rem.drop_first() =~= pvs.skip(i as int + 1));
            assert(spec_index_pairs(rem, cur as int)
                == spec_u32_to_le_bytes(cur as u32)
                    + spec_u32_to_le_bytes((cur + pvs[i as int].len()) as u32)
                    + spec_index_pairs(pvs.skip(i as int + 1), cur as int + pvs[i as int].len()));
            assert(prev + spec_index_pairs(rem, cur as int)
                =~= ordered@ + spec_index_pairs(pvs.skip(i as int + 1), end as int));
            lemma_sum_lens_take(pvs, i as int);
        }
        cur = end;
        i += 1;
    }
    proof {
        assert(pvs.take(pvs.len() as int) =~= pvs);
        assert(pvs.skip(pvs.len() as int) =~= Seq::<Seq<u8>>::empty());
        assert(ordered@ + Seq::<u8>::empty() =~= ordered@);
        assert(ordered@ == spec_index_pairs(pvs, cursor as int));
    }
    let count: u64 = 2 * (data.len() as u64);
    let mut compacted: Vec<u8> = Vec::new();
    let cb = u32_to_le_bytes(count as u32);
    compacted.extend_from_slice(cb.as_slice());
    compacted.extend_from_slice(ordered.as_slice());
    proof {
        assert(compacted@ =~= spec_index_header(pvs, cursor as int));
    }
    Ok(compacted)
}

/// The regions up to any point never exceed the total (general bound
/// used while scanning forward).
proof fn lemma_sum_lens_rest2(parts: Seq<Seq<u8>>, i: int)
    requires
        0 <= i <= parts.len(),
    ensures
        sum_lens(parts.take(i)) <= sum_lens(parts),
{
    lemma_sum_lens_rest(parts, i);
}

/// Cuts the regions of a packed buffer back out, exactly as its index
/// header records them. Any inconsistency between the index and the
/// buffer is refused.
pub fn deindex_data(data: Vec<u8>) -> (r: Result<Vec<Vec<u8>>, ProtoError>)
    ensures
        match spec_deindex(data@) {
            Ok(ps) => r matches Ok(v) && views(v@) == ps,
            Err(e) => r == Err::<Vec<Vec<u8>>, ProtoError>(e),
        },
{
    if data.len() < 4 {
        return Err(ProtoError::MalformedHeader);
    }
    let n_arr: [u8; 4] = [data[0], data[1], data[2], data[3]];
    proof {
        assert(n_arr@ =~= data@.subrange(0, 4));
    }
    let n: u32 = u32_from_le_bytes(n_arr.as_slice());
    if n % 2 != 0 {
        return Err(ProtoError::BadRecord);
    }
    let k: u32 = n / 2;
    if (data.len() as u64) < 4 + 8 * (k as u64) {
        return Err(ProtoError::BadRecord);
    }
    let mut out: Vec<Vec<u8>> = Vec::new();
    let mut i: usize = 0;
    let dlen: usize = data.len();
    while i < k as usize
        invariant
            i <= k as int,
            dlen == data@.len(),
            data@.len() >= 4,
            n == spec_u32_from_le_bytes(data@.subrange(0, 4)),
            n % 2 == 0,
            k == n / 2,
            4 + 8 * (k as int) <= data@.len(),
            out@.len() == i,
            forall|j: int| 0 <= j < i ==> 0 <= #[trigger] idx_start(data@, j) <= idx_end(data@, j)
                <= data@.len(),
            forall|j: int| 0 <= j < i ==> #[trigger] views(out@)[j]
                == data@.subrange(idx_start(data@, j), idx_end(data@, j)),
        decreases k as int - i,
    {
        proof {
            assert(8 * (i as int) + 12 <= 8 * (k as int) + 4);
        }
        let base: usize = 4 + 8 * i;
        let s_arr: [u8; 4] = [data[base], data[base + 1], data[base + 2], data[base + 3]];
        let e_arr: [u8; 4] = [data[base + 4], data[base + 5], data[base + 6], data[base + 7]];
        proof {
            assert(s_arr@ =~= data@.subrange(4 + 8 * (i as int), 4 + 8 * (i as int) + 4));
            assert(e_arr@ =~= data@.subrange(4 + 8 * (i as int) + 4, 4 + 8 * (i as int) + 8));
        }
        let start: u32 = u32_from_le_bytes(s_arr.as_slice());
        let end: u32 = u32_from_le_bytes(e_arr.as_slice());
        proof {
            assert(start == idx_start(data@, i as int));
            assert(end == idx_end(data@, i as int));
        }
        if !(start <= end && end as u64 <= dlen as u64) {
            proof {
                assert(!(0 <= idx_start(data@, i as int) <= idx_end(data@, i as int)
                    <= data@.len()));
                assert(!pairs_ok(data@, k as int));
            }
            return Err(ProtoError::BadRecord);
        }
        let mut region: Vec<u8> = Vec::new();
        region.extend_from_slice(slice_subrange(data.as_slice(), start as usize, end as usize));
        let ghost prev = out@;
        out.push(region);
        proof {
            assert(region@ =~= data@.subrange(idx_start(data@, i as int), idx_end(data@, i as int)));
            assert(views(out@) =~= views(prev).push(region@));
            assert(forall|j: int| 0 <= j < i ==> #[trigger] views(out@)[j] == views(prev)[j]);
            assert(views(out@)[i as int] == region@);
        }
        i += 1;
    }
    proof {
        assert(pairs_ok(data@, k as int));
        let ps = spec_deindex(data@).unwrap();
        assert(views(out@) =~= ps);
    }
    Ok(out)
}

/// Packs regions into one self-describing payload: the index header,
/// then the regions back to back. What `deindex_data` cuts out of the
/// result is exactly what went in.
pub fn pack_parts(parts: &Vec<Vec<u8>>) -> (r: Result<Vec<u8>, ProtoError>)
    ensures
        r is Ok <==> index_encodable(views(parts@), 4 + 8 * parts@.len() as int),
        r matches Ok(v) ==> v@ == spec_pack(views(parts@)),
        r is Err ==> r == Err::<Vec<u8>, ProtoError>(ProtoError::TooLarge),
{
    let ghost pvs = views(parts@);
    if parts.len() as u64 > ((u32::MAX as u64) - 4) / 8 {
        proof {
            lemma_sum_lens_nonneg(pvs);
        }
        return Err(ProtoError::TooLarge);
    }
    let cursor: usize = (4u64 + 8 * (parts.len() as u64)) as usize;
    let header = match index_data(parts, cursor) {
        Ok(h) => h,
        Err(e) => {
            return Err(e);
        },
    };
    let mut out = header;
    let mut i: usize = 0;
    proof {
        assert(pvs.take(0) =~= Seq::<Seq<u8>>::empty());
        assert(out@ + Seq::<u8>::empty() =~= out@);
    }
    while i < parts.len()
        invariant
            i <= parts@.len(),
            pvs == views(parts@),
            out@ == spec_index_header(pvs, 4 + 8 * pvs.len() as int)
                + spec_concat(pvs.take(i as int)),
        decreases parts@.len() - i,
    {
        let ghost prev = out@;
        out.extend_from_slice(parts[i].as_slice());
        proof {
            lemma_concat_take_snoc(pvs, i as int);
            assert(pvs[i as int] == parts@[i as int]@);
            assert(prev + parts@[i as int]@ =~= spec_index_header(pvs, 4 + 8 * pvs.len() as int)
                + spec_concat(pvs.take(i as int + 1)));
        }
        i += 1;
    }
    proof {
        assert(pvs.take(pvs.len() as int) =~= pvs);
    }
    Ok(out)
}

} // verus!
