//! The chunked message codec: an arbitrary-length payload travels as a
//! bounded sequence of frames of at most `BLEN` bytes. The first frame
//! carries a one-byte tag, the fixed 4-byte `read_count` counter,
//! the metadata fields (each terminated by `FIELD_SEP`), a closing
//! `NAME_SEP`, and as much of the payload as fits; every further frame
//! carries raw payload bytes. `read_count` is the total number of
//! frames, computed before the first frame is built, so the receiver
//! knows exactly how many reads follow.
//!
//! The counter sits at a fixed offset, before the variable-length
//! fields, so its raw bytes can never be mistaken for a delimiter.
use vstd::prelude::*;
use vstd::bytes::{spec_u32_to_le_bytes, spec_u32_from_le_bytes, lemma_auto_spec_u32_to_from_le_bytes,
    u32_to_le_bytes, u32_from_le_bytes};
use vstd::slice::slice_subrange;
use crate::consts::{BLEN, ACK, FIELD_SEP, NAME_SEP};
use crate::delim::{views, sep_free, all_sep_free, join_sep, spec_find, spec_split, join_delim,
    split_delim, lemma_find_props, lemma_find_at, lemma_split_join};
use crate::errors::ProtoError;

verus! {

/// A message's metadata fields may hold neither separator byte.
pub open spec fn fields_wf(fields: Seq<Seq<u8>>) -> bool {
    &&& all_sep_free(fields, FIELD_SEP)
    &&& all_sep_free(fields, NAME_SEP)
}

/// Byte length of the first frame's header: tag, counter, fields with
/// their separators, closing delimiter.
pub open spec fn spec_header_len(fields: Seq<Seq<u8>>) -> int {
    6 + join_sep(fields, FIELD_SEP).len() as int
}

/// The first frame's header for a message with the given read count.
pub open spec fn spec_chunk_header(tag: u8, fields: Seq<Seq<u8>>, rc: u32) -> Seq<u8> {
    seq![tag] + spec_u32_to_le_bytes(rc) + join_sep(fields, FIELD_SEP) + seq![NAME_SEP]
}

/// Total number of frames carrying a header of `h` bytes and `n`
/// payload bytes: the ceiling of `(h + n) / BLEN`.
pub open spec fn chunk_count(h: int, n: int) -> int {
    (h + n + (BLEN - 1)) / BLEN as int
}

/// A message with these fields and this payload length can be framed.
pub open spec fn encodable(fields: Seq<Seq<u8>>, n: int) -> bool {
    &&& fields_wf(fields)
    &&& spec_header_len(fields) <= BLEN
    &&& chunk_count(spec_header_len(fields), n) <= u32::MAX
}

/// The frames after the first: raw payload slices of up to `BLEN` bytes.
pub open spec fn tail_frames(s: Seq<u8>) -> Seq<Seq<u8>>
    decreases s.len(),
{
    if s.len() == 0 {
        Seq::empty()
    } else if s.len() <= BLEN {
        seq![s]
    } else {
        seq![s.take(BLEN as int)] + tail_frames(s.skip(BLEN as int))
    }
}

/// All bytes of a frame sequence, in order.
pub open spec fn spec_concat(frames: Seq<Seq<u8>>) -> Seq<u8>
    decreases frames.len(),
{
    if frames.len() == 0 {
        Seq::empty()
    } else {
        frames[0] + spec_concat(frames.drop_first())
    }
}

/// The frame sequence that carries one whole message.
pub open spec fn spec_encode_chunked(tag: u8, fields: Seq<Seq<u8>>, payload: Seq<u8>) -> Seq<Seq<u8>> {
    let h = spec_header_len(fields);
    let n = payload.len() as int;
    let rc = chunk_count(h, n) as u32;
    let k = if n <= BLEN - h { n } else { BLEN - h };
    seq![spec_chunk_header(tag, fields, rc) + payload.take(k)] + tail_frames(payload.skip(k))
}

/// What decoding a frame sequence yields: tag, metadata fields and the
/// reassembled payload; or the protocol violation that was found.
pub open spec fn spec_decode_chunked(frames: Seq<Seq<u8>>) -> Result<(u8, Seq<Seq<u8>>, Seq<u8>), ProtoError> {
    if frames.len() == 0 || frames[0].len() < 6 {
        Err(ProtoError::MalformedHeader)
    } else {
        let f0 = frames[0];
        let tag = f0[0];
        let rc = spec_u32_from_le_bytes(f0.subrange(1, 5));
        if rc != frames.len() {
            Err(ProtoError::ReadCountMismatch)
        } else {
            let body = f0.skip(5);
            let j = spec_find(body, NAME_SEP);
            if j < 0 {
                Err(ProtoError::MissingDelimiter)
            } else {
                match spec_split(body.take(j), FIELD_SEP) {
                    Some(fields) => Ok((tag, fields, body.skip(j + 1) + spec_concat(frames.drop_first()))),
                    Option::None => Err(ProtoError::MissingDelimiter),
                }
            }
        }
    }
}

/// The frame count is at least 1, covers the whole message, and
/// overshoots it by less than one frame: it is exactly the ceiling of
/// `(h + n) / BLEN`.
pub proof fn lemma_chunk_count_ceil(h: int, n: int)
    requires
        1 <= h,
        0 <= n,
    ensures
        chunk_count(h, n) >= 1,
        chunk_count(h, n) * BLEN >= h + n,
        (chunk_count(h, n) - 1) * BLEN < h + n,
{
    let b = BLEN as int;
    let t = h + n;
    let q = (t + (b - 1)) / b;
    assert(q * b >= t && (q - 1) * b < t && q >= 1) by (nonlinear_arith)
        requires
            b == 65528,
            t >= 1,
            q == (t + (b - 1)) / b,
    ;
}

/// The tail frames of `s` reassemble to `s`, number the ceiling of
/// `s.len() / BLEN`, and each holds between 1 and `BLEN` bytes.
pub proof fn lemma_tail_frames(s: Seq<u8>)
    ensures
        spec_concat(tail_frames(s)) == s,
        tail_frames(s).len() == (s.len() + (BLEN - 1)) / BLEN as int,
        forall|i: int| 0 <= i < tail_frames(s).len()
            ==> 1 <= (#[trigger] tail_frames(s)[i]).len() <= BLEN,
    decreases s.len(),
{
    let b = BLEN as int;
    if s.len() == 0 {
        assert(spec_concat(tail_frames(s)) =~= s);
    } else if s.len() <= BLEN {
        assert(tail_frames(s) =~= seq![s]);
        assert(tail_frames(s).drop_first() =~= Seq::<Seq<u8>>::empty());
        assert(spec_concat(Seq::<Seq<u8>>::empty()) =~= Seq::<u8>::empty());
        assert(spec_concat(tail_frames(s)) == tail_frames(s)[0] + spec_concat(tail_frames(s).drop_first()));
        assert(spec_concat(tail_frames(s)) =~= s);
        assert((s.len() + (b - 1)) / b == 1) by (nonlinear_arith)
            requires
                b == 65528,
                1 <= s.len() <= b,
        ;
    } else {
        lemma_tail_frames(s.skip(b));
        assert(tail_frames(s).drop_first() =~= tail_frames(s.skip(b)));
        assert(spec_concat(tail_frames(s)) =~= s.take(b) + spec_concat(tail_frames(s.skip(b))));
        assert(s.take(b) + s.skip(b) =~= s);
        let m = s.len() - b;
        assert(1 + (m + (b - 1)) / b == (s.len() + (b - 1)) / b) by (nonlinear_arith)
            requires
                b == 65528,
                m == s.len() - b,
                m >= 1,
        ;
        assert forall|i: int| 0 <= i < tail_frames(s).len()
            implies 1 <= (#[trigger] tail_frames(s)[i]).len() <= BLEN by {
            if i >= 1 {
                assert(tail_frames(s)[i] == tail_frames(s.skip(b))[i - 1]);
            }
        }
    }
}

/// A join of fields free of a byte other than the field separator is
/// itself free of that byte.
pub proof fn lemma_join_sep_free(fields: Seq<Seq<u8>>, sep: u8, other: u8)
    requires
        all_sep_free(fields, other),
        sep != other,
    ensures
        sep_free(join_sep(fields, sep), other),
    decreases fields.len(),
{
    if fields.len() > 0 {
        assert(all_sep_free(fields.drop_first(), other)) by {
            assert(forall|i: int| 0 <= i < fields.drop_first().len()
                ==> fields.drop_first()[i] == fields[i + 1]);
        }
        lemma_join_sep_free(fields.drop_first(), sep, other);
        let s = join_sep(fields, sep);
        let p0 = fields[0];
        assert forall|i: int| 0 <= i < s.len() implies s[i] != other by {
            if i < p0.len() {
                assert(s[i] == p0[i]);
            } else if i == p0.len() {
                assert(s[i] == sep);
            } else {
                assert(s[i] == join_sep(fields.drop_first(), sep)[i - p0.len() - 1]);
            }
        }
    }
}

/// How many frames the encoder emits, and how large each one is: the
/// count is `chunk_count`, every frame holds at most `BLEN` bytes, and
/// none is empty.
pub proof fn lemma_encode_props(tag: u8, fields: Seq<Seq<u8>>, payload: Seq<u8>)
    requires
        encodable(fields, payload.len() as int),
    ensures
        spec_encode_chunked(tag, fields, payload).len()
            == chunk_count(spec_header_len(fields), payload.len() as int),
        forall|i: int| 0 <= i < spec_encode_chunked(tag, fields, payload).len()
            ==> 1 <= (#[trigger] spec_encode_chunked(tag, fields, payload)[i]).len() <= BLEN,
{
    let b = BLEN as int;
    let h = spec_header_len(fields);
    let n = payload.len() as int;
    let k = if n <= b - h { n } else { b - h };
    let frames = spec_encode_chunked(tag, fields, payload);
    lemma_auto_spec_u32_to_from_le_bytes();
    assert(spec_u32_to_le_bytes(chunk_count(h, n) as u32).len() == 4);
    assert(frames[0].len() == h + k);
    lemma_tail_frames(payload.skip(k));
    assert(frames.len() == 1 + (n - k + (b - 1)) / b);
    if n <= b - h {
        assert((0 + (b - 1)) / b == 0) by (nonlinear_arith)
            requires
                b == 65528,
        ;
        assert((h + n + (b - 1)) / b == 1) by (nonlinear_arith)
            requires
                b == 65528,
                1 <= h + n <= b,
        ;
    } else {
        assert(1 + (n - (b - h) + (b - 1)) / b == (h + n + (b - 1)) / b) by (nonlinear_arith)
            requires
                b == 65528,
                n > b - h,
                h >= 1,
        ;
    }
    assert forall|i: int| 0 <= i < frames.len()
        implies 1 <= (#[trigger] frames[i]).len() <= BLEN by {
        if i >= 1 {
            assert(frames[i] == tail_frames(payload.skip(k))[i - 1]);
        }
    }
}

/// Decoding the frames the encoder produced yields back the tag, the
/// fields and the exact payload bytes: the two peers never diverge on
/// message boundaries.
pub proof fn lemma_chunk_round_trip(tag: u8, fields: Seq<Seq<u8>>, payload: Seq<u8>)
    requires
        encodable(fields, payload.len() as int),
    ensures
        spec_decode_chunked(spec_encode_chunked(tag, fields, payload))
            == Ok::<_, ProtoError>((tag, fields, payload)),
{
    let b = BLEN as int;
    let h = spec_header_len(fields);
    let n = payload.len() as int;
    let rc = chunk_count(h, n) as u32;
    let k = if n <= b - h { n } else { b - h };
    let joined = join_sep(fields, FIELD_SEP);
    let frames = spec_encode_chunked(tag, fields, payload);
    let f0 = frames[0];
    lemma_encode_props(tag, fields, payload);
    lemma_chunk_count_ceil(h, n);
    lemma_auto_spec_u32_to_from_le_bytes();
    assert(spec_u32_to_le_bytes(rc).len() == 4);
    assert(f0 == spec_chunk_header(tag, fields, rc) + payload.take(k));
    assert(f0.len() == h + k >= 6);
    assert(f0[0] == tag);
    assert(f0.subrange(1, 5) =~= spec_u32_to_le_bytes(rc));
    assert(spec_u32_from_le_bytes(f0.subrange(1, 5)) == rc);
    assert(rc == frames.len());
    let body = f0.skip(5);
    assert(body =~= joined + seq![NAME_SEP] + payload.take(k));
    lemma_join_sep_free(fields, FIELD_SEP, NAME_SEP);
    assert(forall|i: int| 0 <= i < joined.len() ==> body[i] == joined[i] && body[i] != NAME_SEP);
    assert(body[joined.len() as int] == NAME_SEP);
    lemma_find_at(body, NAME_SEP, joined.len() as int);
    let j = joined.len() as int;
    assert(body.take(j) =~= joined);
    lemma_split_join(fields, FIELD_SEP);
    assert(spec_split(body.take(j), FIELD_SEP) == Some(fields));
    assert(body.skip(j + 1) =~= payload.take(k));
    lemma_tail_frames(payload.skip(k));
    assert(frames.drop_first() =~= tail_frames(payload.skip(k)));
    assert(body.skip(j + 1) + spec_concat(frames.drop_first()) =~= payload.take(k) + payload.skip(k));
    assert(payload.take(k) + payload.skip(k) =~= payload);
}

/// Builds the frame sequence that carries one message. Refused when a
/// metadata field holds a reserved delimiter byte, when the fields do
/// not fit in the first frame, or when the frame count would not fit
/// in its fixed 4-byte field.
pub fn encode_chunked(tag: u8, fields: &Vec<Vec<u8>>, payload: &[u8]) -> (r: Result<
    Vec<Vec<u8>>,
    ProtoError,
>)
    ensures
        r is Ok <==> encodable(views(fields@), payload@.len() as int),
        r matches Ok(frames) ==> views(frames@) == spec_encode_chunked(tag, views(fields@), payload@),
        !fields_wf(views(fields@)) ==> r == Err::<Vec<Vec<u8>>, ProtoError>(ProtoError::BadName),
        fields_wf(views(fields@)) && !encodable(views(fields@), payload@.len() as int)
            ==> r == Err::<Vec<Vec<u8>>, ProtoError>(ProtoError::TooLarge),
{
    let ghost fvs = views(fields@);
    let mut fi: usize = 0;
    while fi < fields.len()
        invariant
            fi <= fields@.len(),
            fvs == views(fields@),
            forall|i: int| 0 <= i < fi
                ==> sep_free(#[trigger] fvs[i], FIELD_SEP) && sep_free(fvs[i], NAME_SEP),
        decreases fields@.len() - fi,
    {
        proof {
            assert(fvs[fi as int] == fields@[fi as int]@);
        }
        if let Some(_) = crate::codec::find_delim(fields[fi].as_slice(), FIELD_SEP) {
            return Err(ProtoError::BadName);
        }
        if let Some(_) = crate::codec::find_delim(fields[fi].as_slice(), NAME_SEP) {
            return Err(ProtoError::BadName);
        }
        fi += 1;
    }
    let joined = join_delim(fields, FIELD_SEP);
    if joined.len() > BLEN - 6 {
        return Err(ProtoError::TooLarge);
    }
    let hlen: usize = 6 + joined.len();
    let ghost h = spec_header_len(fvs);
    let n: usize = payload.len();
    let total: u128 = hlen as u128 + n as u128 + (BLEN as u128 - 1);
    let count: u128 = total / BLEN as u128;
    proof {
        assert(count == chunk_count(h, n as int));
    }
    if count > u32::MAX as u128 {
        return Err(ProtoError::TooLarge);
    }
    let rc: u32 = count as u32;
    let k: usize = if n <= BLEN - hlen {
        n
    } else {
        BLEN - hlen
    };
    let mut f0: Vec<u8> = Vec::new();
    f0.push(tag);
    let rcb = u32_to_le_bytes(rc);
    f0.extend_from_slice(rcb.as_slice());
    f0.extend_from_slice(joined.as_slice());
    f0.push(NAME_SEP);
    f0.extend_from_slice(slice_subrange(payload, 0, k));
    proof {
        assert(f0@ =~= spec_chunk_header(tag, fvs, rc) + payload@.take(k as int));
    }
    let mut frames: Vec<Vec<u8>> = Vec::new();
    frames.push(f0);
    proof {
        assert(views(frames@) =~= seq![spec_chunk_header(tag, fvs, rc) + payload@.take(k as int)]);
        assert(views(frames@) + tail_frames(payload@.skip(k as int))
            =~= spec_encode_chunked(tag, fvs, payload@));
    }
    let mut pos: usize = k;
    while pos < n
        invariant
            k <= pos <= n,
            n == payload@.len(),
            fvs == views(fields@),
            views(frames@) + tail_frames(payload@.skip(pos as int))
                == spec_encode_chunked(tag, fvs, payload@),
        decreases n - pos,
    {
        let take_n: usize = if n - pos <= BLEN {
            n - pos
        } else {
            BLEN
        };
        let mut c: Vec<u8> = Vec::new();
        c.extend_from_slice(slice_subrange(payload, pos, pos + take_n));
        let ghost prev = views(frames@);
        let ghost rem = payload@.skip(pos as int);
        frames.push(c);
        proof {
            assert(views(frames@) =~= prev.push(c@));
            if n - pos <= BLEN {
                assert(c@ =~= rem);
                assert(tail_frames(rem) == seq![rem]);
                assert(payload@.skip(n as int) =~= Seq::<u8>::empty());
                assert(prev.push(c@) + tail_frames(payload@.skip((pos + take_n) as int))
                    =~= prev + tail_frames(rem));
            } else {
                assert(c@ =~= rem.take(BLEN as int));
                assert(rem.skip(BLEN as int) =~= payload@.skip((pos + take_n) as int));
                assert(tail_frames(rem) == seq![rem.take(BLEN as int)] + tail_frames(
                    rem.skip(BLEN as int),
                ));
                assert(prev.push(c@) + tail_frames(payload@.skip((pos + take_n) as int))
                    =~= prev + tail_frames(rem));
            }
        }
        pos += take_n;
    }
    proof {
        assert(payload@.skip(n as int) =~= Seq::<u8>::empty());
        assert(views(frames@) + tail_frames(payload@.skip(n as int)) =~= views(frames@));
    }
    Ok(frames)
}

/// Reads the declared frame count out of a first frame, so the
/// receiver knows how many further reads this message takes.
pub fn first_frame_read_count(frame: &[u8]) -> (r: Result<u32, ProtoError>)
    ensures
        frame@.len() >= 6 ==> r == Ok::<u32, ProtoError>(
            spec_u32_from_le_bytes(frame@.subrange(1, 5)),
        ),
        frame@.len() < 6 ==> r == Err::<u32, ProtoError>(ProtoError::MalformedHeader),
{
    if frame.len() < 6 {
        return Err(ProtoError::MalformedHeader);
    }
    let rc_arr: [u8; 4] = [frame[1], frame[2], frame[3], frame[4]];
    proof {
        assert(rc_arr@ =~= frame@.subrange(1, 5));
    }
    Ok(u32_from_le_bytes(rc_arr.as_slice()))
}

/// Reassembles one message out of its frames: the tag, the metadata
/// fields and the exact payload bytes, or the protocol violation that
/// makes the frame sequence untrustworthy.
pub fn decode_chunked(frames: &Vec<Vec<u8>>) -> (r: Result<(u8, Vec<Vec<u8>>, Vec<u8>), ProtoError>)
    ensures
        match spec_decode_chunked(views(frames@)) {
            Ok(m) => r matches Ok(d) && d.0 == m.0 && views(d.1@) == m.1 && d.2@ == m.2,
            Err(e) => r == Err::<(u8, Vec<Vec<u8>>, Vec<u8>), ProtoError>(e),
        },
{
    let ghost dvs = views(frames@);
    if frames.len() == 0 {
        return Err(ProtoError::MalformedHeader);
    }
    let f0 = &frames[0];
    proof {
        assert(dvs[0] == f0@);
    }
    if f0.len() < 6 {
        return Err(ProtoError::MalformedHeader);
    }
    let tag: u8 = f0[0];
    let rc_arr: [u8; 4] = [f0[1], f0[2], f0[3], f0[4]];
    proof {
        assert(rc_arr@ =~= f0@.subrange(1, 5));
    }
    let rc: u32 = u32_from_le_bytes(rc_arr.as_slice());
    if rc as u64 != frames.len() as u64 {
        return Err(ProtoError::ReadCountMismatch);
    }
    let body = slice_subrange(f0.as_slice(), 5, f0.len());
    proof {
        assert(body@ =~= f0@.skip(5));
    }
    let jopt = crate::codec::find_delim(body, NAME_SEP);
    let j: usize = match jopt {
        Some(j) => j,
        Option::None => {
            proof {
                lemma_find_props(body@, NAME_SEP);
                if spec_find(body@, NAME_SEP) >= 0 {
                    assert(body@[spec_find(body@, NAME_SEP)] == NAME_SEP);
                }
            }
            return Err(ProtoError::MissingDelimiter);
        },
    };
    proof {
        lemma_find_at(body@, NAME_SEP, j as int);
    }
    let fregion = slice_subrange(body, 0, j);
    proof {
        assert(fregion@ =~= body@.take(j as int));
    }
    let fields = match split_delim(fregion, FIELD_SEP) {
        Ok(fs) => fs,
        Err(e) => {
            return Err(ProtoError::MissingDelimiter);
        },
    };
    let mut payload: Vec<u8> = Vec::new();
    payload.extend_from_slice(slice_subrange(body, j + 1, body.len()));
    proof {
        assert(payload@ =~= body@.skip(j as int + 1));
        assert(dvs.skip(1) =~= dvs.drop_first());
    }
    let mut i: usize = 1;
    while i < frames.len()
        invariant
            1 <= i <= frames@.len(),
            dvs == views(frames@),
            payload@ + spec_concat(dvs.skip(i as int))
                == dvs[0].skip(5).skip(spec_find(dvs[0].skip(5), NAME_SEP) + 1)
                    + spec_concat(dvs.drop_first()),
        decreases frames@.len() - i,
    {
        let ghost prev = payload@;
        payload.extend_from_slice(frames[i].as_slice());
        proof {
            assert(dvs.skip(i as int)[0] == dvs[i as int]);
            assert(dvs.skip(i as int).drop_first() =~= dvs.skip(i as int + 1));
            assert(spec_concat(dvs.skip(i as int))
                == dvs[i as int] + spec_concat(dvs.skip(i as int + 1)));
            assert(prev + spec_concat(dvs.skip(i as int))
                =~= payload@ + spec_concat(dvs.skip(i as int + 1)));
        }
        i += 1;
    }
    proof {
        assert(dvs.skip(frames@.len() as int) =~= Seq::<Seq<u8>>::empty());
        assert(payload@ + spec_concat(dvs.skip(frames@.len() as int)) =~= payload@);
    }
    Ok((tag, fields, payload))
}

/// A one-byte acknowledgment frame.
pub fn ack_frame() -> (r: Vec<u8>)
    ensures
        r@ == seq![ACK],
{
    let mut v: Vec<u8> = Vec::new();
    v.push(ACK);
    proof {
        assert(v@ =~= seq![ACK]);
    }
    v
}

/// Whether a read of `nb` bytes into `buf` is the acknowledgment the
/// lock-step exchange owes: exactly one byte, holding the reserved
/// value. Anything else is a protocol violation.
pub fn check_ack(buf: &[u8], nb: usize) -> (r: bool)
    requires
        nb <= buf@.len(),
    ensures
        r == (nb == 1 && buf@.len() >= 1 && buf@[0] == ACK),
{
    nb == 1 && buf[0] == ACK
}

} // verus!
