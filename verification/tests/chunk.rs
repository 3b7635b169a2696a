use qzb::chunk::{check_ack, decode_chunked, encode_chunked, first_frame_read_count};
use qzb::consts::{ACK, BLEN};
use qzb::errors::ProtoError;

fn round_trip(tag: u8, fields: Vec<Vec<u8>>, payload: Vec<u8>) -> usize {
    let frames = encode_chunked(tag, &fields, &payload).unwrap();
    for f in &frames {
        assert!(f.len() <= BLEN);
        assert!(!f.is_empty());
    }
    let rc = first_frame_read_count(&frames[0]).unwrap();
    assert_eq!(rc as usize, frames.len());
    let (t, fs, p) = decode_chunked(&frames).unwrap();
    assert_eq!(t, tag);
    assert_eq!(fs, fields);
    assert_eq!(p, payload);
    frames.len()
}

#[test]
fn chunk_round_trip_empty_payload() {
    let n = round_trip(b'2', vec![b"name".to_vec()], vec![]);
    assert_eq!(n, 1);
}

#[test]
fn chunk_round_trip_no_fields() {
    let n = round_trip(b'0', vec![], b"hello".to_vec());
    assert_eq!(n, 1);
}

#[test]
fn chunk_round_trip_exactly_one_frame() {
    // Header with no fields occupies 6 bytes, so BLEN - 6 payload
    // bytes exactly fill the first frame.
    let n = round_trip(b'4', vec![], vec![0xAB; BLEN - 6]);
    assert_eq!(n, 1);
}

#[test]
fn chunk_round_trip_one_byte_over() {
    let n = round_trip(b'4', vec![], vec![0xCD; BLEN - 5]);
    assert_eq!(n, 2);
}

#[test]
fn chunk_round_trip_several_frames() {
    // ceil((6 + 3 * BLEN + 100) / BLEN) frames carry a payload a bit
    // over three frames long.
    let n = round_trip(b'3', vec![b"a/b".to_vec(), vec![1]], vec![0x5A; 3 * BLEN + 100]);
    assert_eq!(n, 4);
}

#[test]
fn chunk_payload_with_delimiters_survives() {
    let payload = b"a;b:c;;::".to_vec();
    round_trip(b'2', vec![b"x".to_vec()], payload);
}

#[test]
fn field_with_separator_is_refused() {
    let r = encode_chunked(b'2', &vec![b"a:b".to_vec()], b"");
    assert_eq!(r, Err(ProtoError::BadName));
    let r = encode_chunked(b'2', &vec![b"a;b".to_vec()], b"");
    assert_eq!(r, Err(ProtoError::BadName));
}

#[test]
fn oversized_fields_are_refused() {
    let r = encode_chunked(b'2', &vec![vec![b'x'; BLEN]], b"");
    assert_eq!(r, Err(ProtoError::TooLarge));
}

#[test]
fn decode_wrong_read_count_is_fatal() {
    let frames = encode_chunked(b'0', &vec![], b"payload").unwrap();
    let mut cut = frames.clone();
    cut.push(b"extra".to_vec());
    assert_eq!(decode_chunked(&cut), Err(ProtoError::ReadCountMismatch));
}

#[test]
fn decode_short_first_frame_is_malformed() {
    assert_eq!(decode_chunked(&vec![vec![1, 2]]), Err(ProtoError::MalformedHeader));
    assert_eq!(decode_chunked(&vec![]), Err(ProtoError::MalformedHeader));
}

#[test]
fn decode_missing_delimiter_is_fatal() {
    // A frame whose body never closes the header.
    let frame = vec![b'0', 1, 0, 0, 0, b'x', b'y'];
    assert_eq!(decode_chunked(&vec![frame]), Err(ProtoError::MissingDelimiter));
}

#[test]
fn ack_byte_is_checked_strictly() {
    assert!(check_ack(&[ACK], 1));
    assert!(!check_ack(&[ACK, ACK], 2));
    assert!(!check_ack(&[7], 1));
    assert!(!check_ack(&[], 0));
}
