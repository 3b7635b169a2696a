use qzb::codec::{find_delim, num_reads_decode, num_reads_encode, set_slice};
use qzb::consts::BLEN;
use qzb::errors::ProtoError;
use qzb::records::{deindex_data, index_data, pack_parts};

#[test]
fn set_slice_test() {
    const SET_ERR: &str = "TEST: set_slice_test: Failed to set hello world! to HELLO WORLD!";
    const NUM_BYTES_ERR: &str =
        "TEST: set_slice_test: Failed to return accurate number of bytes read";

    let mut test_init = vec![];
    test_init.extend_from_slice(b"hello world!");

    let mut exp_ret = vec![];
    exp_ret.extend_from_slice(b"HELLO WORLD!");

    let nb = set_slice(&mut test_init, &exp_ret);
    assert_eq!(test_init, exp_ret, "{}", SET_ERR);
    assert_eq!(nb, exp_ret.len(), "{}", NUM_BYTES_ERR);
}

#[test]
fn set_slice_keeps_suffix() {
    let mut buf = vec![9u8; 6];
    let nb = set_slice(&mut buf, &[1, 2, 3]);
    assert_eq!(nb, 3);
    assert_eq!(buf, vec![1, 2, 3, 9, 9, 9]);
}

#[test]
fn find_delim_first_occurrence() {
    assert_eq!(find_delim(b"ab;cd;e", b';'), Some(2));
    assert_eq!(find_delim(b";", b';'), Some(0));
    assert_eq!(find_delim(b"abc", b';'), None);
    assert_eq!(find_delim(b"", b';'), None);
}

#[test]
fn num_reads_minimum_is_one() {
    let (_, nr) = num_reads_encode(0).unwrap();
    assert_eq!(nr, 1);
}

#[test]
fn num_reads_is_ceiling() {
    // ceil((4 + n) / BLEN) at the boundary: 4 + n == BLEN needs one
    // read, one byte more needs two.
    let (_, nr) = num_reads_encode(BLEN - 4).unwrap();
    assert_eq!(nr, 1);
    let (_, nr) = num_reads_encode(BLEN - 3).unwrap();
    assert_eq!(nr, 2);
    let (_, nr) = num_reads_encode(3 * BLEN).unwrap();
    assert_eq!(nr, 4);
}

#[test]
fn num_reads_wire_round_trip() {
    let (bytes, nr) = num_reads_encode(5 * BLEN + 17).unwrap();
    assert_eq!(num_reads_decode(bytes), nr);
}

#[test]
fn index_header_exact_bytes() {
    // Two regions of lengths 1 and 2, laid out from offset 20:
    // count word 4, then pairs (20,21) and (21,23), little endian.
    let data = vec![vec![7u8], vec![8u8, 9u8]];
    let header = index_data(&data, 20).unwrap();
    let expected: Vec<u8> = vec![
        4, 0, 0, 0, // 2 * 2 index words
        20, 0, 0, 0, 21, 0, 0, 0, // first region
        21, 0, 0, 0, 23, 0, 0, 0, // second region
    ];
    assert_eq!(header, expected);
}

#[test]
fn pack_round_trip() {
    let parts = vec![b"alpha".to_vec(), vec![], b"c;d:e".to_vec()];
    let packed = pack_parts(&parts).unwrap();
    let back = deindex_data(packed).unwrap();
    assert_eq!(back, parts);
}

#[test]
fn pack_round_trip_empty() {
    let parts: Vec<Vec<u8>> = vec![];
    let packed = pack_parts(&parts).unwrap();
    let back = deindex_data(packed).unwrap();
    assert!(back.is_empty());
}

#[test]
fn deindex_short_buffer_is_malformed() {
    assert_eq!(deindex_data(vec![1, 2, 3]), Err(ProtoError::MalformedHeader));
}

#[test]
fn deindex_odd_count_is_bad_record() {
    // A count word of 1 is not an even number of index words.
    assert_eq!(deindex_data(vec![1, 0, 0, 0]), Err(ProtoError::BadRecord));
}

#[test]
fn deindex_out_of_range_offsets_are_bad_record() {
    // One pair pointing past the end of the buffer.
    let data = vec![
        2, 0, 0, 0, // one region
        0, 0, 0, 0, 200, 0, 0, 0,
    ];
    assert_eq!(deindex_data(data), Err(ProtoError::BadRecord));
}
