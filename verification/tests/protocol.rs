use qzb::client::{catalog_new_names, strip_dir_prefix};
use qzb::consts::{GET_BOOKNAMES, NONE_MARKER, NOTIFY_PAD, VAR_GET_BOOK, VAR_SEND_SFILE,
    ZBOOK_READ_NOTIFY};
use qzb::errors::ProtoError;
use qzb::parser::{parse_buf, parse_notification};
use qzb::protocol::{encode_catalog, encode_request, parse_catalog, parse_request,
    response_frames, response_payload, Content, Request};
use qzb::server::{book_content, dispatch, find_book, BookEntry, VaultAction};
use qzb::state_tree::{check_parents_first, decode_state_tree, encode_state_tree, StateRecord};

fn book(name: &[u8], content: &[u8]) -> BookEntry {
    BookEntry { name: name.to_vec(), is_dir: false, content: content.to_vec() }
}

fn sfile(path: &[u8], content: &[u8]) -> StateRecord {
    StateRecord { path: path.to_vec(), is_dir: false, content: content.to_vec() }
}

fn sdir(path: &[u8]) -> StateRecord {
    StateRecord { path: path.to_vec(), is_dir: true, content: vec![] }
}

#[test]
fn catalog_round_trip_two_names() {
    let names = vec![b"x".to_vec(), b"y".to_vec()];
    let payload = encode_catalog(&names).unwrap();
    assert_eq!(payload, b"x;y;".to_vec());
    let back = parse_catalog(&payload).unwrap();
    assert_eq!(back, names);
}

#[test]
fn empty_catalog_is_the_marker() {
    let names: Vec<Vec<u8>> = vec![];
    let payload = encode_catalog(&names).unwrap();
    assert_eq!(payload, vec![NONE_MARKER]);
    assert!(parse_catalog(&payload).unwrap().is_empty());
}

#[test]
fn catalog_name_with_separator_is_refused() {
    let names = vec![b"a;b".to_vec()];
    assert_eq!(encode_catalog(&names), Err(ProtoError::BadName));
    let names = vec![vec![]];
    assert_eq!(encode_catalog(&names), Err(ProtoError::BadName));
}

#[test]
fn request_round_trip_get_booknames() {
    let frames = encode_request(&Request::GetBooknames).unwrap();
    assert_eq!(frames[0][0], GET_BOOKNAMES);
    match parse_request(&frames).unwrap() {
        Request::GetBooknames => {},
        _ => panic!("wrong request kind"),
    }
}

#[test]
fn request_round_trip_get_book() {
    let frames = encode_request(&Request::GetBook { bname: b"novel".to_vec() }).unwrap();
    assert_eq!(frames[0][0], VAR_GET_BOOK);
    match parse_request(&frames).unwrap() {
        Request::GetBook { bname } => assert_eq!(bname, b"novel".to_vec()),
        _ => panic!("wrong request kind"),
    }
}

#[test]
fn request_round_trip_send_state_file() {
    let req = Request::SendStateFile {
        path: b"bookmarks/history".to_vec(),
        is_dir: false,
        content: b"line one\nline two".to_vec(),
    };
    let frames = encode_request(&req).unwrap();
    assert_eq!(frames[0][0], VAR_SEND_SFILE);
    match parse_request(&frames).unwrap() {
        Request::SendStateFile { path, is_dir, content } => {
            assert_eq!(path, b"bookmarks/history".to_vec());
            assert!(!is_dir);
            assert_eq!(content, b"line one\nline two".to_vec());
        },
        _ => panic!("wrong request kind"),
    }
}

#[test]
fn request_round_trip_get_state_files() {
    let frames = encode_request(&Request::GetStateFiles).unwrap();
    match parse_request(&frames).unwrap() {
        Request::GetStateFiles => {},
        _ => panic!("wrong request kind"),
    }
}

#[test]
fn unknown_tag_is_fatal() {
    let mut frames = encode_request(&Request::GetBooknames).unwrap();
    frames[0][0] = b'9';
    match parse_request(&frames) {
        Err(e) => assert_eq!(e, ProtoError::UnknownTag),
        Ok(_) => panic!("an unknown tag must be refused"),
    }
}

#[test]
fn state_tree_round_trip() {
    let records = vec![
        sdir(b"marks"),
        sfile(b"marks/a", b"page 4"),
        sfile(b"marks/b", b""),
        sfile(b"top", b"x:y;z"),
    ];
    let payload = encode_state_tree(&records).unwrap();
    let back = decode_state_tree(payload).unwrap();
    assert_eq!(back.len(), records.len());
    for (r, b) in records.iter().zip(back.iter()) {
        assert_eq!(r.path, b.path);
        assert_eq!(r.is_dir, b.is_dir);
        assert_eq!(r.content, b.content);
    }
}

#[test]
fn parents_first_ordering_is_checked() {
    let good = vec![sdir(b"d"), sfile(b"d/f", b"1")];
    assert!(check_parents_first(&good));
    let bad = vec![sfile(b"d/f", b"1"), sdir(b"d")];
    assert!(!check_parents_first(&bad));
    // A sibling whose name merely starts with the same letters is no
    // parent.
    let sibling = vec![sfile(b"data", b"1"), sdir(b"dat")];
    assert!(check_parents_first(&sibling));
}

#[test]
fn find_book_first_file_match_wins() {
    let listing = vec![
        BookEntry { name: b"shelf".to_vec(), is_dir: true, content: vec![] },
        book(b"novel", b"first"),
        book(b"novel", b"second"),
    ];
    assert_eq!(find_book(&listing, b"novel"), Some(1));
    assert_eq!(find_book(&listing, b"shelf"), None);
    assert_eq!(find_book(&listing, b"absent"), None);
}

#[test]
fn absent_document_answers_the_marker() {
    // The end-to-end shape of a fetch for a document the vault does
    // not hold: the response is the bare empty marker, and the client
    // decides against any file write.
    let listing = vec![book(b"other", b"text")];
    let action = dispatch(
        Request::GetBook { bname: b"x".to_vec() },
        &vec![],
        &listing,
        &vec![],
    )
    .unwrap();
    let cont = match action {
        VaultAction::Respond(c) => c,
        _ => panic!("expected a response"),
    };
    assert!(matches!(cont, Content::Empty));
    let frames = response_frames(VAR_GET_BOOK, &cont).unwrap();
    assert_eq!(frames, vec![vec![NONE_MARKER]]);
    let decision = response_payload(&frames).unwrap();
    assert!(decision.is_none(), "a marker response must not cause a write");
}

#[test]
fn present_document_round_trips_through_response() {
    let listing = vec![book(b"x", b"the content")];
    let cont = book_content(&listing, b"x");
    let frames = response_frames(VAR_GET_BOOK, &cont).unwrap();
    let decision = response_payload(&frames).unwrap();
    assert_eq!(decision.unwrap(), b"the content".to_vec());
}

#[test]
fn more_content_concatenates_messages() {
    let cont = Content::More(vec![b"one".to_vec(), b"two".to_vec()]);
    let frames = response_frames(b'5', &cont).unwrap();
    assert_eq!(frames.len(), 2);
    let first = response_payload(&vec![frames[0].clone()]).unwrap();
    assert_eq!(first.unwrap(), b"one".to_vec());
    let second = response_payload(&vec![frames[1].clone()]).unwrap();
    assert_eq!(second.unwrap(), b"two".to_vec());
}

#[test]
fn catalog_bootstrap_skips_existing() {
    let names = vec![b"x".to_vec(), b"y".to_vec(), b"z".to_vec()];
    let existing = vec![b"y".to_vec()];
    let fresh = catalog_new_names(&names, &existing);
    assert_eq!(fresh, vec![b"x".to_vec(), b"z".to_vec()]);
}

#[test]
fn parse_buf_splits_at_first_delimiter() {
    let (name, rest) = parse_buf("novel;contents;more").unwrap();
    assert_eq!(name, "novel");
    assert_eq!(rest, ";contents;more");
    assert_eq!(parse_buf("no delimiter"), Err(ProtoError::MissingDelimiter));
}

#[test]
fn parse_notification_extracts_the_name() {
    let name = b"novel";
    let nb = 6 + name.len();
    let mut buf = vec![];
    buf.extend_from_slice(&(nb as u32).to_le_bytes());
    buf.push(ZBOOK_READ_NOTIFY);
    buf.push(NOTIFY_PAD);
    buf.extend_from_slice(name);
    let got = parse_notification(&buf, nb).unwrap();
    assert_eq!(got, name.to_vec());
}

#[test]
fn parse_notification_rejects_bad_length() {
    let mut buf = vec![];
    buf.extend_from_slice(&99u32.to_le_bytes());
    buf.push(ZBOOK_READ_NOTIFY);
    buf.push(NOTIFY_PAD);
    buf.extend_from_slice(b"n");
    assert_eq!(parse_notification(&buf, 7), Err(ProtoError::MalformedHeader));
}

#[test]
fn strip_dir_prefix_relativizes() {
    assert_eq!(strip_dir_prefix("/state/a/b", "/state"), Some("a/b"));
    assert_eq!(strip_dir_prefix("/state", "/state"), None);
    assert_eq!(strip_dir_prefix("/other/a", "/state"), None);
    assert_eq!(strip_dir_prefix("/state/", "/state"), None);
}
