//! Flashblock frames.
use arb::live::base::flashblocks::{
    decode_frame, parse_hex, place_frame, BaseFlashblocksSource, Flashblock, MockPreconf, Scalar,
};
use arb::live::base::probe::{describe_frame, opening, report_text, Findings, FrameReport};

fn compressed(text: &str) -> Vec<u8> {
    let mut out = Vec::new();
    let params = brotli::enc::BrotliEncoderParams::default();
    brotli::BrotliCompress(&mut text.as_bytes(), &mut out, &params).unwrap();
    out
}

#[test]
fn a_plain_frame_is_decoded() {
    let text = r#" {"payload_id":"0x1","index":3,"metadata":{"block_number":4242}}"#;
    assert_eq!(decode_frame(text.as_bytes()), Some((4242, 3)));
}

#[test]
fn a_compressed_frame_is_decoded() {
    let text = r#"{"index":7,"metadata":{"block_number":99,"receipts":{}}}"#;
    let bytes = compressed(text);
    assert_ne!(bytes, text.as_bytes());
    assert_eq!(decode_frame(&bytes), Some((99, 7)));
}

#[test]
fn the_first_frame_of_a_block_has_a_hexadecimal_number() {
    let text = r#"{"index":0,"base":{"block_number":"0x1f4"}}"#;
    assert_eq!(decode_frame(text.as_bytes()), Some((500, 0)));
    // The metadata counts before the base.
    let both = r#"{"index":0,"base":{"block_number":"0x1f4"},"metadata":{"block_number":501}}"#;
    assert_eq!(decode_frame(both.as_bytes()), Some((501, 0)));
    // The forms may change places.
    let swapped = r#"{"index":1,"base":{"block_number":8},"metadata":{"block_number":"zz"}}"#;
    assert_eq!(decode_frame(swapped.as_bytes()), Some((8, 1)));
}

#[test]
fn nothing_comes_of_other_frames() {
    assert_eq!(decode_frame(b""), None);
    assert_eq!(decode_frame(b"ping"), None);
    assert_eq!(decode_frame(&[0xff, 0xfe, 0x00]), None);
    assert_eq!(decode_frame(b"{not json"), None);
    assert_eq!(decode_frame(br#"{"index":1}"#), None);
    assert_eq!(decode_frame(br#"{"metadata":{"block_number":1}}"#), None);
    assert_eq!(decode_frame(br#"{"index":"1","metadata":{"block_number":1}}"#), None);
    assert_eq!(decode_frame(br#"{"index":-1,"metadata":{"block_number":1}}"#), None);
    assert_eq!(decode_frame(br#"{"index":1,"metadata":{"block_number":1.5}}"#), None);
    assert_eq!(decode_frame(&compressed("[1,2]")), None);
}

#[test]
fn hexadecimal_numbers() {
    assert_eq!(parse_hex("0x0"), Some(0));
    assert_eq!(parse_hex("0xDeadBeef"), Some(0xdead_beef));
    assert_eq!(parse_hex("ff"), Some(255));
    assert_eq!(parse_hex("0x0x10"), Some(16));
    assert_eq!(parse_hex("0x+a"), Some(10));
    assert_eq!(parse_hex("0xffffffffffffffff"), Some(u64::MAX));
    assert_eq!(parse_hex("0x10000000000000000"), None);
    assert_eq!(parse_hex("0x"), None);
    assert_eq!(parse_hex("+"), None);
    assert_eq!(parse_hex(""), None);
    assert_eq!(parse_hex("-1"), None);
    assert_eq!(parse_hex("0X1"), None);
}

#[test]
fn the_first_place_that_holds_a_number_counts() {
    let whole = |n: u64| Some(Scalar::Whole(n));
    let text = |s: &str| Some(Scalar::Text(s.to_string()));
    assert_eq!(place_frame(whole(2), whole(9), whole(8)), Some((9, 2)));
    assert_eq!(place_frame(whole(2), None, text("0x10")), Some((16, 2)));
    assert_eq!(place_frame(whole(2), Some(Scalar::Other), whole(8)), Some((8, 2)));
    assert_eq!(place_frame(whole(2), Some(Scalar::Other), None), None);
    assert_eq!(place_frame(text("2"), whole(9), None), None);
    assert_eq!(place_frame(None, whole(9), None), None);
}

#[test]
fn sources_keep_what_they_are_made_of() {
    let mock = MockPreconf::new(vec![Flashblock { block: 5, index: 1, events: Vec::new() }]);
    assert_eq!(mock.batches.len(), 1);
    assert_eq!((mock.batches[0].block, mock.batches[0].index), (5, 1));
    let source = BaseFlashblocksSource::new(BaseFlashblocksSource::DEFAULT_URL.to_string());
    assert_eq!(source.url, "wss://mainnet.flashblocks.base.org/ws");
}

#[test]
fn a_frame_is_described() {
    let text = r#"{"index":3,"metadata":{"block_number":42,"receipts":null},"diff":{"transactions":["a","b"],"block_number":41}}"#;
    let pretty = "{\n  \"index\": 3";
    for bytes in [text.as_bytes().to_vec(), compressed(text)] {
        match describe_frame(&bytes) {
            FrameReport::Frame { mut keys, index, block, receipts, txs, pretty: shown } => {
                keys.sort();
                assert_eq!(keys, vec!["diff", "index", "metadata"]);
                assert_eq!((index, block, receipts, txs), (Some(3), Some(42), true, Some(2)));
                assert!(shown.contains(&pretty[4..]) && shown.contains('\n'));
            }
            other => panic!("{other:?}"),
        }
    }
    // The diff's block stands in for the metadata's; no receipts, no transactions.
    match describe_frame(br#"{"diff":{"block_number":41,"transactions":7}}"#) {
        FrameReport::Frame { index, block, receipts, txs, .. } => {
            assert_eq!((index, block, receipts, txs), (None, Some(41), false, None));
        }
        other => panic!("{other:?}"),
    }
    // A document that is no object has no keys.
    match describe_frame(&compressed("[1]")) {
        FrameReport::Frame { keys, pretty, .. } => {
            assert!(keys.is_empty());
            assert_eq!(pretty, "[\n  1\n]");
        }
        other => panic!("{other:?}"),
    }
}

#[test]
fn what_is_no_frame_is_described_too() {
    match describe_frame(b"{\"index\": \xc3\xa9") {
        FrameReport::BadJson { len, error } => {
            assert_eq!(len, 12);
            assert!(!error.is_empty());
        }
        other => panic!("{other:?}"),
    }
    let junk: Vec<u8> = (0..40).map(|i| 0xff - i).collect();
    assert_eq!(
        describe_frame(&junk),
        FrameReport::Undecodable { len: 40, first: junk[..16].to_vec() }
    );
    // Compressed bytes that are no text are shown with replacement characters.
    let mut out = Vec::new();
    let params = brotli::enc::BrotliEncoderParams::default();
    brotli::BrotliCompress(&mut &[0xffu8, 0x41][..], &mut out, &params).unwrap();
    match describe_frame(&out) {
        FrameReport::BadJson { len, .. } => assert_eq!(len, 4),
        other => panic!("{other:?}"),
    }
}

#[test]
fn reports_follow_what_was_found() {
    let found = |fault: Option<&str>, metadata: Option<Scalar>| Findings {
        fault: fault.map(|s| s.to_string()),
        keys: None,
        index: Some(Scalar::Text("3".to_string())),
        metadata_block: metadata,
        diff_block: Some(Scalar::Whole(5)),
        receipts: Some(Scalar::Other),
        transactions: Some(0),
        pretty: None,
    };
    assert_eq!(
        report_text("é", found(Some("bad"), None)),
        FrameReport::BadJson { len: 2, error: "bad".to_string() }
    );
    let frame = |block: u64| FrameReport::Frame {
        keys: vec![],
        index: None,
        block: Some(block),
        receipts: true,
        txs: Some(0),
        pretty: "t".to_string(),
    };
    assert_eq!(report_text("t", found(None, Some(Scalar::Whole(6)))), frame(6));
    assert_eq!(report_text("t", found(None, Some(Scalar::Text("6".to_string())))), frame(5));
}

#[test]
fn an_opening_ends_at_a_whole_character() {
    assert_eq!(opening("abc", 2048), "abc");
    assert_eq!(opening("abc", 2), "ab");
    assert_eq!(opening("aé", 2), "a");
    assert_eq!(opening("aé", 3), "aé");
    assert_eq!(opening("é", 0), "");
}
