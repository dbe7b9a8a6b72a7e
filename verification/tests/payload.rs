use base64::Engine;
use mem_stream::payload::{
    all_stamped, decode_payload_b64, encode_payload_b64, or_invalid, payload_text, show_time,
    stamp_document, stamp_documents, stamped,
};

#[test]
fn a_document_is_packed_and_unpacked() {
    let doc = "{\"name\":\"\u{6af}\",\"n\":[1,2,3]}";
    let packed = encode_payload_b64(doc).unwrap();
    assert_ne!(packed, doc.as_bytes());
    let text = zstd::decode_all(&packed[..]).unwrap();
    let want = base64::engine::general_purpose::STANDARD.encode(doc.as_bytes());
    assert_eq!(text, want.as_bytes());
    assert_eq!(packed, zstd::encode_all(want.as_bytes(), 3).unwrap());
    assert_eq!(decode_payload_b64(&packed).unwrap(), doc.as_bytes());
}

#[test]
fn what_was_not_packed_is_not_unpacked() {
    assert_eq!(decode_payload_b64(b"no frame"), None);
    let no_base64 = zstd::encode_all(&b"!!!"[..], 3).unwrap();
    assert_eq!(decode_payload_b64(&no_base64), None);
    let no_text = zstd::encode_all(&b"\xff\xfe"[..], 3).unwrap();
    assert_eq!(decode_payload_b64(&no_text), None);
}

#[test]
fn documents_are_stamped() {
    let docs = vec!["1".to_string(), "\"two\"".to_string()];
    let stamped = stamp_documents(&docs).unwrap();
    assert_eq!(stamped.len(), 2);
    for (i, (ts, payload)) in stamped.iter().enumerate() {
        assert!(*ts > 1_700_000_000_000);
        assert_eq!(decode_payload_b64(payload).unwrap(), docs[i].as_bytes());
    }
    let (_, payload) = stamp_document("null").unwrap();
    assert_eq!(decode_payload_b64(&payload).unwrap(), b"null");
}

#[test]
fn times_are_shown_in_tehran() {
    assert_eq!(show_time(0), "1970-01-01 03:30:00");
    assert_eq!(show_time(1_700_000_000_000), "2023-11-15 01:43:20");
    assert_eq!(show_time(i64::MAX as u64), "invalid timestamp");
    assert_eq!(or_invalid(None), "invalid timestamp");
    assert_eq!(or_invalid(Some("x".to_string())), "x");
}

#[test]
fn packing_goes_by_what_the_compression_gives() {
    assert_eq!(payload_text("{}").unwrap(), "e30=");
    assert_eq!(stamped(Some(vec![7]), 12), Some((12, vec![7])));
    assert_eq!(stamped(Some(vec![7]), -1), Some((u64::MAX, vec![7])));
    assert_eq!(stamped(None, 12), None);
    assert_eq!(
        all_stamped(&vec![Some((1, vec![1])), Some((2, vec![]))]),
        Some(vec![(1, vec![1]), (2, vec![])])
    );
    assert_eq!(all_stamped(&vec![Some((1, vec![1])), None]), None);
    assert_eq!(all_stamped(&vec![]), Some(vec![]));
    assert_eq!(stamp_documents(&vec![]), Some(vec![]));
}
