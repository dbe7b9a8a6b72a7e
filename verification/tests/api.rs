use mem_stream::api::{
    add_entry, add_range_entries, create_group, drop_entries, drop_group, group_stats, health,
    kv_del, kv_flush, kv_get, kv_keys, kv_set, kv_set_request, list_flush, list_groups, list_len,
    list_pop, list_pop_count, list_pop_count_request, list_pop_range, list_pop_range_request,
    list_push, list_push_range, list_push_range_request, list_push_request, read_entry,
    read_range_entries, unavailable, Body, HttpReply,
};
use mem_stream::payload::encode_payload_b64;

fn status(r: HttpReply) -> String {
    assert_eq!(r.code, 200);
    match r.body {
        Body::Status(s) => s,
        _ => panic!("another body"),
    }
}

fn error(r: HttpReply) -> (u16, String) {
    match r.body {
        Body::Error(s) => (r.code, s),
        _ => panic!("another body"),
    }
}

#[test]
fn what_is_done_is_told() {
    assert_eq!(status(create_group(Ok(Ok(())))), "group created");
    assert_eq!(status(drop_group(Ok(Ok(())))), "group dropped");
    assert_eq!(status(drop_entries(Ok(Ok(())), 12)), "entries dropped up to id 12");
    assert_eq!(status(kv_set(Ok(Ok(())))), "ok");
    assert_eq!(status(kv_del(Ok(Ok(())))), "deleted");
    assert_eq!(status(kv_flush(Ok(Ok(())))), "flushed");
    assert_eq!(status(list_push(Ok(Ok(())))), "ok");
    assert_eq!(status(list_push_range(Ok(Ok(())))), "ok");
    assert_eq!(status(list_flush(Ok(Ok(())))), "flushed");
    assert_eq!(status(health()), "ok");
}

#[test]
fn a_refusal_is_a_bad_request_and_a_fault_is_internal() {
    let no = || "no".to_string();
    assert_eq!(error(create_group(Ok(Err(no())))), (400, no()));
    assert_eq!(error(list_groups(Err(no()))), (500, no()));
    assert_eq!(error(add_entry(Ok(Err(no())))), (400, no()));
    assert_eq!(error(read_entry(Err(no())).unwrap()), (500, no()));
    assert_eq!(error(read_range_entries(Ok(Err(no()))).unwrap()), (400, no()));
    assert_eq!(error(kv_get(Ok(Err(no())))), (400, no()));
    assert_eq!(error(list_pop(Err(no()))), (500, no()));
    assert_eq!(error(list_pop_count(Ok(Err(no())))), (400, no()));
    assert_eq!(error(unavailable(no())), (500, no()));
    assert_eq!(error(kv_get(Ok(Ok(None)))), (404, "key not found".to_string()));
    assert_eq!(error(list_pop(Ok(Ok(None)))), (404, "list empty or not found".to_string()));
}

#[test]
fn what_is_found_is_told() {
    assert!(matches!(list_groups(Ok(Ok(vec!["g".to_string()]))).body, Body::Groups(g) if g == ["g"]));
    assert!(matches!(
        group_stats(Ok(Ok((1, 2, 3)))).body,
        Body::Stats { entries: 1, segments: 2, next_id: 3 }
    ));
    assert!(matches!(add_entry(Ok(Ok(5))).body, Body::Added { id: 5 }));
    assert!(matches!(
        add_range_entries(Ok(Ok((5, 6)))).body,
        Body::AddedRange { first: 5, last: 6 }
    ));
    assert!(matches!(kv_get(Ok(Ok(Some(b"1".to_vec())))).body, Body::Document(d) if d == b"1"));
    assert!(matches!(kv_keys(Ok(Ok(vec!["k".to_string()]))).body, Body::Keys(k) if k == ["k"]));
    assert!(matches!(list_pop(Ok(Ok(Some(b"a\xff".to_vec())))).body, Body::Text(t) if t == "a\u{fffd}"));
    assert!(matches!(
        list_pop_range(Ok(Ok(vec![b"a".to_vec(), b"b".to_vec()]))).body,
        Body::Texts(t) if t == ["a", "b"]
    ));
    assert!(matches!(list_len(Ok(Ok(4))).body, Body::Len(4)));
}

#[test]
fn entries_are_shown_with_their_documents() {
    let doc = encode_payload_b64("{\"a\":1}").unwrap();
    let r = read_entry(Ok(Ok((3, 0, doc.clone())))).unwrap();
    assert!(matches!(r.body, Body::Entry { id: 3, timestamp, payload }
        if timestamp == "1970-01-01 03:30:00" && payload == b"{\"a\":1}"));
    let r = read_range_entries(Ok(Ok(vec![(3, 9, doc.clone())]))).unwrap();
    assert!(matches!(r.body, Body::Entries(v)
        if v.len() == 1 && v[0].id == 3 && v[0].timestamp == 9 && v[0].payload == b"{\"a\":1}"));
    assert!(read_entry(Ok(Ok((3, 0, b"raw".to_vec())))).is_none());
    assert!(read_range_entries(Ok(Ok(vec![(1, 1, doc), (3, 0, b"raw".to_vec())]))).is_none());
}

#[test]
fn requests_need_their_fields() {
    assert_eq!(kv_set_request(Some(5), Some(b"v".to_vec())).unwrap(), (b"v".to_vec(), 5));
    assert_eq!(kv_set_request(None, Some(b"v".to_vec())).unwrap(), (b"v".to_vec(), 0));
    assert_eq!(error(kv_set_request(None, None).unwrap_err()), (400, "missing val".to_string()));
    assert_eq!(list_push_request(Some("\u{e9}".to_string())).unwrap(), "\u{e9}".as_bytes());
    assert_eq!(error(list_push_request(None).unwrap_err()), (400, "missing val".to_string()));
    assert_eq!(
        list_push_range_request(Some(vec!["a".to_string()])).unwrap(),
        vec![b"a".to_vec()]
    );
    assert_eq!(
        error(list_push_range_request(None).unwrap_err()),
        (400, "missing vals".to_string())
    );
    assert_eq!(list_pop_range_request(Some(1), Some((1 << 32) + 2)).unwrap(), (1, 2));
    assert_eq!(
        error(list_pop_range_request(None, Some(1)).unwrap_err()),
        (400, "missing start".to_string())
    );
    assert_eq!(
        error(list_pop_range_request(Some(1), None).unwrap_err()),
        (400, "missing end".to_string())
    );
    assert_eq!(list_pop_count_request(Some(3)).unwrap(), 3);
    assert_eq!(
        error(list_pop_count_request(None).unwrap_err()),
        (400, "missing count".to_string())
    );
}
