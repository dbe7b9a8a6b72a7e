use mem_stream::proto::{parse_command, Command};
use mem_stream::response::{push_byte_field, push_byte_fields, push_str_field, ResponseBuilder};

fn fails(frame: &[u8]) -> &'static str {
    match parse_command(frame) {
        Ok(_) => panic!("a command"),
        Err(e) => e.0,
    }
}

#[test]
fn commands_parse() {
    assert!(matches!(parse_command(b"\x08").unwrap(), Command::ListGroups));
    assert!(matches!(
        parse_command(b"\x01\x02\x00g1").unwrap(),
        Command::CreateGroup { name: "g1" }
    ));
    let mut f = vec![0x03];
    push_str_field(&mut f, "g");
    f.extend_from_slice(&77u64.to_le_bytes());
    push_byte_field(&mut f, b"data");
    assert!(matches!(
        parse_command(&f).unwrap(),
        Command::Add { group: "g", timestamp: 77, payload: b"data" }
    ));
    // What follows the last field is ignored.
    f.push(9);
    assert!(parse_command(&f).is_ok());
}

#[test]
fn broken_frames_are_refused() {
    for n in 0..16 {
        let mut f = vec![0x03];
        push_str_field(&mut f, "g");
        f.extend_from_slice(&77u64.to_le_bytes());
        push_byte_field(&mut f, b"data");
        assert!(parse_command(&f[..n]).is_err());
    }
    assert!(!fails(b"").is_empty());
    assert!(!fails(b"\xff").is_empty());
    assert!(!fails(b"\x01\x02\x00\xff\xfe").is_empty());
    assert_ne!(fails(b"\xff"), fails(b"\x01\x02\x00\xff\xfe"));
}

#[test]
fn replies_have_their_length_in_front() {
    let mut rb = ResponseBuilder::new();
    assert_eq!(rb.ok_empty(), b"\x01\x00\x00\x00\x00");
    assert_eq!(rb.ok_u64(258), b"\x09\x00\x00\x00\x00\x02\x01\x00\x00\x00\x00\x00\x00");
    assert_eq!(rb.ok_bytes(b"xy"), b"\x07\x00\x00\x00\x00\x02\x00\x00\x00xy");
    assert_eq!(rb.err("no"), b"\x05\x00\x00\x00\x01\x02\x00no");
    assert_eq!(
        rb.ok_entry(1, 2, b"p"),
        b"\x16\x00\x00\x00\x00\x01\x00\x00\x00\x00\x00\x00\x00\x02\x00\x00\x00\x00\x00\x00\x00\x01\x00\x00\x00p"
    );
    assert_eq!(rb.ok_string_list(&["a".to_string()]), b"\x08\x00\x00\x00\x00\x01\x00\x00\x00\x01\x00a");
    assert_eq!(
        rb.ok_bytes_list(&[b"a".to_vec(), Vec::new()]),
        b"\x0e\x00\x00\x00\x00\x02\x00\x00\x00\x01\x00\x00\x00a\x00\x00\x00\x00"
    );
    assert_eq!(
        rb.ok_stats(1, 8, 2),
        b"\x15\x00\x00\x00\x00\x01\x00\x00\x00\x00\x00\x00\x00\x08\x00\x00\x00\x02\x00\x00\x00\x00\x00\x00\x00"
    );
    assert_eq!(
        rb.ok_u64_pair(1, 2),
        b"\x11\x00\x00\x00\x00\x01\x00\x00\x00\x00\x00\x00\x00\x02\x00\x00\x00\x00\x00\x00\x00"
    );
    assert_eq!(rb.ok_group_list(vec!["g".to_string()]), b"\x08\x00\x00\x00\x00\x01\x00\x00\x00\x01\x00g");
    assert_eq!(rb.ok_entries(&[]), b"\x05\x00\x00\x00\x00\x00\x00\x00\x00");
}

#[test]
fn byte_fields_have_their_length_in_front() {
    let mut buf = Vec::new();
    push_byte_fields(&mut buf, &[b"ab".to_vec(), Vec::new()]);
    assert_eq!(buf, b"\x02\x00\x00\x00ab\x00\x00\x00\x00");
}
