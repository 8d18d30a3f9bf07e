use threadboard::codec::{decode_post, encode_post};
use threadboard::post::Post;

fn sample_post_full() -> Post {
    Post {
        id: b"11111111-2222-3333-4444-555555555555".to_vec(),
        parent_id: Some(b"aaaaaaaa-bbbb-cccc-dddd-eeeeeeeeeeee".to_vec()),
        title: b"a title".to_vec(),
        message: b"a message body".to_vec(),
        file: Some(b"f.jpg".to_vec()),
        timestamp: 1700000000,
    }
}

fn sample_post_bare() -> Post {
    Post {
        id: b"id-only".to_vec(),
        parent_id: None,
        title: b"".to_vec(),
        message: b"hello".to_vec(),
        file: None,
        timestamp: 0,
    }
}

fn push_le64(out: &mut Vec<u8>, n: u64) {
    out.extend_from_slice(&n.to_le_bytes());
}

fn push_field(out: &mut Vec<u8>, b: &[u8]) {
    push_le64(out, b.len() as u64);
    out.extend_from_slice(b);
}

fn push_opt(out: &mut Vec<u8>, o: Option<&[u8]>) {
    match o {
        None => out.push(0),
        Some(b) => {
            out.push(1);
            push_field(out, b);
        }
    }
}

#[test]
fn round_trip_all_fields() {
    let p = sample_post_full();
    let bytes = encode_post(&p);
    let q = decode_post(&bytes).expect("record should decode");
    assert_eq!(q.id, p.id);
    assert_eq!(q.parent_id, p.parent_id);
    assert_eq!(q.title, p.title);
    assert_eq!(q.message, p.message);
    assert_eq!(q.file, p.file);
    assert_eq!(q.timestamp, p.timestamp);
}

#[test]
fn round_trip_absent_fields() {
    let p = sample_post_bare();
    let bytes = encode_post(&p);
    let q = decode_post(&bytes).expect("record should decode");
    assert_eq!(q.id, p.id);
    assert_eq!(q.parent_id, None);
    assert_eq!(q.title, p.title);
    assert_eq!(q.message, p.message);
    assert_eq!(q.file, None);
    assert_eq!(q.timestamp, 0);
}

#[test]
fn legacy_record_defaults_timestamp() {
    // A record written before the timestamp field existed: version byte 1,
    // the five fields, and nothing after them.
    let mut bytes = vec![1u8];
    push_field(&mut bytes, b"old-id");
    push_opt(&mut bytes, Some(b"old-parent"));
    push_field(&mut bytes, b"old title");
    push_field(&mut bytes, b"old message");
    push_opt(&mut bytes, None);
    let q = decode_post(&bytes).expect("legacy record should decode");
    assert_eq!(q.id, b"old-id".to_vec());
    assert_eq!(q.parent_id, Some(b"old-parent".to_vec()));
    assert_eq!(q.title, b"old title".to_vec());
    assert_eq!(q.message, b"old message".to_vec());
    assert_eq!(q.file, None);
    assert_eq!(q.timestamp, 0);
}

#[test]
fn current_record_layout_is_stable() {
    // The wire format starts with the version byte, then the id with its
    // little-endian length prefix.
    let p = sample_post_bare();
    let bytes = encode_post(&p);
    assert_eq!(bytes[0], 2);
    assert_eq!(&bytes[1..9], &(p.id.len() as u64).to_le_bytes());
    assert_eq!(&bytes[9..9 + p.id.len()], p.id.as_slice());
}

#[test]
fn corrupt_record_decodes_none() {
    assert!(decode_post(&vec![]).is_none());
    assert!(decode_post(&b"not a record".to_vec()).is_none());
    // Truncated: claims an eight-byte id but ends early.
    let mut bytes = vec![2u8];
    push_le64(&mut bytes, 8);
    bytes.push(b'x');
    assert!(decode_post(&bytes).is_none());
}

#[test]
fn unknown_version_rejected() {
    let p = sample_post_bare();
    let mut bytes = encode_post(&p);
    bytes[0] = 7;
    assert!(decode_post(&bytes).is_none());
}

#[test]
fn trailing_bytes_rejected() {
    let p = sample_post_full();
    let mut bytes = encode_post(&p);
    bytes.push(0);
    assert!(decode_post(&bytes).is_none());
}
