use threadboard::codec::encode_post;
use threadboard::post::Post;
use threadboard::repo::{bytes_eq, page_query, redirect_target, thread_query};

fn post(id: &[u8], parent: Option<&[u8]>, message: &[u8], ts: u64) -> Post {
    Post {
        id: id.to_vec(),
        parent_id: parent.map(|p| p.to_vec()),
        title: b"t".to_vec(),
        message: message.to_vec(),
        file: None,
        timestamp: ts,
    }
}

fn record_of(p: &Post) -> (Vec<u8>, Vec<u8>) {
    (p.id.clone(), encode_post(p))
}

#[test]
fn reply_ordering_is_chronological() {
    // Replies submitted in creation order with timestamps 30, 10, 20 come
    // back sorted ascending: 10, 20, 30.
    let op = post(b"op", None, b"the op", 1);
    let r1 = post(b"r1", Some(b"op"), b"thirty", 30);
    let r2 = post(b"r2", Some(b"op"), b"ten", 10);
    let r3 = post(b"r3", Some(b"op"), b"twenty", 20);
    let records = vec![record_of(&op), record_of(&r1), record_of(&r2), record_of(&r3)];
    let (found, replies) = thread_query(&records, &b"op".to_vec()).expect("thread exists");
    assert_eq!(found.id, b"op".to_vec());
    let stamps: Vec<u64> = replies.iter().map(|r| r.timestamp).collect();
    assert_eq!(stamps, vec![10, 20, 30]);
    assert_eq!(replies[0].message, b"ten".to_vec());
    assert_eq!(replies[2].message, b"thirty".to_vec());
}

#[test]
fn thread_query_unknown_id_is_none() {
    let op = post(b"op", None, b"m", 1);
    let records = vec![record_of(&op)];
    assert!(thread_query(&records, &b"missing".to_vec()).is_none());
}

#[test]
fn thread_query_skips_undecodable_records() {
    let op = post(b"op", None, b"m", 1);
    let r1 = post(b"r1", Some(b"op"), b"reply", 5);
    let records = vec![
        record_of(&op),
        (b"junk".to_vec(), b"not a record".to_vec()),
        record_of(&r1),
    ];
    let (_, replies) = thread_query(&records, &b"op".to_vec()).expect("thread exists");
    assert_eq!(replies.len(), 1);
}

#[test]
fn reply_to_a_reply_is_not_in_the_op_thread() {
    // Flat threading: a record whose parent is a reply's id does not
    // appear in the OP's reply list, and the OP's own list keeps only
    // direct replies.
    let op = post(b"op", None, b"m", 1);
    let r1 = post(b"r1", Some(b"op"), b"direct", 5);
    let nested = post(b"r2", Some(b"r1"), b"nested", 6);
    let records = vec![record_of(&op), record_of(&r1), record_of(&nested)];
    let (_, replies) = thread_query(&records, &b"op".to_vec()).expect("thread exists");
    assert_eq!(replies.len(), 1);
    assert_eq!(replies[0].id, b"r1".to_vec());
    // The nested record still hangs off the reply's own id.
    let (_, nested_replies) = thread_query(&records, &b"r1".to_vec()).expect("reply exists");
    assert_eq!(nested_replies.len(), 1);
    assert_eq!(nested_replies[0].id, b"r2".to_vec());
}

#[test]
fn page_query_keeps_only_top_level_posts_in_bump_order() {
    let a = post(b"a", None, b"a", 20);
    let b = post(b"b", None, b"b", 15);
    let c = post(b"c", None, b"c", 40);
    let r = post(b"r", Some(b"a"), b"r", 99);
    let records = vec![record_of(&a), record_of(&b), record_of(&c), record_of(&r)];
    let (page, has_prev, has_next) = page_query(&records, 0, 10);
    let ids: Vec<Vec<u8>> = page.iter().map(|p| p.id.clone()).collect();
    assert_eq!(ids, vec![b"c".to_vec(), b"a".to_vec(), b"b".to_vec()]);
    assert!(!has_prev);
    assert!(!has_next);
}

#[test]
fn page_query_windows_the_listing() {
    let mut records = Vec::new();
    for i in 0..5u64 {
        let id = vec![b'p', b'0' + i as u8];
        records.push(record_of(&post(&id, None, b"m", 100 - i)));
    }
    let (page0, has_prev0, has_next0) = page_query(&records, 0, 2);
    assert_eq!(page0.len(), 2);
    assert_eq!(page0[0].timestamp, 100);
    assert!(!has_prev0 && has_next0);
    let (page2, has_prev2, has_next2) = page_query(&records, 2, 2);
    assert_eq!(page2.len(), 1);
    assert_eq!(page2[0].timestamp, 96);
    assert!(has_prev2 && !has_next2);
}

#[test]
fn duplicate_id_records_resolve_to_the_last_scanned() {
    let first = post(b"dup", None, b"first", 1);
    let second = post(b"dup", None, b"second", 2);
    let records = vec![record_of(&first), record_of(&second)];
    let (found, _) = thread_query(&records, &b"dup".to_vec()).expect("thread exists");
    assert_eq!(found.message, b"second".to_vec());
}

#[test]
fn redirect_goes_to_parent_for_replies() {
    let op = post(b"op", None, b"m", 1);
    let reply = post(b"r1", Some(b"op"), b"m", 2);
    assert_eq!(redirect_target(&op), &b"op".to_vec());
    assert_eq!(redirect_target(&reply), &b"op".to_vec());
}

#[test]
fn bytes_eq_compares_contents() {
    assert!(bytes_eq(&b"abc".to_vec(), &b"abc".to_vec()));
    assert!(!bytes_eq(&b"abc".to_vec(), &b"abd".to_vec()));
    assert!(!bytes_eq(&b"abc".to_vec(), &b"ab".to_vec()));
    assert!(bytes_eq(&b"".to_vec(), &b"".to_vec()));
}
