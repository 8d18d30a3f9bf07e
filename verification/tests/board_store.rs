use threadboard::repo::{create, get_thread, list_top_level, redirect_target, BoardError};

fn temp_db() -> sled::Db {
    sled::Config::new().temporary(true).open().expect("temporary store")
}

#[test]
fn create_and_read_back_a_thread() {
    let mut db = temp_db();
    let op = create(&mut db, b"hello".to_vec(), b"first post".to_vec(), None, None, 5)
        .expect("create op");
    assert_eq!(redirect_target(&op), &op.id);
    let reply = create(
        &mut db,
        b"re".to_vec(),
        b"first reply".to_vec(),
        Some(op.id.clone()),
        None,
        20,
    )
    .expect("create reply");
    assert_eq!(redirect_target(&reply), &op.id);
    let (found, replies) = get_thread(&db, &op.id).expect("thread exists");
    assert_eq!(found.id, op.id);
    assert_eq!(found.title, b"hello".to_vec());
    // The reply bumped the OP's timestamp to the reply's time.
    assert_eq!(found.timestamp, 20);
    assert_eq!(replies.len(), 1);
    assert_eq!(replies[0].message, b"first reply".to_vec());
    assert_eq!(replies[0].timestamp, 20);
}

#[test]
fn listing_order_follows_bumps() {
    // OPs A(ts=5), B(ts=15); a reply bumps A to 20, so the listing shows
    // A before B.
    let mut db = temp_db();
    let a = create(&mut db, b"A".to_vec(), b"a".to_vec(), None, None, 5).expect("create A");
    let _b = create(&mut db, b"B".to_vec(), b"b".to_vec(), None, None, 15).expect("create B");
    let _r = create(&mut db, b"re".to_vec(), b"r".to_vec(), Some(a.id.clone()), None, 20)
        .expect("create reply");
    let (page, has_prev, has_next) = list_top_level(&db, 0, 10).expect("list");
    let titles: Vec<Vec<u8>> = page.iter().map(|p| p.title.clone()).collect();
    assert_eq!(titles, vec![b"A".to_vec(), b"B".to_vec()]);
    assert!(!has_prev);
    assert!(!has_next);
}

#[test]
fn bump_tracks_the_latest_reply() {
    let mut db = temp_db();
    let op = create(&mut db, b"op".to_vec(), b"m".to_vec(), None, None, 3).expect("create op");
    for now in [6u64, 7, 9] {
        create(&mut db, b"re".to_vec(), b"r".to_vec(), Some(op.id.clone()), None, now)
            .expect("create reply");
    }
    let (found, replies) = get_thread(&db, &op.id).expect("thread exists");
    assert_eq!(found.timestamp, 9);
    assert_eq!(replies.len(), 3);
}

#[test]
fn get_thread_unknown_id_is_not_found() {
    let db = temp_db();
    let r = get_thread(&db, &b"nothing-here".to_vec());
    assert!(matches!(r, Err(BoardError::NotFound)));
}

#[test]
fn dangling_reply_is_stored_without_a_bump() {
    let mut db = temp_db();
    let op = create(&mut db, b"op".to_vec(), b"m".to_vec(), None, None, 5).expect("create op");
    // A reply naming a parent that does not exist is stored; no error,
    // no bump anywhere.
    let dangling = create(
        &mut db,
        b"re".to_vec(),
        b"r".to_vec(),
        Some(b"no-such-parent".to_vec()),
        None,
        50,
    )
    .expect("dangling reply stored");
    let (found, replies) = get_thread(&db, &dangling.id).expect("the record itself is readable");
    assert_eq!(found.timestamp, 50);
    assert!(replies.is_empty());
    let (op_found, op_replies) = get_thread(&db, &op.id).expect("op still there");
    assert_eq!(op_found.timestamp, 5);
    assert!(op_replies.is_empty());
}

#[test]
fn replies_do_not_appear_in_the_listing() {
    let mut db = temp_db();
    let op = create(&mut db, b"op".to_vec(), b"m".to_vec(), None, None, 5).expect("create op");
    create(&mut db, b"re".to_vec(), b"r".to_vec(), Some(op.id.clone()), None, 6)
        .expect("create reply");
    let (page, _, _) = list_top_level(&db, 0, 10).expect("list");
    assert_eq!(page.len(), 1);
    assert_eq!(page[0].id, op.id);
}

#[test]
fn corrupt_stored_records_are_skipped() {
    let mut db = temp_db();
    create(&mut db, b"op".to_vec(), b"m".to_vec(), None, None, 5).expect("create op");
    db.insert(b"junk-key", b"junk-value".to_vec()).expect("raw insert");
    db.flush().expect("flush");
    let (page, _, _) = list_top_level(&db, 0, 10).expect("list survives corruption");
    assert_eq!(page.len(), 1);
    let r = get_thread(&db, &b"junk-key".to_vec());
    assert!(matches!(r, Err(BoardError::NotFound)));
}

#[test]
fn attachment_filename_travels_through_the_store() {
    let mut db = temp_db();
    let op = create(
        &mut db,
        b"op".to_vec(),
        b"m".to_vec(),
        None,
        Some(b"pic.webp".to_vec()),
        5,
    )
    .expect("create op");
    let (found, _) = get_thread(&db, &op.id).expect("thread exists");
    assert_eq!(found.file, Some(b"pic.webp".to_vec()));
    assert!(found.is_image());
}

#[test]
fn fresh_ids_differ_between_posts() {
    let mut db = temp_db();
    let a = create(&mut db, b"a".to_vec(), b"m".to_vec(), None, None, 1).expect("create");
    let b = create(&mut db, b"b".to_vec(), b"m".to_vec(), None, None, 2).expect("create");
    assert_ne!(a.id, b.id);
    assert_eq!(a.id.len(), 36);
}
