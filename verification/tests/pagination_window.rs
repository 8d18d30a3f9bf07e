use threadboard::pagination::{window, POSTS_PER_PAGE};

#[test]
fn empty_listing_has_empty_first_page() {
    let (start, end, has_prev, has_next) = window(0, 0, 10);
    assert_eq!((start, end), (0, 0));
    assert!(!has_prev);
    assert!(!has_next);
}

#[test]
fn exactly_one_page_shows_everything() {
    let (start, end, has_prev, has_next) = window(10, 0, 10);
    assert_eq!((start, end), (0, 10));
    assert!(!has_prev);
    assert!(!has_next);
}

#[test]
fn one_item_past_a_full_page() {
    let (start, end, has_prev, has_next) = window(11, 0, 10);
    assert_eq!((start, end), (0, 10));
    assert!(!has_prev);
    assert!(has_next);

    let (start, end, has_prev, has_next) = window(11, 1, 10);
    assert_eq!((start, end), (10, 11));
    assert_eq!(end - start, 1);
    assert!(has_prev);
    assert!(!has_next);
}

#[test]
fn page_beyond_the_end_is_empty() {
    let (start, end, has_prev, has_next) = window(5, 3, 10);
    assert_eq!(start, end);
    assert!(has_prev);
    assert!(!has_next);
}

#[test]
fn window_arithmetic_does_not_overflow() {
    let (start, end, has_prev, has_next) = window(5, usize::MAX, 2);
    assert_eq!((start, end), (5, 5));
    assert!(has_prev);
    assert!(!has_next);
}

#[test]
fn default_page_size_is_thirty() {
    assert_eq!(POSTS_PER_PAGE, 30);
}
