use threadboard::post::{classify, default_timestamp, MediaKind, Post};

fn post_with_file(file: Option<Vec<u8>>) -> Post {
    Post {
        id: b"p1".to_vec(),
        parent_id: None,
        title: b"t".to_vec(),
        message: b"m".to_vec(),
        file,
        timestamp: 1,
    }
}

#[test]
fn classify_image_extensions() {
    for name in [
        &b"photo.jpg"[..],
        b"photo.jpeg",
        b"photo.png",
        b"anim.gif",
        b"pic.webp",
    ] {
        assert_eq!(classify(&name.to_vec()), MediaKind::Image);
    }
}

#[test]
fn classify_video_extensions() {
    assert_eq!(classify(&b"clip.mp4".to_vec()), MediaKind::Video);
    assert_eq!(classify(&b"clip.webm".to_vec()), MediaKind::Video);
}

#[test]
fn classify_audio_extension() {
    assert_eq!(classify(&b"song.mp3".to_vec()), MediaKind::Audio);
}

#[test]
fn classify_everything_else_is_other() {
    // Every filename maps to exactly one kind; unknown extensions and
    // extensionless names map to Other.
    for name in [
        &b"notes.txt"[..],
        b"archive.tar.gz",
        b"noextension",
        b"",
        b"mp3",
        b"jpg",
        b"song.mp3.bak",
    ] {
        assert_eq!(classify(&name.to_vec()), MediaKind::Other);
    }
}

#[test]
fn classify_is_case_sensitive() {
    assert_eq!(classify(&b"PHOTO.JPG".to_vec()), MediaKind::Other);
    assert_eq!(classify(&b"clip.MP4".to_vec()), MediaKind::Other);
}

#[test]
fn bare_extension_names_classify() {
    // The match is a suffix match: a filename that is exactly one of the
    // extensions still matches it.
    assert_eq!(classify(&b".jpg".to_vec()), MediaKind::Image);
    assert_eq!(classify(&b".mp3".to_vec()), MediaKind::Audio);
}

#[test]
fn post_media_kind_helpers() {
    let img = post_with_file(Some(b"a.webp".to_vec()));
    assert!(img.is_image() && !img.is_video() && !img.is_audio());
    let vid = post_with_file(Some(b"a.webm".to_vec()));
    assert!(vid.is_video() && !vid.is_image() && !vid.is_audio());
    let aud = post_with_file(Some(b"a.mp3".to_vec()));
    assert!(aud.is_audio() && !aud.is_image() && !aud.is_video());
    let other = post_with_file(Some(b"a.pdf".to_vec()));
    assert!(!other.is_image() && !other.is_video() && !other.is_audio());
}

#[test]
fn post_without_file_has_no_media() {
    let p = post_with_file(None);
    assert!(!p.is_image() && !p.is_video() && !p.is_audio());
    assert!(p.file_url().is_none());
}

#[test]
fn file_url_returns_stored_name() {
    let p = post_with_file(Some(b"stored.png".to_vec()));
    assert_eq!(p.file_url().unwrap(), &b"stored.png".to_vec());
}

#[test]
fn default_timestamp_is_zero() {
    assert_eq!(default_timestamp(), 0);
}
