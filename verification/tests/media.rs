use gallerina::media::{
    extension_of, is_media, media_type_of_extension, same_text, IsMediaError, MediaType,
};

fn kind(path: &str) -> Option<MediaType> {
    match is_media(path) {
        Ok(k) => k,
        Err(IsMediaError::PathEncoding) => panic!("a text path has an encoding"),
    }
}

#[test]
fn the_indexed_extensions_are_media() {
    assert_eq!(kind("photo.jpg"), Some(MediaType::Jpeg));
    assert_eq!(kind("photo.jpeg"), Some(MediaType::Jpeg));
    assert_eq!(kind("photo.jpe"), Some(MediaType::Jpeg));
    assert_eq!(kind("anim.gif"), Some(MediaType::Gif));
    assert_eq!(kind("shot.png"), Some(MediaType::Png));
    assert_eq!(kind("clip.mp4"), Some(MediaType::Mp4));
}

#[test]
fn the_case_of_an_extension_does_not_count() {
    assert_eq!(kind("PHOTO.JPG"), Some(MediaType::Jpeg));
    assert_eq!(kind("shot.PnG"), Some(MediaType::Png));
    assert_eq!(kind("clip.Mp4"), Some(MediaType::Mp4));
}

#[test]
fn other_files_are_no_media() {
    assert_eq!(kind("notes.txt"), None);
    assert_eq!(kind("archive.tar.gz"), None);
    assert_eq!(kind("jpg"), None);
    assert_eq!(kind("photo."), None);
    assert_eq!(kind(""), None);
    assert_eq!(kind("photo.jpg.bak"), None);
    assert_eq!(kind("photo.jxl"), None);
}

#[test]
fn the_extension_is_that_of_the_last_component() {
    assert_eq!(kind("/a/b.d/photo.jpg"), Some(MediaType::Jpeg));
    assert_eq!(kind("/a/b.jpg/photo"), None);
    assert_eq!(kind("/a/b.jpg/"), None);
}

#[test]
fn a_leading_dot_starts_no_extension() {
    assert_eq!(extension_of(".jpg"), None);
    assert_eq!(extension_of("/a/.png"), None);
    assert_eq!(extension_of(".."), None);
    assert_eq!(extension_of(".hidden.jpg"), Some("jpg"));
}

#[test]
fn the_extension_follows_the_last_dot() {
    assert_eq!(extension_of("a.b.c"), Some("c"));
    assert_eq!(extension_of("a."), Some(""));
    assert_eq!(extension_of("a"), None);
    assert_eq!(extension_of("dir.d/a"), None);
    assert_eq!(extension_of("é.ñ"), Some("ñ"));
}

#[test]
fn extensions_are_matched_exactly() {
    assert_eq!(media_type_of_extension("jpg"), Some(MediaType::Jpeg));
    assert_eq!(media_type_of_extension("JPG"), None);
    assert_eq!(media_type_of_extension("jp"), None);
    assert_eq!(media_type_of_extension("mp4"), Some(MediaType::Mp4));
    assert_eq!(media_type_of_extension(""), None);
}

#[test]
fn texts_are_the_same_when_every_character_is() {
    assert!(same_text("abc", "abc"));
    assert!(!same_text("abc", "abd"));
    assert!(!same_text("abc", "ab"));
    assert!(same_text("", ""));
}
