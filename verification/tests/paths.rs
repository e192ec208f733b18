use gallerina::paths::{beneath_prefix, fullpath, is_current_dir, push, subpath};

#[test]
fn subpath_of_the_root_name_is_the_directory_itself() {
    assert_eq!(subpath("/", "."), "/");
    assert_eq!(subpath("/folderB", "."), "/folderB");
}

#[test]
fn subpath_adds_a_separator_only_where_one_is_missing() {
    assert_eq!(subpath("/", "folderA"), "/folderA");
    assert_eq!(subpath("/folderB", "sub"), "/folderB/sub");
    assert_eq!(subpath("/folderB/sub", "sub"), "/folderB/sub/sub");
    assert_eq!(subpath("/folderB/", "sub"), "/folderB/sub");
    assert_eq!(subpath("", "sub"), "sub");
}

#[test]
fn subpath_of_a_rooted_name_is_that_name() {
    assert_eq!(subpath("/folderB", "/other"), "/other");
}

#[test]
fn subpath_of_an_empty_name_ends_in_a_separator() {
    assert_eq!(subpath("/folderB", ""), "/folderB/");
}

#[test]
fn push_extends_in_place() {
    let mut p = String::from("/a");
    push(&mut p, "b.jpg");
    assert_eq!(p, "/a/b.jpg");
    push(&mut p, "/c");
    assert_eq!(p, "/c");
}

#[test]
fn fullpath_puts_a_catalog_path_below_the_root() {
    assert_eq!(fullpath("/data/media", "/folderA/deer.jpg"), "/data/media/folderA/deer.jpg");
    assert_eq!(fullpath("/data/media/", "/photo.jpg"), "/data/media/photo.jpg");
    assert_eq!(fullpath("../test/gallery0", "/photo.jpg"), "../test/gallery0/photo.jpg");
}

#[test]
fn fullpath_takes_a_path_without_leading_separator_as_it_is() {
    assert_eq!(fullpath("/data", "a/b.png"), "/data/a/b.png");
}

#[test]
fn fullpath_drops_every_leading_separator() {
    assert_eq!(fullpath("/data", "//a.png"), "/data/a.png");
    assert_eq!(fullpath("/data", "/"), "/data/");
}

#[test]
fn only_a_single_dot_is_the_current_directory() {
    assert!(is_current_dir("."));
    assert!(!is_current_dir(".."));
    assert!(!is_current_dir(""));
    assert!(!is_current_dir("a"));
    assert!(!is_current_dir("./"));
}

#[test]
fn what_lies_below_a_folder_starts_with_its_path_and_a_separator() {
    assert_eq!(beneath_prefix("/folderA"), "/folderA/");
    assert_eq!(beneath_prefix("/folderB/sub"), "/folderB/sub/");
    assert!(!"/folderAB/x.jpg".starts_with(beneath_prefix("/folderA").as_str()));
    assert!(!"/folderA.jpg".starts_with(beneath_prefix("/folderA").as_str()));
    assert!("/folderA/x.jpg".starts_with(beneath_prefix("/folderA").as_str()));
}
