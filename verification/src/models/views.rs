//! Projections of catalog rows, as the catalog's queries return them.
use vstd::prelude::*;

verus! {

/// A media file of one folder together with the size of the whole result.
#[derive(Debug)]
pub struct MediaData {
    pub name: String,
    pub total: i64,
}

/// A media file below a folder, with the folder that holds it and the size
/// of the whole result.
#[derive(Debug)]
pub struct MediaDataDir {
    pub dir: String,
    pub name: String,
    pub total: i64,
}

/// A subfolder and, where it has one, the first of its media files.
#[derive(Debug)]
pub struct FolderData {
    pub name: String,
    pub media: Option<String>,
}

/// Name and modification time of a catalogued subfolder.
#[derive(Debug)]
pub struct FolderScan {
    pub name: String,
    pub mtime: i64,
}

/// Name and modification time of a catalogued media file.
#[derive(Debug)]
pub struct MediaScan {
    pub name: String,
    pub mtime: i64,
}

} // verus!
