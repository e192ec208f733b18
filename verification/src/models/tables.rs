//! Rows of the two catalog tables.
use vstd::prelude::*;

verus! {

/// What an [`Image`] row holds, as mathematical values.
pub struct ImageRow {
    pub path: Seq<char>,
    pub name: Seq<char>,
    pub dir: Seq<char>,
    pub mtime: i64,
    pub timestamp: i64,
}

/// What a [`Folder`] row holds, as mathematical values.
pub struct FolderRow {
    pub path: Seq<char>,
    pub name: Seq<char>,
    pub dir: Option<Seq<char>>,
    pub mtime: i64,
}

/// One media file of the catalog, keyed by `path`.
#[derive(Debug, PartialEq, Eq)]
pub struct Image {
    pub path: String,
    pub name: String,
    pub dir: String,
    pub mtime: i64,
    pub timestamp: i64,
}

/// One folder of the catalog, keyed by `path`. The root has no `dir`.
#[derive(Debug, PartialEq, Eq, Hash, Clone)]
pub struct Folder {
    pub path: String,
    pub name: String,
    pub dir: Option<String>,
    pub mtime: i64,
}

impl View for Image {
    type V = ImageRow;

    open spec fn view(&self) -> ImageRow {
        ImageRow {
            path: self.path@,
            name: self.name@,
            dir: self.dir@,
            mtime: self.mtime,
            timestamp: self.timestamp,
        }
    }
}

impl View for Folder {
    type V = FolderRow;

    open spec fn view(&self) -> FolderRow {
        FolderRow {
            path: self.path@,
            name: self.name@,
            dir: match self.dir {
                Some(d) => Some(d@),
                None => None,
            },
            mtime: self.mtime,
        }
    }
}

} // verus!
