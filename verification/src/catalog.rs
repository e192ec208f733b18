//! The two stores as mathematical values, and the statements that change
//! them.
//!
//! The metadata store holds folder rows and image rows, each keyed by path;
//! the thumbnail store holds bytes keyed by image path. What a statement does
//! to them is defined here, so that the statements which the indexer and the
//! writer emit can be reasoned about.
use vstd::prelude::*;
use vstd::string::*;
use crate::models::tables::{Folder, FolderRow, Image, ImageRow};
use crate::paths::under;

verus! {

/// The views of a sequence of values.
pub open spec fn views<T: View>(v: Seq<T>) -> Seq<T::V> {
    Seq::new(v.len(), |i: int| v[i]@)
}

/// A statement on the metadata store.
#[derive(Debug)]
pub enum Statement {
    /// Adds the row of a folder.
    InsertFolder { path: String, name: String, dir: String, mtime: i64 },
    /// Sets the modification time of a folder.
    UpdateFolder { path: String, mtime: i64 },
    /// Removes the image rows whose path starts with `prefix`.
    DeleteImagesUnder { prefix: String },
    /// Removes the folder rows whose path starts with `prefix`.
    DeleteFoldersUnder { prefix: String },
    /// Removes the row of one folder.
    DeleteFolder { path: String },
    /// Removes the row of one image.
    DeleteImage { path: String },
    /// Adds the row of an image.
    InsertImage { image: Image },
    /// Sets the modification time and the timestamp of an image.
    UpdateImage { path: String, mtime: i64, timestamp: i64 },
}

/// A [`Statement`] as a mathematical value.
pub enum StatementView {
    InsertFolder { path: Seq<char>, name: Seq<char>, dir: Seq<char>, mtime: i64 },
    UpdateFolder { path: Seq<char>, mtime: i64 },
    DeleteImagesUnder { prefix: Seq<char> },
    DeleteFoldersUnder { prefix: Seq<char> },
    DeleteFolder { path: Seq<char> },
    DeleteImage { path: Seq<char> },
    InsertImage { image: ImageRow },
    UpdateImage { path: Seq<char>, mtime: i64, timestamp: i64 },
}

impl View for Statement {
    type V = StatementView;

    open spec fn view(&self) -> StatementView {
        match *self {
            Statement::InsertFolder { path, name, dir, mtime } => StatementView::InsertFolder {
                path: path@,
                name: name@,
                dir: dir@,
                mtime,
            },
            Statement::UpdateFolder { path, mtime } => StatementView::UpdateFolder {
                path: path@,
                mtime,
            },
            Statement::DeleteImagesUnder { prefix } => StatementView::DeleteImagesUnder {
                prefix: prefix@,
            },
            Statement::DeleteFoldersUnder { prefix } => StatementView::DeleteFoldersUnder {
                prefix: prefix@,
            },
            Statement::DeleteFolder { path } => StatementView::DeleteFolder { path: path@ },
            Statement::DeleteImage { path } => StatementView::DeleteImage { path: path@ },
            Statement::InsertImage { image } => StatementView::InsertImage { image: image@ },
            Statement::UpdateImage { path, mtime, timestamp } => StatementView::UpdateImage {
                path: path@,
                mtime,
                timestamp,
            },
        }
    }
}

/// The text of a statement for the metadata store, with a `?` in the place
/// of every value. The values follow in the order of the statement's
/// fields; the statements that remove what lies under a prefix name their
/// one value twice, as `?1`.
pub open spec fn statement_text(s: StatementView) -> Seq<char> {
    match s {
        StatementView::InsertFolder { .. } => "INSERT INTO folder (path, name, dir, mtime) VALUES (?, ?, ?, ?)"@,
        StatementView::UpdateFolder { .. } => "UPDATE folder SET mtime = ?2 WHERE path = ?1"@,
        StatementView::DeleteImagesUnder { .. } => "DELETE FROM image WHERE substr(path, 1, length(?1)) = ?1"@,
        StatementView::DeleteFoldersUnder { .. } => "DELETE FROM folder WHERE substr(path, 1, length(?1)) = ?1"@,
        StatementView::DeleteFolder { .. } => "DELETE FROM folder WHERE path = ?"@,
        StatementView::DeleteImage { .. } => "DELETE FROM image WHERE path = ?"@,
        StatementView::InsertImage { .. } => "INSERT INTO image (path, name, dir, mtime, timestamp) VALUES (?, ?, ?, ?, ?)"@,
        StatementView::UpdateImage { .. } => "UPDATE image SET mtime = ?2, timestamp = ?3 WHERE path = ?1"@,
    }
}

impl Statement {
    /// The text of the statement.
    pub fn sql(&self) -> (r: &'static str)
        ensures
            r@ == statement_text(self@),
    {
        match self {
            Statement::InsertFolder { .. } => {
                "INSERT INTO folder (path, name, dir, mtime) VALUES (?, ?, ?, ?)"
            },
            Statement::UpdateFolder { .. } => "UPDATE folder SET mtime = ?2 WHERE path = ?1",
            Statement::DeleteImagesUnder { .. } => {
                "DELETE FROM image WHERE substr(path, 1, length(?1)) = ?1"
            },
            Statement::DeleteFoldersUnder { .. } => {
                "DELETE FROM folder WHERE substr(path, 1, length(?1)) = ?1"
            },
            Statement::DeleteFolder { .. } => "DELETE FROM folder WHERE path = ?",
            Statement::DeleteImage { .. } => "DELETE FROM image WHERE path = ?",
            Statement::InsertImage { .. } => {
                "INSERT INTO image (path, name, dir, mtime, timestamp) VALUES (?, ?, ?, ?, ?)"
            },
            Statement::UpdateImage { .. } => {
                "UPDATE image SET mtime = ?2, timestamp = ?3 WHERE path = ?1"
            },
        }
    }
}

/// A change of the thumbnail store.
#[derive(Debug)]
pub enum ThumbOp {
    /// Stores `value` under `key`.
    Put { key: String, value: Vec<u8> },
    /// Removes the entry of `key`.
    Delete { key: String },
    /// Removes the entries whose key starts with `prefix`.
    DeleteUnder { prefix: String },
}

/// A [`ThumbOp`] as a mathematical value.
pub enum ThumbOpView {
    Put { key: Seq<char>, value: Seq<u8> },
    Delete { key: Seq<char> },
    DeleteUnder { prefix: Seq<char> },
}

impl View for ThumbOp {
    type V = ThumbOpView;

    open spec fn view(&self) -> ThumbOpView {
        match *self {
            ThumbOp::Put { key, value } => ThumbOpView::Put { key: key@, value: value@ },
            ThumbOp::Delete { key } => ThumbOpView::Delete { key: key@ },
            ThumbOp::DeleteUnder { prefix } => ThumbOpView::DeleteUnder { prefix: prefix@ },
        }
    }
}

/// The metadata store: folder rows and image rows by path.
pub struct Catalog {
    pub folders: Map<Seq<char>, FolderRow>,
    pub images: Map<Seq<char>, ImageRow>,
}

/// The row of the root folder: the path `/`, the name `.`, no parent.
pub open spec fn root_row() -> FolderRow {
    FolderRow { path: seq!['/'], name: seq!['.'], dir: None, mtime: 0 }
}

/// The row of the root folder, which the metadata store holds from the
/// start.
pub fn root_folder() -> (r: Folder)
    ensures
        r@ == root_row(),
{
    proof {
        reveal_strlit("/");
        reveal_strlit(".");
    }
    assert("/"@ =~= seq!['/']);
    assert("."@ =~= seq!['.']);
    Folder { path: String::from_str("/"), name: String::from_str("."), dir: None, mtime: 0 }
}

/// The thumbnail store: bytes by image path.
pub type Thumbs = Map<Seq<char>, Seq<u8>>;

/// `m` without the keys that start with `prefix`.
pub open spec fn without_prefix<V>(m: Map<Seq<char>, V>, prefix: Seq<char>) -> Map<Seq<char>, V> {
    m.restrict(Set::new(|k: Seq<char>| !under(prefix, k)))
}

/// The metadata store after one statement.
pub open spec fn apply(c: Catalog, s: StatementView) -> Catalog {
    match s {
        StatementView::InsertFolder { path, name, dir, mtime } => Catalog {
            folders: c.folders.insert(path, FolderRow { path, name, dir: Some(dir), mtime }),
            ..c
        },
        StatementView::UpdateFolder { path, mtime } => if c.folders.contains_key(path) {
            Catalog {
                folders: c.folders.insert(path, FolderRow { mtime, ..c.folders[path] }),
                ..c
            }
        } else {
            c
        },
        StatementView::DeleteImagesUnder { prefix } => Catalog {
            images: without_prefix(c.images, prefix),
            ..c
        },
        StatementView::DeleteFoldersUnder { prefix } => Catalog {
            folders: without_prefix(c.folders, prefix),
            ..c
        },
        StatementView::DeleteFolder { path } => Catalog { folders: c.folders.remove(path), ..c },
        StatementView::DeleteImage { path } => Catalog { images: c.images.remove(path), ..c },
        StatementView::InsertImage { image } => Catalog {
            images: c.images.insert(image.path, image),
            ..c
        },
        StatementView::UpdateImage { path, mtime, timestamp } => if c.images.contains_key(path) {
            Catalog {
                images: c.images.insert(path, ImageRow { mtime, timestamp, ..c.images[path] }),
                ..c
            }
        } else {
            c
        },
    }
}

/// The metadata store after a sequence of statements, first to last.
pub open spec fn apply_all(c: Catalog, ss: Seq<StatementView>) -> Catalog
    decreases ss.len(),
{
    if ss.len() == 0 {
        c
    } else {
        apply(apply_all(c, ss.drop_last()), ss.last())
    }
}

/// The thumbnail store after one change.
pub open spec fn apply_thumb(t: Thumbs, op: ThumbOpView) -> Thumbs {
    match op {
        ThumbOpView::Put { key, value } => t.insert(key, value),
        ThumbOpView::Delete { key } => t.remove(key),
        ThumbOpView::DeleteUnder { prefix } => without_prefix(t, prefix),
    }
}

/// The thumbnail store after a sequence of changes, first to last.
pub open spec fn apply_thumbs(t: Thumbs, ops: Seq<ThumbOpView>) -> Thumbs
    decreases ops.len(),
{
    if ops.len() == 0 {
        t
    } else {
        apply_thumb(apply_thumbs(t, ops.drop_last()), ops.last())
    }
}

} // verus!
