//! Answers sent to clients.
use vstd::prelude::*;
use crate::models::views::FolderData;
use crate::scanner::{Reply, State, Stats};

verus! {

/// A media file of the listed folder.
#[derive(Debug)]
pub struct MediaData {
    pub name: String,
}

/// A media file below the listed folder, with the folder that holds it.
#[derive(Debug)]
pub struct MediaDataDir {
    pub dir: String,
    pub name: String,
}

/// One page of a folder's content.
#[derive(Debug)]
pub struct Folder {
    pub media: Vec<MediaData>,
    pub folders: Vec<FolderData>,
    pub page: usize,
    pub page_size: usize,
    pub total: usize,
}

/// One page of everything below a folder.
#[derive(Debug)]
pub struct FolderRecursive {
    pub media: Vec<MediaDataDir>,
    pub page: usize,
    pub page_size: usize,
    pub total: usize,
}

/// The answer to a request to run or to stop.
#[derive(Debug)]
pub struct ScannerReply {
    pub reply: Reply,
}

/// Where the indexing stands.
#[derive(Debug)]
pub struct Status {
    pub root: String,
    pub stats: Stats,
    pub scanner_state: State,
}

} // verus!
