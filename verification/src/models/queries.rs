//! Parameters of client queries.
use vstd::prelude::*;

verus! {

/// Order in which a folder's content is listed.
#[derive(Debug)]
pub enum Sort {
    Name,
    Taken,
    Modified,
    Random,
}

/// Order used when a query names none.
pub fn sort_default() -> (r: Sort)
    ensures
        r is Name,
{
    Sort::Name
}

/// Seed used when a query names none.
pub fn seed_default() -> (r: usize)
    ensures
        r == 0,
{
    0
}

/// Direction used when a query names none.
pub fn reverse_default() -> (r: bool)
    ensures
        r,
{
    true
}

/// Page used when a query names none.
pub fn page_default() -> (r: usize)
    ensures
        r == 0,
{
    0
}

/// Query for the content of one folder.
#[derive(Debug)]
pub struct FolderQuery {
    pub dir: String,
    pub sort: Sort,
    pub seed: usize,
    pub reverse: bool,
    pub page: usize,
}

/// Query for one thumbnail.
#[derive(Debug)]
pub struct ThumbQuery {
    pub path: String,
}

/// Query for one media file.
#[derive(Debug)]
pub struct SrcQuery {
    pub dir: String,
}

} // verus!
