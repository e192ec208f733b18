//! The questions that clients put to the metadata store, as query texts,
//! and what is made of the answers.
use vstd::prelude::*;
use vstd::string::*;
use crate::models::queries::Sort;
use crate::thumb::{decimal, decimal_text};

verus! {

/// Why a thumbnail could not be handed out.
#[derive(Debug)]
pub enum ThumbError {
    /// The thumbnail store failed.
    Heed(String),
    /// The store holds no thumbnail for the path.
    NotFound,
}

/// Settings of the conversion of media for clients.
#[derive(Debug, Clone, Copy, PartialEq, Eq, Structural)]
pub struct Config {
    pub webp_quality: usize,
    pub webp_compression: usize,
}

/// The thumbnail that a lookup found, or the error that there is none.
pub fn thumb_found(found: Option<Vec<u8>>) -> (r: Result<Vec<u8>, ThumbError>)
    ensures
        r == (match found {
            Some(bytes) => Ok::<Vec<u8>, ThumbError>(bytes),
            None => Err::<Vec<u8>, ThumbError>(ThumbError::NotFound),
        }),
{
    match found {
        Some(bytes) => Ok(bytes),
        None => Err(ThumbError::NotFound),
    }
}

/// The query for the names and times of the subfolders of one folder; the
/// folder is its one parameter.
pub fn subfolders_sql() -> (r: &'static str)
    ensures
        r@ == "SELECT name, mtime FROM folder WHERE dir = ?"@,
{
    "SELECT name, mtime FROM folder WHERE dir = ?"
}

/// The query for the names and times of the media of one folder; the
/// folder is its one parameter.
pub fn media_sql() -> (r: &'static str)
    ensures
        r@ == "SELECT name, mtime FROM image WHERE dir = ?"@,
{
    "SELECT name, mtime FROM image WHERE dir = ?"
}

/// The pattern that matches every text that starts with `prefix`.
pub open spec fn like_pattern(prefix: Seq<char>) -> Seq<char> {
    prefix + "%"@
}

/// The pattern for the rows at and under `prefix`.
pub fn like_prefix(prefix: &str) -> (r: String)
    ensures
        r@ == like_pattern(prefix@),
{
    let mut s = String::from_str(prefix);
    s.append("%");
    s
}

/// The column, or the expression, by which media are ordered. The random
/// order hashes the path together with the seed, so that one seed always
/// gives one order.
pub open spec fn media_order(sort: Sort, seed: usize) -> Seq<char> {
    match sort {
        Sort::Name => "path"@,
        Sort::Taken => "timestamp"@,
        Sort::Modified => "mtime"@,
        Sort::Random => "hash("@ + decimal(seed as nat) + " || path)"@,
    }
}

/// The column by which folders are ordered: their time for both orders by
/// time, their name for the rest.
pub open spec fn folder_order(sort: Sort) -> Seq<char> {
    match sort {
        Sort::Name => "folder.name"@,
        Sort::Taken => "folder.mtime"@,
        Sort::Modified => "folder.mtime"@,
        Sort::Random => "folder.name"@,
    }
}

/// The word for the direction of an order.
pub open spec fn direction(reverse: bool) -> Seq<char> {
    if reverse {
        "DESC"@
    } else {
        "ASC"@
    }
}

/// The end of a query for one page: the order, the size of a page and the
/// rows to pass over.
pub open spec fn page_clause(order: Seq<char>, dir: Seq<char>, page: usize, page_size: usize) -> Seq<
    char,
> {
    " ORDER BY "@ + order + " COLLATE NOCASE "@ + dir + " LIMIT "@ + decimal(page_size as nat)
        + " OFFSET "@ + decimal((page * page_size) as nat)
}

/// The query for one page of the media of one folder.
pub open spec fn folder_media_text(
    sort: Sort,
    seed: usize,
    reverse: bool,
    page: usize,
    page_size: usize,
) -> Seq<char> {
    "SELECT name, COUNT() OVER() AS total FROM image WHERE dir = ?"@ + page_clause(
        media_order(sort, seed),
        direction(reverse),
        page,
        page_size,
    )
}

/// The query for one page of the media at and under a folder.
pub open spec fn folder_media_recursive_text(
    sort: Sort,
    seed: usize,
    page: usize,
    page_size: usize,
) -> Seq<char> {
    "SELECT dir, name, COUNT() OVER() AS total FROM image WHERE dir LIKE ?"@ + page_clause(
        media_order(sort, seed),
        direction(false),
        page,
        page_size,
    )
}

/// The query for the subfolders of one folder, each with the first of its
/// media.
pub open spec fn folder_folders_text(sort: Sort, reverse: bool) -> Seq<char> {
    "SELECT folder.name as name, MIN(image.name) as media FROM folder LEFT JOIN image ON image.dir = folder.path WHERE folder.dir = ? GROUP BY folder.name ORDER BY "@
        + folder_order(sort) + " COLLATE NOCASE "@ + direction(reverse)
}

fn media_order_by(sort: &Sort, seed: usize) -> (r: String)
    ensures
        r@ == media_order(*sort, seed),
{
    match sort {
        Sort::Name => String::from_str("path"),
        Sort::Taken => String::from_str("timestamp"),
        Sort::Modified => String::from_str("mtime"),
        Sort::Random => {
            let mut s = String::from_str("hash(");
            s.append(decimal_text(seed).as_str());
            s.append(" || path)");
            s
        },
    }
}

fn direction_word(reverse: bool) -> (r: &'static str)
    ensures
        r@ == direction(reverse),
{
    if reverse {
        "DESC"
    } else {
        "ASC"
    }
}

fn push_page_clause(out: &mut String, order: &str, dir: &str, page: usize, page_size: usize)
    requires
        page * page_size <= usize::MAX,
    ensures
        final(out)@ == old(out)@ + page_clause(order@, dir@, page, page_size),
{
    let ghost before = out@;
    out.append(" ORDER BY ");
    out.append(order);
    out.append(" COLLATE NOCASE ");
    out.append(dir);
    out.append(" LIMIT ");
    out.append(decimal_text(page_size).as_str());
    out.append(" OFFSET ");
    out.append(decimal_text(page * page_size).as_str());
    assert(out@ =~= before + page_clause(order@, dir@, page, page_size));
}

/// The query for the page `page` of the media of one folder; the folder is
/// its one parameter.
pub fn folder_media_sql(sort: &Sort, seed: usize, reverse: bool, page: usize, page_size: usize) -> (r:
    String)
    requires
        page * page_size <= usize::MAX,
    ensures
        r@ == folder_media_text(*sort, seed, reverse, page, page_size),
{
    let mut s = String::from_str("SELECT name, COUNT() OVER() AS total FROM image WHERE dir = ?");
    push_page_clause(
        &mut s,
        media_order_by(sort, seed).as_str(),
        direction_word(reverse),
        page,
        page_size,
    );
    s
}

/// The query for the page `page` of the media at and under a folder; the
/// pattern of the folder is its one parameter.
pub fn folder_media_recursive_sql(sort: &Sort, seed: usize, page: usize, page_size: usize) -> (r:
    String)
    requires
        page * page_size <= usize::MAX,
    ensures
        r@ == folder_media_recursive_text(*sort, seed, page, page_size),
{
    let mut s = String::from_str(
        "SELECT dir, name, COUNT() OVER() AS total FROM image WHERE dir LIKE ?",
    );
    push_page_clause(
        &mut s,
        media_order_by(sort, seed).as_str(),
        direction_word(false),
        page,
        page_size,
    );
    s
}

/// The query for the subfolders of one folder; the folder is its one
/// parameter.
pub fn folder_folders_sql(sort: &Sort, reverse: bool) -> (r: String)
    ensures
        r@ == folder_folders_text(*sort, reverse),
{
    let order = match sort {
        Sort::Name => "folder.name",
        Sort::Taken => "folder.mtime",
        Sort::Modified => "folder.mtime",
        Sort::Random => "folder.name",
    };
    let mut s = String::from_str(
        "SELECT folder.name as name, MIN(image.name) as media FROM folder LEFT JOIN image ON image.dir = folder.path WHERE folder.dir = ? GROUP BY folder.name ORDER BY ",
    );
    s.append(order);
    s.append(" COLLATE NOCASE ");
    s.append(direction_word(reverse));
    s
}

/// The size of a whole result, which every row of a page carries: that of
/// the first row, and 0 for a page without rows.
pub fn total_of(first: Option<i64>) -> (r: usize)
    ensures
        r == (match first {
            Some(total) => total as usize,
            None => 0usize,
        }),
{
    match first {
        Some(total) => total as usize,
        None => 0,
    }
}

} // verus!
