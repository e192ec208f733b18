//! The snapshot of a directory tree that one scan produces.
use vstd::prelude::*;
use vstd::string::*;
use crate::catalog::views;
use crate::diff::Dated;
use crate::media::{is_media, media_type};
use crate::models::views::{FolderScan, MediaScan};
use crate::paths::{push, pushed};
use crate::scanner::{ScanError, Stats};

verus! {

/// A media file of the snapshot.
#[derive(Debug)]
pub struct ScanFile {
    pub name: String,
    pub mtime: i64,
}

/// A directory of the snapshot, with the subdirectories and media files that
/// the scan kept.
#[derive(Debug)]
pub struct ScanDir {
    pub name: String,
    pub mtime: i64,
    pub dirs: Vec<ScanDir>,
    pub files: Vec<ScanFile>,
}

impl Dated for ScanFile {
    open spec fn name_text(&self) -> Seq<char> {
        self.name@
    }

    open spec fn mtime_value(&self) -> i64 {
        self.mtime
    }

    fn name(&self) -> (r: &str) {
        self.name.as_str()
    }

    fn mtime(&self) -> (r: i64) {
        self.mtime
    }
}

impl Dated for ScanDir {
    open spec fn name_text(&self) -> Seq<char> {
        self.name@
    }

    open spec fn mtime_value(&self) -> i64 {
        self.mtime
    }

    fn name(&self) -> (r: &str) {
        self.name.as_str()
    }

    fn mtime(&self) -> (r: i64) {
        self.mtime
    }
}

impl Dated for FolderScan {
    open spec fn name_text(&self) -> Seq<char> {
        self.name@
    }

    open spec fn mtime_value(&self) -> i64 {
        self.mtime
    }

    fn name(&self) -> (r: &str) {
        self.name.as_str()
    }

    fn mtime(&self) -> (r: i64) {
        self.mtime
    }
}

impl Dated for MediaScan {
    open spec fn name_text(&self) -> Seq<char> {
        self.name@
    }

    open spec fn mtime_value(&self) -> i64 {
        self.mtime
    }

    fn name(&self) -> (r: &str) {
        self.name.as_str()
    }

    fn mtime(&self) -> (r: i64) {
        self.mtime
    }
}

/// A [`ScanFile`] as a mathematical value.
pub struct ScanFileView {
    pub name: Seq<char>,
    pub mtime: i64,
}

impl View for ScanFile {
    type V = ScanFileView;

    open spec fn view(&self) -> ScanFileView {
        ScanFileView { name: self.name@, mtime: self.mtime }
    }
}

/// What the file system tells of one directory entry.
#[derive(Debug, Clone, Copy)]
pub struct RawMeta {
    pub mtime: i64,
    pub is_dir: bool,
    pub is_file: bool,
}

/// One directory entry as it was read: its name and, unless they could not
/// be read, its metadata.
#[derive(Debug)]
pub struct RawEntry {
    pub name: String,
    pub meta: Option<RawMeta>,
}

/// A directory entry that the scan goes on with.
#[derive(Debug)]
pub enum Entry {
    /// A directory to descend into: name and modification time.
    Dir(String, i64),
    /// A media file: name and modification time.
    File(String, i64),
}

/// An [`Entry`] as a mathematical value.
pub enum EntryView {
    Dir(Seq<char>, i64),
    File(Seq<char>, i64),
}

impl View for Entry {
    type V = EntryView;

    open spec fn view(&self) -> EntryView {
        match *self {
            Entry::Dir(name, mtime) => EntryView::Dir(name@, mtime),
            Entry::File(name, mtime) => EntryView::File(name@, mtime),
        }
    }
}

/// Whether `name` starts with a dot.
pub open spec fn hidden(name: Seq<char>) -> bool {
    name.len() > 0 && name[0] == '.'
}

/// What the scan makes of a directory entry: nothing of a hidden one and of
/// one without metadata, a directory of a directory, a file of a regular
/// file that is media, and nothing of the rest.
pub open spec fn classified(name: Seq<char>, meta: Option<RawMeta>) -> Option<EntryView> {
    if hidden(name) {
        None
    } else {
        match meta {
            None => None,
            Some(m) => if m.is_dir {
                Some(EntryView::Dir(name, m.mtime))
            } else if m.is_file && media_type(name) is Some {
                Some(EntryView::File(name, m.mtime))
            } else {
                None
            },
        }
    }
}

/// Whether `name` starts with a dot.
pub fn is_hidden(name: &str) -> (r: bool)
    ensures
        r == hidden(name@),
{
    !name.is_empty() && name.get_char(0) == '.'
}

/// Decides what the scan makes of one directory entry.
pub fn classify(entry: &RawEntry) -> (r: Option<Entry>)
    ensures
        match r {
            Some(e) => classified(entry.name@, entry.meta) == Some(e@),
            None => classified(entry.name@, entry.meta) is None,
        },
{
    if is_hidden(entry.name.as_str()) {
        return None;
    }
    let meta = match entry.meta {
        Some(m) => m,
        None => {
            return None;
        },
    };
    if meta.is_dir {
        Some(Entry::Dir(entry.name.clone(), meta.mtime))
    } else if meta.is_file {
        let media = match is_media(entry.name.as_str()) {
            Ok(m) => m,
            Err(_) => None,
        };
        if media.is_some() {
            Some(Entry::File(entry.name.clone(), meta.mtime))
        } else {
            None
        }
    } else {
        None
    }
}

/// A subdirectory that the scan has yet to read.
#[derive(Debug)]
pub struct SubDir {
    pub name: String,
    pub mtime: i64,
}

/// A [`SubDir`] as a mathematical value.
pub struct SubDirView {
    pub name: Seq<char>,
    pub mtime: i64,
}

impl View for SubDir {
    type V = SubDirView;

    open spec fn view(&self) -> SubDirView {
        SubDirView { name: self.name@, mtime: self.mtime }
    }
}

/// What one directory holds for the scan: its media files, and the
/// subdirectories to descend into.
#[derive(Debug)]
pub struct Level {
    pub files: Vec<ScanFile>,
    pub subdirs: Vec<SubDir>,
}

/// The media files among `entries`, in their order.
pub open spec fn level_files(entries: Seq<RawEntry>) -> Seq<ScanFileView>
    decreases entries.len(),
{
    if entries.len() == 0 {
        Seq::empty()
    } else {
        let before = level_files(entries.drop_last());
        match classified(entries.last().name@, entries.last().meta) {
            Some(EntryView::File(name, mtime)) => before.push(ScanFileView { name, mtime }),
            _ => before,
        }
    }
}

/// The subdirectories among `entries`, in their order.
pub open spec fn level_subdirs(entries: Seq<RawEntry>) -> Seq<SubDirView>
    decreases entries.len(),
{
    if entries.len() == 0 {
        Seq::empty()
    } else {
        let before = level_subdirs(entries.drop_last());
        match classified(entries.last().name@, entries.last().meta) {
            Some(EntryView::Dir(name, mtime)) => before.push(SubDirView { name, mtime }),
            _ => before,
        }
    }
}

/// Sorts the entries of one directory into media files and subdirectories,
/// drops the rest, and counts the files.
pub fn split_level(stats: &mut Stats, entries: &Vec<RawEntry>) -> (r: Level)
    requires
        old(stats).scan_files_total + entries.len() <= usize::MAX,
    ensures
        views(r.files@) == level_files(entries@),
        views(r.subdirs@) == level_subdirs(entries@),
        *final(stats) == (Stats {
            scan_files_total: (old(stats).scan_files_total + r.files.len()) as usize,
            ..*old(stats)
        }),
{
    let mut files: Vec<ScanFile> = Vec::new();
    let mut subdirs: Vec<SubDir> = Vec::new();
    let mut i: usize = 0;
    assert(views(files@) =~= level_files(entries@.take(0)));
    assert(views(subdirs@) =~= level_subdirs(entries@.take(0)));
    while i < entries.len()
        invariant
            i <= entries.len(),
            views(files@) == level_files(entries@.take(i as int)),
            views(subdirs@) == level_subdirs(entries@.take(i as int)),
        decreases entries.len() - i,
    {
        let ghost files_before = views(files@);
        let ghost subdirs_before = views(subdirs@);
        assert(entries@.take(i + 1).drop_last() =~= entries@.take(i as int));
        match classify(&entries[i]) {
            Some(Entry::Dir(name, mtime)) => {
                subdirs.push(SubDir { name, mtime });
                assert(views(subdirs@) =~= subdirs_before.push(subdirs@[subdirs@.len() - 1]@));
            },
            Some(Entry::File(name, mtime)) => {
                files.push(ScanFile { name, mtime });
                assert(views(files@) =~= files_before.push(files@[files@.len() - 1]@));
            },
            None => {},
        }
        i += 1;
    }
    assert(entries@.take(i as int) =~= entries@);
    proof {
        lemma_level_files_len(entries@);
        assert(views(files@).len() == files.len());
    }
    stats.add_files_total(files.len());
    Level { files, subdirs }
}

/// Adds a scanned subdirectory to those of its parent, unless it holds no
/// media.
pub fn keep_if_media(dirs: &mut Vec<ScanDir>, has_media: bool, dir: ScanDir)
    ensures
        final(dirs)@ == (if has_media {
            old(dirs)@.push(dir)
        } else {
            old(dirs)@
        }),
{
    if has_media {
        dirs.push(dir);
    }
}

/// Puts a directory of the snapshot together from its media files and the
/// subdirectories that were kept, and tells whether it holds media: whether
/// a file or a subdirectory is left. A directory that holds media is
/// counted.
pub fn finish_dir(
    stats: &mut Stats,
    name: String,
    mtime: i64,
    dirs: Vec<ScanDir>,
    files: Vec<ScanFile>,
) -> (r: (bool, ScanDir))
    requires
        old(stats).scan_folders_total < usize::MAX,
    ensures
        r.0 == (files.len() > 0 || dirs.len() > 0),
        r.1.name == name,
        r.1.mtime == mtime,
        r.1.dirs == dirs,
        r.1.files == files,
        *final(stats) == (Stats {
            scan_folders_total: (old(stats).scan_folders_total + if r.0 {
                1int
            } else {
                0int
            }) as usize,
            ..*old(stats)
        }),
{
    let has_media = files.len() > 0 || dirs.len() > 0;
    if has_media {
        stats.add_folders_total(1);
    }
    (has_media, ScanDir { name, mtime, dirs, files })
}

/// What reading a directory gave: its entries, each with what lies below
/// it, or the cause for which it could not be read.
#[derive(Debug)]
pub enum RawListing {
    Failed(String),
    Entries(Vec<RawTree>),
}

/// A directory entry as it was read, together with what reading it as a
/// directory gave. The listing of an entry that the scan does not descend
/// into is not looked at.
#[derive(Debug)]
pub struct RawTree {
    pub entry: RawEntry,
    pub listing: RawListing,
}

/// A [`ScanDir`] as a mathematical value.
pub struct ScanDirView {
    pub name: Seq<char>,
    pub mtime: i64,
    pub dirs: Seq<ScanDirView>,
    pub files: Seq<ScanFileView>,
}

/// The directory `d` as a mathematical value.
pub open spec fn dir_view(d: ScanDir) -> ScanDirView
    decreases d,
{
    ScanDirView {
        name: d.name@,
        mtime: d.mtime,
        dirs: dir_views(d.dirs@, d.dirs@.len()),
        files: views(d.files@),
    }
}

/// The first `k` of the directories `dirs` as mathematical values.
pub open spec fn dir_views(dirs: Seq<ScanDir>, k: nat) -> Seq<ScanDirView>
    decreases dirs, k,
{
    if k == 0 || k > dirs.len() {
        Seq::empty()
    } else {
        dir_views(dirs, (k - 1) as nat).push(dir_view(dirs[k - 1]))
    }
}

impl View for ScanDir {
    type V = ScanDirView;

    open spec fn view(&self) -> ScanDirView {
        dir_view(*self)
    }
}

/// The entries at the top of `trees`.
pub open spec fn tree_entries(trees: Seq<RawTree>) -> Seq<RawEntry> {
    Seq::new(trees.len(), |i: int| trees[i].entry)
}

/// The snapshot of the directory with the path `path` and the given name
/// and modification time, and whether it holds media, where `listing` is
/// what reading it gave: its media files; of its subdirectories, scanned
/// in the same way, those that hold media; or the path and the cause of the
/// first directory on the way that could not be read.
pub open spec fn scanned(path: Seq<char>, listing: RawListing, name: Seq<char>, mtime: i64) -> Result<
    (bool, ScanDirView),
    (Seq<char>, Seq<char>),
>
    decreases listing,
{
    match listing {
        RawListing::Failed(cause) => Err((path, cause@)),
        RawListing::Entries(trees) => match scanned_dirs(path, trees@, trees@.len()) {
            Err(e) => Err(e),
            Ok(dirs) => {
                let files = level_files(tree_entries(trees@));
                Ok((files.len() > 0 || dirs.len() > 0, ScanDirView { name, mtime, dirs, files }))
            },
        },
    }
}

/// The snapshots of the subdirectories with media among the first `k` of
/// the entries `trees` of the directory `path`.
pub open spec fn scanned_dirs(path: Seq<char>, trees: Seq<RawTree>, k: nat) -> Result<
    Seq<ScanDirView>,
    (Seq<char>, Seq<char>),
>
    decreases trees, k,
{
    if k == 0 || k > trees.len() {
        Ok(Seq::empty())
    } else {
        match scanned_dirs(path, trees, (k - 1) as nat) {
            Err(e) => Err(e),
            Ok(dirs) => match classified(trees[k - 1].entry.name@, trees[k - 1].entry.meta) {
                Some(EntryView::Dir(name, mtime)) => match scanned(
                    pushed(path, name),
                    trees[k - 1].listing,
                    name,
                    mtime,
                ) {
                    Err(e) => Err(e),
                    Ok((has_media, dir)) => Ok(
                        if has_media {
                            dirs.push(dir)
                        } else {
                            dirs
                        },
                    ),
                },
                _ => Ok(dirs),
            },
        }
    }
}

/// The number of entries in `listing` and in all that lies below it.
pub open spec fn raw_size(listing: RawListing) -> nat
    decreases listing,
{
    match listing {
        RawListing::Failed(_) => 0,
        RawListing::Entries(trees) => raw_sizes(trees@, trees@.len()),
    }
}

/// The number of entries among the first `k` of `trees` and in all that
/// lies below them.
pub open spec fn raw_sizes(trees: Seq<RawTree>, k: nat) -> nat
    decreases trees, k,
{
    if k == 0 || k > trees.len() {
        0
    } else {
        raw_sizes(trees, (k - 1) as nat) + 1 + raw_size(trees[k - 1].listing)
    }
}

/// The number of media files in the snapshot `dir`.
pub open spec fn files_in(dir: ScanDirView) -> nat
    decreases dir,
{
    dir.files.len() + files_in_all(dir.dirs, dir.dirs.len())
}

/// The number of media files in the first `k` of the snapshots `dirs`.
pub open spec fn files_in_all(dirs: Seq<ScanDirView>, k: nat) -> nat
    decreases dirs, k,
{
    if k == 0 || k > dirs.len() {
        0
    } else {
        files_in_all(dirs, (k - 1) as nat) + files_in(dirs[k - 1])
    }
}

/// The number of directories in the snapshot `dir`, itself included.
pub open spec fn folders_in(dir: ScanDirView) -> nat
    decreases dir,
{
    1 + folders_in_all(dir.dirs, dir.dirs.len())
}

/// The number of directories in the first `k` of the snapshots `dirs`.
pub open spec fn folders_in_all(dirs: Seq<ScanDirView>, k: nat) -> nat
    decreases dirs, k,
{
    if k == 0 || k > dirs.len() {
        0
    } else {
        folders_in_all(dirs, (k - 1) as nat) + folders_in(dirs[k - 1])
    }
}

/// The figures after the scan of a directory that gave the snapshot `dir`:
/// the files of the snapshot are counted, and so are its directories if it
/// holds media.
pub open spec fn counted(stats: Stats, has_media: bool, dir: ScanDirView) -> Stats {
    Stats {
        scan_files_total: (stats.scan_files_total + files_in(dir)) as usize,
        scan_folders_total: (stats.scan_folders_total + if has_media {
            folders_in(dir)
        } else {
            0
        }) as usize,
        ..stats
    }
}

/// The views of the first directories do not depend on those that follow.
proof fn lemma_dir_views_push(dirs: Seq<ScanDir>, d: ScanDir, k: nat)
    requires
        k <= dirs.len(),
    ensures
        dir_views(dirs.push(d), k) == dir_views(dirs, k),
    decreases k,
{
    if k > 0 {
        lemma_dir_views_push(dirs, d, (k - 1) as nat);
        assert(dirs.push(d)[k - 1] == dirs[k - 1]);
    }
}

/// The counts over the first snapshots do not depend on those that follow.
proof fn lemma_counts_push(dirs: Seq<ScanDirView>, d: ScanDirView, k: nat)
    requires
        k <= dirs.len(),
    ensures
        files_in_all(dirs.push(d), k) == files_in_all(dirs, k),
        folders_in_all(dirs.push(d), k) == folders_in_all(dirs, k),
    decreases k,
{
    if k > 0 {
        lemma_counts_push(dirs, d, (k - 1) as nat);
        assert(dirs.push(d)[k - 1] == dirs[k - 1]);
    }
}

/// Every entry counts: a longer run of entries is larger by at least the
/// number of entries that it adds.
proof fn lemma_raw_sizes_grow(trees: Seq<RawTree>, k: nat, n: nat)
    requires
        k <= n <= trees.len(),
    ensures
        raw_sizes(trees, k) + (n - k) <= raw_sizes(trees, n),
    decreases n - k,
{
    if k < n {
        lemma_raw_sizes_grow(trees, k, (n - 1) as nat);
    }
}

/// There are no more media files among entries than entries.
proof fn lemma_level_files_len(entries: Seq<RawEntry>)
    ensures
        level_files(entries).len() <= entries.len(),
    decreases entries.len(),
{
    if entries.len() > 0 {
        lemma_level_files_len(entries.drop_last());
    }
}

/// The media files among the entries at the top of `trees`.
fn tree_files(trees: &Vec<RawTree>) -> (files: Vec<ScanFile>)
    ensures
        views(files@) == level_files(tree_entries(trees@)),
        files.len() <= trees.len(),
{
    let mut files: Vec<ScanFile> = Vec::new();
    let mut i: usize = 0;
    assert(views(files@) =~= level_files(tree_entries(trees@).take(0)));
    while i < trees.len()
        invariant
            i <= trees.len(),
            views(files@) == level_files(tree_entries(trees@).take(i as int)),
        decreases trees.len() - i,
    {
        let ghost before = views(files@);
        assert(tree_entries(trees@).take(i + 1).drop_last() =~= tree_entries(trees@).take(
            i as int,
        ));
        assert(tree_entries(trees@).take(i + 1).last() == trees@[i as int].entry);
        match classify(&trees[i].entry) {
            Some(Entry::File(name, mtime)) => {
                files.push(ScanFile { name, mtime });
                assert(views(files@) =~= before.push(files@[files@.len() - 1]@));
            },
            _ => {},
        }
        i += 1;
    }
    assert(tree_entries(trees@).take(i as int) =~= tree_entries(trees@));
    proof {
        lemma_level_files_len(tree_entries(trees@));
        assert(views(files@).len() == files.len());
    }
    files
}

/// Makes the snapshot of a directory from what reading it and all below it
/// gave, and counts what it finds. `path` is where the directory lies; it
/// is named in the error. The mark tells whether the directory holds media.
///
/// The files of every directory are counted as it is entered, the
/// directory itself once it is known to hold media. A scan that fails has
/// counted what it met until then.
pub fn scan_tree(
    stats: &mut Stats,
    path: &str,
    listing: &RawListing,
    name: String,
    mtime: i64,
) -> (r: Result<(bool, ScanDir), ScanError>)
    requires
        old(stats).scan_files_total + raw_size(*listing) <= usize::MAX,
        old(stats).scan_folders_total + raw_size(*listing) + 1 <= usize::MAX,
    ensures
        match scanned(path@, *listing, name@, mtime) {
            Ok((has_media, dir)) => r is Ok && r->Ok_0.0 == has_media && r->Ok_0.1@ == dir
                && *final(stats) == counted(*old(stats), has_media, dir) && files_in(dir)
                <= raw_size(*listing) && folders_in(dir) <= raw_size(*listing) + 1,
            Err((at, cause)) => r is Err && r->Err_0 is Io && r->Err_0->Io_0@ == at
                && r->Err_0->Io_1@ == cause,
        },
        final(stats).last_scan_start == old(stats).last_scan_start,
        final(stats).last_scan_end == old(stats).last_scan_end,
        final(stats).scan_folders_count == old(stats).scan_folders_count,
        final(stats).scan_files_count == old(stats).scan_files_count,
    decreases *listing,
{
    match listing {
        RawListing::Failed(cause) => Err(ScanError::Io(path.to_owned(), cause.clone())),
        RawListing::Entries(trees) => {
            let files = tree_files(trees);
            proof {
                lemma_raw_sizes_grow(trees@, 0, trees@.len());
            }
            stats.add_files_total(files.len());
            let mut dirs: Vec<ScanDir> = Vec::new();
            let mut i: usize = 0;
            while i < trees.len()
                invariant
                    i <= trees.len(),
                    *listing == RawListing::Entries(*trees),
                    files.len() <= trees.len(),
                    old(stats).scan_files_total + raw_sizes(trees@, trees@.len()) <= usize::MAX,
                    old(stats).scan_folders_total + raw_sizes(trees@, trees@.len()) + 1
                        <= usize::MAX,
                    scanned_dirs(path@, trees@, i as nat) == Ok::<
                        Seq<ScanDirView>,
                        (Seq<char>, Seq<char>),
                    >(dir_views(dirs@, dirs@.len())),
                    *stats == (Stats {
                        scan_files_total: (old(stats).scan_files_total + files.len()
                            + files_in_all(dir_views(dirs@, dirs@.len()), dirs@.len())) as usize,
                        scan_folders_total: (old(stats).scan_folders_total + folders_in_all(
                            dir_views(dirs@, dirs@.len()),
                            dirs@.len(),
                        )) as usize,
                        ..*old(stats)
                    }),
                    files_in_all(dir_views(dirs@, dirs@.len()), dirs@.len()) + i <= raw_sizes(
                        trees@,
                        i as nat,
                    ),
                    folders_in_all(dir_views(dirs@, dirs@.len()), dirs@.len()) <= raw_sizes(
                        trees@,
                        i as nat,
                    ),
                decreases trees.len() - i,
            {
                proof {
                    lemma_raw_sizes_grow(trees@, (i + 1) as nat, trees@.len());
                }
                match classify(&trees[i].entry) {
                    Some(Entry::Dir(sub_name, sub_mtime)) => {
                        let mut sub_path = path.to_owned();
                        push(&mut sub_path, sub_name.as_str());
                        match scan_tree(
                            stats,
                            sub_path.as_str(),
                            &trees[i].listing,
                            sub_name,
                            sub_mtime,
                        ) {
                            Err(e) => {
                                proof {
                                    assert(scanned_dirs(path@, trees@, (i + 1) as nat) is Err);
                                    lemma_scan_fails_on(path@, trees@, (i + 1) as nat, trees@.len());
                                }
                                return Err(e);
                            },
                            Ok((has_media, dir)) => {
                                proof {
                                    let before = dir_views(dirs@, dirs@.len());
                                    lemma_dir_views_push(dirs@, dir, dirs@.len());
                                    lemma_counts_push(before, dir@, before.len());
                                    assert(dir_views(dirs@.push(dir), (dirs@.len() + 1) as nat)
                                        == before.push(dir@));
                                    assert(before.len() == dirs@.len()) by {
                                        lemma_dir_views_len(dirs@, dirs@.len());
                                    }
                                    assert(before.push(dir@)[before.len() as int] == dir@);
                                    if !has_media {
                                        assert(dir@.dirs.len() == 0) by {
                                            lemma_dir_views_len(dir.dirs@, dir.dirs@.len());
                                        }
                                        assert(files_in(dir@) == 0);
                                    }
                                }
                                keep_if_media(&mut dirs, has_media, dir);
                            },
                        }
                    },
                    _ => {},
                }
                i += 1;
            }
            let (has_media, dir) = finish_dir(stats, name, mtime, dirs, files);
            proof {
                lemma_dir_views_len(dir.dirs@, dir.dirs@.len());
                assert(views(dir.files@).len() == dir.files@.len());
            }
            Ok((has_media, dir))
        },
    }
}

/// As many views as directories.
proof fn lemma_dir_views_len(dirs: Seq<ScanDir>, k: nat)
    requires
        k <= dirs.len(),
    ensures
        dir_views(dirs, k).len() == k,
    decreases k,
{
    if k > 0 {
        lemma_dir_views_len(dirs, (k - 1) as nat);
    }
}

/// Once a subdirectory among the first `k` entries could not be scanned,
/// no longer run of entries can be.
proof fn lemma_scan_fails_on(path: Seq<char>, trees: Seq<RawTree>, k: nat, n: nat)
    requires
        k <= n <= trees.len(),
        scanned_dirs(path, trees, k) is Err,
    ensures
        scanned_dirs(path, trees, n) == scanned_dirs(path, trees, k),
    decreases n - k,
{
    if k < n {
        lemma_scan_fails_on(path, trees, k, (n - 1) as nat);
    }
}

/// What the scan of the root made of the figures `stats`: the two totals
/// are those of the snapshot, counted from 0.
pub open spec fn totals_of(stats: Stats, has_media: bool, dir: ScanDirView) -> Stats {
    counted(Stats { scan_files_total: 0, scan_folders_total: 0, ..stats }, has_media, dir)
}

/// Makes the snapshot of the tree below `root` from what reading it gave,
/// and counts its files and its directories from 0. The root has the name
/// `.` and the modification time 0.
pub fn scan_dir(stats: &mut Stats, root: &str, listing: &RawListing) -> (r: Result<
    ScanDir,
    ScanError,
>)
    requires
        raw_size(*listing) + 1 <= usize::MAX,
    ensures
        match scanned(root@, *listing, seq!['.'], 0) {
            Ok((has_media, dir)) => r is Ok && r->Ok_0@ == dir && *final(stats) == totals_of(
                *old(stats),
                has_media,
                dir,
            ),
            Err((at, cause)) => r is Err && r->Err_0 is Io && r->Err_0->Io_0@ == at
                && r->Err_0->Io_1@ == cause,
        },
        final(stats).last_scan_start == old(stats).last_scan_start,
        final(stats).last_scan_end == old(stats).last_scan_end,
        final(stats).scan_folders_count == old(stats).scan_folders_count,
        final(stats).scan_files_count == old(stats).scan_files_count,
{
    proof {
        reveal_strlit(".");
    }
    assert("."@ =~= seq!['.']);
    stats.reset_totals();
    match scan_tree(stats, root, listing, String::from_str("."), 0) {
        Ok((_, dir)) => Ok(dir),
        Err(e) => Err(e),
    }
}

} // verus!
