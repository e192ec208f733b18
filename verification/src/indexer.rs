//! What has to change in the two stores so that they mirror one directory of
//! a snapshot, and which thumbnails have to be generated for it.
use vstd::prelude::*;
use vstd::string::*;
use crate::catalog::{views, Statement, StatementView, ThumbOp, ThumbOpView};
use crate::diff::{
    added, changed, compare_entries, lemma_compare_partitions, lemma_listed_names_len, listed,
    listed_names, removed, texts, EntryMap,
};
use crate::models::tables::{Image, ImageRow};
use crate::models::views::{FolderScan, MediaScan};
use crate::paths::{beneath, beneath_prefix, joined, subpath};
use crate::scan::ScanDir;
use crate::scanner::Stats;

verus! {

/// A media file on its way through thumbnail generation: its catalog row and,
/// once generated, its thumbnail.
#[derive(Debug)]
pub struct MediaThumb {
    pub media: Image,
    pub thumb: Option<Vec<u8>>,
}

/// A [`MediaThumb`] as a mathematical value.
pub struct MediaThumbView {
    pub media: ImageRow,
    pub thumb: Option<Seq<u8>>,
}

impl View for MediaThumb {
    type V = MediaThumbView;

    open spec fn view(&self) -> MediaThumbView {
        MediaThumbView {
            media: self.media@,
            thumb: match self.thumb {
                Some(t) => Some(t@),
                None => None,
            },
        }
    }
}

/// The entry for the file `name` of the folder `dir` before generation: no
/// thumbnail, and a timestamp of 0.
pub open spec fn fresh_entry(dir: Seq<char>, name: Seq<char>, mtime: i64) -> MediaThumbView {
    MediaThumbView {
        media: ImageRow { path: joined(dir, name), name, dir, mtime, timestamp: 0 },
        thumb: None,
    }
}

impl MediaThumb {
    /// The entry for the file `name` of the folder `dir`, before generation.
    pub fn new(dir: &str, name: &str, mtime: i64) -> (r: Self)
        ensures
            r@ == fresh_entry(dir@, name@, mtime),
    {
        MediaThumb {
            media: Image {
                path: subpath(dir, name),
                name: String::from_str(name),
                timestamp: 0,
                mtime,
                dir: String::from_str(dir),
            },
            thumb: None,
        }
    }
}

/// The files of one directory that need a thumbnail: those new to the
/// catalog and those whose modification time changed.
#[derive(Debug)]
pub struct IndexRequest {
    pub new: Vec<MediaThumb>,
    pub update: Vec<MediaThumb>,
}

/// The statements that add the folders `names` of `path`, with the times
/// that `scan` gives them.
pub open spec fn folder_inserts(
    path: Seq<char>,
    names: Seq<Seq<char>>,
    scan: Map<Seq<char>, i64>,
) -> Seq<StatementView> {
    Seq::new(
        names.len(),
        |i: int|
            StatementView::InsertFolder {
                path: joined(path, names[i]),
                name: names[i],
                dir: path,
                mtime: scan[names[i]],
            },
    )
}

/// The statements that give the folders `names` of `path` the times of
/// `scan`.
pub open spec fn folder_updates(
    path: Seq<char>,
    names: Seq<Seq<char>>,
    scan: Map<Seq<char>, i64>,
) -> Seq<StatementView> {
    Seq::new(
        names.len(),
        |i: int| StatementView::UpdateFolder { path: joined(path, names[i]), mtime: scan[names[i]] },
    )
}

/// The statements that remove one folder with all that lies below it: the
/// images and the folders whose path starts with its path and a separator,
/// then the folder itself. A sibling whose name only begins with the name
/// of the folder is not reached.
pub open spec fn subtree_delete(folder: Seq<char>) -> Seq<StatementView> {
    seq![
        StatementView::DeleteImagesUnder { prefix: beneath(folder) },
        StatementView::DeleteFoldersUnder { prefix: beneath(folder) },
        StatementView::DeleteFolder { path: folder },
    ]
}

/// The statements that remove the folders `names` of `path`, one after the
/// other.
pub open spec fn folder_deletes(path: Seq<char>, names: Seq<Seq<char>>) -> Seq<StatementView>
    decreases names.len(),
{
    if names.len() == 0 {
        Seq::empty()
    } else {
        folder_deletes(path, names.drop_last()) + subtree_delete(joined(path, names.last()))
    }
}

/// The changes that remove the thumbnails below the folders `names` of
/// `path`: for each the keys that start with its path and a separator.
pub open spec fn thumb_prefix_deletes(path: Seq<char>, names: Seq<Seq<char>>) -> Seq<ThumbOpView> {
    Seq::new(
        names.len(),
        |i: int| ThumbOpView::DeleteUnder { prefix: beneath(joined(path, names[i])) },
    )
}

/// The statements that remove the images `names` of `path`.
pub open spec fn image_deletes(path: Seq<char>, names: Seq<Seq<char>>) -> Seq<StatementView> {
    Seq::new(names.len(), |i: int| StatementView::DeleteImage { path: joined(path, names[i]) })
}

/// The changes that remove the thumbnails of the images `names` of `path`.
pub open spec fn thumb_deletes(path: Seq<char>, names: Seq<Seq<char>>) -> Seq<ThumbOpView> {
    Seq::new(names.len(), |i: int| ThumbOpView::Delete { key: joined(path, names[i]) })
}

/// The entries, before generation, of the files `names` of `path`.
pub open spec fn fresh_entries(
    path: Seq<char>,
    names: Seq<Seq<char>>,
    scan: Map<Seq<char>, i64>,
) -> Seq<MediaThumbView> {
    Seq::new(names.len(), |i: int| fresh_entry(path, names[i], scan[names[i]]))
}

/// What the subfolders of one directory ask of the stores.
#[derive(Debug)]
pub struct FolderPlan {
    /// Statements for the metadata store, to run in order in one batch.
    pub statements: Vec<Statement>,
    /// Changes of the thumbnail store, to run in order in one transaction.
    pub thumbs: Vec<ThumbOp>,
    /// Number of folders that this step accounts for.
    pub folders_done: usize,
}

/// What the files of one directory ask of the stores and of the generator.
#[derive(Debug)]
pub struct FilePlan {
    /// Statements for the metadata store, to run in order in one batch.
    pub statements: Vec<Statement>,
    /// Changes of the thumbnail store, to run in order in one transaction.
    pub thumbs: Vec<ThumbOp>,
    /// Number of files that need no work.
    pub files_done: usize,
    /// The files to hand to thumbnail generation.
    pub request: IndexRequest,
}

/// The statements that bring the subfolder rows of `path` from `db` to
/// `scan`: inserts, then updates, then deletes.
pub open spec fn folder_statements(
    path: Seq<char>,
    scan: Seq<ScanDir>,
    db: Seq<FolderScan>,
) -> Seq<StatementView> {
    folder_inserts(path, added(listed_names(scan), listed(db)), listed(scan)) + folder_updates(
        path,
        changed(listed_names(scan), listed(scan), listed(db)),
        listed(scan),
    ) + folder_deletes(path, removed(listed_names(db), listed(scan)))
}

/// Every name that a filter of `names` keeps is one of `names`.
proof fn lemma_filtered_within(names: Seq<Seq<char>>, pred: spec_fn(Seq<char>) -> bool)
    ensures
        forall|i: int|
            0 <= i < names.filter(pred).len() ==> names.contains(#[trigger] names.filter(pred)[i]),
{
    assert forall|i: int| 0 <= i < names.filter(pred).len() implies names.contains(
        #[trigger] names.filter(pred)[i],
    ) by {
        assert(names.filter(pred).contains(names.filter(pred)[i]));
        names.lemma_filter_contains_rev(pred, names.filter(pred)[i]);
    }
}

/// The time that `scan` holds for `name`.
fn time_of(scan: &EntryMap, name: &str) -> (r: i64)
    requires
        scan@.contains_key(name@),
    ensures
        r == scan@[name@],
{
    match scan.get(name) {
        Some(t) => t,
        None => 0,
    }
}

fn push_folder_inserts(out: &mut Vec<Statement>, path: &str, names: &Vec<String>, scan: &EntryMap)
    requires
        forall|i: int| 0 <= i < names.len() ==> scan@.contains_key(#[trigger] names[i]@),
    ensures
        views(final(out)@) == views(old(out)@) + folder_inserts(path@, texts(names@), scan@),
{
    let ghost before = views(out@);
    let mut i: usize = 0;
    assert(views(out@) =~= before + folder_inserts(path@, texts(names@).take(0), scan@));
    while i < names.len()
        invariant
            i <= names.len(),
            forall|i: int| 0 <= i < names.len() ==> scan@.contains_key(#[trigger] names[i]@),
            views(out@) == before + folder_inserts(path@, texts(names@).take(i as int), scan@),
        decreases names.len() - i,
    {
        let name = names[i].as_str();
        let ghost so_far = views(out@);
        out.push(
            Statement::InsertFolder {
                path: subpath(path, name),
                name: String::from_str(name),
                dir: String::from_str(path),
                mtime: time_of(scan, name),
            },
        );
        assert(views(out@) =~= so_far.push(out@[out@.len() - 1]@));
        assert(views(out@) =~= before + folder_inserts(
            path@,
            texts(names@).take(i + 1),
            scan@,
        ));
        i += 1;
    }
    assert(texts(names@).take(i as int) =~= texts(names@));
}

fn push_folder_updates(out: &mut Vec<Statement>, path: &str, names: &Vec<String>, scan: &EntryMap)
    requires
        forall|i: int| 0 <= i < names.len() ==> scan@.contains_key(#[trigger] names[i]@),
    ensures
        views(final(out)@) == views(old(out)@) + folder_updates(path@, texts(names@), scan@),
{
    let ghost before = views(out@);
    let mut i: usize = 0;
    assert(views(out@) =~= before + folder_updates(path@, texts(names@).take(0), scan@));
    while i < names.len()
        invariant
            i <= names.len(),
            forall|i: int| 0 <= i < names.len() ==> scan@.contains_key(#[trigger] names[i]@),
            views(out@) == before + folder_updates(path@, texts(names@).take(i as int), scan@),
        decreases names.len() - i,
    {
        let name = names[i].as_str();
        let ghost so_far = views(out@);
        out.push(
            Statement::UpdateFolder { path: subpath(path, name), mtime: time_of(scan, name) },
        );
        assert(views(out@) =~= so_far.push(out@[out@.len() - 1]@));
        assert(views(out@) =~= before + folder_updates(
            path@,
            texts(names@).take(i + 1),
            scan@,
        ));
        i += 1;
    }
    assert(texts(names@).take(i as int) =~= texts(names@));
}

fn push_folder_deletes(out: &mut Vec<Statement>, path: &str, names: &Vec<String>)
    ensures
        views(final(out)@) == views(old(out)@) + folder_deletes(path@, texts(names@)),
{
    let ghost before = views(out@);
    let mut i: usize = 0;
    assert(views(out@) =~= before + folder_deletes(path@, texts(names@).take(0)));
    while i < names.len()
        invariant
            i <= names.len(),
            views(out@) == before + folder_deletes(path@, texts(names@).take(i as int)),
        decreases names.len() - i,
    {
        let folder = subpath(path, names[i].as_str());
        let ghost so_far = views(out@);
        let prefix = beneath_prefix(folder.as_str());
        out.push(Statement::DeleteImagesUnder { prefix: prefix.clone() });
        out.push(Statement::DeleteFoldersUnder { prefix });
        out.push(Statement::DeleteFolder { path: folder });
        assert(views(out@) =~= so_far + subtree_delete(joined(path@, names[i as int]@)));
        assert(texts(names@).take(i + 1).drop_last() =~= texts(names@).take(i as int));
        i += 1;
    }
    assert(texts(names@).take(i as int) =~= texts(names@));
}

fn thumb_prefix_ops(path: &str, names: &Vec<String>) -> (out: Vec<ThumbOp>)
    ensures
        views(out@) == thumb_prefix_deletes(path@, texts(names@)),
{
    let mut out: Vec<ThumbOp> = Vec::new();
    let mut i: usize = 0;
    assert(views(out@) =~= thumb_prefix_deletes(path@, texts(names@).take(0)));
    while i < names.len()
        invariant
            i <= names.len(),
            views(out@) == thumb_prefix_deletes(path@, texts(names@).take(i as int)),
        decreases names.len() - i,
    {
        let ghost so_far = views(out@);
        let folder = subpath(path, names[i].as_str());
        out.push(ThumbOp::DeleteUnder { prefix: beneath_prefix(folder.as_str()) });
        assert(views(out@) =~= so_far.push(out@[out@.len() - 1]@));
        assert(views(out@) =~= thumb_prefix_deletes(path@, texts(names@).take(i + 1)));
        i += 1;
    }
    assert(texts(names@).take(i as int) =~= texts(names@));
    out
}

/// Plans the changes for the subfolders of the directory `scan_dir`, whose
/// catalog path is `path` and whose catalogued subfolders are `db_subdirs`.
pub fn plan_folders(path: &str, scan_dir: &ScanDir, db_subdirs: &Vec<FolderScan>) -> (plan:
    FolderPlan)
    ensures
        views(plan.statements@) == folder_statements(path@, scan_dir.dirs@, db_subdirs@),
        views(plan.thumbs@) == thumb_prefix_deletes(
            path@,
            removed(listed_names(db_subdirs@), listed(scan_dir.dirs@)),
        ),
        plan.folders_done == scan_dir.dirs.len(),
{
    let scan = EntryMap::collect(&scan_dir.dirs);
    let db = EntryMap::collect(db_subdirs);
    let delta = compare_entries(&scan, &db);
    proof {
        scan.lemma_wf();
        lemma_filtered_within(scan.names(), |n: Seq<char>| !db@.contains_key(n));
        lemma_filtered_within(
            scan.names(),
            |n: Seq<char>| db@.contains_key(n) && scan@[n] != db@[n],
        );
        assert forall|i: int| 0 <= i < delta.new.len() implies scan@.contains_key(
            #[trigger] delta.new[i]@,
        ) by {
            assert(texts(delta.new@)[i] == delta.new[i]@);
            assert(scan.names().to_set().contains(delta.new[i]@));
        }
        assert forall|i: int| 0 <= i < delta.update.len() implies scan@.contains_key(
            #[trigger] delta.update[i]@,
        ) by {
            assert(texts(delta.update@)[i] == delta.update[i]@);
            assert(scan.names().to_set().contains(delta.update[i]@));
        }
    }
    let mut statements: Vec<Statement> = Vec::new();
    assert(views(statements@) =~= Seq::<StatementView>::empty());
    push_folder_inserts(&mut statements, path, &delta.new, &scan);
    push_folder_updates(&mut statements, path, &delta.update, &scan);
    push_folder_deletes(&mut statements, path, &delta.del);
    let thumbs = thumb_prefix_ops(path, &delta.del);
    assert(views(statements@) =~= folder_statements(path@, scan_dir.dirs@, db_subdirs@));
    FolderPlan { statements, thumbs, folders_done: scan_dir.dirs.len() }
}

fn image_delete_statements(path: &str, names: &Vec<String>) -> (out: Vec<Statement>)
    ensures
        views(out@) == image_deletes(path@, texts(names@)),
{
    let mut out: Vec<Statement> = Vec::new();
    let mut i: usize = 0;
    assert(views(out@) =~= image_deletes(path@, texts(names@).take(0)));
    while i < names.len()
        invariant
            i <= names.len(),
            views(out@) == image_deletes(path@, texts(names@).take(i as int)),
        decreases names.len() - i,
    {
        let ghost so_far = views(out@);
        out.push(Statement::DeleteImage { path: subpath(path, names[i].as_str()) });
        assert(views(out@) =~= so_far.push(out@[out@.len() - 1]@));
        assert(views(out@) =~= image_deletes(path@, texts(names@).take(i + 1)));
        i += 1;
    }
    assert(texts(names@).take(i as int) =~= texts(names@));
    out
}

fn thumb_delete_ops(path: &str, names: &Vec<String>) -> (out: Vec<ThumbOp>)
    ensures
        views(out@) == thumb_deletes(path@, texts(names@)),
{
    let mut out: Vec<ThumbOp> = Vec::new();
    let mut i: usize = 0;
    assert(views(out@) =~= thumb_deletes(path@, texts(names@).take(0)));
    while i < names.len()
        invariant
            i <= names.len(),
            views(out@) == thumb_deletes(path@, texts(names@).take(i as int)),
        decreases names.len() - i,
    {
        let ghost so_far = views(out@);
        out.push(ThumbOp::Delete { key: subpath(path, names[i].as_str()) });
        assert(views(out@) =~= so_far.push(out@[out@.len() - 1]@));
        assert(views(out@) =~= thumb_deletes(path@, texts(names@).take(i + 1)));
        i += 1;
    }
    assert(texts(names@).take(i as int) =~= texts(names@));
    out
}

fn entries_for(path: &str, names: &Vec<String>, scan: &EntryMap) -> (out: Vec<MediaThumb>)
    requires
        forall|i: int| 0 <= i < names.len() ==> scan@.contains_key(#[trigger] names[i]@),
    ensures
        views(out@) == fresh_entries(path@, texts(names@), scan@),
{
    let mut out: Vec<MediaThumb> = Vec::new();
    let mut i: usize = 0;
    assert(views(out@) =~= fresh_entries(path@, texts(names@).take(0), scan@));
    while i < names.len()
        invariant
            i <= names.len(),
            forall|i: int| 0 <= i < names.len() ==> scan@.contains_key(#[trigger] names[i]@),
            views(out@) == fresh_entries(path@, texts(names@).take(i as int), scan@),
        decreases names.len() - i,
    {
        let name = names[i].as_str();
        let ghost so_far = views(out@);
        out.push(MediaThumb::new(path, name, time_of(scan, name)));
        assert(views(out@) =~= so_far.push(out@[out@.len() - 1]@));
        assert(views(out@) =~= fresh_entries(path@, texts(names@).take(i + 1), scan@));
        i += 1;
    }
    assert(texts(names@).take(i as int) =~= texts(names@));
    out
}

/// Plans the changes for the files of the directory `scan_dir`, whose
/// catalog path is `path` and whose catalogued files are `db_files`.
///
/// The rows and thumbnails of the files that are gone are removed. The new
/// and the updated files go to thumbnail generation, which also writes their
/// rows; all other files are done.
pub fn plan_files(path: &str, scan_dir: &ScanDir, db_files: &Vec<MediaScan>) -> (plan: FilePlan)
    ensures
        views(plan.statements@) == image_deletes(
            path@,
            removed(listed_names(db_files@), listed(scan_dir.files@)),
        ),
        views(plan.thumbs@) == thumb_deletes(
            path@,
            removed(listed_names(db_files@), listed(scan_dir.files@)),
        ),
        views(plan.request.new@) == fresh_entries(
            path@,
            added(listed_names(scan_dir.files@), listed(db_files@)),
            listed(scan_dir.files@),
        ),
        views(plan.request.update@) == fresh_entries(
            path@,
            changed(listed_names(scan_dir.files@), listed(scan_dir.files@), listed(db_files@)),
            listed(scan_dir.files@),
        ),
        plan.files_done == scan_dir.files.len() - plan.request.new.len()
            - plan.request.update.len(),
{
    let scan = EntryMap::collect(&scan_dir.files);
    let db = EntryMap::collect(db_files);
    let delta = compare_entries(&scan, &db);
    proof {
        scan.lemma_wf();
        lemma_compare_partitions(&scan, &db);
        lemma_listed_names_len(scan_dir.files@);
        lemma_filtered_within(scan.names(), |n: Seq<char>| !db@.contains_key(n));
        lemma_filtered_within(
            scan.names(),
            |n: Seq<char>| db@.contains_key(n) && scan@[n] != db@[n],
        );
        assert forall|i: int| 0 <= i < delta.new.len() implies scan@.contains_key(
            #[trigger] delta.new[i]@,
        ) by {
            assert(texts(delta.new@)[i] == delta.new[i]@);
            assert(scan.names().to_set().contains(delta.new[i]@));
        }
        assert forall|i: int| 0 <= i < delta.update.len() implies scan@.contains_key(
            #[trigger] delta.update[i]@,
        ) by {
            assert(texts(delta.update@)[i] == delta.update[i]@);
            assert(scan.names().to_set().contains(delta.update[i]@));
        }
        assert(texts(delta.new@).len() == delta.new.len());
        assert(texts(delta.update@).len() == delta.update.len());
    }
    let statements = image_delete_statements(path, &delta.del);
    let thumbs = thumb_delete_ops(path, &delta.del);
    let files_done = scan_dir.files.len() - delta.new.len() - delta.update.len();
    let new = entries_for(path, &delta.new, &scan);
    let update = entries_for(path, &delta.update, &scan);
    assert(views(new@).len() == new.len());
    assert(views(update@).len() == update.len());
    FilePlan { statements, thumbs, files_done, request: IndexRequest { new, update } }
}

/// A directory of the snapshot together with its catalog path.
#[derive(Debug)]
pub struct Visit<'a> {
    pub path: String,
    pub dir: &'a ScanDir,
}

impl<'a> View for Visit<'a> {
    type V = (Seq<char>, ScanDir);

    open spec fn view(&self) -> (Seq<char>, ScanDir) {
        (self.path@, *self.dir)
    }
}

/// The directories below the directory `dir` with the path `path`, each
/// before all that lies below it, siblings in their order; counted from the
/// subdirectory number `from`.
pub open spec fn below(path: Seq<char>, dirs: Seq<ScanDir>, from: int) -> Seq<(Seq<char>, ScanDir)>
    decreases dirs, dirs.len() - from,
{
    if 0 <= from < dirs.len() {
        subtree(joined(path, dirs[from].name@), dirs[from]) + below(path, dirs, from + 1)
    } else {
        Seq::empty()
    }
}

/// The directory `dir` with the path `path`, then all directories below
/// it.
pub open spec fn subtree(path: Seq<char>, dir: ScanDir) -> Seq<(Seq<char>, ScanDir)>
    decreases dir,
{
    seq![(path, dir)] + below(path, dir.dirs@, 0)
}

/// The visits that a stack of directories stands for: the subtree of its
/// top, then that of the one below, and so on.
pub open spec fn pending_of(stack: Seq<(Seq<char>, ScanDir)>) -> Seq<(Seq<char>, ScanDir)>
    decreases stack.len(),
{
    if stack.len() == 0 {
        Seq::empty()
    } else {
        subtree(stack.last().0, stack.last().1) + pending_of(stack.drop_last())
    }
}

/// The number of workers and the room of the two queues of one indexing.
#[derive(Debug, Clone, Copy, PartialEq, Eq, Structural)]
pub struct Indexer {
    /// Number of thumbnail workers.
    pub workers: usize,
    /// Requests that may wait for a worker.
    pub request_capacity: usize,
    /// Results that may wait for the writer.
    pub result_capacity: usize,
}

/// A step of the shutdown of an indexing.
#[derive(Debug, Clone, Copy, PartialEq, Eq, Structural)]
pub enum ShutdownStep {
    /// Tell workers and writer to abandon what they are at.
    RaiseStop,
    /// Close the queue of requests.
    CloseRequests,
    /// Close the queue of results.
    CloseResults,
    /// Wait until every worker has ended.
    AwaitWorkers,
    /// Wait until the writer has ended.
    AwaitWriter,
    /// Cancel the task of the writer.
    CancelWriter,
}

/// The signals of one indexing: whether work is to be abandoned, and which
/// queues still take entries.
#[derive(Debug, Clone, Copy, PartialEq, Eq, Structural)]
pub struct IndexerHandle {
    pub stop: bool,
    pub requests_open: bool,
    pub results_open: bool,
}

/// The steps of an abrupt stop: the flag first, then both queues, then the
/// wait for workers and writer.
pub open spec fn stop_steps() -> Seq<ShutdownStep> {
    seq![
        ShutdownStep::RaiseStop,
        ShutdownStep::CloseRequests,
        ShutdownStep::CloseResults,
        ShutdownStep::AwaitWorkers,
        ShutdownStep::AwaitWriter,
        ShutdownStep::CancelWriter,
    ]
}

/// The steps of a drain: no more requests, the workers finish, no more
/// results, the writer finishes.
pub open spec fn drain_steps() -> Seq<ShutdownStep> {
    seq![
        ShutdownStep::CloseRequests,
        ShutdownStep::AwaitWorkers,
        ShutdownStep::CloseResults,
        ShutdownStep::AwaitWriter,
        ShutdownStep::CancelWriter,
    ]
}

impl IndexerHandle {
    /// Stops the indexing at once: work in flight is abandoned.
    pub fn stop(&mut self) -> (steps: Vec<ShutdownStep>)
        ensures
            steps@ == stop_steps(),
            *final(self) == (IndexerHandle { stop: true, requests_open: false, results_open: false }),
    {
        self.stop = true;
        self.requests_open = false;
        self.results_open = false;
        let mut steps: Vec<ShutdownStep> = Vec::new();
        steps.push(ShutdownStep::RaiseStop);
        steps.push(ShutdownStep::CloseRequests);
        steps.push(ShutdownStep::CloseResults);
        steps.push(ShutdownStep::AwaitWorkers);
        steps.push(ShutdownStep::AwaitWriter);
        steps.push(ShutdownStep::CancelWriter);
        assert(steps@ =~= stop_steps());
        steps
    }

    /// Lets the indexing run dry: what is in flight is finished, and nothing
    /// is abandoned.
    pub fn wait_stop(&mut self) -> (steps: Vec<ShutdownStep>)
        ensures
            steps@ == drain_steps(),
            *final(self) == (IndexerHandle {
                stop: old(self).stop,
                requests_open: false,
                results_open: false,
            }),
    {
        self.requests_open = false;
        self.results_open = false;
        let mut steps: Vec<ShutdownStep> = Vec::new();
        steps.push(ShutdownStep::CloseRequests);
        steps.push(ShutdownStep::AwaitWorkers);
        steps.push(ShutdownStep::CloseResults);
        steps.push(ShutdownStep::AwaitWriter);
        steps.push(ShutdownStep::CancelWriter);
        assert(steps@ =~= drain_steps());
        steps
    }
}

/// The walk over a snapshot: the directories that are still to be visited.
pub struct Walk<'a> {
    stack: Vec<Visit<'a>>,
}

impl<'a> Walk<'a> {
    /// The visits still to come if every directory is descended into, in
    /// their order.
    pub closed spec fn pending(&self) -> Seq<(Seq<char>, ScanDir)> {
        pending_of(views(self.stack@))
    }

    /// The next directory to visit, if any is left. Unless `descend` is
    /// called for it, the directories below it are passed over.
    pub fn next(&mut self) -> (r: Option<Visit<'a>>)
        ensures
            match r {
                Some(v) => old(self).pending() == subtree(v.path@, *v.dir) + final(self).pending(),
                None => old(self).pending().len() == 0 && final(self).pending().len() == 0,
            },
    {
        let ghost before = views(self.stack@);
        let r = self.stack.pop();
        assert(r is Some ==> views(self.stack@) =~= before.drop_last());
        assert(r is Some ==> before.last() == r->0@);
        r
    }

    /// Has the walk go on with the directories below the visited one, the
    /// first of them next.
    pub fn descend(&mut self, visit: &Visit<'a>)
        ensures
            final(self).pending() == below(visit.path@, visit.dir.dirs@, 0) + old(self).pending(),
    {
        let dir: &'a ScanDir = visit.dir;
        let ghost base = views(self.stack@);
        let mut i: usize = dir.dirs.len();
        assert(pending_of(views(self.stack@)) =~= below(visit.path@, dir.dirs@, i as int)
            + pending_of(base));
        while i > 0
            invariant
                i <= dir.dirs.len(),
                pending_of(views(self.stack@)) == below(visit.path@, dir.dirs@, i as int)
                    + pending_of(base),
            decreases i,
        {
            i -= 1;
            let ghost so_far = views(self.stack@);
            let child: &'a ScanDir = &dir.dirs[i];
            self.stack.push(Visit { path: subpath(visit.path.as_str(), child.name.as_str()), dir: child });
            assert(views(self.stack@).drop_last() =~= so_far);
            assert(pending_of(views(self.stack@)) =~= below(visit.path@, dir.dirs@, i as int)
                + pending_of(base));
        }
    }
}

impl Indexer {
    /// Lays out an indexing with `n_threads` workers: both queues take as
    /// many entries as there are workers, and nothing is stopped or closed
    /// yet.
    pub fn start(n_threads: usize) -> (r: (Indexer, IndexerHandle))
        requires
            n_threads > 0,
        ensures
            r.0 == (Indexer {
                workers: n_threads,
                request_capacity: n_threads,
                result_capacity: n_threads,
            }),
            r.1 == (IndexerHandle { stop: false, requests_open: true, results_open: true }),
    {
        (
            Indexer {
                workers: n_threads,
                request_capacity: n_threads,
                result_capacity: n_threads,
            },
            IndexerHandle { stop: false, requests_open: true, results_open: true },
        )
    }

    /// Begins the walk over the snapshot `scan_dir`, whose root has the
    /// catalog path `/`, and counts the root as a folder that is done. The
    /// walk visits every directory before those below it.
    pub fn update<'a>(&self, stats: &mut Stats, scan_dir: &'a ScanDir) -> (walk: Walk<'a>)
        requires
            old(stats).scan_folders_count < usize::MAX,
        ensures
            walk.pending() == subtree(joined(seq!['/'], scan_dir.name@), *scan_dir),
            *final(stats) == (Stats {
                scan_folders_count: (old(stats).scan_folders_count + 1) as usize,
                ..*old(stats)
            }),
    {
        stats.add_folders_done(1);
        proof {
            reveal_strlit("/");
        }
        assert("/"@ =~= seq!['/']);
        let mut stack: Vec<Visit<'a>> = Vec::new();
        stack.push(Visit { path: subpath("/", scan_dir.name.as_str()), dir: scan_dir });
        assert(views(stack@).drop_last() =~= Seq::<(Seq<char>, ScanDir)>::empty());
        assert(pending_of(views(stack@).drop_last()) =~= Seq::<(Seq<char>, ScanDir)>::empty());
        Walk { stack }
    }
}

} // verus!
