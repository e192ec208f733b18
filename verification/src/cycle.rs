//! A whole cycle over a snapshot, as the two stores see it: directory after
//! directory the plan of the subfolders runs, then the plan of the files and
//! what the writer makes of the generated entries.
//!
//! After such a cycle the metadata store mirrors every directory of the
//! snapshot, every row hangs on the row of its folder, and a second cycle
//! over the same snapshot changes nothing. Of every file the cycle leaves
//! row and thumbnail as they were, takes them away, or writes what
//! generation made, according to what the scan found; it touches nothing
//! else.
//!
//! The cycle is taken as if every request were written before the walk goes
//! on. No two requests touch one image, so that the order in which they are
//! written in fact is of no account.
use vstd::prelude::*;
use crate::catalog::{apply_all, apply_thumbs, Catalog, Thumbs};
use crate::diff::{added, changed, listed, listed_names, removed, Dated};
use crate::indexer::{
    below, folder_deletes, folder_statements, fresh_entries, subtree, MediaThumbView,
};
use crate::mirror::{
    child_path, consistent, file_statements, folder_listing, generated, image_listing,
    is_entry_path, lemma_classes, lemma_file_statements_frame, lemma_folder_statements_frame,
    anchored, lemma_files_stay_anchored, lemma_folders_stay_anchored,
    lemma_folders_mirror_scan, lemma_images_mirror_scan, lemma_thumbs_after_visit,
    lemma_visit_of_one_file, plain_name, same_at, scanned_path, settles, thumb_changes,
    under_entry, within_entry,
};
use crate::models::views::{FolderScan, MediaScan};
use crate::paths::{beneath, joined, under, within};
use crate::scan::ScanDir;

verus! {

/// What one visit of a directory reads and gets back: the subfolders and
/// the files that the catalog lists, and the new and the updated entries as
/// they return from generation.
pub struct Pass {
    pub db_folders: Seq<FolderScan>,
    pub db_files: Seq<MediaScan>,
    pub new: Seq<MediaThumbView>,
    pub update: Seq<MediaThumbView>,
}

/// The catalog after the plan for the subfolders of `dir` has run.
pub open spec fn after_folders(c: Catalog, path: Seq<char>, dir: ScanDir, pass: Pass) -> Catalog {
    apply_all(c, folder_statements(path, dir.dirs@, pass.db_folders))
}

/// The catalog after the visit of `dir`.
pub open spec fn after_pass(c: Catalog, path: Seq<char>, dir: ScanDir, pass: Pass) -> Catalog {
    apply_all(
        after_folders(c, path, dir, pass),
        file_statements(path, dir.files@, pass.db_files, pass.new, pass.update),
    )
}

/// Whether `pass` is what a visit of `dir` reads from the catalog `c` and
/// gets back from generation: the subfolders as `c` lists them, the files
/// as the catalog lists them once the plan for the subfolders has run, and
/// the entries of the request with their timestamps settled.
pub open spec fn reads(c: Catalog, path: Seq<char>, dir: ScanDir, pass: Pass) -> bool {
    &&& listed(pass.db_folders) == folder_listing(c, path)
    &&& listed(pass.db_files) == image_listing(after_folders(c, path, dir, pass), path)
    &&& generated(
        fresh_entries(
            path,
            added(listed_names(dir.files@), listed(pass.db_files)),
            listed(dir.files@),
        ),
        pass.new,
    )
    &&& generated(
        fresh_entries(
            path,
            changed(listed_names(dir.files@), listed(dir.files@), listed(pass.db_files)),
            listed(dir.files@),
        ),
        pass.update,
    )
}

/// Whether a visit of `dir` can lead from the catalog `c` to `c2`.
pub open spec fn visited(c: Catalog, path: Seq<char>, dir: ScanDir, c2: Catalog) -> bool {
    exists|pass: Pass| #[trigger] reads(c, path, dir, pass) && c2 == after_pass(c, path, dir, pass)
}

/// Whether `catalogs` are the states of the catalog in a cycle that makes
/// the visits `visits` one after the other: the state before the first
/// visit, and then the state after each.
pub open spec fn cycled(catalogs: Seq<Catalog>, visits: Seq<(Seq<char>, ScanDir)>) -> bool {
    &&& catalogs.len() == visits.len() + 1
    &&& forall|i: int|
        0 <= i < visits.len() ==> #[trigger] visited(
            catalogs[i],
            visits[i].0,
            visits[i].1,
            catalogs[i + 1],
        )
}

/// A path as the walk makes it: the root, or a path that does not end in a
/// separator.
pub open spec fn normal(path: Seq<char>) -> bool {
    path == seq!['/'] || (path.len() > 0 && path.last() != '/')
}

/// Whether the subdirectories and the files of `dir` have plain names.
pub open spec fn well_named(dir: ScanDir) -> bool {
    &&& forall|n: Seq<char>| #[trigger] listed(dir.dirs@).contains_key(n) ==> plain_name(n)
    &&& forall|n: Seq<char>| #[trigger] listed(dir.files@).contains_key(n) ==> plain_name(n)
}

/// Whether the visits are those of a directory tree: every path is normal,
/// every name is plain, and no path is visited twice.
pub open spec fn orderly(visits: Seq<(Seq<char>, ScanDir)>) -> bool {
    &&& forall|i: int|
        0 <= i < visits.len() ==> normal((#[trigger] visits[i]).0) && well_named(visits[i].1)
    &&& forall|i: int, j: int|
        0 <= i < j < visits.len() ==> (#[trigger] visits[i]).0 != (#[trigger] visits[j]).0
}

/// Whether `k` is the path of a scanned subfolder of the directory `dir`
/// with the path `path`.
pub open spec fn is_subfolder(path: Seq<char>, dir: ScanDir, k: Seq<char>) -> bool {
    exists|n: Seq<char>| #[trigger] listed(dir.dirs@).contains_key(n) && k == joined(path, n)
}

/// Whether visit number `i` is that of a scanned subfolder of an earlier
/// visit.
pub open spec fn earlier_folder(visits: Seq<(Seq<char>, ScanDir)>, i: int) -> bool {
    exists|j: int|
        0 <= j < i && is_subfolder((#[trigger] visits[j]).0, visits[j].1, visits[i].0)
}

/// Whether the visits hang together as those of a walk do: every visit but
/// the first is that of a scanned subfolder of an earlier visit.
pub open spec fn rooted(visits: Seq<(Seq<char>, ScanDir)>) -> bool {
    forall|i: int| 0 < i < visits.len() ==> #[trigger] earlier_folder(visits, i)
}

/// Whether the catalog mirrors the first `done` of the visits: for each of
/// them it lists the scanned subfolders and the scanned files with their
/// scanned times.
pub open spec fn mirrors(c: Catalog, visits: Seq<(Seq<char>, ScanDir)>, done: int) -> bool {
    forall|j: int|
        0 <= j < done && j < visits.len() ==> folder_listing(c, (#[trigger] visits[j]).0)
            == listed(visits[j].1.dirs@) && image_listing(c, visits[j].0) == listed(
            visits[j].1.files@,
        )
}

/// The part of a path that the names in it follow.
pub open spec fn base(path: Seq<char>) -> Seq<char> {
    if path.len() == 0 || path.last() == '/' {
        path
    } else {
        path + seq!['/']
    }
}

/// Two plain names in two normal directories have one path only where the
/// directories and the names are the same.
pub proof fn lemma_joined_tells_apart(p: Seq<char>, n: Seq<char>, q: Seq<char>, m: Seq<char>)
    requires
        normal(p),
        normal(q),
        plain_name(n),
        plain_name(m),
        joined(p, n) == joined(q, m),
    ensures
        p == q,
        n == m,
{
    assert(n[0] != '/') by {
        if n[0] == '/' {
            assert(n.contains('/'));
        }
    }
    assert(m[0] != '/') by {
        if m[0] == '/' {
            assert(m.contains('/'));
        }
    }
    let bp = base(p);
    let bq = base(q);
    let t = joined(p, n);
    assert(t =~= bp + n);
    assert(t =~= bq + m);
    assert(bp.last() == '/');
    assert(bq.last() == '/');
    // The last separator of the path ends the base, whichever way it is split.
    if bp.len() < bq.len() {
        let i = bq.len() - 1 - bp.len();
        assert((bq + m)[bq.len() - 1] == '/');
        assert((bp + n)[bq.len() - 1] == n[i]);
        assert(n.contains('/'));
    }
    if bq.len() < bp.len() {
        let i = bp.len() - 1 - bq.len();
        assert((bp + n)[bp.len() - 1] == '/');
        assert((bq + m)[bp.len() - 1] == m[i]);
        assert(m.contains('/'));
    }
    assert(bp =~= t.subrange(0, bp.len() as int));
    assert(bq =~= t.subrange(0, bq.len() as int));
    assert(n =~= t.subrange(bp.len() as int, t.len() as int));
    assert(m =~= t.subrange(bq.len() as int, t.len() as int));
    if p != q {
        if p == seq!['/'] {
            assert(q + seq!['/'] == seq!['/']);
            assert((q + seq!['/']).len() == q.len() + 1);
        } else if q == seq!['/'] {
            assert(p + seq!['/'] == seq!['/']);
            assert((p + seq!['/']).len() == p.len() + 1);
        } else {
            assert(p =~= (p + seq!['/']).subrange(0, p.len() as int));
            assert(q =~= (q + seq!['/']).subrange(0, q.len() as int));
        }
    }
}

/// The path of a plain name in a directory is longer than that of the
/// directory, and normal.
proof fn lemma_joined_is_longer(p: Seq<char>, n: Seq<char>)
    requires
        plain_name(n),
    ensures
        joined(p, n).len() > p.len(),
        joined(p, n) == base(p) + n,
        normal(joined(p, n)),
{
    assert(n[0] != '/') by {
        if n[0] == '/' {
            assert(n.contains('/'));
        }
    }
    assert(joined(p, n) =~= base(p) + n);
    assert(joined(p, n).last() == n.last());
    if n.last() == '/' {
        assert(n[n.len() - 1] == '/');
        assert(n.contains('/'));
    }
}

/// What lies below a folder and is the path of a plain name in a normal
/// directory has that directory at or below the folder.
proof fn lemma_below_reaches_parent(f: Seq<char>, q: Seq<char>, m: Seq<char>)
    requires
        f.len() > 0,
        normal(q),
        plain_name(m),
        under(beneath(f), joined(q, m)),
    ensures
        within(f, q),
{
    lemma_joined_is_longer(q, m);
    let g = beneath(f);
    let t = joined(q, m);
    let bq = base(q);
    assert(t.subrange(0, g.len() as int) =~= g);
    // The separator that ends `g` stands in the part of the directory.
    if g.len() > bq.len() {
        let i = g.len() - 1 - bq.len();
        assert(t.subrange(0, g.len() as int)[g.len() - 1] == g[g.len() - 1]);
        assert(t[g.len() - 1] == m[i]);
        assert(m.contains('/'));
    }
    assert forall|i: int| 0 <= i < g.len() implies bq[i] == g[i] by {
        assert(t.subrange(0, g.len() as int)[i] == g[i]);
    }
    if q == seq!['/'] {
        assert(g.len() <= 1);
    } else {
        assert(bq =~= q + seq!['/']);
        if g.len() == bq.len() {
            assert(f =~= q) by {
                assert forall|i: int| 0 <= i < f.len() implies f[i] == q[i] by {
                    assert(bq[i] == g[i]);
                }
            }
        } else {
            assert(q.subrange(0, g.len() as int) =~= g) by {
                assert forall|i: int| 0 <= i < g.len() implies q[i] == g[i] by {
                    assert(bq[i] == g[i]);
                }
            }
        }
    }
}

/// No visit has a shorter path than the first.
proof fn lemma_first_is_shortest(visits: Seq<(Seq<char>, ScanDir)>, i: int)
    requires
        orderly(visits),
        rooted(visits),
        0 <= i < visits.len(),
    ensures
        visits[i].0.len() >= visits[0].0.len(),
    decreases visits[i].0.len(),
{
    if i > 0 {
        let k = visits[i].0;
        assert(earlier_folder(visits, i));
        let j = choose|j: int|
            0 <= j < i && is_subfolder((#[trigger] visits[j]).0, visits[j].1, k);
        let n = choose|n: Seq<char>| #[trigger]
            listed(visits[j].1.dirs@).contains_key(n) && k == joined(visits[j].0, n);
        assert(well_named(visits[j].1));
        lemma_joined_is_longer(visits[j].0, n);
        lemma_first_is_shortest(visits, j);
    }
}

/// A subfolder that the scan of a visited directory lacks has no visit at
/// or below it: the walk descends into scanned subfolders only.
proof fn lemma_gone_holds_no_visit(
    visits: Seq<(Seq<char>, ScanDir)>,
    i: int,
    gone: Seq<char>,
    j: int,
)
    requires
        orderly(visits),
        rooted(visits),
        0 <= i < visits.len(),
        0 <= j < visits.len(),
        plain_name(gone),
        !listed(visits[i].1.dirs@).contains_key(gone),
    ensures
        !within(joined(visits[i].0, gone), visits[j].0),
    decreases visits[j].0.len(),
{
    let p = visits[i].0;
    let f = joined(p, gone);
    let q = visits[j].0;
    lemma_joined_is_longer(p, gone);
    if within(f, q) {
        assert(q.len() >= f.len()) by {
            if q != f {
                assert(q.subrange(0, beneath(f).len() as int) =~= beneath(f));
            }
        }
        if j == 0 {
            lemma_first_is_shortest(visits, i);
        } else {
            assert(earlier_folder(visits, j));
            let up = choose|up: int|
                0 <= up < j && is_subfolder((#[trigger] visits[up]).0, visits[up].1, q);
            let m = choose|m: Seq<char>| #[trigger]
                listed(visits[up].1.dirs@).contains_key(m) && q == joined(visits[up].0, m);
            assert(well_named(visits[up].1));
            lemma_joined_is_longer(visits[up].0, m);
            if q == f {
                lemma_joined_tells_apart(p, gone, visits[up].0, m);
                if i < up {
                    assert(visits[i].0 != visits[up].0);
                }
                if up < i {
                    assert(visits[up].0 != visits[i].0);
                }
            } else {
                lemma_below_reaches_parent(f, visits[up].0, m);
                lemma_gone_holds_no_visit(visits, i, gone, up);
            }
        }
    }
}

/// A visit of the next directory of the snapshot leaves the catalog
/// consistent, mirrors that directory, and keeps the directories mirrored
/// that were visited before.
proof fn lemma_visit(visits: Seq<(Seq<char>, ScanDir)>, c: Catalog, i: int, c2: Catalog)
    requires
        orderly(visits),
        rooted(visits),
        0 <= i < visits.len(),
        consistent(c),
        mirrors(c, visits, i),
        visited(c, visits[i].0, visits[i].1, c2),
    ensures
        consistent(c2),
        mirrors(c2, visits, i + 1),
{
    let p = visits[i].0;
    let d = visits[i].1;
    let pass = choose|pass: Pass| #[trigger]
        reads(c, p, d, pass) && c2 == after_pass(c, p, d, pass);
    let s = listed(d.dirs@);
    let r = removed(listed_names(pass.db_folders), s);
    lemma_classes(d.dirs@, pass.db_folders);
    assert(well_named(d));
    let c1 = after_folders(c, p, d, pass);
    lemma_folders_mirror_scan(c, p, d.dirs@, pass.db_folders);
    lemma_images_mirror_scan(c1, p, d.files@, pass.db_files, pass.new, pass.update);
    lemma_folder_statements_frame(c, p, d.dirs@, pass.db_folders);
    lemma_file_statements_frame(c1, p, d.files@, pass.db_files, pass.new, pass.update);
    assert(c2.folders == c1.folders);
    assert(folder_listing(c2, p) =~= folder_listing(c1, p));
    assert forall|j: int| 0 <= j < i + 1 && j < visits.len() implies folder_listing(
        c2,
        (#[trigger] visits[j]).0,
    ) == listed(visits[j].1.dirs@) && image_listing(c2, visits[j].0) == listed(
        visits[j].1.files@,
    ) by {
        if j < i {
            let q = visits[j].0;
            assert(q != p);
            assert(normal(q) && normal(p));
            assert(folder_listing(c, q) == listed(visits[j].1.dirs@));
            assert(image_listing(c, q) == listed(visits[j].1.files@));
            // The statements for `p` reach no row of a name in `q`.
            assert forall|m: Seq<char>| plain_name(m) implies {
                let k = joined(q, m);
                &&& !scanned_path(p, s, k)
                &&& !child_path(p, k)
                &&& !within_entry(p, r, k)
            } by {
                let k = joined(q, m);
                if scanned_path(p, s, k) {
                    let n = choose|n: Seq<char>| #[trigger] s.contains_key(n) && k == joined(p, n);
                    lemma_joined_tells_apart(q, m, p, n);
                }
                if child_path(p, k) {
                    let n = choose|n: Seq<char>| #[trigger] plain_name(n) && k == joined(p, n);
                    lemma_joined_tells_apart(q, m, p, n);
                }
                if is_entry_path(p, r, k) {
                    let x = choose|x: int| 0 <= x < r.len() && k == joined(p, #[trigger] r[x]);
                    assert(r.contains(r[x]));
                    assert(folder_listing(c, p).contains_key(r[x]));
                    lemma_joined_tells_apart(q, m, p, r[x]);
                }
                if under_entry(p, r, k) {
                    let x = choose|x: int|
                        0 <= x < r.len() && under(beneath(joined(p, #[trigger] r[x])), k);
                    assert(r.contains(r[x]));
                    assert(folder_listing(c, p).contains_key(r[x]));
                    lemma_joined_is_longer(p, r[x]);
                    lemma_below_reaches_parent(joined(p, r[x]), q, m);
                    lemma_gone_holds_no_visit(visits, i, r[x], j);
                }
            }
            assert forall|m: Seq<char>| #[trigger]
                folder_listing(c2, q).contains_key(m) <==> folder_listing(c, q).contains_key(
                    m,
                ) by {
                if plain_name(m) {
                    assert(same_at(c1.folders, c.folders, joined(q, m)));
                }
            }
            assert forall|m: Seq<char>| folder_listing(c, q).contains_key(m) implies #[trigger]
                folder_listing(c2, q)[m] == folder_listing(c, q)[m] by {
                assert(same_at(c1.folders, c.folders, joined(q, m)));
            }
            assert(folder_listing(c2, q) =~= folder_listing(c, q));
            assert forall|m: Seq<char>| #[trigger]
                image_listing(c2, q).contains_key(m) <==> image_listing(c, q).contains_key(m) by {
                if plain_name(m) {
                    let k = joined(q, m);
                    assert(!under_entry(p, r, k));
                    assert(same_at(c2.images, c1.images, k));
                }
            }
            assert forall|m: Seq<char>| image_listing(c, q).contains_key(m) implies #[trigger]
                image_listing(c2, q)[m] == image_listing(c, q)[m] by {
                let k = joined(q, m);
                assert(!under_entry(p, r, k));
                assert(same_at(c2.images, c1.images, k));
            }
            assert(image_listing(c2, q) =~= image_listing(c, q));
        }
    }
}

/// After a cycle over a snapshot, and after each of its visits, the
/// catalog is consistent and mirrors every directory that was visited: for
/// each it lists the scanned subfolders and the scanned files, with their
/// scanned times, and no others. This holds where the catalog was
/// consistent before, whatever stale rows it held.
pub proof fn lemma_cycle_mirrors_snapshot(
    catalogs: Seq<Catalog>,
    visits: Seq<(Seq<char>, ScanDir)>,
    done: int,
)
    requires
        cycled(catalogs, visits),
        consistent(catalogs[0]),
        orderly(visits),
        rooted(visits),
        0 <= done <= visits.len(),
    ensures
        consistent(catalogs[done]),
        mirrors(catalogs[done], visits, done),
    decreases done,
{
    if done > 0 {
        lemma_cycle_mirrors_snapshot(catalogs, visits, done - 1);
        assert(visited(
            catalogs[done - 1],
            visits[done - 1].0,
            visits[done - 1].1,
            catalogs[done - 1 + 1],
        ));
        lemma_visit(visits, catalogs[done - 1], done - 1, catalogs[done]);
    }
}

/// Whether visit number `i` is the first, or that of a scanned subfolder of
/// one of the first `done` visits.
pub open spec fn reached(visits: Seq<(Seq<char>, ScanDir)>, i: int, done: int) -> bool {
    i == 0 || exists|j: int|
        0 <= j < done && is_subfolder((#[trigger] visits[j]).0, visits[j].1, visits[i].0)
}

/// Whether the catalog holds the row of every directory that the walk has
/// reached after `done` visits.
pub open spec fn rows_ready(c: Catalog, visits: Seq<(Seq<char>, ScanDir)>, done: int) -> bool {
    forall|i: int|
        0 <= i < visits.len() && #[trigger] reached(visits, i, done) ==> c.folders.contains_key(
            visits[i].0,
        )
}

/// Throughout a cycle every row hangs on a folder row, the row of the root
/// stays as it is, and the row of every directory is there before the
/// directory is visited: a parent is never missing when the row of a child
/// is inserted. This holds where it held before the cycle and the catalog
/// held the row of the directory that is visited first.
pub proof fn lemma_cycle_stays_anchored(
    catalogs: Seq<Catalog>,
    visits: Seq<(Seq<char>, ScanDir)>,
    done: int,
)
    requires
        cycled(catalogs, visits),
        consistent(catalogs[0]),
        anchored(catalogs[0]),
        visits.len() > 0,
        catalogs[0].folders.contains_key(visits[0].0),
        orderly(visits),
        rooted(visits),
        0 <= done <= visits.len(),
    ensures
        anchored(catalogs[done]),
        rows_ready(catalogs[done], visits, done),
        same_at(catalogs[done].folders, catalogs[0].folders, seq!['/']),
        done < visits.len() ==> catalogs[done].folders.contains_key(visits[done].0),
    decreases done,
{
    if done > 0 {
        let j = done - 1;
        lemma_cycle_stays_anchored(catalogs, visits, j);
        lemma_cycle_mirrors_snapshot(catalogs, visits, j);
        lemma_cycle_mirrors_snapshot(catalogs, visits, done);
        let c = catalogs[j];
        let c2 = catalogs[done];
        let p = visits[j].0;
        let d = visits[j].1;
        assert(visited(c, p, d, catalogs[j + 1]));
        let pass = choose|pass: Pass| #[trigger]
            reads(c, p, d, pass) && c2 == after_pass(c, p, d, pass);
        let c1 = after_folders(c, p, d, pass);
        let s = listed(d.dirs@);
        let r = removed(listed_names(pass.db_folders), s);
        assert(well_named(d));
        lemma_classes(d.dirs@, pass.db_folders);
        lemma_folders_stay_anchored(c, p, d.dirs@, pass.db_folders);
        lemma_files_stay_anchored(c1, p, d.files@, pass.db_files, pass.new, pass.update);
        lemma_folder_statements_frame(c, p, d.dirs@, pass.db_folders);
        assert(c2.folders == c1.folders);
        assert(folder_listing(c2, p) == s);
        assert forall|i: int|
            0 <= i < visits.len() && #[trigger] reached(
                visits,
                i,
                done,
            ) implies c2.folders.contains_key(visits[i].0) by {
            let q = visits[i].0;
            if is_subfolder(p, d, q) {
                let n = choose|n: Seq<char>| #[trigger] s.contains_key(n) && q == joined(p, n);
                assert(folder_listing(c2, p).contains_key(n));
            } else {
                assert(reached(visits, i, j));
                assert(c.folders.contains_key(q));
                if scanned_path(p, s, q) {
                    let n = choose|n: Seq<char>| #[trigger] s.contains_key(n) && q == joined(p, n);
                    assert(is_subfolder(p, d, q));
                }
                if is_entry_path(p, r, q) {
                    let x = choose|x: int| 0 <= x < r.len() && q == joined(p, #[trigger] r[x]);
                    assert(r.contains(r[x]));
                    assert(folder_listing(c, p).contains_key(r[x]));
                    assert(within(joined(p, r[x]), q));
                    lemma_gone_holds_no_visit(visits, j, r[x], i);
                }
                if under_entry(p, r, q) {
                    let x = choose|x: int|
                        0 <= x < r.len() && under(beneath(joined(p, #[trigger] r[x])), q);
                    assert(r.contains(r[x]));
                    assert(folder_listing(c, p).contains_key(r[x]));
                    assert(within(joined(p, r[x]), q));
                    lemma_gone_holds_no_visit(visits, j, r[x], i);
                }
                assert(same_at(c1.folders, c.folders, q));
            }
        }
    }
    if done < visits.len() {
        if done > 0 {
            assert(earlier_folder(visits, done));
            let up = choose|up: int|
                0 <= up < done && is_subfolder(
                    (#[trigger] visits[up]).0,
                    visits[up].1,
                    visits[done].0,
                );
            assert(reached(visits, done, done));
        } else {
            assert(reached(visits, 0, 0));
        }
    }
}

/// The thumbnail store after the visit of `dir`.
pub open spec fn thumbs_after_pass(t: Thumbs, path: Seq<char>, dir: ScanDir, pass: Pass) -> Thumbs {
    apply_thumbs(
        t,
        thumb_changes(
            path,
            dir.dirs@,
            pass.db_folders,
            dir.files@,
            pass.db_files,
            pass.new,
            pass.update,
        ),
    )
}

/// Whether `catalogs` and `thumbs` are the states of the two stores in a
/// cycle that makes the visits `visits` one after the other, and `passes`
/// what each visit read and got back.
pub open spec fn cycled_with(
    catalogs: Seq<Catalog>,
    thumbs: Seq<Thumbs>,
    visits: Seq<(Seq<char>, ScanDir)>,
    passes: Seq<Pass>,
) -> bool {
    &&& catalogs.len() == visits.len() + 1
    &&& thumbs.len() == visits.len() + 1
    &&& passes.len() == visits.len()
    &&& forall|i: int|
        0 <= i < visits.len() ==> {
            &&& #[trigger] reads(catalogs[i], visits[i].0, visits[i].1, passes[i])
            &&& catalogs[i + 1] == after_pass(catalogs[i], visits[i].0, visits[i].1, passes[i])
            &&& thumbs[i + 1] == thumbs_after_pass(
                thumbs[i],
                visits[i].0,
                visits[i].1,
                passes[i],
            )
        }
}

/// A cycle of both stores is a cycle of the metadata store.
pub proof fn lemma_cycled_with_is_cycled(
    catalogs: Seq<Catalog>,
    thumbs: Seq<Thumbs>,
    visits: Seq<(Seq<char>, ScanDir)>,
    passes: Seq<Pass>,
)
    requires
        cycled_with(catalogs, thumbs, visits, passes),
    ensures
        cycled(catalogs, visits),
{
    assert forall|i: int| 0 <= i < visits.len() implies #[trigger] visited(
        catalogs[i],
        visits[i].0,
        visits[i].1,
        catalogs[i + 1],
    ) by {
        assert(reads(catalogs[i], visits[i].0, visits[i].1, passes[i]));
    }
}

/// The visit of one directory leaves alone, in both stores, what lies
/// under the path of a plain name in another visited directory.
proof fn lemma_other_visit_spares(
    visits: Seq<(Seq<char>, ScanDir)>,
    c: Catalog,
    t: Thumbs,
    j: int,
    pass: Pass,
    i: int,
    n: Seq<char>,
)
    requires
        orderly(visits),
        rooted(visits),
        0 <= i < visits.len(),
        0 <= j < visits.len(),
        i != j,
        plain_name(n),
        reads(c, visits[j].0, visits[j].1, pass),
    ensures
        same_at(
            after_pass(c, visits[j].0, visits[j].1, pass).images,
            c.images,
            joined(visits[i].0, n),
        ),
        same_at(
            thumbs_after_pass(t, visits[j].0, visits[j].1, pass),
            t,
            joined(visits[i].0, n),
        ),
{
    let p = visits[j].0;
    let d = visits[j].1;
    let q = visits[i].0;
    let k = joined(q, n);
    let rf = removed(listed_names(pass.db_folders), listed(d.dirs@));
    let c1 = after_folders(c, p, d, pass);
    assert(well_named(d));
    assert(normal(p) && normal(q));
    if i < j {
        assert(visits[i].0 != visits[j].0);
    } else {
        assert(visits[j].0 != visits[i].0);
    }
    lemma_classes(d.dirs@, pass.db_folders);
    lemma_classes(d.files@, pass.db_files);
    lemma_folder_statements_frame(c, p, d.dirs@, pass.db_folders);
    lemma_file_statements_frame(c1, p, d.files@, pass.db_files, pass.new, pass.update);
    lemma_thumbs_after_visit(
        t,
        p,
        d.dirs@,
        pass.db_folders,
        d.files@,
        pass.db_files,
        pass.new,
        pass.update,
    );
    if under_entry(p, rf, k) {
        let x = choose|x: int| 0 <= x < rf.len() && under(beneath(joined(p, #[trigger] rf[x])), k);
        assert(rf.contains(rf[x]));
        assert(folder_listing(c, p).contains_key(rf[x]));
        lemma_joined_is_longer(p, rf[x]);
        lemma_below_reaches_parent(joined(p, rf[x]), q, n);
        lemma_gone_holds_no_visit(visits, j, rf[x], i);
    }
    if child_path(p, k) {
        let m = choose|m: Seq<char>| #[trigger] plain_name(m) && k == joined(p, m);
        lemma_joined_tells_apart(q, n, p, m);
    }
    let names_gone = removed(listed_names(pass.db_files), listed(d.files@));
    let names_new = added(listed_names(d.files@), listed(pass.db_files));
    let names_changed = changed(listed_names(d.files@), listed(d.files@), listed(pass.db_files));
    if is_entry_path(p, names_gone, k) {
        let x = choose|x: int|
            0 <= x < names_gone.len() && k == joined(p, #[trigger] names_gone[x]);
        assert(names_gone.contains(names_gone[x]));
        assert(child_path(p, k));
    }
    if is_entry_path(p, names_new, k) {
        let x = choose|x: int| 0 <= x < names_new.len() && k == joined(p, #[trigger] names_new[x]);
        assert(names_new.contains(names_new[x]));
        assert(child_path(p, k));
    }
    if is_entry_path(p, names_changed, k) {
        let x = choose|x: int|
            0 <= x < names_changed.len() && k == joined(p, #[trigger] names_changed[x]);
        assert(names_changed.contains(names_changed[x]));
        assert(child_path(p, k));
    }
}

/// The visits from number `from` up to, and without, number `to` leave
/// alone, in both stores, what lies under the path of a plain name in a
/// visited directory that is not among them.
proof fn lemma_other_visits_spare(
    catalogs: Seq<Catalog>,
    thumbs: Seq<Thumbs>,
    visits: Seq<(Seq<char>, ScanDir)>,
    passes: Seq<Pass>,
    i: int,
    n: Seq<char>,
    from: int,
    to: int,
)
    requires
        cycled_with(catalogs, thumbs, visits, passes),
        orderly(visits),
        rooted(visits),
        0 <= i < visits.len(),
        plain_name(n),
        0 <= from <= to <= visits.len(),
        !(from <= i < to),
    ensures
        same_at(catalogs[to].images, catalogs[from].images, joined(visits[i].0, n)),
        same_at(thumbs[to], thumbs[from], joined(visits[i].0, n)),
    decreases to - from,
{
    if from < to {
        let j = to - 1;
        lemma_other_visits_spare(catalogs, thumbs, visits, passes, i, n, from, j);
        assert(reads(catalogs[j], visits[j].0, visits[j].1, passes[j]));
        lemma_other_visit_spares(visits, catalogs[j], thumbs[j], j, passes[j], i, n);
    }
}

/// What a whole cycle makes of one file of the snapshot's directories in
/// both stores, whatever else the cycle changes. `n` is a plain name in the
/// directory of visit number `i`, and `k` its path.
///
/// - A file that the catalog listed with its scanned time before the cycle
///   is in no request; its row, its thumbnail key and the bytes under it
///   are after the cycle what they were before.
/// - A file that the catalog listed and the scan lacks has neither row nor
///   thumbnail after the cycle.
/// - Every other scanned file is in the request of its directory; after the
///   cycle its row has the scanned time and the timestamp that generation
///   found, and the thumbnail that generation made lies under its path.
pub proof fn lemma_cycle_of_one_file(
    catalogs: Seq<Catalog>,
    thumbs: Seq<Thumbs>,
    visits: Seq<(Seq<char>, ScanDir)>,
    passes: Seq<Pass>,
    i: int,
    n: Seq<char>,
)
    requires
        cycled_with(catalogs, thumbs, visits, passes),
        orderly(visits),
        rooted(visits),
        0 <= i < visits.len(),
        plain_name(n),
    ensures
        ({
            let k = joined(visits[i].0, n);
            let c0 = catalogs[0];
            let c_end = catalogs[visits.len() as int];
            let t0 = thumbs[0];
            let t_end = thumbs[visits.len() as int];
            let s = listed(visits[i].1.files@);
            let was = image_listing(c0, visits[i].0);
            &&& s.contains_key(n) && was.contains_key(n) && s[n] == was[n] ==> same_at(
                t_end,
                t0,
                k,
            ) && same_at(c_end.images, c0.images, k) && forall|e: MediaThumbView|
                passes[i].new.contains(e) || passes[i].update.contains(e) ==> e.media.path != k
            &&& !s.contains_key(n) && was.contains_key(n) ==> !t_end.contains_key(k)
                && !c_end.images.contains_key(k)
            &&& s.contains_key(n) && !was.contains_key(n) ==> exists|e: MediaThumbView|
                passes[i].new.contains(e) && #[trigger] settles(c_end.images, t_end, k, s[n], e)
            &&& s.contains_key(n) && was.contains_key(n) && s[n] != was[n] ==> exists|
                e: MediaThumbView,
            |
                passes[i].update.contains(e) && #[trigger] settles(
                    c_end.images,
                    t_end,
                    k,
                    s[n],
                    e,
                ) && (e.thumb is None ==> same_at(t_end, t0, k))
        }),
{
    let p = visits[i].0;
    let d = visits[i].1;
    let k = joined(p, n);
    let end = visits.len() as int;
    let pass = passes[i];
    lemma_other_visits_spare(catalogs, thumbs, visits, passes, i, n, 0, i);
    lemma_other_visits_spare(catalogs, thumbs, visits, passes, i, n, i + 1, end);
    assert(reads(catalogs[i], p, d, pass));
    assert(well_named(d));
    lemma_visit_of_one_file(
        catalogs[i],
        thumbs[i],
        p,
        d.dirs@,
        pass.db_folders,
        d.files@,
        pass.db_files,
        pass.new,
        pass.update,
        n,
    );
    let s = listed(d.files@);
    let db = listed(pass.db_files);
    let was = image_listing(catalogs[0], p);
    // The catalog lists the file at its visit as it did before the cycle.
    assert(db.contains_key(n) <==> was.contains_key(n));
    assert(db.contains_key(n) ==> db[n] == was[n]);
    let c2 = catalogs[i + 1];
    let t2 = thumbs[i + 1];
    if s.contains_key(n) && !was.contains_key(n) {
        let e = choose|e: MediaThumbView|
            pass.new.contains(e) && #[trigger] settles(c2.images, t2, k, s[n], e);
        assert(settles(catalogs[end].images, thumbs[end], k, s[n], e));
    }
    if s.contains_key(n) && was.contains_key(n) && s[n] != was[n] {
        let e = choose|e: MediaThumbView|
            pass.update.contains(e) && #[trigger] settles(c2.images, t2, k, s[n], e) && (e.thumb
                is None ==> same_at(t2, thumbs[i], k));
        assert(settles(catalogs[end].images, thumbs[end], k, s[n], e));
    }
}

/// A cycle brings no thumbnail and no image row but for the files of the
/// directories that it visits: what lies, after any number of its visits,
/// under a key that is not the path of a plain name in a visited directory
/// lay there before the cycle, byte for byte.
pub proof fn lemma_cycle_adds_nothing_else(
    catalogs: Seq<Catalog>,
    thumbs: Seq<Thumbs>,
    visits: Seq<(Seq<char>, ScanDir)>,
    passes: Seq<Pass>,
    k: Seq<char>,
    done: int,
)
    requires
        cycled_with(catalogs, thumbs, visits, passes),
        orderly(visits),
        forall|j: int| 0 <= j < visits.len() ==> !child_path((#[trigger] visits[j]).0, k),
        0 <= done <= visits.len(),
    ensures
        thumbs[done].contains_key(k) ==> thumbs[0].contains_key(k) && thumbs[0][k]
            == thumbs[done][k],
        catalogs[done].images.contains_key(k) ==> catalogs[0].images.contains_key(k)
            && catalogs[0].images[k] == catalogs[done].images[k],
    decreases done,
{
    if done > 0 {
        let j = done - 1;
        lemma_cycle_adds_nothing_else(catalogs, thumbs, visits, passes, k, j);
        let p = visits[j].0;
        let d = visits[j].1;
        let pass = passes[j];
        assert(reads(catalogs[j], p, d, pass));
        assert(well_named(d));
        assert(!child_path(visits[j].0, k));
        lemma_folder_statements_frame(catalogs[j], p, d.dirs@, pass.db_folders);
        lemma_file_statements_frame(
            after_folders(catalogs[j], p, d, pass),
            p,
            d.files@,
            pass.db_files,
            pass.new,
            pass.update,
        );
        lemma_thumbs_after_visit(
            thumbs[j],
            p,
            d.dirs@,
            pass.db_folders,
            d.files@,
            pass.db_files,
            pass.new,
            pass.update,
        );
    }
}

/// A visit of a directory that the catalog mirrors plans no statement,
/// requests no thumbnail, and leaves the catalog as it is.
pub proof fn lemma_mirrored_visit_is_idle(c: Catalog, path: Seq<char>, dir: ScanDir, pass: Pass)
    requires
        folder_listing(c, path) == listed(dir.dirs@),
        image_listing(c, path) == listed(dir.files@),
        reads(c, path, dir, pass),
    ensures
        folder_statements(path, dir.dirs@, pass.db_folders).len() == 0,
        pass.new.len() == 0,
        pass.update.len() == 0,
        file_statements(path, dir.files@, pass.db_files, pass.new, pass.update).len() == 0,
        after_pass(c, path, dir, pass) == c,
{
    lemma_classes(dir.dirs@, pass.db_folders);
    let a = added(listed_names(dir.dirs@), listed(pass.db_folders));
    let ch = changed(listed_names(dir.dirs@), listed(dir.dirs@), listed(pass.db_folders));
    let r = removed(listed_names(pass.db_folders), listed(dir.dirs@));
    if a.len() > 0 {
        assert(a.contains(a[0]));
    }
    if ch.len() > 0 {
        assert(ch.contains(ch[0]));
    }
    if r.len() > 0 {
        assert(r.contains(r[0]));
    }
    assert(folder_deletes(path, r).len() == 0);
    assert(folder_statements(path, dir.dirs@, pass.db_folders).len() == 0);
    assert(after_folders(c, path, dir, pass) == c);
    lemma_classes(dir.files@, pass.db_files);
    let fa = added(listed_names(dir.files@), listed(pass.db_files));
    let fch = changed(listed_names(dir.files@), listed(dir.files@), listed(pass.db_files));
    let fr = removed(listed_names(pass.db_files), listed(dir.files@));
    if fa.len() > 0 {
        assert(fa.contains(fa[0]));
    }
    if fch.len() > 0 {
        assert(fch.contains(fch[0]));
    }
    if fr.len() > 0 {
        assert(fr.contains(fr[0]));
    }
    assert(file_statements(path, dir.files@, pass.db_files, pass.new, pass.update).len() == 0);
}

/// A second cycle over a snapshot that the catalog mirrors is idle: no
/// visit plans a statement or requests a thumbnail, and the catalog stays
/// as it is from the first visit to the last.
pub proof fn lemma_second_cycle_is_idle(
    catalogs: Seq<Catalog>,
    visits: Seq<(Seq<char>, ScanDir)>,
    done: int,
)
    requires
        cycled(catalogs, visits),
        mirrors(catalogs[0], visits, visits.len() as int),
        0 <= done <= visits.len(),
    ensures
        catalogs[done] == catalogs[0],
        done < visits.len() ==> forall|pass: Pass| #[trigger]
            reads(catalogs[done], visits[done].0, visits[done].1, pass) ==> folder_statements(
                visits[done].0,
                visits[done].1.dirs@,
                pass.db_folders,
            ).len() == 0 && file_statements(
                visits[done].0,
                visits[done].1.files@,
                pass.db_files,
                pass.new,
                pass.update,
            ).len() == 0 && pass.new.len() == 0 && pass.update.len() == 0,
    decreases done,
{
    if done > 0 {
        lemma_second_cycle_is_idle(catalogs, visits, done - 1);
        let i = done - 1;
        assert(visited(catalogs[i], visits[i].0, visits[i].1, catalogs[i + 1]));
        let pass = choose|pass: Pass| #[trigger]
            reads(catalogs[i], visits[i].0, visits[i].1, pass) && catalogs[i + 1] == after_pass(
                catalogs[i],
                visits[i].0,
                visits[i].1,
                pass,
            );
        assert(folder_listing(catalogs[0], visits[i].0) == listed(visits[i].1.dirs@));
        lemma_mirrored_visit_is_idle(catalogs[i], visits[i].0, visits[i].1, pass);
    }
    if done < visits.len() {
        assert(folder_listing(catalogs[0], visits[done].0) == listed(visits[done].1.dirs@));
        assert forall|pass: Pass| #[trigger]
            reads(catalogs[done], visits[done].0, visits[done].1, pass) implies folder_statements(
            visits[done].0,
            visits[done].1.dirs@,
            pass.db_folders,
        ).len() == 0 && file_statements(
            visits[done].0,
            visits[done].1.files@,
            pass.db_files,
            pass.new,
            pass.update,
        ).len() == 0 && pass.new.len() == 0 && pass.update.len() == 0 by {
            lemma_mirrored_visit_is_idle(catalogs[done], visits[done].0, visits[done].1, pass);
        }
    }
}

/// Whether a snapshot is that of a directory tree: in every directory the
/// names are plain, and no two subdirectories have one name.
pub open spec fn tidy(dir: ScanDir) -> bool
    decreases dir,
{
    &&& forall|i: int| 0 <= i < dir.dirs@.len() ==> plain_name((#[trigger] dir.dirs@[i]).name@)
    &&& forall|i: int| 0 <= i < dir.files@.len() ==> plain_name((#[trigger] dir.files@[i]).name@)
    &&& forall|i: int, j: int|
        0 <= i < j < dir.dirs@.len() ==> (#[trigger] dir.dirs@[i]).name@ != (
        #[trigger] dir.dirs@[j]).name@
    &&& forall|i: int| 0 <= i < dir.dirs@.len() ==> tidy(#[trigger] dir.dirs@[i])
}

/// The names of a listing are the names of its items.
pub proof fn lemma_listed_keys<T: Dated>(items: Seq<T>, n: Seq<char>)
    ensures
        listed(items).contains_key(n) <==> exists|i: int|
            0 <= i < items.len() && (#[trigger] items[i]).name_text() == n,
    decreases items.len(),
{
    if items.len() > 0 {
        let init = items.drop_last();
        lemma_listed_keys(init, n);
        if exists|i: int| 0 <= i < init.len() && (#[trigger] init[i]).name_text() == n {
            let i = choose|i: int| 0 <= i < init.len() && (#[trigger] init[i]).name_text() == n;
            assert(items[i].name_text() == n);
        }
        if items.last().name_text() == n {
            assert(items[items.len() - 1].name_text() == n);
        }
        if exists|i: int| 0 <= i < items.len() && (#[trigger] items[i]).name_text() == n {
            let i = choose|i: int| 0 <= i < items.len() && (#[trigger] items[i]).name_text() == n;
            if i < init.len() {
                assert(init[i].name_text() == n);
            }
        }
    }
}

/// Whether `t` is the path `p` or a path below it.
pub open spec fn inside(p: Seq<char>, t: Seq<char>) -> bool {
    t == p || (under(base(p), t) && t.len() > base(p).len())
}

/// What is inside a subfolder of `p` is inside `p`, and is not `p`.
proof fn lemma_inside_child(p: Seq<char>, a: Seq<char>, t: Seq<char>)
    requires
        normal(p),
        plain_name(a),
        inside(joined(p, a), t),
    ensures
        inside(p, t),
        t != p,
        normal(joined(p, a)),
{
    assert(a[0] != '/') by {
        if a[0] == '/' {
            assert(a.contains('/'));
        }
    }
    let child = joined(p, a);
    assert(child =~= base(p) + a);
    assert(child.last() == a.last());
    assert(a.last() != '/') by {
        if a.last() == '/' {
            assert(a[a.len() - 1] == '/');
            assert(a.contains('/'));
        }
    }
    assert(base(child) =~= child + seq!['/']);
    if t == child {
        assert(t.subrange(0, base(p).len() as int) =~= base(p));
    } else {
        assert(t.subrange(0, base(child).len() as int) =~= base(child));
        assert(t.subrange(0, base(p).len() as int) =~= base(p)) by {
            assert forall|i: int| 0 <= i < base(p).len() implies t[i] == base(p)[i] by {
                assert(t.subrange(0, base(child).len() as int)[i] == base(child)[i]);
            }
        }
    }
}

/// What is inside two subfolders of one directory is inside one: the two
/// have one name.
proof fn lemma_inside_one_child(p: Seq<char>, a: Seq<char>, b: Seq<char>, t: Seq<char>)
    requires
        normal(p),
        plain_name(a),
        plain_name(b),
        inside(joined(p, a), t),
        inside(joined(p, b), t),
    ensures
        a == b,
{
    lemma_inside_child(p, a, t);
    lemma_inside_child(p, b, t);
    let bp = base(p);
    let n = bp.len() as int;
    let ca = joined(p, a);
    let cb = joined(p, b);
    assert(a[0] != '/') by {
        if a[0] == '/' {
            assert(a.contains('/'));
        }
    }
    assert(b[0] != '/') by {
        if b[0] == '/' {
            assert(b.contains('/'));
        }
    }
    assert(ca =~= bp + a);
    assert(cb =~= bp + b);
    assert(base(ca) =~= ca + seq!['/']);
    assert(base(cb) =~= cb + seq!['/']);
    // `t` starts with both paths.
    assert forall|i: int| 0 <= i < a.len() implies t[n + i] == a[i] by {
        if t != ca {
            assert(t.subrange(0, base(ca).len() as int)[n + i] == base(ca)[n + i]);
        }
    }
    assert forall|i: int| 0 <= i < b.len() implies t[n + i] == b[i] by {
        if t != cb {
            assert(t.subrange(0, base(cb).len() as int)[n + i] == base(cb)[n + i]);
        }
    }
    if a.len() == b.len() {
        assert(a =~= b);
    } else if a.len() < b.len() {
        assert(t != ca);
        assert(t.subrange(0, base(ca).len() as int)[n + a.len()] == base(ca)[n + a.len()]);
        assert(t[n + a.len()] == '/');
        assert(b[a.len() as int] == '/');
        assert(b.contains('/'));
    } else {
        assert(t != cb);
        assert(t.subrange(0, base(cb).len() as int)[n + b.len()] == base(cb)[n + b.len()]);
        assert(t[n + b.len()] == '/');
        assert(a[b.len() as int] == '/');
        assert(a.contains('/'));
    }
}

/// Whether `t` is inside one of the subfolders `dirs` of `p`, counted from
/// the subfolder number `from`.
pub open spec fn inside_some(p: Seq<char>, dirs: Seq<ScanDir>, from: int, t: Seq<char>) -> bool {
    exists|c: int|
        from <= c < dirs.len() && inside(joined(p, (#[trigger] dirs[c]).name@), t)
}

/// Whether the visits `v` have normal paths, tidy directories, and no path
/// twice.
pub open spec fn neat(v: Seq<(Seq<char>, ScanDir)>) -> bool {
    &&& forall|i: int| 0 <= i < v.len() ==> normal((#[trigger] v[i]).0) && tidy(v[i].1)
    &&& forall|i: int, j: int| 0 <= i < j < v.len() ==> (#[trigger] v[i]).0 != (#[trigger] v[j]).0
}

/// The visits of a tidy directory are neat and stay inside it; it is the
/// first of them and the only one with its path.
proof fn lemma_subtree_is_neat(p: Seq<char>, d: ScanDir)
    requires
        normal(p),
        tidy(d),
    ensures
        neat(subtree(p, d)),
        subtree(p, d).len() > 0,
        subtree(p, d)[0] == (p, d),
        forall|i: int| 0 <= i < subtree(p, d).len() ==> inside(p, (#[trigger] subtree(p, d)[i]).0),
        forall|i: int| 0 < i < subtree(p, d).len() ==> (#[trigger] subtree(p, d)[i]).0 != p,
    decreases d, 0nat,
{
    let rest = below(p, d.dirs@, 0);
    let v = subtree(p, d);
    lemma_below_is_neat(p, d.dirs@, 0);
    assert(v =~= seq![(p, d)] + rest);
    assert forall|i: int| 0 < i < v.len() implies inside(p, (#[trigger] v[i]).0) && v[i].0
        != p && normal(v[i].0) && tidy(v[i].1) by {
        assert(v[i] == rest[i - 1]);
        let t = rest[i - 1].0;
        let c = choose|c: int|
            0 <= c < d.dirs@.len() && inside(joined(p, (#[trigger] d.dirs@[c]).name@), t);
        lemma_inside_child(p, d.dirs@[c].name@, t);
    }
    assert forall|i: int, j: int| 0 <= i < j < v.len() implies (#[trigger] v[i]).0 != (
    #[trigger] v[j]).0 by {
        if i > 0 {
            assert(v[i] == rest[i - 1]);
            assert(v[j] == rest[j - 1]);
        }
    }
}

/// The visits below a directory with tidy, differently named subfolders
/// are neat, and each is inside one of the subfolders.
proof fn lemma_below_is_neat(p: Seq<char>, dirs: Seq<ScanDir>, from: int)
    requires
        normal(p),
        0 <= from <= dirs.len(),
        forall|i: int| 0 <= i < dirs.len() ==> plain_name((#[trigger] dirs[i]).name@) && tidy(
            dirs[i],
        ),
        forall|i: int, j: int|
            0 <= i < j < dirs.len() ==> (#[trigger] dirs[i]).name@ != (#[trigger] dirs[j]).name@,
    ensures
        neat(below(p, dirs, from)),
        forall|i: int|
            0 <= i < below(p, dirs, from).len() ==> inside_some(
                p,
                dirs,
                from,
                (#[trigger] below(p, dirs, from)[i]).0,
            ),
    decreases dirs, dirs.len() - from,
{
    if from < dirs.len() {
        let child = joined(p, dirs[from].name@);
        let first = subtree(child, dirs[from]);
        let rest = below(p, dirs, from + 1);
        let v = below(p, dirs, from);
        assert(inside(child, child));
        lemma_inside_child(p, dirs[from].name@, child);
        lemma_subtree_is_neat(child, dirs[from]);
        lemma_below_is_neat(p, dirs, from + 1);
        assert(v =~= first + rest);
        assert forall|i: int| 0 <= i < v.len() implies inside_some(p, dirs, from, (#[trigger] v[i]).0)
            && normal(v[i].0) && tidy(v[i].1) by {
            if i < first.len() {
                assert(v[i] == first[i]);
                assert(inside(joined(p, dirs[from].name@), v[i].0));
            } else {
                assert(v[i] == rest[i - first.len()]);
                let t = rest[i - first.len()].0;
                let c = choose|c: int|
                    from + 1 <= c < dirs.len() && inside(joined(p, (#[trigger] dirs[c]).name@), t);
                assert(inside(joined(p, dirs[c].name@), v[i].0));
            }
        }
        assert forall|i: int, j: int| 0 <= i < j < v.len() implies (#[trigger] v[i]).0 != (
        #[trigger] v[j]).0 by {
            if j < first.len() {
                assert(v[i] == first[i]);
                assert(v[j] == first[j]);
            } else if i >= first.len() {
                assert(v[i] == rest[i - first.len()]);
                assert(v[j] == rest[j - first.len()]);
            } else {
                assert(v[i] == first[i]);
                assert(v[j] == rest[j - first.len()]);
                let t = rest[j - first.len()].0;
                let c = choose|c: int|
                    from + 1 <= c < dirs.len() && inside(joined(p, (#[trigger] dirs[c]).name@), t);
                if v[i].0 == t {
                    lemma_inside_one_child(p, dirs[from].name@, dirs[c].name@, t);
                    assert(dirs[from].name@ != dirs[c].name@);
                }
            }
        }
    }
}

/// Whether every one of the visits `w` is that of a subfolder of `p` that
/// `scan` names, or of a scanned subfolder of an earlier one of them.
pub open spec fn hung(p: Seq<char>, scan: Map<Seq<char>, i64>, w: Seq<(Seq<char>, ScanDir)>) -> bool {
    forall|i: int|
        0 <= i < w.len() ==> scanned_path(p, scan, (#[trigger] w[i]).0) || earlier_folder(w, i)
}

/// The visits of a directory hang together: every one but the first is
/// that of a scanned subfolder of an earlier one.
proof fn lemma_subtree_is_rooted(p: Seq<char>, d: ScanDir)
    ensures
        rooted(subtree(p, d)),
    decreases d, 0nat,
{
    let rest = below(p, d.dirs@, 0);
    let v = subtree(p, d);
    lemma_below_is_hung(p, d.dirs@, 0);
    assert(v =~= seq![(p, d)] + rest);
    assert forall|i: int| 0 < i < v.len() implies #[trigger] earlier_folder(v, i) by {
        let k = rest[i - 1].0;
        assert(v[i] == rest[i - 1]);
        if scanned_path(p, listed(d.dirs@), k) {
            assert(is_subfolder(v[0].0, v[0].1, v[i].0));
        } else {
            assert(earlier_folder(rest, i - 1));
            let j = choose|j: int|
                0 <= j < i - 1 && is_subfolder((#[trigger] rest[j]).0, rest[j].1, k);
            assert(v[j + 1] == rest[j]);
            assert(is_subfolder(v[j + 1].0, v[j + 1].1, v[i].0));
        }
    }
}

/// The visits below a directory hang on its subfolders or on one another.
proof fn lemma_below_is_hung(p: Seq<char>, dirs: Seq<ScanDir>, from: int)
    requires
        0 <= from <= dirs.len(),
    ensures
        hung(p, listed(dirs), below(p, dirs, from)),
    decreases dirs, dirs.len() - from,
{
    if from < dirs.len() {
        let child = joined(p, dirs[from].name@);
        let first = subtree(child, dirs[from]);
        let rest = below(p, dirs, from + 1);
        let w = below(p, dirs, from);
        lemma_subtree_is_rooted(child, dirs[from]);
        lemma_below_is_hung(p, dirs, from + 1);
        assert(w =~= first + rest);
        assert(first =~= seq![(child, dirs[from])] + below(child, dirs[from].dirs@, 0));
        lemma_listed_keys(dirs, dirs[from].name@);
        assert(dirs[from].name_text() == dirs[from].name@);
        assert forall|i: int| 0 <= i < w.len() implies scanned_path(
            p,
            listed(dirs),
            (#[trigger] w[i]).0,
        ) || earlier_folder(w, i) by {
            let k = w[i].0;
            if i == 0 {
                assert(w[0] == first[0]);
                assert(k == child);
            } else if i < first.len() {
                assert(w[i] == first[i]);
                assert(earlier_folder(first, i));
                let j = choose|j: int|
                    0 <= j < i && is_subfolder((#[trigger] first[j]).0, first[j].1, k);
                assert(w[j] == first[j]);
                assert(is_subfolder(w[j].0, w[j].1, w[i].0));
            } else {
                let at = i - first.len();
                assert(w[i] == rest[at]);
                if !scanned_path(p, listed(dirs), k) {
                    assert(earlier_folder(rest, at));
                    let j = choose|j: int|
                        0 <= j < at && is_subfolder((#[trigger] rest[j]).0, rest[j].1, k);
                    assert(w[j + first.len()] == rest[j]);
                    assert(is_subfolder(w[j + first.len()].0, w[j + first.len()].1, w[i].0));
                }
            }
        }
    }
}

/// The walk over a tidy snapshot makes orderly visits that hang together:
/// normal paths, plain names, no path twice, and every visit but the first
/// that of a scanned subfolder of a visit.
pub proof fn lemma_walk_is_orderly(p: Seq<char>, root: ScanDir)
    requires
        normal(p),
        tidy(root),
    ensures
        orderly(subtree(p, root)),
        rooted(subtree(p, root)),
{
    lemma_subtree_is_neat(p, root);
    lemma_subtree_is_rooted(p, root);
    let v = subtree(p, root);
    assert forall|i: int| 0 <= i < v.len() implies normal((#[trigger] v[i]).0) && well_named(
        v[i].1,
    ) by {
        let d = v[i].1;
        assert(tidy(d));
        assert forall|n: Seq<char>| #[trigger] listed(d.dirs@).contains_key(n) implies plain_name(
            n,
        ) by {
            lemma_listed_keys(d.dirs@, n);
            let k = choose|k: int| 0 <= k < d.dirs@.len() && (#[trigger] d.dirs@[k]).name_text() == n;
            assert(plain_name(d.dirs@[k].name@));
        }
        assert forall|n: Seq<char>| #[trigger] listed(d.files@).contains_key(n) implies plain_name(
            n,
        ) by {
            lemma_listed_keys(d.files@, n);
            let k = choose|k: int|
                0 <= k < d.files@.len() && (#[trigger] d.files@[k]).name_text() == n;
            assert(plain_name(d.files@[k].name@));
        }
    }
}

/// Running a cycle twice over one snapshot is idempotent. Where the walk
/// over a tidy snapshot has been made once, a second walk over the same
/// snapshot finds in no directory a subfolder or a file that is new,
/// updated or deleted: it plans no statement, requests no thumbnail, and
/// leaves the catalog as the first left it. `first` and `second` are the
/// states of the catalog in the two cycles; the first begins with a
/// consistent catalog, whatever stale rows it holds.
pub proof fn lemma_second_run_is_idle(
    path: Seq<char>,
    root: ScanDir,
    first: Seq<Catalog>,
    second: Seq<Catalog>,
    done: int,
)
    requires
        normal(path),
        tidy(root),
        cycled(first, subtree(path, root)),
        consistent(first[0]),
        cycled(second, subtree(path, root)),
        second[0] == first.last(),
        0 <= done < subtree(path, root).len(),
    ensures
        second[done] == first.last(),
        forall|pass: Pass| #[trigger]
            reads(second[done], subtree(path, root)[done].0, subtree(path, root)[done].1, pass)
                ==> folder_statements(
                subtree(path, root)[done].0,
                subtree(path, root)[done].1.dirs@,
                pass.db_folders,
            ).len() == 0 && file_statements(
                subtree(path, root)[done].0,
                subtree(path, root)[done].1.files@,
                pass.db_files,
                pass.new,
                pass.update,
            ).len() == 0 && pass.new.len() == 0 && pass.update.len() == 0,
{
    let visits = subtree(path, root);
    lemma_walk_is_orderly(path, root);
    lemma_cycle_mirrors_snapshot(first, visits, visits.len() as int);
    lemma_second_cycle_is_idle(second, visits, done);
}

/// A walk that descends into every directory it visits goes through the
/// directories one by one in the order of `pending`: where `before` is
/// pending before a visit and `after_next` once the visit is handed out,
/// the visit is the first of `before`, and after the descent the rest of
/// `before` is pending.
pub proof fn lemma_walk_step(
    before: Seq<(Seq<char>, ScanDir)>,
    visit: (Seq<char>, ScanDir),
    after_next: Seq<(Seq<char>, ScanDir)>,
)
    requires
        before == subtree(visit.0, visit.1) + after_next,
    ensures
        before.len() > 0,
        before[0] == visit,
        below(visit.0, visit.1.dirs@, 0) + after_next == before.drop_first(),
{
    assert(below(visit.0, visit.1.dirs@, 0) + after_next =~= before.drop_first());
}

} // verus!
