//! What the statements of a plan make of the metadata store: after them the
//! rows of a directory mirror the snapshot, so that a second pass finds
//! nothing to do.
use vstd::prelude::*;
use crate::catalog::{
    apply, apply_all, apply_thumb, apply_thumbs, without_prefix, Catalog, StatementView,
    ThumbOpView, Thumbs,
};
use crate::diff::{
    added, changed, lemma_filter_distinct, listed, listed_names, removed, Dated,
};
use crate::exif::Exif;
use crate::indexer::{
    folder_deletes, folder_inserts, folder_statements, folder_updates, fresh_entries,
    fresh_entry, image_deletes, subtree_delete, thumb_deletes, thumb_prefix_deletes,
    MediaThumbView,
};
use crate::models::tables::{FolderRow, ImageRow};
use crate::models::views::{FolderScan, MediaScan};
use crate::paths::{beneath, joined, under, within};
use crate::scan::{ScanDir, ScanFile};
use crate::worker::{capture_time, completed};
use crate::writer::{image_inserts, image_updates, thumb_puts};

verus! {

/// Whether `a` and `b` agree on the key `k`: both lack it, or both hold the
/// same value for it.
pub open spec fn same_at<V>(a: Map<Seq<char>, V>, b: Map<Seq<char>, V>, k: Seq<char>) -> bool {
    a.contains_key(k) == b.contains_key(k) && (a.contains_key(k) ==> a[k] == b[k])
}

/// A name as a directory holds it: not empty, not `.`, and without a
/// separator.
pub open spec fn plain_name(name: Seq<char>) -> bool {
    &&& name.len() > 0
    &&& name != seq!['.']
    &&& !name.contains('/')
}

/// `m` without the keys at and below `folder`.
pub open spec fn without_folder<V>(m: Map<Seq<char>, V>, folder: Seq<char>) -> Map<Seq<char>, V> {
    m.restrict(Set::new(|k: Seq<char>| !within(folder, k)))
}

/// Removing a folder takes from the metadata store exactly the row of the
/// folder, and the folder rows and image rows whose path starts with the
/// folder's path and a separator; from the thumbnail store it takes exactly
/// the keys that start so. Every other row and every other thumbnail stays
/// as it was.
pub proof fn lemma_subtree_delete_is_exact(c: Catalog, t: Thumbs, folder: Seq<char>)
    ensures
        apply_all(c, subtree_delete(folder)).folders == without_folder(c.folders, folder),
        apply_all(c, subtree_delete(folder)).images == without_prefix(c.images, beneath(folder)),
        apply_thumb(t, ThumbOpView::DeleteUnder { prefix: beneath(folder) }) == without_prefix(
            t,
            beneath(folder),
        ),
        forall|k: Seq<char>| within(folder, k) ==> !without_folder(c.folders, folder).contains_key(k),
        forall|k: Seq<char>|
            under(beneath(folder), k) ==> !without_prefix(c.images, beneath(folder)).contains_key(
                k,
            ) && !without_prefix(t, beneath(folder)).contains_key(k),
        forall|k: Seq<char>|
            !within(folder, k) ==> same_at(without_folder(c.folders, folder), c.folders, k),
        forall|k: Seq<char>|
            !under(beneath(folder), k) ==> same_at(
                without_prefix(c.images, beneath(folder)),
                c.images,
                k,
            ) && same_at(without_prefix(t, beneath(folder)), t, k),
{
    let ss = subtree_delete(folder);
    let c0 = apply_all(c, ss.drop_last().drop_last().drop_last());
    let c1 = apply_all(c, ss.drop_last().drop_last());
    let c2 = apply_all(c, ss.drop_last());
    let c3 = apply_all(c, ss);
    assert(ss.drop_last().drop_last().drop_last().len() == 0);
    assert(c0 == c);
    assert(c1 == apply(c0, ss[0]));
    assert(c2 == apply(c1, ss[1]));
    assert(c3 == apply(c2, ss[2]));
    assert(c3.folders =~= without_folder(c.folders, folder));
    assert(c3.images =~= without_prefix(c.images, beneath(folder)));
}

/// What is within two entries of one directory is within one: the two have
/// one name.
pub proof fn lemma_within_one_entry(p: Seq<char>, a: Seq<char>, b: Seq<char>, t: Seq<char>)
    requires
        plain_name(a),
        plain_name(b),
        within(joined(p, a), t),
        within(joined(p, b), t),
    ensures
        a == b,
{
    assert(a[0] != '/') by {
        if a[0] == '/' {
            assert(a.contains('/'));
        }
    }
    assert(b[0] != '/') by {
        if b[0] == '/' {
            assert(b.contains('/'));
        }
    }
    let bp = if p.len() == 0 || p.last() == '/' {
        p
    } else {
        p + seq!['/']
    };
    let n = bp.len() as int;
    let ca = joined(p, a);
    let cb = joined(p, b);
    assert(ca =~= bp + a);
    assert(cb =~= bp + b);
    // `t` starts with both paths.
    assert forall|i: int| 0 <= i < a.len() implies t[n + i] == a[i] by {
        if t != ca {
            assert(t.subrange(0, beneath(ca).len() as int)[n + i] == beneath(ca)[n + i]);
        }
    }
    assert forall|i: int| 0 <= i < b.len() implies t[n + i] == b[i] by {
        if t != cb {
            assert(t.subrange(0, beneath(cb).len() as int)[n + i] == beneath(cb)[n + i]);
        }
    }
    if a.len() == b.len() {
        assert(a =~= b);
    } else if a.len() < b.len() {
        assert(t != ca);
        assert(t.subrange(0, beneath(ca).len() as int)[n + a.len()] == beneath(ca)[n + a.len()]);
        assert(t[n + a.len()] == '/');
        assert(b[a.len() as int] == '/');
        assert(b.contains('/'));
    } else {
        assert(t != cb);
        assert(t.subrange(0, beneath(cb).len() as int)[n + b.len()] == beneath(cb)[n + b.len()]);
        assert(t[n + b.len()] == '/');
        assert(a[b.len() as int] == '/');
        assert(a.contains('/'));
    }
}

/// No entry of a directory lies below an entry of that directory.
pub proof fn lemma_entry_is_not_below(p: Seq<char>, a: Seq<char>, b: Seq<char>)
    requires
        plain_name(a),
        plain_name(b),
    ensures
        !under(beneath(joined(p, a)), joined(p, b)),
{
    let t = joined(p, b);
    if under(beneath(joined(p, a)), t) {
        lemma_within_one_entry(p, a, b, t);
        assert(beneath(t).len() == t.len() + 1);
    }
}

/// Removing the folder `name` of `parent` leaves alone every other entry
/// `other` of `parent`, folder or file, and all that lies below it, whether
/// or not the name of the one begins with the name of the other.
pub proof fn lemma_sibling_is_untouched(
    c: Catalog,
    t: Thumbs,
    parent: Seq<char>,
    name: Seq<char>,
    other: Seq<char>,
    k: Seq<char>,
)
    requires
        plain_name(name),
        plain_name(other),
        name != other,
        within(joined(parent, other), k),
    ensures
        !within(joined(parent, name), k),
        same_at(apply_all(c, subtree_delete(joined(parent, name))).folders, c.folders, k),
        same_at(apply_all(c, subtree_delete(joined(parent, name))).images, c.images, k),
        same_at(
            apply_thumb(t, ThumbOpView::DeleteUnder { prefix: beneath(joined(parent, name)) }),
            t,
            k,
        ),
{
    if within(joined(parent, name), k) {
        lemma_within_one_entry(parent, name, other, k);
    }
    lemma_subtree_delete_is_exact(c, t, joined(parent, name));
}

/// Statements that run one after the other may be run in two parts.
pub proof fn lemma_apply_all_concat(c: Catalog, a: Seq<StatementView>, b: Seq<StatementView>)
    ensures
        apply_all(c, a + b) == apply_all(apply_all(c, a), b),
    decreases b.len(),
{
    if b.len() == 0 {
        assert(a + b =~= a);
    } else {
        lemma_apply_all_concat(c, a, b.drop_last());
        assert((a + b).drop_last() =~= a + b.drop_last());
        assert((a + b).last() == b.last());
    }
}

/// The names of a listing are, each once, the names that have a time.
pub proof fn lemma_listed_names<T: Dated>(items: Seq<T>)
    ensures
        listed_names(items).no_duplicates(),
        forall|n: Seq<char>| listed_names(items).contains(n) <==> listed(items).contains_key(n),
    decreases items.len(),
{
    if items.len() > 0 {
        let init = items.drop_last();
        let last = items.last().name_text();
        lemma_listed_names(init);
        let before = listed_names(init);
        let now = listed_names(items);
        assert forall|n: Seq<char>| now.contains(n) <==> listed(items).contains_key(n) by {
            if before.contains(last) {
                assert(now == before);
            } else {
                assert(now == before.push(last));
                assert(now[now.len() - 1] == last);
                if before.contains(n) {
                    let k = choose|k: int| 0 <= k < before.len() && before[k] == n;
                    assert(now[k] == n);
                }
                if now.contains(n) && n != last {
                    let k = choose|k: int| 0 <= k < now.len() && now[k] == n;
                    assert(before[k] == n);
                }
            }
        }
    }
}

/// Two plain names with one path in a directory are one name.
pub proof fn lemma_joined_is_injective(dir: Seq<char>, a: Seq<char>, b: Seq<char>)
    requires
        plain_name(a),
        plain_name(b),
        joined(dir, a) == joined(dir, b),
    ensures
        a == b,
{
    assert(a[0] != '/') by {
        if a[0] == '/' {
            assert(a.contains('/'));
        }
    }
    assert(b[0] != '/') by {
        if b[0] == '/' {
            assert(b.contains('/'));
        }
    }
    let base = if dir.len() == 0 || dir.last() == '/' {
        dir
    } else {
        dir + seq!['/']
    };
    assert(joined(dir, a) =~= base + a);
    assert(joined(dir, b) =~= base + b);
    assert(a =~= (base + a).subrange(base.len() as int, (base + a).len() as int));
    assert(b =~= (base + b).subrange(base.len() as int, (base + b).len() as int));
}

/// The row of the folder `name` of `path` with the time `mtime`.
pub open spec fn folder_row(path: Seq<char>, name: Seq<char>, mtime: i64) -> FolderRow {
    FolderRow { path: joined(path, name), name, dir: Some(path), mtime }
}

/// Whether `k` is the path of one of the entries `names` of `path`.
pub open spec fn is_entry_path(path: Seq<char>, names: Seq<Seq<char>>, k: Seq<char>) -> bool {
    exists|i: int| 0 <= i < names.len() && k == joined(path, #[trigger] names[i])
}

/// Whether `k` lies below one of the entries `names` of `path`: whether it
/// starts with the path of one of them and a separator.
pub open spec fn under_entry(path: Seq<char>, names: Seq<Seq<char>>, k: Seq<char>) -> bool {
    exists|i: int| 0 <= i < names.len() && under(beneath(joined(path, #[trigger] names[i])), k)
}

/// Whether `k` is the path of one of the entries `names` of `path` or lies
/// below one of them.
pub open spec fn within_entry(path: Seq<char>, names: Seq<Seq<char>>, k: Seq<char>) -> bool {
    is_entry_path(path, names, k) || under_entry(path, names, k)
}

/// The inserts for the folders `names` of `path` put the row of each in
/// place and leave every other row, and every image, as it was.
pub proof fn lemma_folder_inserts(
    c: Catalog,
    path: Seq<char>,
    names: Seq<Seq<char>>,
    times: Map<Seq<char>, i64>,
)
    requires
        names.no_duplicates(),
        forall|i: int| 0 <= i < names.len() ==> plain_name(#[trigger] names[i]),
    ensures
        apply_all(c, folder_inserts(path, names, times)).images == c.images,
        forall|i: int|
            0 <= i < names.len() ==> {
                let k = joined(path, #[trigger] names[i]);
                let after = apply_all(c, folder_inserts(path, names, times)).folders;
                after.contains_key(k) && after[k] == folder_row(path, names[i], times[names[i]])
            },
        forall|k: Seq<char>|
            !is_entry_path(path, names, k) ==> same_at(
                apply_all(c, folder_inserts(path, names, times)).folders,
                c.folders,
                k,
            ),
    decreases names.len(),
{
    let ss = folder_inserts(path, names, times);
    if names.len() > 0 {
        let init = names.drop_last();
        let last = names.last();
        assert(ss.drop_last() =~= folder_inserts(path, init, times));
        lemma_folder_inserts(c, path, init, times);
        let mid = apply_all(c, folder_inserts(path, init, times));
        let after = apply_all(c, ss);
        assert(after == apply(mid, ss.last()));
        assert(after.folders == mid.folders.insert(
            joined(path, last),
            folder_row(path, last, times[last]),
        ));
        assert forall|i: int| 0 <= i < names.len() implies {
            let k = joined(path, #[trigger] names[i]);
            after.folders.contains_key(k) && after.folders[k] == folder_row(
                path,
                names[i],
                times[names[i]],
            )
        } by {
            if i < init.len() {
                assert(init[i] == names[i]);
                if joined(path, names[i]) == joined(path, last) {
                    lemma_joined_is_injective(path, names[i], last);
                    assert(names[i] == names[names.len() - 1]);
                }
            }
        }
        assert forall|k: Seq<char>| !is_entry_path(path, names, k) implies same_at(
            after.folders,
            c.folders,
            k,
        ) by {
            assert(k != joined(path, names[names.len() - 1]));
            if is_entry_path(path, init, k) {
                let i = choose|i: int| 0 <= i < init.len() && k == joined(path, #[trigger] init[i]);
                assert(names[i] == init[i]);
            }
        }
    }
}

/// The updates for the folders `names` of `path` set the time of each row
/// that is there and leave all else as it was.
pub proof fn lemma_folder_updates(
    c: Catalog,
    path: Seq<char>,
    names: Seq<Seq<char>>,
    times: Map<Seq<char>, i64>,
)
    requires
        names.no_duplicates(),
        forall|i: int| 0 <= i < names.len() ==> plain_name(#[trigger] names[i]),
    ensures
        apply_all(c, folder_updates(path, names, times)).images == c.images,
        forall|k: Seq<char>|
            apply_all(c, folder_updates(path, names, times)).folders.contains_key(k)
                == c.folders.contains_key(k),
        forall|i: int|
            0 <= i < names.len() && c.folders.contains_key(joined(path, #[trigger] names[i])) ==> {
                let k = joined(path, names[i]);
                apply_all(c, folder_updates(path, names, times)).folders[k] == (FolderRow {
                    mtime: times[names[i]],
                    ..c.folders[k]
                })
            },
        forall|k: Seq<char>|
            !is_entry_path(path, names, k) ==> same_at(
                apply_all(c, folder_updates(path, names, times)).folders,
                c.folders,
                k,
            ),
    decreases names.len(),
{
    let ss = folder_updates(path, names, times);
    if names.len() > 0 {
        let init = names.drop_last();
        let last = names.last();
        assert(ss.drop_last() =~= folder_updates(path, init, times));
        lemma_folder_updates(c, path, init, times);
        let mid = apply_all(c, folder_updates(path, init, times));
        let after = apply_all(c, ss);
        assert(after == apply(mid, ss.last()));
        assert(!is_entry_path(path, init, joined(path, last))) by {
            if is_entry_path(path, init, joined(path, last)) {
                let i = choose|i: int|
                    0 <= i < init.len() && joined(path, last) == joined(path, #[trigger] init[i]);
                assert(init[i] == names[i]);
                lemma_joined_is_injective(path, names[i], last);
                assert(names[i] == names[names.len() - 1]);
            }
        }
        assert forall|i: int|
            0 <= i < names.len() && c.folders.contains_key(
                joined(path, #[trigger] names[i]),
            ) implies {
            let k = joined(path, names[i]);
            after.folders[k] == (FolderRow { mtime: times[names[i]], ..c.folders[k] })
        } by {
            if i < init.len() {
                assert(init[i] == names[i]);
                if joined(path, names[i]) == joined(path, last) {
                    lemma_joined_is_injective(path, names[i], last);
                    assert(names[i] == names[names.len() - 1]);
                }
            }
        }
        assert forall|k: Seq<char>| !is_entry_path(path, names, k) implies same_at(
            after.folders,
            c.folders,
            k,
        ) by {
            assert(k != joined(path, names[names.len() - 1]));
            if is_entry_path(path, init, k) {
                let i = choose|i: int| 0 <= i < init.len() && k == joined(path, #[trigger] init[i]);
                assert(names[i] == init[i]);
            }
        }
    }
}

/// The deletes for the folders `names` of `path` take away the row of each,
/// and the folder rows and the image rows below each, and no other.
pub proof fn lemma_folder_deletes(c: Catalog, path: Seq<char>, names: Seq<Seq<char>>)
    ensures
        apply_all(c, folder_deletes(path, names)).folders == c.folders.restrict(
            Set::new(|k: Seq<char>| !within_entry(path, names, k)),
        ),
        apply_all(c, folder_deletes(path, names)).images == c.images.restrict(
            Set::new(|k: Seq<char>| !under_entry(path, names, k)),
        ),
    decreases names.len(),
{
    if names.len() == 0 {
        assert(c.folders =~= c.folders.restrict(
            Set::new(|k: Seq<char>| !within_entry(path, names, k)),
        ));
        assert(c.images =~= c.images.restrict(
            Set::new(|k: Seq<char>| !under_entry(path, names, k)),
        ));
    } else {
        let init = names.drop_last();
        let gone = joined(path, names.last());
        lemma_folder_deletes(c, path, init);
        let mid = apply_all(c, folder_deletes(path, init));
        lemma_apply_all_concat(c, folder_deletes(path, init), subtree_delete(gone));
        lemma_subtree_delete_is_exact(mid, Map::empty(), gone);
        let after = apply_all(c, folder_deletes(path, names));
        assert(after.folders == without_folder(mid.folders, gone));
        assert(after.images == without_prefix(mid.images, beneath(gone)));
        lemma_entries_grow(path, names);
        assert(after.folders =~= c.folders.restrict(
            Set::new(|k: Seq<char>| !within_entry(path, names, k)),
        ));
        assert(after.images =~= c.images.restrict(
            Set::new(|k: Seq<char>| !under_entry(path, names, k)),
        ));
    }
}

/// A key is the path of one of the entries `names`, or lies below one,
/// exactly where it does so for the last of them or for one before.
pub proof fn lemma_entries_grow(path: Seq<char>, names: Seq<Seq<char>>)
    requires
        names.len() > 0,
    ensures
        forall|k: Seq<char>|
            is_entry_path(path, names, k) <==> is_entry_path(path, names.drop_last(), k) || k
                == joined(path, names.last()),
        forall|k: Seq<char>|
            under_entry(path, names, k) <==> under_entry(path, names.drop_last(), k) || under(
                beneath(joined(path, names.last())),
                k,
            ),
        forall|k: Seq<char>|
            within_entry(path, names, k) <==> within_entry(path, names.drop_last(), k) || within(
                joined(path, names.last()),
                k,
            ),
{
    let init = names.drop_last();
    assert forall|k: Seq<char>|
        is_entry_path(path, names, k) <==> is_entry_path(path, init, k) || k == joined(
            path,
            names.last(),
        ) by {
        if is_entry_path(path, init, k) {
            let i = choose|i: int| 0 <= i < init.len() && k == joined(path, #[trigger] init[i]);
            assert(names[i] == init[i]);
        }
        if k == joined(path, names.last()) {
            assert(k == joined(path, names[names.len() - 1]));
        }
        if is_entry_path(path, names, k) {
            let i = choose|i: int| 0 <= i < names.len() && k == joined(path, #[trigger] names[i]);
            if i < init.len() {
                assert(init[i] == names[i]);
            }
        }
    }
    assert forall|k: Seq<char>|
        under_entry(path, names, k) <==> under_entry(path, init, k) || under(
            beneath(joined(path, names.last())),
            k,
        ) by {
        if under_entry(path, init, k) {
            let i = choose|i: int|
                0 <= i < init.len() && under(beneath(joined(path, #[trigger] init[i])), k);
            assert(names[i] == init[i]);
        }
        if under(beneath(joined(path, names.last())), k) {
            assert(under(beneath(joined(path, names[names.len() - 1])), k));
        }
        if under_entry(path, names, k) {
            let i = choose|i: int|
                0 <= i < names.len() && under(beneath(joined(path, #[trigger] names[i])), k);
            if i < init.len() {
                assert(init[i] == names[i]);
            }
        }
    }
}

/// Whether every row lies under its own path, and every row with a parent
/// under the path of its plain name in that parent.
pub open spec fn consistent(c: Catalog) -> bool {
    &&& forall|k: Seq<char>| #[trigger]
            c.folders.contains_key(k) ==> c.folders[k].path == k && (c.folders[k].dir is Some
                ==> plain_name(c.folders[k].name) && k == joined(
                c.folders[k].dir->0,
                c.folders[k].name,
            ))
    &&& forall|k: Seq<char>| #[trigger]
            c.images.contains_key(k) ==> c.images[k].path == k && plain_name(c.images[k].name)
                && k == joined(c.images[k].dir, c.images[k].name)
}

/// The subfolders of `dir` that the catalog lists, each with its time: what
/// a consistent catalog answers when it is asked for the names and times of
/// the folders whose parent is `dir`.
pub open spec fn folder_listing(c: Catalog, dir: Seq<char>) -> Map<Seq<char>, i64> {
    Map::new(
        |n: Seq<char>|
            plain_name(n) && c.folders.contains_key(joined(dir, n)) && c.folders[joined(
                dir,
                n,
            )].dir == Some(dir),
        |n: Seq<char>| c.folders[joined(dir, n)].mtime,
    )
}

/// After the statements that a plan holds for the subfolders of a directory
/// the catalog lists for it exactly the scanned subfolders with their
/// scanned times, so that a second pass over the same snapshot finds no
/// subfolder new, updated or deleted. This holds for a consistent catalog
/// and plain names. A scanned subfolder keeps its row also where its name
/// begins with the name of one that is gone.
pub proof fn lemma_folders_mirror_scan(
    c: Catalog,
    path: Seq<char>,
    scan: Seq<ScanDir>,
    db: Seq<FolderScan>,
)
    requires
        consistent(c),
        listed(db) == folder_listing(c, path),
        forall|n: Seq<char>| listed(scan).contains_key(n) ==> plain_name(n),
    ensures
        consistent(apply_all(c, folder_statements(path, scan, db))),
        folder_listing(apply_all(c, folder_statements(path, scan, db)), path) == listed(scan),
{
    let s = listed(scan);
    let d = listed(db);
    let a = added(listed_names(scan), d);
    let ch = changed(listed_names(scan), s, d);
    let r = removed(listed_names(db), s);
    lemma_classes(scan, db);
    assert forall|i: int| 0 <= i < a.len() implies plain_name(#[trigger] a[i]) by {
        assert(a.contains(a[i]));
    }
    assert forall|i: int| 0 <= i < ch.len() implies plain_name(#[trigger] ch[i]) by {
        assert(ch.contains(ch[i]));
    }
    let c1 = apply_all(c, folder_inserts(path, a, s));
    let c2 = apply_all(c1, folder_updates(path, ch, s));
    let c3 = apply_all(c2, folder_deletes(path, r));
    lemma_folder_inserts(c, path, a, s);
    lemma_folder_updates(c1, path, ch, s);
    lemma_folder_deletes(c2, path, r);
    lemma_apply_all_concat(c, folder_inserts(path, a, s), folder_updates(path, ch, s));
    lemma_apply_all_concat(
        c,
        folder_inserts(path, a, s) + folder_updates(path, ch, s),
        folder_deletes(path, r),
    );
    assert(c3 == apply_all(c, folder_statements(path, scan, db)));
    // What the first two groups make of the row of a plain name.
    assert forall|n: Seq<char>| plain_name(n) implies {
        let k = joined(path, n);
        &&& s.contains_key(n) ==> c2.folders.contains_key(k) && c2.folders[k].dir == Some(path)
            && c2.folders[k].mtime == s[n]
        &&& !s.contains_key(n) ==> same_at(c2.folders, c.folders, k)
    } by {
        let k = joined(path, n);
        if is_entry_path(path, a, k) {
            let i = choose|i: int| 0 <= i < a.len() && k == joined(path, #[trigger] a[i]);
            lemma_joined_is_injective(path, a[i], n);
            assert(a.contains(n));
        }
        if is_entry_path(path, ch, k) {
            let i = choose|i: int| 0 <= i < ch.len() && k == joined(path, #[trigger] ch[i]);
            lemma_joined_is_injective(path, ch[i], n);
            assert(ch.contains(n));
        }
        if s.contains_key(n) {
            if d.contains_key(n) {
                assert(!a.contains(n));
                assert(c.folders.contains_key(k) && c.folders[k].dir == Some(path));
                if s[n] != d[n] {
                    assert(ch.contains(n));
                    let i = choose|i: int| 0 <= i < ch.len() && ch[i] == n;
                    assert(c1.folders.contains_key(joined(path, ch[i])));
                } else {
                    assert(!ch.contains(n));
                }
            } else {
                assert(a.contains(n));
                let i = choose|i: int| 0 <= i < a.len() && a[i] == n;
                assert(c1.folders[joined(path, a[i])] == folder_row(path, a[i], s[a[i]]));
                assert(!ch.contains(n));
            }
        } else {
            assert(!a.contains(n));
            assert(!ch.contains(n));
        }
    }
    assert forall|n: Seq<char>| #[trigger]
        folder_listing(c3, path).contains_key(n) <==> s.contains_key(n) by {
        let k = joined(path, n);
        if s.contains_key(n) {
            // No folder that goes takes a scanned one along.
            if is_entry_path(path, r, k) {
                let i = choose|i: int| 0 <= i < r.len() && k == joined(path, #[trigger] r[i]);
                assert(r.contains(r[i]));
                assert(folder_listing(c, path).contains_key(r[i]));
                lemma_joined_is_injective(path, r[i], n);
            }
            if under_entry(path, r, k) {
                let i = choose|i: int|
                    0 <= i < r.len() && under(beneath(joined(path, #[trigger] r[i])), k);
                assert(r.contains(r[i]));
                assert(folder_listing(c, path).contains_key(r[i]));
                lemma_within_one_entry(path, r[i], n, k);
            }
            assert(!within_entry(path, r, k));
        } else if plain_name(n) {
            if d.contains_key(n) {
                assert(r.contains(n));
                let i = choose|i: int| 0 <= i < r.len() && r[i] == n;
                assert(k == joined(path, r[i]));
                assert(within_entry(path, r, k));
            }
        }
    }
    assert(folder_listing(c3, path) =~= s);
    assert forall|k: Seq<char>| #[trigger] c3.folders.contains_key(k) implies c3.folders[k].path
        == k && (c3.folders[k].dir is Some ==> plain_name(c3.folders[k].name) && k == joined(
        c3.folders[k].dir->0,
        c3.folders[k].name,
    )) by {
        assert(c2.folders.contains_key(k) && c3.folders[k] == c2.folders[k]);
        assert(c1.folders.contains_key(k));
        if is_entry_path(path, a, k) {
            let i = choose|i: int| 0 <= i < a.len() && k == joined(path, #[trigger] a[i]);
            assert(c1.folders[k] == folder_row(path, a[i], s[a[i]]));
        } else {
            assert(same_at(c1.folders, c.folders, k));
        }
        if is_entry_path(path, ch, k) {
            let i = choose|i: int| 0 <= i < ch.len() && k == joined(path, #[trigger] ch[i]);
            assert(c2.folders[k] == (FolderRow { mtime: s[ch[i]], ..c1.folders[k] }));
        } else {
            assert(same_at(c2.folders, c1.folders, k));
        }
    }
    assert forall|k: Seq<char>| #[trigger] c3.images.contains_key(k) implies c3.images[k].path == k
        && plain_name(c3.images[k].name) && k == joined(c3.images[k].dir, c3.images[k].name) by {
        assert(c.images.contains_key(k) && c3.images[k] == c.images[k]);
    }
}

/// A filter that no name passes keeps nothing.
proof fn lemma_filter_none(names: Seq<Seq<char>>, pred: spec_fn(Seq<char>) -> bool)
    requires
        forall|i: int| 0 <= i < names.len() ==> !pred(#[trigger] names[i]),
    ensures
        names.filter(pred).len() == 0,
    decreases names.len(),
{
    reveal(Seq::filter);
    if names.len() > 0 {
        let init = names.drop_last();
        assert forall|i: int| 0 <= i < init.len() implies !pred(#[trigger] init[i]) by {
            assert(init[i] == names[i]);
        }
        lemma_filter_none(init, pred);
        assert(names.last() == names[names.len() - 1]);
    }
}

/// A second pass over the subfolders of a directory, made after the
/// statements of the first have run, plans no statement at all.
pub proof fn lemma_second_pass_plans_nothing(
    c: Catalog,
    path: Seq<char>,
    scan: Seq<ScanDir>,
    db: Seq<FolderScan>,
    db_after: Seq<FolderScan>,
)
    requires
        consistent(c),
        listed(db) == folder_listing(c, path),
        forall|n: Seq<char>| listed(scan).contains_key(n) ==> plain_name(n),
        listed(db_after) == folder_listing(apply_all(c, folder_statements(path, scan, db)), path),
    ensures
        folder_statements(path, scan, db_after).len() == 0,
{
    lemma_folders_mirror_scan(c, path, scan, db);
    lemma_listed_names(scan);
    lemma_listed_names(db_after);
    let s = listed(scan);
    let ns = listed_names(scan);
    let nd = listed_names(db_after);
    let is_new = |n: Seq<char>| !s.contains_key(n);
    let is_changed = |n: Seq<char>| s.contains_key(n) && s[n] != s[n];
    assert forall|i: int| 0 <= i < ns.len() implies !is_new(#[trigger] ns[i]) by {
        assert(ns.contains(ns[i]));
    }
    assert forall|i: int| 0 <= i < nd.len() implies !is_new(#[trigger] nd[i]) by {
        assert(nd.contains(nd[i]));
    }
    lemma_filter_none(ns, is_new);
    lemma_filter_none(ns, is_changed);
    lemma_filter_none(nd, is_new);
    assert(added(ns, s) == ns.filter(is_new));
    assert(changed(ns, s, s) == ns.filter(is_changed));
    assert(removed(nd, s) == nd.filter(is_new));
    assert(added(ns, s).len() == 0);
    assert(changed(ns, s, s).len() == 0);
    assert(removed(nd, s).len() == 0);
    assert(folder_deletes(path, removed(nd, s)).len() == 0);
}

/// The media of `dir` that the catalog lists, each with its time: what a
/// consistent catalog answers when it is asked for the names and times of
/// the images whose folder is `dir`.
pub open spec fn image_listing(c: Catalog, dir: Seq<char>) -> Map<Seq<char>, i64> {
    Map::new(
        |n: Seq<char>|
            plain_name(n) && c.images.contains_key(joined(dir, n)) && c.images[joined(dir, n)].dir
                == dir,
        |n: Seq<char>| c.images[joined(dir, n)].mtime,
    )
}

/// Whether `after` are the entries `before` as they come back from
/// generation: each with its row but for the timestamp.
pub open spec fn generated(before: Seq<MediaThumbView>, after: Seq<MediaThumbView>) -> bool {
    &&& after.len() == before.len()
    &&& forall|i: int|
        0 <= i < before.len() ==> (#[trigger] after[i]).media == (ImageRow {
            timestamp: after[i].media.timestamp,
            ..before[i].media
        })
}

/// The deletes for the images `names` of `path` take away the row of each
/// and no other.
pub proof fn lemma_image_deletes(c: Catalog, path: Seq<char>, names: Seq<Seq<char>>)
    ensures
        apply_all(c, image_deletes(path, names)).folders == c.folders,
        apply_all(c, image_deletes(path, names)).images == c.images.restrict(
            Set::new(|k: Seq<char>| !is_entry_path(path, names, k)),
        ),
    decreases names.len(),
{
    let ss = image_deletes(path, names);
    if names.len() == 0 {
        assert(c.images =~= c.images.restrict(
            Set::new(|k: Seq<char>| !is_entry_path(path, names, k)),
        ));
    } else {
        let init = names.drop_last();
        assert(ss.drop_last() =~= image_deletes(path, init));
        lemma_image_deletes(c, path, init);
        let mid = apply_all(c, image_deletes(path, init));
        let after = apply_all(c, ss);
        assert(after == apply(mid, ss.last()));
        assert forall|k: Seq<char>|
            is_entry_path(path, names, k) <==> is_entry_path(path, init, k) || k == joined(
                path,
                names.last(),
            ) by {
            if is_entry_path(path, init, k) {
                let i = choose|i: int| 0 <= i < init.len() && k == joined(path, #[trigger] init[i]);
                assert(names[i] == init[i]);
            }
            if k == joined(path, names.last()) {
                assert(k == joined(path, names[names.len() - 1]));
            }
            if is_entry_path(path, names, k) {
                let i = choose|i: int|
                    0 <= i < names.len() && k == joined(path, #[trigger] names[i]);
                if i < init.len() {
                    assert(init[i] == names[i]);
                }
            }
        }
        assert(after.images =~= c.images.restrict(
            Set::new(|k: Seq<char>| !is_entry_path(path, names, k)),
        ));
    }
}

/// The inserts for entries that lie under the names `names` of `path` put
/// the row of each in place and leave every other row, and every folder, as
/// it was.
pub proof fn lemma_image_inserts(
    c: Catalog,
    path: Seq<char>,
    names: Seq<Seq<char>>,
    entries: Seq<MediaThumbView>,
)
    requires
        names.no_duplicates(),
        forall|i: int| 0 <= i < names.len() ==> plain_name(#[trigger] names[i]),
        entries.len() == names.len(),
        forall|i: int|
            0 <= i < names.len() ==> (#[trigger] entries[i]).media.path == joined(path, names[i]),
    ensures
        apply_all(c, image_inserts(entries)).folders == c.folders,
        forall|i: int|
            0 <= i < names.len() ==> {
                let k = joined(path, #[trigger] names[i]);
                let after = apply_all(c, image_inserts(entries)).images;
                after.contains_key(k) && after[k] == entries[i].media
            },
        forall|k: Seq<char>|
            !is_entry_path(path, names, k) ==> same_at(
                apply_all(c, image_inserts(entries)).images,
                c.images,
                k,
            ),
    decreases names.len(),
{
    let ss = image_inserts(entries);
    if names.len() > 0 {
        let init = names.drop_last();
        let first = entries.drop_last();
        let last = names.last();
        assert(ss.drop_last() =~= image_inserts(first));
        assert forall|i: int| 0 <= i < init.len() implies (#[trigger] first[i]).media.path
            == joined(path, init[i]) by {
            assert(first[i] == entries[i]);
            assert(init[i] == names[i]);
        }
        lemma_image_inserts(c, path, init, first);
        let mid = apply_all(c, image_inserts(first));
        let after = apply_all(c, ss);
        assert(after == apply(mid, ss.last()));
        assert(entries.last() == entries[names.len() - 1]);
        assert(after.images == mid.images.insert(joined(path, last), entries.last().media));
        assert forall|i: int| 0 <= i < names.len() implies {
            let k = joined(path, #[trigger] names[i]);
            after.images.contains_key(k) && after.images[k] == entries[i].media
        } by {
            if i < init.len() {
                assert(init[i] == names[i]);
                assert(first[i] == entries[i]);
                if joined(path, names[i]) == joined(path, last) {
                    lemma_joined_is_injective(path, names[i], last);
                    assert(names[i] == names[names.len() - 1]);
                }
            }
        }
        assert forall|k: Seq<char>| !is_entry_path(path, names, k) implies same_at(
            after.images,
            c.images,
            k,
        ) by {
            assert(k != joined(path, names[names.len() - 1]));
            if is_entry_path(path, init, k) {
                let i = choose|i: int| 0 <= i < init.len() && k == joined(path, #[trigger] init[i]);
                assert(names[i] == init[i]);
            }
        }
    }
}

/// The updates for entries that lie under the names `names` of `path` set
/// the time and the timestamp of each row that is there and leave all else
/// as it was.
pub proof fn lemma_image_updates(
    c: Catalog,
    path: Seq<char>,
    names: Seq<Seq<char>>,
    entries: Seq<MediaThumbView>,
)
    requires
        names.no_duplicates(),
        forall|i: int| 0 <= i < names.len() ==> plain_name(#[trigger] names[i]),
        entries.len() == names.len(),
        forall|i: int|
            0 <= i < names.len() ==> (#[trigger] entries[i]).media.path == joined(path, names[i]),
    ensures
        apply_all(c, image_updates(entries)).folders == c.folders,
        forall|k: Seq<char>|
            apply_all(c, image_updates(entries)).images.contains_key(k) == c.images.contains_key(
                k,
            ),
        forall|i: int|
            0 <= i < names.len() && c.images.contains_key(joined(path, #[trigger] names[i])) ==> {
                let k = joined(path, names[i]);
                apply_all(c, image_updates(entries)).images[k] == (ImageRow {
                    mtime: entries[i].media.mtime,
                    timestamp: entries[i].media.timestamp,
                    ..c.images[k]
                })
            },
        forall|k: Seq<char>|
            !is_entry_path(path, names, k) ==> same_at(
                apply_all(c, image_updates(entries)).images,
                c.images,
                k,
            ),
    decreases names.len(),
{
    let ss = image_updates(entries);
    if names.len() > 0 {
        let init = names.drop_last();
        let first = entries.drop_last();
        let last = names.last();
        assert(ss.drop_last() =~= image_updates(first));
        assert forall|i: int| 0 <= i < init.len() implies (#[trigger] first[i]).media.path
            == joined(path, init[i]) by {
            assert(first[i] == entries[i]);
            assert(init[i] == names[i]);
        }
        lemma_image_updates(c, path, init, first);
        let mid = apply_all(c, image_updates(first));
        let after = apply_all(c, ss);
        assert(after == apply(mid, ss.last()));
        assert(entries.last() == entries[names.len() - 1]);
        assert(!is_entry_path(path, init, joined(path, last))) by {
            if is_entry_path(path, init, joined(path, last)) {
                let i = choose|i: int|
                    0 <= i < init.len() && joined(path, last) == joined(path, #[trigger] init[i]);
                assert(init[i] == names[i]);
                lemma_joined_is_injective(path, names[i], last);
                assert(names[i] == names[names.len() - 1]);
            }
        }
        assert forall|i: int|
            0 <= i < names.len() && c.images.contains_key(
                joined(path, #[trigger] names[i]),
            ) implies {
            let k = joined(path, names[i]);
            after.images[k] == (ImageRow {
                mtime: entries[i].media.mtime,
                timestamp: entries[i].media.timestamp,
                ..c.images[k]
            })
        } by {
            if i < init.len() {
                assert(init[i] == names[i]);
                assert(first[i] == entries[i]);
                if joined(path, names[i]) == joined(path, last) {
                    lemma_joined_is_injective(path, names[i], last);
                    assert(names[i] == names[names.len() - 1]);
                }
            }
        }
        assert forall|k: Seq<char>| !is_entry_path(path, names, k) implies same_at(
            after.images,
            c.images,
            k,
        ) by {
            assert(k != joined(path, names[names.len() - 1]));
            if is_entry_path(path, init, k) {
                let i = choose|i: int| 0 <= i < init.len() && k == joined(path, #[trigger] init[i]);
                assert(names[i] == init[i]);
            }
        }
    }
}

/// The statements that one directory's files bring about in a cycle: the
/// deletes of the plan, then what the writer makes of the entries that came
/// back from generation.
pub open spec fn file_statements(
    path: Seq<char>,
    scan: Seq<ScanFile>,
    db: Seq<MediaScan>,
    new: Seq<MediaThumbView>,
    update: Seq<MediaThumbView>,
) -> Seq<StatementView> {
    image_deletes(path, removed(listed_names(db), listed(scan))) + image_inserts(new)
        + image_updates(update)
}

/// After the statements that a cycle holds for the files of a directory the
/// catalog lists for it exactly the scanned files with their scanned times,
/// so that a second pass over the same snapshot finds no file new, updated
/// or deleted. The rows of the files that went through generation carry the
/// timestamps that generation gave them, and no folder row has changed.
pub proof fn lemma_images_mirror_scan(
    c: Catalog,
    path: Seq<char>,
    scan: Seq<ScanFile>,
    db: Seq<MediaScan>,
    new: Seq<MediaThumbView>,
    update: Seq<MediaThumbView>,
)
    requires
        consistent(c),
        listed(db) == image_listing(c, path),
        forall|n: Seq<char>| listed(scan).contains_key(n) ==> plain_name(n),
        generated(
            fresh_entries(path, added(listed_names(scan), listed(db)), listed(scan)),
            new,
        ),
        generated(
            fresh_entries(
                path,
                changed(listed_names(scan), listed(scan), listed(db)),
                listed(scan),
            ),
            update,
        ),
    ensures
        consistent(apply_all(c, file_statements(path, scan, db, new, update))),
        apply_all(c, file_statements(path, scan, db, new, update)).folders == c.folders,
        image_listing(apply_all(c, file_statements(path, scan, db, new, update)), path) == listed(
            scan,
        ),
        forall|i: int|
            0 <= i < new.len() ==> {
                let images = apply_all(c, file_statements(path, scan, db, new, update)).images;
                images.contains_key((#[trigger] new[i]).media.path) && images[new[i].media.path]
                    == new[i].media
            },
        forall|i: int|
            0 <= i < update.len() ==> {
                let images = apply_all(c, file_statements(path, scan, db, new, update)).images;
                images.contains_key((#[trigger] update[i]).media.path)
                    && images[update[i].media.path].timestamp == update[i].media.timestamp
            },
{
    let s = listed(scan);
    let d = listed(db);
    let a = added(listed_names(scan), d);
    let ch = changed(listed_names(scan), s, d);
    let r = removed(listed_names(db), s);
    lemma_classes(scan, db);
    assert forall|i: int| 0 <= i < a.len() implies plain_name(#[trigger] a[i]) by {
        assert(a.contains(a[i]));
    }
    assert forall|i: int| 0 <= i < ch.len() implies plain_name(#[trigger] ch[i]) by {
        assert(ch.contains(ch[i]));
    }
    let fresh_new = fresh_entries(path, a, s);
    let fresh_update = fresh_entries(path, ch, s);
    assert forall|i: int| 0 <= i < a.len() implies (#[trigger] new[i]).media.path == joined(
        path,
        a[i],
    ) by {
        assert(new[i].media == (ImageRow {
            timestamp: new[i].media.timestamp,
            ..fresh_new[i].media
        }));
    }
    assert forall|i: int| 0 <= i < ch.len() implies (#[trigger] update[i]).media.path == joined(
        path,
        ch[i],
    ) by {
        assert(update[i].media == (ImageRow {
            timestamp: update[i].media.timestamp,
            ..fresh_update[i].media
        }));
    }
    let c1 = apply_all(c, image_deletes(path, r));
    let c2 = apply_all(c1, image_inserts(new));
    let c3 = apply_all(c2, image_updates(update));
    lemma_image_deletes(c, path, r);
    lemma_image_inserts(c1, path, a, new);
    lemma_image_updates(c2, path, ch, update);
    lemma_apply_all_concat(c, image_deletes(path, r), image_inserts(new));
    lemma_apply_all_concat(c, image_deletes(path, r) + image_inserts(new), image_updates(update));
    assert(c3 == apply_all(c, file_statements(path, scan, db, new, update)));
    assert forall|n: Seq<char>| plain_name(n) implies {
        let k = joined(path, n);
        &&& s.contains_key(n) ==> c3.images.contains_key(k) && c3.images[k].dir == path
            && c3.images[k].mtime == s[n] && c3.images[k].path == k && c3.images[k].name == n
        &&& !s.contains_key(n) && d.contains_key(n) ==> !c3.images.contains_key(k)
        &&& !s.contains_key(n) && !d.contains_key(n) ==> same_at(c3.images, c.images, k)
    } by {
        let k = joined(path, n);
        if is_entry_path(path, a, k) {
            let i = choose|i: int| 0 <= i < a.len() && k == joined(path, #[trigger] a[i]);
            lemma_joined_is_injective(path, a[i], n);
            assert(a.contains(n));
        }
        if is_entry_path(path, ch, k) {
            let i = choose|i: int| 0 <= i < ch.len() && k == joined(path, #[trigger] ch[i]);
            lemma_joined_is_injective(path, ch[i], n);
            assert(ch.contains(n));
        }
        if is_entry_path(path, r, k) {
            let i = choose|i: int| 0 <= i < r.len() && k == joined(path, #[trigger] r[i]);
            assert(r.contains(r[i]));
            assert(plain_name(r[i]));
            lemma_joined_is_injective(path, r[i], n);
            assert(r.contains(n));
        }
        if s.contains_key(n) {
            assert(!r.contains(n));
            if d.contains_key(n) {
                assert(!a.contains(n));
                assert(c.images.contains_key(k) && c.images[k].dir == path);
                assert(c.images[k].path == k);
                lemma_joined_is_injective(path, c.images[k].name, n);
                if s[n] != d[n] {
                    assert(ch.contains(n));
                    let i = choose|i: int| 0 <= i < ch.len() && ch[i] == n;
                    assert(c2.images.contains_key(joined(path, ch[i])));
                    assert(update[i].media.mtime == fresh_update[i].media.mtime);
                } else {
                    assert(!ch.contains(n));
                }
            } else {
                assert(a.contains(n));
                let i = choose|i: int| 0 <= i < a.len() && a[i] == n;
                assert(c2.images[joined(path, a[i])] == new[i].media);
                assert(new[i].media == (ImageRow {
                    timestamp: new[i].media.timestamp,
                    ..fresh_new[i].media
                }));
                assert(!ch.contains(n));
            }
        } else {
            assert(!a.contains(n));
            assert(!ch.contains(n));
            if d.contains_key(n) {
                assert(r.contains(n));
                let i = choose|i: int| 0 <= i < r.len() && r[i] == n;
                assert(is_entry_path(path, r, k));
            } else {
                assert(!r.contains(n));
            }
        }
    }
    assert forall|n: Seq<char>| #[trigger]
        image_listing(c3, path).contains_key(n) <==> s.contains_key(n) by {
        if plain_name(n) {
            let k = joined(path, n);
            if !s.contains_key(n) && !d.contains_key(n) {
                assert(same_at(c3.images, c.images, k));
                assert(!image_listing(c, path).contains_key(n));
            }
        }
    }
    assert forall|n: Seq<char>| s.contains_key(n) implies #[trigger] image_listing(c3, path)[n]
        == s[n] by {
        assert(plain_name(n));
    }
    assert(image_listing(c3, path) =~= s);
    assert forall|k: Seq<char>| #[trigger] c3.images.contains_key(k) implies c3.images[k].path == k
        && plain_name(c3.images[k].name) && k == joined(c3.images[k].dir, c3.images[k].name) by {
        assert(c2.images.contains_key(k));
        if is_entry_path(path, a, k) {
            let i = choose|i: int| 0 <= i < a.len() && k == joined(path, #[trigger] a[i]);
            assert(c2.images[k] == new[i].media);
            assert(new[i].media == (ImageRow {
                timestamp: new[i].media.timestamp,
                ..fresh_new[i].media
            }));
        } else {
            assert(same_at(c2.images, c1.images, k));
            assert(c.images.contains_key(k) && c1.images[k] == c.images[k]);
        }
        if is_entry_path(path, ch, k) {
            let i = choose|i: int| 0 <= i < ch.len() && k == joined(path, #[trigger] ch[i]);
            assert(c3.images[k] == (ImageRow {
                mtime: update[i].media.mtime,
                timestamp: update[i].media.timestamp,
                ..c2.images[k]
            }));
        } else {
            assert(same_at(c3.images, c2.images, k));
        }
    }
    assert forall|i: int| 0 <= i < new.len() implies {
        c3.images.contains_key((#[trigger] new[i]).media.path) && c3.images[new[i].media.path]
            == new[i].media
    } by {
        let k = joined(path, a[i]);
        assert(c2.images.contains_key(k) && c2.images[k] == new[i].media);
        if is_entry_path(path, ch, k) {
            let j = choose|j: int| 0 <= j < ch.len() && k == joined(path, #[trigger] ch[j]);
            lemma_joined_is_injective(path, ch[j], a[i]);
            assert(ch.contains(ch[j]));
            assert(a.contains(a[i]));
        }
    }
    assert forall|i: int| 0 <= i < update.len() implies {
        c3.images.contains_key((#[trigger] update[i]).media.path)
            && c3.images[update[i].media.path].timestamp == update[i].media.timestamp
    } by {
        let n = ch[i];
        let k = joined(path, n);
        assert(ch.contains(n));
        assert(c.images.contains_key(k));
        if is_entry_path(path, r, k) {
            let j = choose|j: int| 0 <= j < r.len() && k == joined(path, #[trigger] r[j]);
            assert(r.contains(r[j]));
            lemma_joined_is_injective(path, r[j], n);
        }
        assert(c1.images.contains_key(k));
        if is_entry_path(path, a, k) {
            let j = choose|j: int| 0 <= j < a.len() && k == joined(path, #[trigger] a[j]);
            assert(a.contains(a[j]));
            lemma_joined_is_injective(path, a[j], n);
        }
        assert(c2.images.contains_key(k));
    }
}

/// Entries that come back from generation stay what generation makes of
/// the fresh ones when one more of them is completed.
pub proof fn lemma_completion_is_generation(
    fresh: Seq<MediaThumbView>,
    before: Seq<MediaThumbView>,
    i: int,
    exif: Option<Exif>,
    thumb: Option<Seq<u8>>,
)
    requires
        generated(fresh, before),
        0 <= i < before.len(),
    ensures
        generated(fresh, before.update(i, completed(before[i], exif, thumb))),
{
    let after = before.update(i, completed(before[i], exif, thumb));
    assert forall|k: int| 0 <= k < fresh.len() implies (#[trigger] after[k]).media == (ImageRow {
        timestamp: after[k].media.timestamp,
        ..fresh[k].media
    }) by {
        assert(before[k].media == (ImageRow {
            timestamp: before[k].media.timestamp,
            ..fresh[k].media
        }));
    }
}

/// A file that the scan and the catalog hold with different modification
/// times is classified as updated, whatever the file holds, and as nothing
/// else. Once generation has completed its entry, the writer sets the
/// scanned time and the timestamp that generation found in its row, and
/// stores the thumbnail that generation made under its path.
pub proof fn lemma_changed_file_is_regenerated(
    path: Seq<char>,
    scan: Seq<ScanFile>,
    db: Seq<MediaScan>,
    name: Seq<char>,
    exif: Option<Exif>,
    thumb: Option<Seq<u8>>,
)
    requires
        listed(scan).contains_key(name),
        listed(db).contains_key(name),
        listed(scan)[name] != listed(db)[name],
    ensures
        changed(listed_names(scan), listed(scan), listed(db)).contains(name),
        !added(listed_names(scan), listed(db)).contains(name),
        !removed(listed_names(db), listed(scan)).contains(name),
        fresh_entries(
            path,
            changed(listed_names(scan), listed(scan), listed(db)),
            listed(scan),
        ).contains(fresh_entry(path, name, listed(scan)[name])),
        image_updates(
            seq![completed(fresh_entry(path, name, listed(scan)[name]), exif, thumb)],
        ) == seq![
            StatementView::UpdateImage {
                path: joined(path, name),
                mtime: listed(scan)[name],
                timestamp: capture_time(exif, listed(scan)[name]),
            },
        ],
        thumb_puts(seq![completed(fresh_entry(path, name, listed(scan)[name]), exif, thumb)])
            == (match thumb {
            Some(bytes) => seq![ThumbOpView::Put { key: joined(path, name), value: bytes }],
            None => Seq::<ThumbOpView>::empty(),
        }),
{
    let s = listed(scan);
    let d = listed(db);
    let ch = changed(listed_names(scan), s, d);
    lemma_classes(scan, db);
    assert(ch.contains(name));
    let i = choose|i: int| 0 <= i < ch.len() && ch[i] == name;
    assert(fresh_entries(path, ch, s)[i] == fresh_entry(path, name, s[name]));
    let done = completed(fresh_entry(path, name, s[name]), exif, thumb);
    assert(image_updates(seq![done]) =~= seq![
        StatementView::UpdateImage {
            path: joined(path, name),
            mtime: s[name],
            timestamp: capture_time(exif, s[name]),
        },
    ]);
    assert(seq![done].drop_last() =~= Seq::<MediaThumbView>::empty());
    assert(thumb_puts(seq![done].drop_last()) =~= Seq::<ThumbOpView>::empty());
    assert(seq![done].last() == done);
    match thumb {
        Some(bytes) => {
            assert(thumb_puts(seq![done]) =~= seq![
                ThumbOpView::Put { key: joined(path, name), value: bytes },
            ]);
        },
        None => {
            assert(thumb_puts(seq![done]) =~= Seq::<ThumbOpView>::empty());
        },
    }
}

/// Whether `k` is the path of a plain name in the directory `path`.
pub open spec fn child_path(path: Seq<char>, k: Seq<char>) -> bool {
    exists|n: Seq<char>| #[trigger] plain_name(n) && k == joined(path, n)
}

/// What a comparison of two listings keeps in each of its three classes:
/// without repetition, the names that only the scan holds, those that both
/// hold with different times, and those that only the catalog holds.
pub proof fn lemma_classes<T: Dated, U: Dated>(scan: Seq<T>, db: Seq<U>)
    ensures
        added(listed_names(scan), listed(db)).no_duplicates(),
        changed(listed_names(scan), listed(scan), listed(db)).no_duplicates(),
        removed(listed_names(db), listed(scan)).no_duplicates(),
        forall|n: Seq<char>|
            added(listed_names(scan), listed(db)).contains(n) <==> listed(scan).contains_key(n)
                && !listed(db).contains_key(n),
        forall|n: Seq<char>|
            changed(listed_names(scan), listed(scan), listed(db)).contains(n) <==> listed(
                scan,
            ).contains_key(n) && listed(db).contains_key(n) && listed(scan)[n] != listed(db)[n],
        forall|n: Seq<char>|
            removed(listed_names(db), listed(scan)).contains(n) <==> listed(db).contains_key(n)
                && !listed(scan).contains_key(n),
{
    let s = listed(scan);
    let d = listed(db);
    let ns = listed_names(scan);
    let nd = listed_names(db);
    lemma_listed_names(scan);
    lemma_listed_names(db);
    let is_new = |n: Seq<char>| !d.contains_key(n);
    let is_changed = |n: Seq<char>| d.contains_key(n) && s[n] != d[n];
    let is_gone = |n: Seq<char>| !s.contains_key(n);
    lemma_filter_distinct(ns, is_new);
    lemma_filter_distinct(ns, is_changed);
    lemma_filter_distinct(nd, is_gone);
    assert(added(ns, d) == ns.filter(is_new));
    assert(changed(ns, s, d) == ns.filter(is_changed));
    assert(removed(nd, s) == nd.filter(is_gone));
    assert forall|n: Seq<char>|
        added(ns, d).contains(n) <==> s.contains_key(n) && !d.contains_key(n) by {
        assert(ns.contains(n) <==> s.contains_key(n));
        assert(is_new(n) <==> !d.contains_key(n));
    }
    assert forall|n: Seq<char>|
        changed(ns, s, d).contains(n) <==> s.contains_key(n) && d.contains_key(n) && s[n]
            != d[n] by {
        assert(ns.contains(n) <==> s.contains_key(n));
        assert(is_changed(n) <==> d.contains_key(n) && s[n] != d[n]);
    }
    assert forall|n: Seq<char>|
        removed(nd, s).contains(n) <==> d.contains_key(n) && !s.contains_key(n) by {
        assert(nd.contains(n) <==> d.contains_key(n));
        assert(is_gone(n) <==> !s.contains_key(n));
    }
}

/// Whether `k` is the path of one of the names of `scan` in the directory
/// `path`.
pub open spec fn scanned_path(path: Seq<char>, scan: Map<Seq<char>, i64>, k: Seq<char>) -> bool {
    exists|n: Seq<char>| #[trigger] scan.contains_key(n) && k == joined(path, n)
}

/// The statements for the subfolders of `path` touch no folder row but
/// those of the scanned subfolders and those at and below the subfolders
/// that are gone, and no image row but those below the subfolders that are
/// gone; what is at or below one of these is gone after them.
pub proof fn lemma_folder_statements_frame(
    c: Catalog,
    path: Seq<char>,
    scan: Seq<ScanDir>,
    db: Seq<FolderScan>,
)
    requires
        forall|n: Seq<char>| listed(scan).contains_key(n) ==> plain_name(n),
    ensures
        apply_all(c, folder_statements(path, scan, db)).images == c.images.restrict(
            Set::new(
                |k: Seq<char>| !under_entry(path, removed(listed_names(db), listed(scan)), k),
            ),
        ),
        forall|k: Seq<char>|
            within_entry(path, removed(listed_names(db), listed(scan)), k) ==> !apply_all(
                c,
                folder_statements(path, scan, db),
            ).folders.contains_key(k),
        forall|k: Seq<char>|
            !scanned_path(path, listed(scan), k) && !within_entry(
                path,
                removed(listed_names(db), listed(scan)),
                k,
            ) ==> same_at(apply_all(c, folder_statements(path, scan, db)).folders, c.folders, k),
{
    let s = listed(scan);
    let d = listed(db);
    let a = added(listed_names(scan), d);
    let ch = changed(listed_names(scan), s, d);
    let r = removed(listed_names(db), s);
    lemma_classes(scan, db);
    assert forall|i: int| 0 <= i < a.len() implies plain_name(#[trigger] a[i]) by {
        assert(a.contains(a[i]));
    }
    assert forall|i: int| 0 <= i < ch.len() implies plain_name(#[trigger] ch[i]) by {
        assert(ch.contains(ch[i]));
    }
    let c1 = apply_all(c, folder_inserts(path, a, s));
    let c2 = apply_all(c1, folder_updates(path, ch, s));
    let c3 = apply_all(c2, folder_deletes(path, r));
    lemma_folder_inserts(c, path, a, s);
    lemma_folder_updates(c1, path, ch, s);
    lemma_folder_deletes(c2, path, r);
    lemma_apply_all_concat(c, folder_inserts(path, a, s), folder_updates(path, ch, s));
    lemma_apply_all_concat(
        c,
        folder_inserts(path, a, s) + folder_updates(path, ch, s),
        folder_deletes(path, r),
    );
    assert(c3 == apply_all(c, folder_statements(path, scan, db)));
    assert forall|k: Seq<char>|
        !scanned_path(path, s, k) && !within_entry(path, r, k) implies same_at(
        c3.folders,
        c.folders,
        k,
    ) by {
        if is_entry_path(path, a, k) {
            let i = choose|i: int| 0 <= i < a.len() && k == joined(path, #[trigger] a[i]);
            assert(a.contains(a[i]));
            assert(s.contains_key(a[i]));
        }
        if is_entry_path(path, ch, k) {
            let i = choose|i: int| 0 <= i < ch.len() && k == joined(path, #[trigger] ch[i]);
            assert(ch.contains(ch[i]));
            assert(s.contains_key(ch[i]));
        }
    }
}

/// The statements for the files of `path` touch no folder row, and no image
/// row but those of plain names in `path`.
pub proof fn lemma_file_statements_frame(
    c: Catalog,
    path: Seq<char>,
    scan: Seq<ScanFile>,
    db: Seq<MediaScan>,
    new: Seq<MediaThumbView>,
    update: Seq<MediaThumbView>,
)
    requires
        forall|n: Seq<char>| listed(scan).contains_key(n) ==> plain_name(n),
        forall|n: Seq<char>| listed(db).contains_key(n) ==> plain_name(n),
        generated(
            fresh_entries(path, added(listed_names(scan), listed(db)), listed(scan)),
            new,
        ),
        generated(
            fresh_entries(
                path,
                changed(listed_names(scan), listed(scan), listed(db)),
                listed(scan),
            ),
            update,
        ),
    ensures
        apply_all(c, file_statements(path, scan, db, new, update)).folders == c.folders,
        forall|k: Seq<char>|
            !child_path(path, k) ==> same_at(
                apply_all(c, file_statements(path, scan, db, new, update)).images,
                c.images,
                k,
            ),
{
    let s = listed(scan);
    let d = listed(db);
    let a = added(listed_names(scan), d);
    let ch = changed(listed_names(scan), s, d);
    let r = removed(listed_names(db), s);
    lemma_classes(scan, db);
    assert forall|i: int| 0 <= i < a.len() implies plain_name(#[trigger] a[i]) by {
        assert(a.contains(a[i]));
    }
    assert forall|i: int| 0 <= i < ch.len() implies plain_name(#[trigger] ch[i]) by {
        assert(ch.contains(ch[i]));
    }
    assert forall|i: int| 0 <= i < r.len() implies plain_name(#[trigger] r[i]) by {
        assert(r.contains(r[i]));
    }
    let fresh_new = fresh_entries(path, a, s);
    let fresh_update = fresh_entries(path, ch, s);
    assert forall|i: int| 0 <= i < a.len() implies (#[trigger] new[i]).media.path == joined(
        path,
        a[i],
    ) by {
        assert(new[i].media == (ImageRow {
            timestamp: new[i].media.timestamp,
            ..fresh_new[i].media
        }));
    }
    assert forall|i: int| 0 <= i < ch.len() implies (#[trigger] update[i]).media.path == joined(
        path,
        ch[i],
    ) by {
        assert(update[i].media == (ImageRow {
            timestamp: update[i].media.timestamp,
            ..fresh_update[i].media
        }));
    }
    let c1 = apply_all(c, image_deletes(path, r));
    let c2 = apply_all(c1, image_inserts(new));
    let c3 = apply_all(c2, image_updates(update));
    lemma_image_deletes(c, path, r);
    lemma_image_inserts(c1, path, a, new);
    lemma_image_updates(c2, path, ch, update);
    lemma_apply_all_concat(c, image_deletes(path, r), image_inserts(new));
    lemma_apply_all_concat(c, image_deletes(path, r) + image_inserts(new), image_updates(update));
    assert(c3 == apply_all(c, file_statements(path, scan, db, new, update)));
    assert forall|k: Seq<char>| !child_path(path, k) implies same_at(c3.images, c.images, k) by {
        if is_entry_path(path, a, k) {
            let i = choose|i: int| 0 <= i < a.len() && k == joined(path, #[trigger] a[i]);
            assert(plain_name(a[i]));
        }
        if is_entry_path(path, ch, k) {
            let i = choose|i: int| 0 <= i < ch.len() && k == joined(path, #[trigger] ch[i]);
            assert(plain_name(ch[i]));
        }
        if is_entry_path(path, r, k) {
            let i = choose|i: int| 0 <= i < r.len() && k == joined(path, #[trigger] r[i]);
            assert(plain_name(r[i]));
        }
    }
}

/// Changes of the thumbnail store that are made one after the other may be
/// made in two parts.
pub proof fn lemma_apply_thumbs_concat(t: Thumbs, a: Seq<ThumbOpView>, b: Seq<ThumbOpView>)
    ensures
        apply_thumbs(t, a + b) == apply_thumbs(apply_thumbs(t, a), b),
    decreases b.len(),
{
    if b.len() == 0 {
        assert(a + b =~= a);
    } else {
        lemma_apply_thumbs_concat(t, a, b.drop_last());
        assert((a + b).drop_last() =~= a + b.drop_last());
        assert((a + b).last() == b.last());
    }
}

/// The removal of the thumbnails below the folders `names` of `path` takes
/// away the keys that start with the path of one of them and a separator,
/// and no other.
pub proof fn lemma_thumb_prefix_deletes(t: Thumbs, path: Seq<char>, names: Seq<Seq<char>>)
    ensures
        apply_thumbs(t, thumb_prefix_deletes(path, names)) == t.restrict(
            Set::new(|k: Seq<char>| !under_entry(path, names, k)),
        ),
    decreases names.len(),
{
    let ops = thumb_prefix_deletes(path, names);
    if names.len() == 0 {
        assert(t =~= t.restrict(Set::new(|k: Seq<char>| !under_entry(path, names, k))));
    } else {
        let init = names.drop_last();
        assert(ops.drop_last() =~= thumb_prefix_deletes(path, init));
        lemma_thumb_prefix_deletes(t, path, init);
        let mid = apply_thumbs(t, thumb_prefix_deletes(path, init));
        let after = apply_thumbs(t, ops);
        assert(after == apply_thumb(mid, ops.last()));
        lemma_entries_grow(path, names);
        assert(after =~= t.restrict(Set::new(|k: Seq<char>| !under_entry(path, names, k))));
    }
}

/// The removal of the thumbnails of the files `names` of `path` takes away
/// the key of each, and no other.
pub proof fn lemma_thumb_deletes(t: Thumbs, path: Seq<char>, names: Seq<Seq<char>>)
    ensures
        apply_thumbs(t, thumb_deletes(path, names)) == t.restrict(
            Set::new(|k: Seq<char>| !is_entry_path(path, names, k)),
        ),
    decreases names.len(),
{
    let ops = thumb_deletes(path, names);
    if names.len() == 0 {
        assert(t =~= t.restrict(Set::new(|k: Seq<char>| !is_entry_path(path, names, k))));
    } else {
        let init = names.drop_last();
        assert(ops.drop_last() =~= thumb_deletes(path, init));
        lemma_thumb_deletes(t, path, init);
        let mid = apply_thumbs(t, thumb_deletes(path, init));
        let after = apply_thumbs(t, ops);
        assert(after == apply_thumb(mid, ops.last()));
        assert forall|k: Seq<char>|
            is_entry_path(path, names, k) <==> is_entry_path(path, init, k) || k == joined(
                path,
                names.last(),
            ) by {
            if is_entry_path(path, init, k) {
                let i = choose|i: int| 0 <= i < init.len() && k == joined(path, #[trigger] init[i]);
                assert(names[i] == init[i]);
            }
            if k == joined(path, names.last()) {
                assert(k == joined(path, names[names.len() - 1]));
            }
            if is_entry_path(path, names, k) {
                let i = choose|i: int|
                    0 <= i < names.len() && k == joined(path, #[trigger] names[i]);
                if i < init.len() {
                    assert(init[i] == names[i]);
                }
            }
        }
        assert(after =~= t.restrict(Set::new(|k: Seq<char>| !is_entry_path(path, names, k))));
    }
}

/// Storing the thumbnails of entries that lie under the names `names` of
/// `path` puts the thumbnail of every entry that has one under its path and
/// leaves alone what lies under any other key, and what lies under the path
/// of an entry without thumbnail.
pub proof fn lemma_thumb_puts(
    t: Thumbs,
    path: Seq<char>,
    names: Seq<Seq<char>>,
    entries: Seq<MediaThumbView>,
)
    requires
        names.no_duplicates(),
        forall|i: int| 0 <= i < names.len() ==> plain_name(#[trigger] names[i]),
        entries.len() == names.len(),
        forall|i: int|
            0 <= i < names.len() ==> (#[trigger] entries[i]).media.path == joined(path, names[i]),
    ensures
        forall|i: int|
            0 <= i < names.len() ==> {
                let k = joined(path, #[trigger] names[i]);
                let after = apply_thumbs(t, thumb_puts(entries));
                match entries[i].thumb {
                    Some(bytes) => after.contains_key(k) && after[k] == bytes,
                    None => same_at(after, t, k),
                }
            },
        forall|k: Seq<char>|
            !is_entry_path(path, names, k) ==> same_at(apply_thumbs(t, thumb_puts(entries)), t, k),
    decreases names.len(),
{
    if names.len() > 0 {
        let init = names.drop_last();
        let first = entries.drop_last();
        let last = names.last();
        assert forall|i: int| 0 <= i < init.len() implies (#[trigger] first[i]).media.path
            == joined(path, init[i]) by {
            assert(first[i] == entries[i]);
            assert(init[i] == names[i]);
        }
        lemma_thumb_puts(t, path, init, first);
        let mid = apply_thumbs(t, thumb_puts(first));
        let after = apply_thumbs(t, thumb_puts(entries));
        assert(entries.last() == entries[names.len() - 1]);
        match entries.last().thumb {
            Some(bytes) => {
                assert(thumb_puts(entries) == thumb_puts(first).push(
                    ThumbOpView::Put { key: entries.last().media.path, value: bytes },
                ));
                assert(thumb_puts(entries).drop_last() =~= thumb_puts(first));
                assert(after == mid.insert(joined(path, last), bytes));
            },
            None => {
                assert(after == mid);
            },
        }
        assert(!is_entry_path(path, init, joined(path, last))) by {
            if is_entry_path(path, init, joined(path, last)) {
                let i = choose|i: int|
                    0 <= i < init.len() && joined(path, last) == joined(path, #[trigger] init[i]);
                assert(init[i] == names[i]);
                lemma_joined_is_injective(path, names[i], last);
                assert(names[i] == names[names.len() - 1]);
            }
        }
        assert forall|i: int| 0 <= i < names.len() implies {
            let k = joined(path, #[trigger] names[i]);
            match entries[i].thumb {
                Some(bytes) => after.contains_key(k) && after[k] == bytes,
                None => same_at(after, t, k),
            }
        } by {
            if i < init.len() {
                assert(init[i] == names[i]);
                assert(first[i] == entries[i]);
                if joined(path, names[i]) == joined(path, last) {
                    lemma_joined_is_injective(path, names[i], last);
                    assert(names[i] == names[names.len() - 1]);
                }
            }
        }
        assert forall|k: Seq<char>| !is_entry_path(path, names, k) implies same_at(after, t, k) by {
            assert(k != joined(path, names[names.len() - 1]));
            if is_entry_path(path, init, k) {
                let i = choose|i: int| 0 <= i < init.len() && k == joined(path, #[trigger] init[i]);
                assert(names[i] == init[i]);
            }
        }
    }
}

/// The changes that one directory brings about in the thumbnail store in a
/// cycle: those of the two plans, then what the writer stores of the entries
/// that came back from generation.
pub open spec fn thumb_changes(
    path: Seq<char>,
    scan_dirs: Seq<ScanDir>,
    db_folders: Seq<FolderScan>,
    scan_files: Seq<ScanFile>,
    db_files: Seq<MediaScan>,
    new: Seq<MediaThumbView>,
    update: Seq<MediaThumbView>,
) -> Seq<ThumbOpView> {
    thumb_prefix_deletes(path, removed(listed_names(db_folders), listed(scan_dirs)))
        + thumb_deletes(path, removed(listed_names(db_files), listed(scan_files))) + thumb_puts(
        new,
    ) + thumb_puts(update)
}

/// What a cycle makes of the thumbnail store for one directory. The
/// thumbnail of a file that is gone is gone. Every new and every updated
/// file whose generation gave a thumbnail has that thumbnail under its
/// path. Every other thumbnail is untouched, byte for byte, unless it lies
/// below a subfolder that is gone: the thumbnails of the files that are
/// unchanged, of those whose generation gave none, and all that lie
/// outside the directory. No key appears but the path of a file of the
/// directory.
pub proof fn lemma_thumbs_after_visit(
    t: Thumbs,
    path: Seq<char>,
    scan_dirs: Seq<ScanDir>,
    db_folders: Seq<FolderScan>,
    scan_files: Seq<ScanFile>,
    db_files: Seq<MediaScan>,
    new: Seq<MediaThumbView>,
    update: Seq<MediaThumbView>,
)
    requires
        forall|n: Seq<char>| listed(db_folders).contains_key(n) ==> plain_name(n),
        forall|n: Seq<char>| listed(scan_files).contains_key(n) ==> plain_name(n),
        forall|n: Seq<char>| listed(db_files).contains_key(n) ==> plain_name(n),
        generated(
            fresh_entries(
                path,
                added(listed_names(scan_files), listed(db_files)),
                listed(scan_files),
            ),
            new,
        ),
        generated(
            fresh_entries(
                path,
                changed(listed_names(scan_files), listed(scan_files), listed(db_files)),
                listed(scan_files),
            ),
            update,
        ),
    ensures
        forall|n: Seq<char>|
            listed(db_files).contains_key(n) && !listed(scan_files).contains_key(n)
                ==> !apply_thumbs(
                t,
                thumb_changes(path, scan_dirs, db_folders, scan_files, db_files, new, update),
            ).contains_key(#[trigger] joined(path, n)),
        forall|i: int|
            0 <= i < new.len() && (#[trigger] new[i]).thumb is Some ==> {
                let after = apply_thumbs(
                    t,
                    thumb_changes(path, scan_dirs, db_folders, scan_files, db_files, new, update),
                );
                after.contains_key(new[i].media.path) && after[new[i].media.path]
                    == new[i].thumb->0
            },
        forall|i: int|
            0 <= i < update.len() && (#[trigger] update[i]).thumb is Some ==> {
                let after = apply_thumbs(
                    t,
                    thumb_changes(path, scan_dirs, db_folders, scan_files, db_files, new, update),
                );
                after.contains_key(update[i].media.path) && after[update[i].media.path]
                    == update[i].thumb->0
            },
        forall|i: int|
            0 <= i < update.len() && (#[trigger] update[i]).thumb is None ==> same_at(
                apply_thumbs(
                    t,
                    thumb_changes(path, scan_dirs, db_folders, scan_files, db_files, new, update),
                ),
                t,
                update[i].media.path,
            ),
        forall|k: Seq<char>|
            !under_entry(path, removed(listed_names(db_folders), listed(scan_dirs)), k)
                && !is_entry_path(path, removed(listed_names(db_files), listed(scan_files)), k)
                && !is_entry_path(path, added(listed_names(scan_files), listed(db_files)), k)
                && !is_entry_path(
                path,
                changed(listed_names(scan_files), listed(scan_files), listed(db_files)),
                k,
            ) ==> same_at(
                apply_thumbs(
                    t,
                    thumb_changes(path, scan_dirs, db_folders, scan_files, db_files, new, update),
                ),
                t,
                k,
            ),
        forall|k: Seq<char>|
            !child_path(path, k) && #[trigger] apply_thumbs(
                t,
                thumb_changes(path, scan_dirs, db_folders, scan_files, db_files, new, update),
            ).contains_key(k) ==> t.contains_key(k) && t[k] == apply_thumbs(
                t,
                thumb_changes(path, scan_dirs, db_folders, scan_files, db_files, new, update),
            )[k],
{
    let s = listed(scan_files);
    let d = listed(db_files);
    let a = added(listed_names(scan_files), d);
    let ch = changed(listed_names(scan_files), s, d);
    let r = removed(listed_names(db_files), s);
    let rf = removed(listed_names(db_folders), listed(scan_dirs));
    lemma_classes(scan_files, db_files);
    assert forall|i: int| 0 <= i < a.len() implies plain_name(#[trigger] a[i]) by {
        assert(a.contains(a[i]));
    }
    assert forall|i: int| 0 <= i < ch.len() implies plain_name(#[trigger] ch[i]) by {
        assert(ch.contains(ch[i]));
    }
    let fresh_new = fresh_entries(path, a, s);
    let fresh_update = fresh_entries(path, ch, s);
    assert forall|i: int| 0 <= i < a.len() implies (#[trigger] new[i]).media.path == joined(
        path,
        a[i],
    ) by {
        assert(new[i].media == (ImageRow {
            timestamp: new[i].media.timestamp,
            ..fresh_new[i].media
        }));
    }
    assert forall|i: int| 0 <= i < ch.len() implies (#[trigger] update[i]).media.path == joined(
        path,
        ch[i],
    ) by {
        assert(update[i].media == (ImageRow {
            timestamp: update[i].media.timestamp,
            ..fresh_update[i].media
        }));
    }
    let t1 = apply_thumbs(t, thumb_prefix_deletes(path, rf));
    let t2 = apply_thumbs(t1, thumb_deletes(path, r));
    let t3 = apply_thumbs(t2, thumb_puts(new));
    let t4 = apply_thumbs(t3, thumb_puts(update));
    lemma_thumb_prefix_deletes(t, path, rf);
    lemma_thumb_deletes(t1, path, r);
    lemma_thumb_puts(t2, path, a, new);
    lemma_thumb_puts(t3, path, ch, update);
    lemma_apply_thumbs_concat(t, thumb_prefix_deletes(path, rf), thumb_deletes(path, r));
    lemma_apply_thumbs_concat(
        t,
        thumb_prefix_deletes(path, rf) + thumb_deletes(path, r),
        thumb_puts(new),
    );
    lemma_apply_thumbs_concat(
        t,
        thumb_prefix_deletes(path, rf) + thumb_deletes(path, r) + thumb_puts(new),
        thumb_puts(update),
    );
    assert(t4 == apply_thumbs(
        t,
        thumb_changes(path, scan_dirs, db_folders, scan_files, db_files, new, update),
    ));
    assert forall|k: Seq<char>| !child_path(path, k) && #[trigger] t4.contains_key(
        k,
    ) implies t.contains_key(k) && t[k] == t4[k] by {
        if is_entry_path(path, a, k) {
            let j = choose|j: int| 0 <= j < a.len() && k == joined(path, #[trigger] a[j]);
            assert(plain_name(a[j]));
        }
        if is_entry_path(path, ch, k) {
            let j = choose|j: int| 0 <= j < ch.len() && k == joined(path, #[trigger] ch[j]);
            assert(plain_name(ch[j]));
        }
        assert(same_at(t4, t3, k));
        assert(same_at(t3, t2, k));
    }
    // A name falls into one class only, and has one path only.
    assert forall|x: Seq<char>, y: Seq<char>|
        plain_name(x) && plain_name(y) && #[trigger] joined(path, x) == #[trigger] joined(
            path,
            y,
        ) implies x == y by {
        lemma_joined_is_injective(path, x, y);
    }
    assert forall|n: Seq<char>| d.contains_key(n) && !s.contains_key(n) implies !t4.contains_key(
        #[trigger] joined(path, n),
    ) by {
        let k = joined(path, n);
        assert(r.contains(n));
        let i = choose|i: int| 0 <= i < r.len() && r[i] == n;
        assert(is_entry_path(path, r, k));
        if is_entry_path(path, a, k) {
            let j = choose|j: int| 0 <= j < a.len() && k == joined(path, #[trigger] a[j]);
            assert(a.contains(a[j]));
        }
        if is_entry_path(path, ch, k) {
            let j = choose|j: int| 0 <= j < ch.len() && k == joined(path, #[trigger] ch[j]);
            assert(ch.contains(ch[j]));
        }
    }
    assert forall|i: int| 0 <= i < new.len() && (#[trigger] new[i]).thumb is Some implies {
        t4.contains_key(new[i].media.path) && t4[new[i].media.path] == new[i].thumb->0
    } by {
        let k = joined(path, a[i]);
        assert(t3.contains_key(k) && t3[k] == new[i].thumb->0);
        if is_entry_path(path, ch, k) {
            let j = choose|j: int| 0 <= j < ch.len() && k == joined(path, #[trigger] ch[j]);
            assert(ch.contains(ch[j]));
            assert(a.contains(a[i]));
        }
    }
    assert forall|i: int| 0 <= i < update.len() && (#[trigger] update[i]).thumb is Some implies {
        t4.contains_key(update[i].media.path) && t4[update[i].media.path] == update[i].thumb->0
    } by {
        assert(update[i].media.path == joined(path, ch[i]));
    }
    lemma_classes(scan_dirs, db_folders);
    assert forall|i: int|
        0 <= i < update.len() && (#[trigger] update[i]).thumb is None implies same_at(
        t4,
        t,
        update[i].media.path,
    ) by {
        let k = joined(path, ch[i]);
        assert(ch.contains(ch[i]));
        if under_entry(path, rf, k) {
            let j = choose|j: int|
                0 <= j < rf.len() && under(beneath(joined(path, #[trigger] rf[j])), k);
            assert(rf.contains(rf[j]));
            lemma_entry_is_not_below(path, rf[j], ch[i]);
        }
        assert(same_at(t4, t3, k));
        if is_entry_path(path, a, k) {
            let j = choose|j: int| 0 <= j < a.len() && k == joined(path, #[trigger] a[j]);
            assert(a.contains(a[j]));
        }
        if is_entry_path(path, r, k) {
            let j = choose|j: int| 0 <= j < r.len() && k == joined(path, #[trigger] r[j]);
            assert(r.contains(r[j]));
        }
    }
}

/// Whether the entry `e` of a request is that of the file with the path `k`
/// and has been written: the image row of `k` has the scanned time and the
/// timestamp of the entry, and where the entry brought a thumbnail, that
/// thumbnail lies under `k`.
pub open spec fn settles(
    images: Map<Seq<char>, ImageRow>,
    thumbs: Thumbs,
    k: Seq<char>,
    mtime: i64,
    e: MediaThumbView,
) -> bool {
    &&& e.media.path == k
    &&& images.contains_key(k)
    &&& images[k].mtime == mtime
    &&& images[k].timestamp == e.media.timestamp
    &&& e.thumb is Some ==> thumbs.contains_key(k) && thumbs[k] == e.thumb->0
}

/// What the visit of a directory makes of one of its files in both stores.
/// A file that the catalog lists with its scanned time is in no request,
/// and its row and its thumbnail stay as they were, byte for byte. A file
/// that the scan lacks loses its row and its thumbnail. Every other scanned
/// file is in the request, and its row and its thumbnail are what
/// generation made of its entry.
pub proof fn lemma_visit_of_one_file(
    c: Catalog,
    t: Thumbs,
    path: Seq<char>,
    scan_dirs: Seq<ScanDir>,
    db_folders: Seq<FolderScan>,
    scan_files: Seq<ScanFile>,
    db_files: Seq<MediaScan>,
    new: Seq<MediaThumbView>,
    update: Seq<MediaThumbView>,
    n: Seq<char>,
)
    requires
        plain_name(n),
        forall|m: Seq<char>| listed(scan_dirs).contains_key(m) ==> plain_name(m),
        forall|m: Seq<char>| listed(db_folders).contains_key(m) ==> plain_name(m),
        forall|m: Seq<char>| listed(scan_files).contains_key(m) ==> plain_name(m),
        listed(db_files) == image_listing(
            apply_all(c, folder_statements(path, scan_dirs, db_folders)),
            path,
        ),
        generated(
            fresh_entries(
                path,
                added(listed_names(scan_files), listed(db_files)),
                listed(scan_files),
            ),
            new,
        ),
        generated(
            fresh_entries(
                path,
                changed(listed_names(scan_files), listed(scan_files), listed(db_files)),
                listed(scan_files),
            ),
            update,
        ),
    ensures
        ({
            let k = joined(path, n);
            let c1 = apply_all(c, folder_statements(path, scan_dirs, db_folders));
            let c2 = apply_all(c1, file_statements(path, scan_files, db_files, new, update));
            let t2 = apply_thumbs(
                t,
                thumb_changes(path, scan_dirs, db_folders, scan_files, db_files, new, update),
            );
            let s = listed(scan_files);
            let d = listed(db_files);
            &&& same_at(c1.images, c.images, k)
            &&& d.contains_key(n) <==> c.images.contains_key(k) && c.images[k].dir == path
            &&& d.contains_key(n) ==> d[n] == c.images[k].mtime
            &&& s.contains_key(n) && d.contains_key(n) && s[n] == d[n] ==> same_at(t2, t, k)
                && same_at(c2.images, c.images, k) && forall|e: MediaThumbView|
                new.contains(e) || update.contains(e) ==> e.media.path != k
            &&& !s.contains_key(n) && d.contains_key(n) ==> !t2.contains_key(k)
                && !c2.images.contains_key(k)
            &&& s.contains_key(n) && !d.contains_key(n) ==> exists|e: MediaThumbView|
                new.contains(e) && #[trigger] settles(c2.images, t2, k, s[n], e)
            &&& s.contains_key(n) && d.contains_key(n) && s[n] != d[n] ==> exists|e: MediaThumbView|
                update.contains(e) && #[trigger] settles(c2.images, t2, k, s[n], e) && (e.thumb
                    is None ==> same_at(t2, t, k))
        }),
{
    let k = joined(path, n);
    let c1 = apply_all(c, folder_statements(path, scan_dirs, db_folders));
    let s = listed(scan_files);
    let d = listed(db_files);
    let a = added(listed_names(scan_files), d);
    let ch = changed(listed_names(scan_files), s, d);
    let r = removed(listed_names(db_files), s);
    let rf = removed(listed_names(db_folders), listed(scan_dirs));
    lemma_classes(scan_files, db_files);
    lemma_classes(scan_dirs, db_folders);
    lemma_folder_statements_frame(c, path, scan_dirs, db_folders);
    lemma_thumbs_after_visit(
        t,
        path,
        scan_dirs,
        db_folders,
        scan_files,
        db_files,
        new,
        update,
    );
    // The file lies below no subfolder that goes.
    assert(!under_entry(path, rf, k)) by {
        if under_entry(path, rf, k) {
            let j = choose|j: int|
                0 <= j < rf.len() && under(beneath(joined(path, #[trigger] rf[j])), k);
            assert(rf.contains(rf[j]));
            lemma_entry_is_not_below(path, rf[j], n);
        }
    }
    assert(same_at(c1.images, c.images, k));
    assert forall|i: int| 0 <= i < a.len() implies plain_name(#[trigger] a[i]) by {
        assert(a.contains(a[i]));
    }
    assert forall|i: int| 0 <= i < ch.len() implies plain_name(#[trigger] ch[i]) by {
        assert(ch.contains(ch[i]));
    }
    assert forall|i: int| 0 <= i < r.len() implies plain_name(#[trigger] r[i]) by {
        assert(r.contains(r[i]));
    }
    let fresh_new = fresh_entries(path, a, s);
    let fresh_update = fresh_entries(path, ch, s);
    assert forall|i: int| 0 <= i < a.len() implies (#[trigger] new[i]).media == (ImageRow {
        timestamp: new[i].media.timestamp,
        ..fresh_new[i].media
    }) by {}
    assert forall|i: int| 0 <= i < ch.len() implies (#[trigger] update[i]).media == (ImageRow {
        timestamp: update[i].media.timestamp,
        ..fresh_update[i].media
    }) by {}
    assert forall|i: int| 0 <= i < a.len() implies (#[trigger] new[i]).media.path == joined(
        path,
        a[i],
    ) by {
        assert(new[i].media.path == fresh_new[i].media.path);
    }
    assert forall|i: int| 0 <= i < ch.len() implies (#[trigger] update[i]).media.path == joined(
        path,
        ch[i],
    ) by {
        assert(update[i].media.path == fresh_update[i].media.path);
    }
    let d1 = apply_all(c1, image_deletes(path, r));
    let d2 = apply_all(d1, image_inserts(new));
    let d3 = apply_all(d2, image_updates(update));
    lemma_image_deletes(c1, path, r);
    lemma_image_inserts(d1, path, a, new);
    lemma_image_updates(d2, path, ch, update);
    lemma_apply_all_concat(c1, image_deletes(path, r), image_inserts(new));
    lemma_apply_all_concat(c1, image_deletes(path, r) + image_inserts(new), image_updates(update));
    assert(d3 == apply_all(c1, file_statements(path, scan_files, db_files, new, update)));
    let t2 = apply_thumbs(
        t,
        thumb_changes(path, scan_dirs, db_folders, scan_files, db_files, new, update),
    );
    // The name is in one class only.
    if is_entry_path(path, a, k) {
        let i = choose|i: int| 0 <= i < a.len() && k == joined(path, #[trigger] a[i]);
        lemma_joined_is_injective(path, a[i], n);
        assert(a.contains(n));
    }
    if is_entry_path(path, ch, k) {
        let i = choose|i: int| 0 <= i < ch.len() && k == joined(path, #[trigger] ch[i]);
        lemma_joined_is_injective(path, ch[i], n);
        assert(ch.contains(n));
    }
    if is_entry_path(path, r, k) {
        let i = choose|i: int| 0 <= i < r.len() && k == joined(path, #[trigger] r[i]);
        lemma_joined_is_injective(path, r[i], n);
        assert(r.contains(n));
    }
    if s.contains_key(n) && d.contains_key(n) && s[n] == d[n] {
        assert(!a.contains(n) && !ch.contains(n) && !r.contains(n));
        assert forall|e: MediaThumbView| new.contains(e) || update.contains(e) implies e.media.path
            != k by {
            if new.contains(e) {
                let i = choose|i: int| 0 <= i < new.len() && new[i] == e;
                assert(new[i].media.path == joined(path, a[i]));
                if e.media.path == k {
                    assert(is_entry_path(path, a, k));
                }
            }
            if update.contains(e) {
                let i = choose|i: int| 0 <= i < update.len() && update[i] == e;
                assert(update[i].media.path == joined(path, ch[i]));
                if e.media.path == k {
                    assert(is_entry_path(path, ch, k));
                }
            }
        }
    }
    if !s.contains_key(n) && d.contains_key(n) {
        assert(r.contains(n));
        let i = choose|i: int| 0 <= i < r.len() && r[i] == n;
        assert(is_entry_path(path, r, k));
        assert(!a.contains(n) && !ch.contains(n));
    }
    if s.contains_key(n) && !d.contains_key(n) {
        assert(a.contains(n));
        let i = choose|i: int| 0 <= i < a.len() && a[i] == n;
        assert(!ch.contains(n));
        assert(d2.images[joined(path, a[i])] == new[i].media);
        assert(new[i].media.mtime == fresh_new[i].media.mtime);
        assert(new.contains(new[i]));
        assert(settles(d3.images, t2, k, s[n], new[i]));
    }
    if s.contains_key(n) && d.contains_key(n) && s[n] != d[n] {
        assert(ch.contains(n));
        let i = choose|i: int| 0 <= i < ch.len() && ch[i] == n;
        assert(!a.contains(n) && !r.contains(n));
        assert(c1.images.contains_key(k));
        assert(d2.images.contains_key(joined(path, ch[i])));
        assert(update[i].media.mtime == fresh_update[i].media.mtime);
        assert(update.contains(update[i]));
        assert(settles(d3.images, t2, k, s[n], update[i]));
    }
}

/// Whether every row hangs on a folder row: every folder row with a parent
/// on the row of that parent, and every image row on the row of its folder.
pub open spec fn anchored(c: Catalog) -> bool {
    &&& forall|k: Seq<char>| #[trigger]
            c.folders.contains_key(k) && c.folders[k].dir is Some ==> c.folders.contains_key(
                c.folders[k].dir->0,
            )
    &&& forall|k: Seq<char>| #[trigger]
            c.images.contains_key(k) ==> c.folders.contains_key(c.images[k].dir)
}

/// What lies in a directory that is at or below a folder lies below that
/// folder.
proof fn lemma_entry_of_within(f: Seq<char>, dir: Seq<char>, name: Seq<char>)
    requires
        f.len() > 0,
        f.last() != '/',
        plain_name(name),
        within(f, dir),
    ensures
        under(beneath(f), joined(dir, name)),
{
    assert(name[0] != '/') by {
        if name[0] == '/' {
            assert(name.contains('/'));
        }
    }
    let k = joined(dir, name);
    let g = beneath(f);
    if dir == f {
        assert(k =~= g + name);
        assert(k.subrange(0, g.len() as int) =~= g);
    } else {
        assert(dir.subrange(0, g.len() as int) =~= g);
        assert(k.subrange(0, g.len() as int) =~= g) by {
            assert forall|i: int| 0 <= i < g.len() implies k[i] == g[i] by {
                assert(dir.subrange(0, g.len() as int)[i] == g[i]);
                assert(k[i] == dir[i]);
            }
        }
    }
}

/// The statements for the subfolders of a directory whose row the catalog
/// holds keep every row hanging on a folder row, keep the row of the
/// directory, and leave the row of the root as it is.
pub proof fn lemma_folders_stay_anchored(
    c: Catalog,
    path: Seq<char>,
    scan: Seq<ScanDir>,
    db: Seq<FolderScan>,
)
    requires
        consistent(c),
        anchored(c),
        c.folders.contains_key(path),
        listed(db) == folder_listing(c, path),
        forall|n: Seq<char>| listed(scan).contains_key(n) ==> plain_name(n),
    ensures
        anchored(apply_all(c, folder_statements(path, scan, db))),
        apply_all(c, folder_statements(path, scan, db)).folders.contains_key(path),
        same_at(apply_all(c, folder_statements(path, scan, db)).folders, c.folders, seq!['/']),
{
    let s = listed(scan);
    let d = listed(db);
    let a = added(listed_names(scan), d);
    let ch = changed(listed_names(scan), s, d);
    let r = removed(listed_names(db), s);
    lemma_classes(scan, db);
    assert forall|i: int| 0 <= i < a.len() implies plain_name(#[trigger] a[i]) by {
        assert(a.contains(a[i]));
    }
    assert forall|i: int| 0 <= i < ch.len() implies plain_name(#[trigger] ch[i]) by {
        assert(ch.contains(ch[i]));
    }
    assert forall|i: int| 0 <= i < r.len() implies plain_name(#[trigger] r[i]) by {
        assert(r.contains(r[i]));
    }
    let c1 = apply_all(c, folder_inserts(path, a, s));
    let c2 = apply_all(c1, folder_updates(path, ch, s));
    let c3 = apply_all(c2, folder_deletes(path, r));
    lemma_folder_inserts(c, path, a, s);
    lemma_folder_updates(c1, path, ch, s);
    lemma_folder_deletes(c2, path, r);
    lemma_apply_all_concat(c, folder_inserts(path, a, s), folder_updates(path, ch, s));
    lemma_apply_all_concat(
        c,
        folder_inserts(path, a, s) + folder_updates(path, ch, s),
        folder_deletes(path, r),
    );
    assert(c3 == apply_all(c, folder_statements(path, scan, db)));
    lemma_folders_mirror_scan(c, path, scan, db);
    lemma_folder_statements_frame(c, path, scan, db);
    // The path of a plain name is longer than that of its directory and ends in no separator.
    assert forall|n: Seq<char>| plain_name(n) implies (#[trigger] joined(path, n)).len()
        > path.len() && joined(path, n).last() != '/' by {
        assert(n[0] != '/') by {
            if n[0] == '/' {
                assert(n.contains('/'));
            }
        }
        let base = if path.len() == 0 || path.last() == '/' {
            path
        } else {
            path + seq!['/']
        };
        assert(joined(path, n) =~= base + n);
        assert(joined(path, n).last() == n.last());
        if n.last() == '/' {
            assert(n[n.len() - 1] == '/');
            assert(n.contains('/'));
        }
    }
    // Neither the directory nor the root is at or below a subfolder that goes.
    assert forall|k: Seq<char>| k == path || k == seq!['/'] implies !within_entry(path, r, k)
        && (k == seq!['/'] ==> !scanned_path(path, s, k)) by {
        if is_entry_path(path, r, k) {
            let i = choose|i: int| 0 <= i < r.len() && k == joined(path, #[trigger] r[i]);
            assert(plain_name(r[i]));
            assert(joined(path, r[i]).len() > path.len());
            assert(k.last() == '/' ==> false);
        }
        if under_entry(path, r, k) {
            let i = choose|i: int|
                0 <= i < r.len() && under(beneath(joined(path, #[trigger] r[i])), k);
            assert(plain_name(r[i]));
            assert(joined(path, r[i]).len() > path.len());
            assert(k.len() >= beneath(joined(path, r[i])).len());
        }
        if k == seq!['/'] && scanned_path(path, s, k) {
            let n = choose|n: Seq<char>| #[trigger] s.contains_key(n) && k == joined(path, n);
            assert(plain_name(n));
            assert(joined(path, n).last() != '/');
        }
    }
    assert(c1.folders.contains_key(path)) by {
        if is_entry_path(path, a, path) {
            let i = choose|i: int| 0 <= i < a.len() && path == joined(path, #[trigger] a[i]);
        } else {
            assert(same_at(c1.folders, c.folders, path));
        }
    }
    assert(c2.folders.contains_key(path));
    assert(c3.folders.contains_key(path));
    // A row that stays has a parent that stays.
    assert forall|k: Seq<char>| #[trigger]
        c3.folders.contains_key(k) && c3.folders[k].dir is Some implies c3.folders.contains_key(
        c3.folders[k].dir->0,
    ) by {
        let dd = c3.folders[k].dir->0;
        assert(c2.folders.contains_key(k) && c3.folders[k] == c2.folders[k]);
        assert(c1.folders.contains_key(k));
        if is_entry_path(path, a, k) {
            let i = choose|i: int| 0 <= i < a.len() && k == joined(path, #[trigger] a[i]);
            assert(c1.folders[k] == folder_row(path, a[i], s[a[i]]));
        } else {
            assert(same_at(c1.folders, c.folders, k));
        }
        if is_entry_path(path, ch, k) {
            let i = choose|i: int| 0 <= i < ch.len() && k == joined(path, #[trigger] ch[i]);
            assert(c2.folders[k] == (FolderRow { mtime: s[ch[i]], ..c1.folders[k] }));
        } else {
            assert(same_at(c2.folders, c1.folders, k));
        }
        if dd != path {
            assert(c.folders.contains_key(k) && c.folders[k].dir == Some(dd));
            assert(c.folders.contains_key(dd));
            assert(c1.folders.contains_key(dd)) by {
                if is_entry_path(path, a, dd) {
                    let i = choose|i: int| 0 <= i < a.len() && dd == joined(path, #[trigger] a[i]);
                } else {
                    assert(same_at(c1.folders, c.folders, dd));
                }
            }
            assert(c2.folders.contains_key(dd));
            assert(k == joined(dd, c3.folders[k].name) && plain_name(c3.folders[k].name));
            if within_entry(path, r, dd) {
                lemma_entries_reach(path, r, dd);
                let i = choose|i: int| 0 <= i < r.len() && within(joined(path, #[trigger] r[i]), dd);
                lemma_entry_of_within(joined(path, r[i]), dd, c3.folders[k].name);
                assert(under_entry(path, r, k));
            }
        }
    }
    assert forall|k: Seq<char>| #[trigger] c3.images.contains_key(k) implies c3.folders.contains_key(
        c3.images[k].dir,
    ) by {
        let dd = c3.images[k].dir;
        assert(c.images.contains_key(k) && c3.images[k] == c.images[k]);
        assert(c.folders.contains_key(dd));
        if dd != path {
            assert(c1.folders.contains_key(dd)) by {
                if is_entry_path(path, a, dd) {
                    let i = choose|i: int| 0 <= i < a.len() && dd == joined(path, #[trigger] a[i]);
                } else {
                    assert(same_at(c1.folders, c.folders, dd));
                }
            }
            assert(c2.folders.contains_key(dd));
            assert(k == joined(dd, c.images[k].name) && plain_name(c.images[k].name));
            if within_entry(path, r, dd) {
                lemma_entries_reach(path, r, dd);
                let i = choose|i: int| 0 <= i < r.len() && within(joined(path, #[trigger] r[i]), dd);
                lemma_entry_of_within(joined(path, r[i]), dd, c.images[k].name);
                assert(under_entry(path, r, k));
            }
        }
    }
}

/// What is the path of an entry or lies below one is within one of the
/// entries.
proof fn lemma_entries_reach(path: Seq<char>, names: Seq<Seq<char>>, k: Seq<char>)
    requires
        within_entry(path, names, k),
    ensures
        exists|i: int| 0 <= i < names.len() && within(joined(path, #[trigger] names[i]), k),
{
    if is_entry_path(path, names, k) {
        let i = choose|i: int| 0 <= i < names.len() && k == joined(path, #[trigger] names[i]);
        assert(within(joined(path, names[i]), k));
    } else {
        let i = choose|i: int|
            0 <= i < names.len() && under(beneath(joined(path, #[trigger] names[i])), k);
        assert(within(joined(path, names[i]), k));
    }
}

/// The statements for the files of a directory whose row the catalog holds
/// keep every row hanging on a folder row.
pub proof fn lemma_files_stay_anchored(
    c: Catalog,
    path: Seq<char>,
    scan: Seq<ScanFile>,
    db: Seq<MediaScan>,
    new: Seq<MediaThumbView>,
    update: Seq<MediaThumbView>,
)
    requires
        anchored(c),
        c.folders.contains_key(path),
        forall|n: Seq<char>| listed(scan).contains_key(n) ==> plain_name(n),
        forall|n: Seq<char>| listed(db).contains_key(n) ==> plain_name(n),
        generated(
            fresh_entries(path, added(listed_names(scan), listed(db)), listed(scan)),
            new,
        ),
        generated(
            fresh_entries(
                path,
                changed(listed_names(scan), listed(scan), listed(db)),
                listed(scan),
            ),
            update,
        ),
    ensures
        anchored(apply_all(c, file_statements(path, scan, db, new, update))),
        apply_all(c, file_statements(path, scan, db, new, update)).folders == c.folders,
{
    let s = listed(scan);
    let d = listed(db);
    let a = added(listed_names(scan), d);
    let ch = changed(listed_names(scan), s, d);
    let r = removed(listed_names(db), s);
    lemma_classes(scan, db);
    assert forall|i: int| 0 <= i < a.len() implies plain_name(#[trigger] a[i]) by {
        assert(a.contains(a[i]));
    }
    assert forall|i: int| 0 <= i < ch.len() implies plain_name(#[trigger] ch[i]) by {
        assert(ch.contains(ch[i]));
    }
    let fresh_new = fresh_entries(path, a, s);
    let fresh_update = fresh_entries(path, ch, s);
    assert forall|i: int| 0 <= i < a.len() implies (#[trigger] new[i]).media == (ImageRow {
        timestamp: new[i].media.timestamp,
        ..fresh_new[i].media
    }) by {}
    assert forall|i: int| 0 <= i < ch.len() implies (#[trigger] update[i]).media == (ImageRow {
        timestamp: update[i].media.timestamp,
        ..fresh_update[i].media
    }) by {}
    assert forall|i: int| 0 <= i < a.len() implies (#[trigger] new[i]).media.path == joined(
        path,
        a[i],
    ) by {
        assert(new[i].media.path == fresh_new[i].media.path);
    }
    assert forall|i: int| 0 <= i < ch.len() implies (#[trigger] update[i]).media.path == joined(
        path,
        ch[i],
    ) by {
        assert(update[i].media.path == fresh_update[i].media.path);
    }
    let c1 = apply_all(c, image_deletes(path, r));
    let c2 = apply_all(c1, image_inserts(new));
    let c3 = apply_all(c2, image_updates(update));
    lemma_image_deletes(c, path, r);
    lemma_image_inserts(c1, path, a, new);
    lemma_image_updates(c2, path, ch, update);
    lemma_apply_all_concat(c, image_deletes(path, r), image_inserts(new));
    lemma_apply_all_concat(c, image_deletes(path, r) + image_inserts(new), image_updates(update));
    assert(c3 == apply_all(c, file_statements(path, scan, db, new, update)));
    assert forall|k: Seq<char>| #[trigger] c3.images.contains_key(k) implies c3.folders.contains_key(
        c3.images[k].dir,
    ) by {
        assert(c2.images.contains_key(k));
        if is_entry_path(path, a, k) {
            let i = choose|i: int| 0 <= i < a.len() && k == joined(path, #[trigger] a[i]);
            assert(c2.images[k] == new[i].media);
            assert(new[i].media.dir == fresh_new[i].media.dir);
        } else {
            assert(same_at(c2.images, c1.images, k));
            assert(c.images.contains_key(k) && c1.images[k] == c.images[k]);
        }
        if is_entry_path(path, ch, k) {
            let i = choose|i: int| 0 <= i < ch.len() && k == joined(path, #[trigger] ch[i]);
            assert(c3.images[k] == (ImageRow {
                mtime: update[i].media.mtime,
                timestamp: update[i].media.timestamp,
                ..c2.images[k]
            }));
        } else {
            assert(same_at(c3.images, c2.images, k));
        }
    }
}

} // verus!
