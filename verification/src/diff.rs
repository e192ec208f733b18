//! Comparison of a scanned directory level with what the catalog holds.
use vstd::prelude::*;
use vstd::hash_map::StringHashMap;
use vstd::string::*;

verus! {

/// The texts of a sequence of strings.
pub open spec fn texts(v: Seq<String>) -> Seq<Seq<char>> {
    Seq::new(v.len(), |i: int| v[i]@)
}

/// An entry of a directory level: a name and a modification time in seconds.
pub trait Dated {
    spec fn name_text(&self) -> Seq<char>;

    spec fn mtime_value(&self) -> i64;

    fn name(&self) -> (r: &str)
        ensures
            r@ == self.name_text(),
    ;

    fn mtime(&self) -> (r: i64)
        ensures
            r == self.mtime_value(),
    ;
}

/// The map from name to modification time that `items` list; of two items
/// with one name the later counts.
pub open spec fn listed<T: Dated>(items: Seq<T>) -> Map<Seq<char>, i64>
    decreases items.len(),
{
    if items.len() == 0 {
        Map::empty()
    } else {
        listed(items.drop_last()).insert(items.last().name_text(), items.last().mtime_value())
    }
}

/// The names that `items` list, each once, in the order of first appearance.
pub open spec fn listed_names<T: Dated>(items: Seq<T>) -> Seq<Seq<char>>
    decreases items.len(),
{
    if items.len() == 0 {
        Seq::empty()
    } else {
        let before = listed_names(items.drop_last());
        if before.contains(items.last().name_text()) {
            before
        } else {
            before.push(items.last().name_text())
        }
    }
}

/// A map from name to modification time that remembers the order in which
/// its names arrived.
pub struct EntryMap {
    names: Vec<String>,
    mtimes: StringHashMap<i64>,
}

impl View for EntryMap {
    type V = Map<Seq<char>, i64>;

    closed spec fn view(&self) -> Map<Seq<char>, i64> {
        self.mtimes@
    }
}

impl EntryMap {
    /// The names of the map, in the order of arrival.
    pub closed spec fn names(&self) -> Seq<Seq<char>> {
        texts(self.names@)
    }

    /// No name is held twice, and the names are those that have a time.
    pub closed spec fn wf(&self) -> bool {
        &&& texts(self.names@).no_duplicates()
        &&& forall|n: Seq<char>| texts(self.names@).contains(n) <==> self.mtimes@.contains_key(n)
    }

    /// What `wf` says, over the two public accessors.
    pub proof fn lemma_wf(&self)
        requires
            self.wf(),
        ensures
            self.names().no_duplicates(),
            self.names().to_set() == self@.dom(),
    {
        assert(self.names().to_set() =~= self@.dom());
    }

    /// The empty map.
    pub fn new() -> (r: Self)
        ensures
            r.wf(),
            r@ == Map::<Seq<char>, i64>::empty(),
            r.names() == Seq::<Seq<char>>::empty(),
    {
        let r = EntryMap { names: Vec::new(), mtimes: StringHashMap::new() };
        assert(texts(r.names@) =~= Seq::<Seq<char>>::empty());
        r
    }

    /// Number of names.
    pub fn len(&self) -> (r: usize)
        ensures
            r == self.names().len(),
    {
        self.names.len()
    }

    /// The name that arrived as number `i`.
    pub fn name_at(&self, i: usize) -> (r: &str)
        requires
            i < self.names().len(),
        ensures
            r@ == self.names()[i as int],
    {
        self.names[i].as_str()
    }

    /// Whether `name` has a time.
    pub fn contains(&self, name: &str) -> (r: bool)
        ensures
            r == self@.contains_key(name@),
    {
        self.mtimes.contains_key(name)
    }

    /// The time of `name`, if it has one.
    pub fn get(&self, name: &str) -> (r: Option<i64>)
        ensures
            r == (if self@.contains_key(name@) {
                Some(self@[name@])
            } else {
                None::<i64>
            }),
    {
        match self.mtimes.get(name) {
            Some(t) => Some(*t),
            None => None,
        }
    }

    /// Gives `name` the time `mtime`, whether or not it had one.
    pub fn insert(&mut self, name: &str, mtime: i64)
        requires
            old(self).wf(),
        ensures
            final(self).wf(),
            final(self)@ == old(self)@.insert(name@, mtime),
            final(self).names() == (if old(self)@.contains_key(name@) {
                old(self).names()
            } else {
                old(self).names().push(name@)
            }),
    {
        let ghost before = texts(self.names@);
        if !self.mtimes.contains_key(name) {
            self.names.push(String::from_str(name));
            assert(texts(self.names@) =~= before.push(name@));
        }
        self.mtimes.insert(String::from_str(name), mtime);
        assert forall|n: Seq<char>| texts(self.names@).contains(n) <==> self.mtimes@.contains_key(
            n,
        ) by {
            if before.contains(n) {
                let k = choose|k: int| 0 <= k < before.len() && before[k] == n;
                assert(texts(self.names@)[k] == n);
            }
            if texts(self.names@).contains(n) && n != name@ {
                let k = choose|k: int|
                    0 <= k < texts(self.names@).len() && texts(self.names@)[k] == n;
                assert(before[k] == n);
            }
            if n == name@ && !before.contains(n) {
                assert(texts(self.names@)[before.len() as int] == n);
            }
        }
    }

    /// The map that `items` list.
    pub fn collect<T: Dated>(items: &Vec<T>) -> (r: Self)
        ensures
            r.wf(),
            r@ == listed(items@),
            r.names() == listed_names(items@),
    {
        let mut r = EntryMap::new();
        let mut i: usize = 0;
        while i < items.len()
            invariant
                i <= items.len(),
                r.wf(),
                r@ == listed(items@.take(i as int)),
                r.names() == listed_names(items@.take(i as int)),
            decreases items.len() - i,
        {
            proof {
                r.lemma_wf();
                assert(items@.take(i + 1).drop_last() =~= items@.take(i as int));
            }
            r.insert(items[i].name(), items[i].mtime());
            i += 1;
        }
        assert(items@.take(i as int) =~= items@);
        r
    }
}

/// The scanned names that the catalog lacks, in the order of the scan.
pub open spec fn added(scan_names: Seq<Seq<char>>, db: Map<Seq<char>, i64>) -> Seq<Seq<char>> {
    scan_names.filter(|n: Seq<char>| !db.contains_key(n))
}

/// The scanned names that the catalog holds with another time, in the order
/// of the scan.
pub open spec fn changed(
    scan_names: Seq<Seq<char>>,
    scan: Map<Seq<char>, i64>,
    db: Map<Seq<char>, i64>,
) -> Seq<Seq<char>> {
    scan_names.filter(|n: Seq<char>| db.contains_key(n) && scan[n] != db[n])
}

/// The scanned names that the catalog holds with the same time, in the order
/// of the scan.
pub open spec fn kept(
    scan_names: Seq<Seq<char>>,
    scan: Map<Seq<char>, i64>,
    db: Map<Seq<char>, i64>,
) -> Seq<Seq<char>> {
    scan_names.filter(|n: Seq<char>| db.contains_key(n) && scan[n] == db[n])
}

/// The catalogued names that the scan lacks, in the order of the catalog.
pub open spec fn removed(db_names: Seq<Seq<char>>, scan: Map<Seq<char>, i64>) -> Seq<Seq<char>> {
    db_names.filter(|n: Seq<char>| !scan.contains_key(n))
}

/// A filter of names without repetition keeps, without repetition, exactly
/// the names that meet `pred`.
pub proof fn lemma_filter_distinct(names: Seq<Seq<char>>, pred: spec_fn(Seq<char>) -> bool)
    requires
        names.no_duplicates(),
    ensures
        names.filter(pred).no_duplicates(),
        forall|n: Seq<char>| names.filter(pred).contains(n) <==> names.contains(n) && pred(n),
    decreases names.len(),
{
    reveal(Seq::filter);
    if names.len() > 0 {
        let init = names.drop_last();
        let last = names.last();
        lemma_filter_distinct(init, pred);
        assert(names =~= init.push(last));
        assert(!init.contains(last)) by {
            if init.contains(last) {
                let k = choose|k: int| 0 <= k < init.len() && init[k] == last;
                assert(names[k] == names[names.len() - 1]);
            }
        }
        let out = names.filter(pred);
        assert forall|n: Seq<char>| out.contains(n) <==> names.contains(n) && pred(n) by {
            if names.contains(n) {
                let k = choose|k: int| 0 <= k < names.len() && names[k] == n;
                if k < init.len() {
                    assert(init[k] == n);
                }
            }
            if init.contains(n) {
                let k = choose|k: int| 0 <= k < init.len() && init[k] == n;
                assert(names[k] == n);
            }
            if pred(last) {
                assert(out =~= init.filter(pred).push(last));
                assert(out[out.len() - 1] == last);
                if init.filter(pred).contains(n) {
                    let k = choose|k: int|
                        0 <= k < init.filter(pred).len() && init.filter(pred)[k] == n;
                    assert(out[k] == n);
                }
                if out.contains(n) {
                    let k = choose|k: int| 0 <= k < out.len() && out[k] == n;
                    if k < out.len() - 1 {
                        assert(init.filter(pred)[k] == n);
                    }
                }
            }
            assert(names[names.len() - 1] == last);
        }
    }
}

/// Three filters that split the names between them keep, together, as many
/// names as there are.
pub proof fn lemma_split_len(
    names: Seq<Seq<char>>,
    p: spec_fn(Seq<char>) -> bool,
    q: spec_fn(Seq<char>) -> bool,
    r: spec_fn(Seq<char>) -> bool,
)
    requires
        forall|i: int|
            0 <= i < names.len() ==> {
                let n = #[trigger] names[i];
                (p(n) || q(n) || r(n)) && !(p(n) && q(n)) && !(p(n) && r(n)) && !(q(n) && r(n))
            },
    ensures
        names.filter(p).len() + names.filter(q).len() + names.filter(r).len() == names.len(),
    decreases names.len(),
{
    reveal(Seq::filter);
    if names.len() > 0 {
        let init = names.drop_last();
        assert forall|i: int| 0 <= i < init.len() implies {
            let n = #[trigger] init[i];
            (p(n) || q(n) || r(n)) && !(p(n) && q(n)) && !(p(n) && r(n)) && !(q(n) && r(n))
        } by {
            assert(init[i] == names[i]);
        }
        lemma_split_len(init, p, q, r);
        assert(names.last() == names[names.len() - 1]);
    }
}

/// A listing names at most as many entries as it has.
pub proof fn lemma_listed_names_len<T: Dated>(items: Seq<T>)
    ensures
        listed_names(items).len() <= items.len(),
    decreases items.len(),
{
    if items.len() > 0 {
        lemma_listed_names_len(items.drop_last());
    }
}

/// A comparison sorts every scanned name into exactly one of three classes,
/// new, updated or unchanged, and every catalogued name that the scan lacks
/// into the deleted ones. Which class a name falls into depends on the two
/// maps alone, not on the order in which their names arrived: a name is new
/// when only the scan holds it, deleted when only the catalog holds it, and
/// updated when both hold it with different times.
pub proof fn lemma_compare_partitions(scan: &EntryMap, db: &EntryMap)
    requires
        scan.wf(),
        db.wf(),
    ensures
        added(scan.names(), db@).no_duplicates(),
        changed(scan.names(), scan@, db@).no_duplicates(),
        kept(scan.names(), scan@, db@).no_duplicates(),
        removed(db.names(), scan@).no_duplicates(),
        added(scan.names(), db@).to_set() == scan@.dom().difference(db@.dom()),
        removed(db.names(), scan@).to_set() == db@.dom().difference(scan@.dom()),
        changed(scan.names(), scan@, db@).to_set() == Set::new(
            |n: Seq<char>| scan@.contains_key(n) && db@.contains_key(n) && scan@[n] != db@[n],
        ),
        kept(scan.names(), scan@, db@).to_set() == Set::new(
            |n: Seq<char>| scan@.contains_key(n) && db@.contains_key(n) && scan@[n] == db@[n],
        ),
        added(scan.names(), db@).to_set().union(changed(scan.names(), scan@, db@).to_set()).union(
            kept(scan.names(), scan@, db@).to_set(),
        ) == scan@.dom(),
        added(scan.names(), db@).to_set().disjoint(changed(scan.names(), scan@, db@).to_set()),
        added(scan.names(), db@).to_set().disjoint(kept(scan.names(), scan@, db@).to_set()),
        changed(scan.names(), scan@, db@).to_set().disjoint(
            kept(scan.names(), scan@, db@).to_set(),
        ),
        added(scan.names(), db@).len() + changed(scan.names(), scan@, db@).len() + kept(
            scan.names(),
            scan@,
            db@,
        ).len() == scan.names().len(),
{
    let s = scan@;
    let d = db@;
    let is_new = |n: Seq<char>| !d.contains_key(n);
    let is_changed = |n: Seq<char>| d.contains_key(n) && s[n] != d[n];
    let is_kept = |n: Seq<char>| d.contains_key(n) && s[n] == d[n];
    let is_gone = |n: Seq<char>| !s.contains_key(n);
    scan.lemma_wf();
    db.lemma_wf();
    lemma_filter_distinct(scan.names(), is_new);
    lemma_filter_distinct(scan.names(), is_changed);
    lemma_filter_distinct(scan.names(), is_kept);
    lemma_filter_distinct(db.names(), is_gone);
    lemma_split_len(scan.names(), is_new, is_changed, is_kept);
    assert forall|n: Seq<char>| scan.names().contains(n) <==> s.contains_key(n) by {
        assert(scan.names().to_set().contains(n) <==> s.dom().contains(n));
    }
    assert forall|n: Seq<char>| db.names().contains(n) <==> d.contains_key(n) by {
        assert(db.names().to_set().contains(n) <==> d.dom().contains(n));
    }
    assert(added(scan.names(), d).to_set() =~= s.dom().difference(d.dom()));
    assert(removed(db.names(), s).to_set() =~= d.dom().difference(s.dom()));
    assert(changed(scan.names(), s, d).to_set() =~= Set::new(
        |n: Seq<char>| s.contains_key(n) && d.contains_key(n) && s[n] != d[n],
    ));
    assert(kept(scan.names(), s, d).to_set() =~= Set::new(
        |n: Seq<char>| s.contains_key(n) && d.contains_key(n) && s[n] == d[n],
    ));
    assert(added(scan.names(), d).to_set().union(changed(scan.names(), s, d).to_set()).union(
        kept(scan.names(), s, d).to_set(),
    ) =~= s.dom());
}

/// Comparing a level with a catalog that already mirrors it finds nothing
/// to do: a second pass over an unchanged level has no new, no updated and
/// no deleted name.
pub proof fn lemma_second_pass_is_empty(scan: &EntryMap, db: &EntryMap)
    requires
        scan.wf(),
        db.wf(),
        db@ == scan@,
    ensures
        added(scan.names(), db@).len() == 0,
        changed(scan.names(), scan@, db@).len() == 0,
        removed(db.names(), scan@).len() == 0,
        kept(scan.names(), scan@, db@) == scan.names(),
{
    lemma_compare_partitions(scan, db);
    let a = added(scan.names(), db@);
    let c = changed(scan.names(), scan@, db@);
    let r = removed(db.names(), scan@);
    if a.len() > 0 {
        assert(a.to_set().contains(a[0]));
    }
    if c.len() > 0 {
        assert(c.to_set().contains(c[0]));
    }
    if r.len() > 0 {
        assert(r.to_set().contains(r[0]));
    }
    lemma_keep_all(scan.names(), |n: Seq<char>| db@.contains_key(n) && scan@[n] == db@[n]);
}

/// A filter whose test every name meets keeps the names as they are.
proof fn lemma_keep_all(names: Seq<Seq<char>>, pred: spec_fn(Seq<char>) -> bool)
    requires
        forall|i: int| 0 <= i < names.len() ==> pred(#[trigger] names[i]),
    ensures
        names.filter(pred) == names,
    decreases names.len(),
{
    reveal(Seq::filter);
    if names.len() > 0 {
        lemma_keep_all(names.drop_last(), pred);
        assert(names.drop_last().push(names.last()) =~= names);
    }
}

/// The outcome of a comparison: the names to insert, to update and to delete.
pub struct CompareResult {
    pub new: Vec<String>,
    pub update: Vec<String>,
    pub del: Vec<String>,
}

/// Compares the scanned entries of one directory level with the catalogued
/// ones.
pub fn compare_entries(scan: &EntryMap, db: &EntryMap) -> (r: CompareResult)
    requires
        scan.wf(),
        db.wf(),
    ensures
        texts(r.new@) == added(scan.names(), db@),
        texts(r.update@) == changed(scan.names(), scan@, db@),
        texts(r.del@) == removed(db.names(), scan@),
{
    let mut new: Vec<String> = Vec::new();
    let mut update: Vec<String> = Vec::new();
    let mut del: Vec<String> = Vec::new();
    let ghost is_new = |n: Seq<char>| !db@.contains_key(n);
    let ghost is_changed = |n: Seq<char>| db@.contains_key(n) && scan@[n] != db@[n];
    let ghost is_gone = |n: Seq<char>| !scan@.contains_key(n);
    proof {
        scan.lemma_wf();
        db.lemma_wf();
        reveal(Seq::filter);
    }
    assert(texts(new@) =~= scan.names().take(0).filter(is_new));
    assert(texts(update@) =~= scan.names().take(0).filter(is_changed));
    let mut i: usize = 0;
    while i < scan.len()
        invariant
            i <= scan.names().len(),
            scan.wf(),
            is_new == |n: Seq<char>| !db@.contains_key(n),
            is_changed == |n: Seq<char>| db@.contains_key(n) && scan@[n] != db@[n],
            texts(new@) == scan.names().take(i as int).filter(is_new),
            texts(update@) == scan.names().take(i as int).filter(is_changed),
        decreases scan.names().len() - i,
    {
        let name = scan.name_at(i);
        proof {
            scan.lemma_wf();
            assert(scan.names().take(i + 1) =~= scan.names().take(i as int).push(name@));
            scan.names().take(i as int).lemma_filter_push(name@, is_new);
            scan.names().take(i as int).lemma_filter_push(name@, is_changed);
            assert(scan.names().contains(name@));
            assert(scan.names().to_set().contains(name@));
        }
        let ghost new_before = texts(new@);
        let ghost update_before = texts(update@);
        match db.get(name) {
            None => {
                new.push(String::from_str(name));
                assert(texts(new@) =~= new_before.push(name@));
            },
            Some(then) => {
                let now = scan.get(name);
                if now != Some(then) {
                    update.push(String::from_str(name));
                    assert(texts(update@) =~= update_before.push(name@));
                }
            },
        }
        i += 1;
    }
    assert(scan.names().take(i as int) =~= scan.names());
    assert(texts(del@) =~= db.names().take(0).filter(is_gone));
    let mut j: usize = 0;
    while j < db.len()
        invariant
            j <= db.names().len(),
            is_gone == |n: Seq<char>| !scan@.contains_key(n),
            texts(del@) == db.names().take(j as int).filter(is_gone),
        decreases db.names().len() - j,
    {
        let name = db.name_at(j);
        proof {
            assert(db.names().take(j + 1) =~= db.names().take(j as int).push(name@));
            db.names().take(j as int).lemma_filter_push(name@, is_gone);
        }
        let ghost del_before = texts(del@);
        if !scan.contains(name) {
            del.push(String::from_str(name));
            assert(texts(del@) =~= del_before.push(name@));
        }
        j += 1;
    }
    assert(db.names().take(j as int) =~= db.names());
    CompareResult { new, update, del }
}

} // verus!
