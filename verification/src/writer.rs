//! What the writer asks of the two stores for a request that has come back
//! from generation, and how it groups its statements into transactions.
use vstd::prelude::*;
use vstd::arithmetic::div_mod::{lemma_fundamental_div_mod, lemma_fundamental_div_mod_converse};
use crate::catalog::{views, Statement, StatementView, ThumbOp, ThumbOpView};
use crate::indexer::{IndexRequest, MediaThumb, MediaThumbView};
use crate::models::tables::Image;
use crate::scanner::{ScanError, Stats};

verus! {

/// Seconds that the writer waits before it tries a request again.
pub const RETRY_DELAY_SECS: u64 = 10;

/// The thumbnails that `entries` bring, each under the path of its image;
/// an entry without thumbnail brings none.
pub open spec fn thumb_puts(entries: Seq<MediaThumbView>) -> Seq<ThumbOpView>
    decreases entries.len(),
{
    if entries.len() == 0 {
        Seq::empty()
    } else {
        let before = thumb_puts(entries.drop_last());
        match entries.last().thumb {
            Some(bytes) => before.push(
                ThumbOpView::Put { key: entries.last().media.path, value: bytes },
            ),
            None => before,
        }
    }
}

/// The statements that add the rows of `entries`.
pub open spec fn image_inserts(entries: Seq<MediaThumbView>) -> Seq<StatementView> {
    Seq::new(entries.len(), |i: int| StatementView::InsertImage { image: entries[i].media })
}

/// The statements that bring the rows of `entries` up to date: the
/// modification time and the timestamp of each.
pub open spec fn image_updates(entries: Seq<MediaThumbView>) -> Seq<StatementView> {
    Seq::new(
        entries.len(),
        |i: int|
            StatementView::UpdateImage {
                path: entries[i].media.path,
                mtime: entries[i].media.mtime,
                timestamp: entries[i].media.timestamp,
            },
    )
}

fn push_thumb_puts(out: &mut Vec<ThumbOp>, entries: &Vec<MediaThumb>)
    ensures
        views(final(out)@) == views(old(out)@) + thumb_puts(views(entries@)),
{
    let ghost before = views(out@);
    let mut i: usize = 0;
    assert(views(out@) =~= before + thumb_puts(views(entries@).take(0)));
    while i < entries.len()
        invariant
            i <= entries.len(),
            views(out@) == before + thumb_puts(views(entries@).take(i as int)),
        decreases entries.len() - i,
    {
        let ghost so_far = views(out@);
        assert(views(entries@).take(i + 1).drop_last() =~= views(entries@).take(i as int));
        match &entries[i].thumb {
            Some(bytes) => {
                out.push(ThumbOp::Put { key: entries[i].media.path.clone(), value: bytes.clone() });
                assert(views(out@) =~= so_far.push(out@[out@.len() - 1]@));
                assert(views(out@) =~= before + thumb_puts(views(entries@).take(i + 1)));
            },
            None => {},
        }
        i += 1;
    }
    assert(views(entries@).take(i as int) =~= views(entries@));
}

/// The changes of the thumbnail store that `request` asks for, to run in one
/// transaction: the thumbnails of the new entries, then those of the
/// updated ones.
pub fn thumb_writes(request: &IndexRequest) -> (r: Vec<ThumbOp>)
    ensures
        views(r@) == thumb_puts(views(request.new@)) + thumb_puts(views(request.update@)),
{
    let mut out: Vec<ThumbOp> = Vec::new();
    assert(views(out@) =~= Seq::<ThumbOpView>::empty());
    push_thumb_puts(&mut out, &request.new);
    push_thumb_puts(&mut out, &request.update);
    assert(views(out@) =~= thumb_puts(views(request.new@)) + thumb_puts(views(request.update@)));
    out
}

/// The statements on the metadata store that `request` asks for, to run in
/// order: an insert for every new entry, then an update for every updated
/// one.
pub fn image_statements(request: &IndexRequest) -> (r: Vec<Statement>)
    ensures
        views(r@) == image_inserts(views(request.new@)) + image_updates(views(request.update@)),
{
    let mut out: Vec<Statement> = Vec::new();
    let mut i: usize = 0;
    assert(views(out@) =~= image_inserts(views(request.new@).take(0)));
    while i < request.new.len()
        invariant
            i <= request.new.len(),
            views(out@) == image_inserts(views(request.new@).take(i as int)),
        decreases request.new.len() - i,
    {
        let m = &request.new[i].media;
        let ghost so_far = views(out@);
        out.push(
            Statement::InsertImage {
                image: Image {
                    path: m.path.clone(),
                    name: m.name.clone(),
                    dir: m.dir.clone(),
                    mtime: m.mtime,
                    timestamp: m.timestamp,
                },
            },
        );
        assert(views(out@) =~= so_far.push(out@[out@.len() - 1]@));
        assert(views(out@) =~= image_inserts(views(request.new@).take(i + 1)));
        i += 1;
    }
    assert(views(request.new@).take(i as int) =~= views(request.new@));
    let ghost inserts = views(out@);
    let mut j: usize = 0;
    assert(views(out@) =~= inserts + image_updates(views(request.update@).take(0)));
    while j < request.update.len()
        invariant
            j <= request.update.len(),
            views(out@) == inserts + image_updates(views(request.update@).take(j as int)),
        decreases request.update.len() - j,
    {
        let m = &request.update[j].media;
        let ghost so_far = views(out@);
        out.push(
            Statement::UpdateImage { path: m.path.clone(), mtime: m.mtime, timestamp: m.timestamp },
        );
        assert(views(out@) =~= so_far.push(out@[out@.len() - 1]@));
        assert(views(out@) =~= inserts + image_updates(views(request.update@).take(j + 1)));
        j += 1;
    }
    assert(views(request.update@).take(j as int) =~= views(request.update@));
    out
}

/// Counts the entries of a request that has been written as files that are
/// done.
pub fn count_written(stats: &mut Stats, request: &IndexRequest)
    requires
        old(stats).scan_files_count + request.new.len() + request.update.len() <= usize::MAX,
    ensures
        *final(stats) == (Stats {
            scan_files_count: (old(stats).scan_files_count + request.new.len()
                + request.update.len()) as usize,
            ..*old(stats)
        }),
{
    stats.add_files_done(request.new.len());
    stats.add_files_done(request.update.len());
}

/// The count of a batch after one more statement: back to 0 when `max` is
/// reached.
pub open spec fn count_after(max: usize, count: usize) -> usize {
    if count + 1 >= max {
        0
    } else {
        (count + 1) as usize
    }
}

/// A run of statements that is committed, and begun anew, whenever `max`
/// statements have come together.
#[derive(Debug)]
pub struct Batch {
    max: usize,
    count: usize,
}

impl Batch {
    /// The number of statements after which the batch commits.
    pub closed spec fn max(&self) -> usize {
        self.max
    }

    /// The number of statements since the batch last began.
    pub closed spec fn count(&self) -> usize {
        self.count
    }

    /// The count has not reached `max`.
    pub closed spec fn wf(&self) -> bool {
        self.count == 0 || self.count < self.max
    }

    /// A batch that has just begun.
    pub fn new(max: usize) -> (r: Self)
        ensures
            r.wf(),
            r.max() == max,
            r.count() == 0,
    {
        Batch { max, count: 0 }
    }

    /// Counts one more statement. Where this tells `true`, the transaction
    /// is to be committed and a new one begun before the statement runs.
    pub fn inc_maybe_commit_begin(&mut self) -> (commit: bool)
        requires
            old(self).wf(),
        ensures
            final(self).wf(),
            final(self).max() == old(self).max(),
            commit == (old(self).count() + 1 >= old(self).max()),
            final(self).count() == count_after(old(self).max(), old(self).count()),
    {
        self.count = self.count + 1;
        if self.count >= self.max {
            self.count = 0;
            true
        } else {
            false
        }
    }

    /// Ends the batch: the open transaction is to be committed. Tells how
    /// many statements it holds.
    pub fn commit(self) -> (pending: usize)
        ensures
            pending == self.count(),
    {
        self.count
    }
}

/// The count of a batch that began and has since counted `n` statements.
pub open spec fn count_of_run(max: usize, n: nat) -> usize
    decreases n,
{
    if n == 0 {
        0
    } else {
        count_after(max, count_of_run(max, (n - 1) as nat))
    }
}

/// A batch commits with every statement whose number is a multiple of its
/// limit, and with no other: after `n` statements its count is the rest of
/// `n` by the limit, and statement number `n` brought a commit exactly
/// where that rest is 0.
pub proof fn lemma_batch_commits_every_max(max: usize, n: nat)
    requires
        max > 0,
    ensures
        count_of_run(max, n) == n % (max as nat),
        n > 0 ==> (count_of_run(max, (n - 1) as nat) + 1 >= max <==> n % (max as nat) == 0),
    decreases n,
{
    let m = max as int;
    if n == 0 {
        lemma_fundamental_div_mod_converse(0, m, 0, 0);
    } else {
        lemma_batch_commits_every_max(max, (n - 1) as nat);
        let before = (n - 1) as int;
        let q = before / m;
        let r = before % m;
        lemma_fundamental_div_mod(before, m);
        assert(before == m * q + r);
        assert(m * q == q * m) by (nonlinear_arith);
        assert(count_of_run(max, (n - 1) as nat) == r);
        assert(0 <= r < m);
        if r + 1 >= m {
            assert((q + 1) * m == q * m + m) by (nonlinear_arith);
            lemma_fundamental_div_mod_converse(n as int, m, q + 1, 0);
            assert(count_of_run(max, n) == 0);
        } else {
            lemma_fundamental_div_mod_converse(n as int, m, q, r + 1);
            assert(count_of_run(max, n) == r + 1);
        }
    }
}

/// Decides what follows an attempt to write a request: after a failure the
/// whole request is tried again once the delay has passed; after a success
/// the writer turns to the next request.
pub fn retry_delay(outcome: &Result<(), ScanError>) -> (r: Option<u64>)
    ensures
        r == (if outcome is Err {
            Some(RETRY_DELAY_SECS)
        } else {
            None::<u64>
        }),
{
    match outcome {
        Ok(_) => None,
        Err(_) => Some(RETRY_DELAY_SECS),
    }
}

} // verus!
