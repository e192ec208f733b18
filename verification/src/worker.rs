//! What a thumbnail worker decides while it goes through a request: which
//! entry comes next, where its file lies, and what is noted of it.
use vstd::prelude::*;
use crate::exif::Exif;
use crate::indexer::{IndexRequest, MediaThumb, MediaThumbView};
use crate::models::tables::ImageRow;
use crate::paths::{fullpath, rooted};

verus! {

/// The timestamp of a file: its capture time where the metadata gives one,
/// its modification time otherwise.
pub open spec fn capture_time(exif: Option<Exif>, mtime: i64) -> i64 {
    match exif {
        Some(e) => match e.date_time_original {
            Some(t) => t,
            None => mtime,
        },
        None => mtime,
    }
}

/// The timestamp of a file with the metadata `exif` and the modification
/// time `mtime`.
pub fn timestamp_for(exif: &Option<Exif>, mtime: i64) -> (r: i64)
    ensures
        r == capture_time(*exif, mtime),
{
    match exif {
        Some(e) => match e.date_time_original {
            Some(t) => t,
            None => mtime,
        },
        None => mtime,
    }
}

/// An entry after generation: the timestamp is settled, and the thumbnail
/// is there unless generation failed.
pub open spec fn completed(e: MediaThumbView, exif: Option<Exif>, thumb: Option<Seq<u8>>) -> MediaThumbView {
    MediaThumbView {
        media: ImageRow { timestamp: capture_time(exif, e.media.mtime), ..e.media },
        thumb,
    }
}

impl MediaThumb {
    /// Notes the outcome of generation: the metadata that was read, if any,
    /// and the thumbnail, if one was made.
    pub fn complete(&mut self, exif: &Option<Exif>, thumb: Option<Vec<u8>>)
        ensures
            final(self)@ == completed(
                old(self)@,
                *exif,
                match thumb {
                    Some(t) => Some(t@),
                    None => None,
                },
            ),
    {
        self.media.timestamp = timestamp_for(exif, self.media.mtime);
        self.thumb = thumb;
    }
}

impl IndexRequest {
    /// The entries in the order in which they are worked on: the new ones,
    /// then the updated ones.
    pub open spec fn entries(&self) -> Seq<MediaThumb> {
        self.new@ + self.update@
    }

    /// Whether the request has an entry number `i`.
    pub fn has_entry(&self, i: usize) -> (r: bool)
        ensures
            r == (i < self.entries().len()),
    {
        i < self.new.len() || i - self.new.len() < self.update.len()
    }

    /// The entry number `i`.
    pub fn entry(&self, i: usize) -> (r: &MediaThumb)
        requires
            i < self.entries().len(),
        ensures
            *r == self.entries()[i as int],
    {
        if i < self.new.len() {
            &self.new[i]
        } else {
            &self.update[i - self.new.len()]
        }
    }

    /// Notes the outcome of generation for the entry number `i`.
    pub fn complete_entry(&mut self, i: usize, exif: &Option<Exif>, thumb: Option<Vec<u8>>)
        requires
            i < old(self).entries().len(),
        ensures
            final(self).entries().len() == old(self).entries().len(),
            final(self).new.len() == old(self).new.len(),
            final(self).entries()[i as int]@ == completed(
                old(self).entries()[i as int]@,
                *exif,
                match thumb {
                    Some(t) => Some(t@),
                    None => None,
                },
            ),
            forall|k: int|
                0 <= k < old(self).entries().len() && k != i ==> final(self).entries()[k] == old(self).entries()[k],
    {
        if i < self.new.len() {
            self.new[i].complete(exif, thumb);
        } else {
            let j = i - self.new.len();
            self.update[j].complete(exif, thumb);
        }
    }
}

/// The file to generate next: that of the entry number `done`, unless the
/// request has no such entry or work was told to stop.
pub open spec fn next_file(
    root: Seq<char>,
    entries: Seq<MediaThumb>,
    done: int,
    stop: bool,
) -> Option<Seq<char>> {
    if !stop && 0 <= done < entries.len() {
        Some(rooted(root, entries[done].media.path@))
    } else {
        None
    }
}

/// Decides what a worker does next with `request`, of which it has worked
/// on the first `done` entries. It is the file of the next entry, below
/// `root`; or nothing, when all entries are done or `stop` is raised, and
/// the request is to be passed on as it is.
pub fn next_job(root: &str, request: &IndexRequest, done: usize, stop: bool) -> (r: Option<String>)
    ensures
        match r {
            Some(path) => next_file(root@, request.entries(), done as int, stop) == Some(path@),
            None => next_file(root@, request.entries(), done as int, stop) is None,
        },
{
    if stop || !request.has_entry(done) {
        None
    } else {
        Some(fullpath(root, request.entry(done).media.path.as_str()))
    }
}

/// Whether a worker goes on after it tried to pass a request on: it ends
/// when the queue of results was closed.
pub fn continue_after_forward(accepted: bool) -> (r: bool)
    ensures
        r == accepted,
{
    accepted
}

} // verus!
