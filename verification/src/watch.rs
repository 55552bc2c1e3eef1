//! The per-path watch registry.
//!
//! The registry decides; the surrounding process owns the native OS watcher
//! handles and creates or disposes one exactly when told to. Keying decisions
//! by normalized path keeps at most one live watcher per path per process:
//! registering a path already being watched is a no-op, not an error, so
//! duplicate native handles (costly, and rate-limited on some platforms) can
//! never arise.
//!
//! Of the native notifications, only a content modification is forwarded to
//! the subscriber as a file-changed event; metadata-only changes, renames,
//! creations and deletions are not this component's to report.

use crate::manager::remove_entry;
use crate::records::{contains_string, distinct_entries};
use vstd::prelude::*;

verus! {

/// What a native filesystem notification reported, reduced to the categories
/// the registry tells apart.
#[derive(Clone, Copy, Debug, PartialEq, Eq, Structural)]
pub enum FileEventKind {
    /// A file came into being.
    Created,
    /// A file's content changed.
    ContentModified,
    /// Only a file's metadata changed.
    MetadataChanged,
    /// A file was renamed.
    Renamed,
    /// A file was removed.
    Removed,
    /// Anything else the native layer reports.
    Other,
}

/// The set of paths under watch. Invariant: no path occurs twice, so at most
/// one native watcher exists per path.
pub struct WatchRegistry {
    watched: Vec<String>,
}

impl View for WatchRegistry {
    type V = Seq<Seq<char>>;

    closed spec fn view(&self) -> Seq<Seq<char>> {
        self.watched.deep_view()
    }
}

impl WatchRegistry {
    /// No path occurs twice.
    pub open spec fn wf(self) -> bool {
        distinct_entries(self@)
    }

    /// A registry with nothing under watch.
    pub fn new() -> (r: Self)
        ensures
            r@ == Seq::<Seq<char>>::empty(),
            r.wf(),
    {
        let r = WatchRegistry { watched: Vec::new() };
        proof {
            assert(r@ =~= Seq::<Seq<char>>::empty());
        }
        r
    }

    /// How many paths are under watch.
    pub fn watched_count(&self) -> (r: usize)
        ensures
            r == self@.len(),
    {
        self.watched.len()
    }

    /// Whether `path` is under watch.
    pub fn is_watched(&self, path: &String) -> (r: bool)
        ensures
            r == self@.contains(path@),
    {
        contains_string(&self.watched, path)
    }

    /// Register `path`. Returns whether a native watcher must now be created:
    /// `false` means the path was already watched and nothing changed — the
    /// registration is idempotent, not an error.
    pub fn watch(&mut self, path: String) -> (started: bool)
        requires
            old(self).wf(),
        ensures
            final(self).wf(),
            started == !old(self)@.contains(path@),
            final(self)@.contains(path@),
            started ==> final(self)@ == old(self)@.push(path@),
            !started ==> final(self)@ == old(self)@,
    {
        if contains_string(&self.watched, &path) {
            false
        } else {
            let ghost prev = self@;
            self.watched.push(path);
            proof {
                assert(self@ =~= prev.push(path@));
                crate::codec::lemma_distinct_push(prev, path@);
                assert(self@[self@.len() - 1] == path@);
            }
            true
        }
    }

    /// Drop `path` from the registry. Returns whether a native watcher must
    /// now be disposed; an absent path is no error.
    pub fn unwatch(&mut self, path: &String) -> (removed: bool)
        requires
            old(self).wf(),
        ensures
            final(self).wf(),
            removed == old(self)@.contains(path@),
            final(self)@ == remove_entry(old(self)@, path@),
            !final(self)@.contains(path@),
    {
        let present = contains_string(&self.watched, path);
        let kept = crate::manager::filtered_without(&self.watched, path);
        proof {
            crate::manager::lemma_remove_entry_props(old(self)@, path@);
        }
        self.watched = kept;
        present
    }

    /// Whether a native notification for `path` must be forwarded to the
    /// subscriber as a file-changed event: only content modifications of a
    /// watched path are.
    pub fn should_dispatch(&self, path: &String, kind: &FileEventKind) -> (r: bool)
        ensures
            r == (self@.contains(path@) && *kind is ContentModified),
    {
        match kind {
            FileEventKind::ContentModified => contains_string(&self.watched, path),
            _ => false,
        }
    }
}

} // verus!
