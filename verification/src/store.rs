//! The semantics of the workspace store: what a write leaves behind and
//! what a read returns.
//!
//! [`Workspace`] is the store's content model, a map from workspace-relative
//! paths to file bytes. A write replaces the prior content of the path in
//! full, and a read returns the current bytes of the path or reports that no
//! such file exists. The surrounding layer keeps the real tree on disk and
//! performs the directory creation and byte streaming; this model is what
//! those operations leave the store saying.
//!
//! The store is shared, unsynchronized mutable state: concurrent runs and
//! writes touching overlapping paths may interleave arbitrarily. Each
//! operation here describes one atomic step of that history.

use vstd::prelude::*;
use crate::text::str_eq;

verus! {

/// The content map described by a write log; a later write to a path
/// overrides an earlier one.
pub open spec fn stored_files(entries: Seq<(String, Vec<u8>)>) -> Map<Seq<char>, Seq<u8>>
    decreases entries.len(),
{
    if entries.len() == 0 {
        Map::empty()
    } else {
        stored_files(entries.drop_last()).insert(entries.last().0@, entries.last().1@)
    }
}

/// What a read of `path` finds: the stored bytes, or `None` when no file
/// exists at the path.
pub open spec fn stored_at(files: Map<Seq<char>, Seq<u8>>, path: Seq<char>) -> Option<Seq<u8>> {
    if files.contains_key(path) {
        Option::Some(files[path])
    } else {
        Option::None
    }
}

/// The view of downloaded bytes.
pub open spec fn content_view(r: Option<Vec<u8>>) -> Option<Seq<u8>> {
    match r {
        Option::Some(v) => Option::Some(v@),
        Option::None => Option::None,
    }
}

/// The workspace store's content: which bytes each path holds.
pub struct Workspace {
    entries: Vec<(String, Vec<u8>)>,
}

impl View for Workspace {
    type V = Map<Seq<char>, Seq<u8>>;

    closed spec fn view(&self) -> Map<Seq<char>, Seq<u8>> {
        stored_files(self.entries@)
    }
}

impl Workspace {
    /// A store holding no files.
    pub fn new() -> (w: Workspace)
        ensures
            w@ == Map::<Seq<char>, Seq<u8>>::empty(),
    {
        Workspace { entries: Vec::new() }
    }

    /// Write `content` to `path` with truncate-and-replace semantics: any
    /// prior content of the path is discarded in full.
    pub fn upload(&mut self, path: String, content: Vec<u8>)
        ensures
            final(self)@ == old(self)@.insert(path@, content@),
    {
        let ghost pre = self.entries@;
        self.entries.push((path, content));
        proof {
            assert(self.entries@.drop_last() =~= pre);
        }
    }

    /// Read the current bytes of `path`; `None` exactly when no file exists
    /// at the path.
    pub fn download(&self, path: &str) -> (r: Option<Vec<u8>>)
        ensures
            content_view(r) == stored_at(self@, path@),
            r is Some <==> self@.contains_key(path@),
    {
        let mut i = self.entries.len();
        proof {
            assert(self.entries@.subrange(0, self.entries@.len() as int) =~= self.entries@);
        }
        while i > 0
            invariant
                i <= self.entries@.len(),
                stored_at(self@, path@) == stored_at(
                    stored_files(self.entries@.subrange(0, i as int)),
                    path@,
                ),
            decreases i,
        {
            let ghost prefix = self.entries@.subrange(0, i as int);
            proof {
                assert(prefix.drop_last() =~= self.entries@.subrange(0, i - 1));
            }
            if str_eq(self.entries[i - 1].0.as_str(), path) {
                return Some(vstd::slice::slice_to_vec(self.entries[i - 1].1.as_slice()));
            }
            i -= 1;
        }
        proof {
            assert(self.entries@.subrange(0, 0) =~= Seq::<(String, Vec<u8>)>::empty());
        }
        None
    }
}

/// Round trip: after bytes are uploaded to a path, a download of that path
/// finds exactly those bytes, byte for byte.
pub proof fn lemma_upload_download_roundtrip(
    files: Map<Seq<char>, Seq<u8>>,
    path: Seq<char>,
    content: Seq<u8>,
)
    ensures
        stored_at(files.insert(path, content), path) == Option::Some(content),
{
}

} // verus!
