//! Workspace change tracking by fingerprint diff.
//!
//! A [`Snapshot`] maps each regular file under the workspace root to a
//! fingerprint of its content. Diffing the snapshot taken before a run
//! against the one taken after yields one [`FileChange`] per created,
//! deleted, or modified file; a file whose fingerprint is unchanged is
//! omitted. Unlike a modification-timestamp diff, this detects deletions
//! and byte-identical rewrite races, at the cost of a full-tree hash pass.

use vstd::prelude::*;
use crate::text::str_eq;

verus! {

/// One changed workspace file, with the fingerprints on either side of the
/// run.
#[derive(Debug, Clone, PartialEq, Eq)]
pub struct FileChange {
    /// Workspace-relative path of the file.
    pub path: String,
    /// Fingerprint of the content before the run; `None` when the file did
    /// not exist yet.
    pub prior: Option<String>,
    /// Fingerprint of the content after the run; `None` when the file no
    /// longer exists.
    pub updated: Option<String>,
}

/// The view of an optional fingerprint.
pub open spec fn opt_view(o: Option<String>) -> Option<Seq<char>> {
    match o {
        Option::Some(s) => Option::Some(s@),
        Option::None => Option::None,
    }
}

/// The fingerprint a snapshot assigns to a path, `None` when the path is
/// absent from it.
pub open spec fn fingerprint_at(m: Map<Seq<char>, Seq<char>>, path: Seq<char>) -> Option<Seq<char>> {
    if m.contains_key(path) {
        Option::Some(m[path])
    } else {
        Option::None
    }
}

/// A path counts as changed between two snapshots when its fingerprint
/// differs, the cases of creation and deletion included.
pub open spec fn is_changed(
    before: Map<Seq<char>, Seq<char>>,
    after: Map<Seq<char>, Seq<char>>,
    path: Seq<char>,
) -> bool {
    fingerprint_at(before, path) != fingerprint_at(after, path)
}

/// The map described by a path/fingerprint entry list; a later entry for the
/// same path overrides an earlier one.
pub open spec fn entries_map(entries: Seq<(String, String)>) -> Map<Seq<char>, Seq<char>>
    decreases entries.len(),
{
    if entries.len() == 0 {
        Map::empty()
    } else {
        entries_map(entries.drop_last()).insert(entries.last().0@, entries.last().1@)
    }
}

/// No two entries name the same path.
pub open spec fn entries_distinct(entries: Seq<(String, String)>) -> bool {
    forall|i: int, j: int|
        0 <= i < j < entries.len() ==> entries[i].0@ != entries[j].0@
}

/// A path is in the map exactly when some entry names it.
proof fn lemma_entries_map_dom(entries: Seq<(String, String)>, path: Seq<char>)
    ensures
        entries_map(entries).contains_key(path) <==> (exists|i: int|
            0 <= i < entries.len() && entries[i].0@ == path),
    decreases entries.len(),
{
    if entries.len() != 0 {
        lemma_entries_map_dom(entries.drop_last(), path);
        if entries.last().0@ != path {
            assert(forall|i: int|
                0 <= i < entries.len() - 1 ==> entries.drop_last()[i] == entries[i]);
            if exists|i: int| 0 <= i < entries.len() && entries[i].0@ == path {
                let i = choose|i: int| 0 <= i < entries.len() && entries[i].0@ == path;
                assert(i < entries.len() - 1);
                assert(entries.drop_last()[i].0@ == path);
            }
        }
    }
}

/// With distinct paths, each entry is in the map with its own fingerprint.
proof fn lemma_entries_map_at(entries: Seq<(String, String)>, i: int)
    requires
        entries_distinct(entries),
        0 <= i < entries.len(),
    ensures
        entries_map(entries).contains_key(entries[i].0@),
        entries_map(entries)[entries[i].0@] == entries[i].1@,
    decreases entries.len(),
{
    if i < entries.len() - 1 {
        let pre = entries.drop_last();
        assert(entries_distinct(pre));
        assert(pre[i] == entries[i]);
        lemma_entries_map_at(pre, i);
        assert(entries.last().0@ != entries[i].0@);
    }
}

/// A fingerprint snapshot of the workspace: each regular file's path paired
/// with a fingerprint of its content.
pub struct Snapshot {
    entries: Vec<(String, String)>,
}

impl View for Snapshot {
    type V = Map<Seq<char>, Seq<char>>;

    closed spec fn view(&self) -> Map<Seq<char>, Seq<char>> {
        entries_map(self.entries@)
    }
}

impl Snapshot {
    /// Internal well-formedness: no path is recorded twice. Established by
    /// [`Snapshot::new`] and preserved by [`Snapshot::record`].
    pub closed spec fn inv(&self) -> bool {
        entries_distinct(self.entries@)
    }

    /// An empty snapshot: no files recorded.
    pub fn new() -> (s: Snapshot)
        ensures
            s.inv(),
            s@ == Map::<Seq<char>, Seq<char>>::empty(),
    {
        Snapshot { entries: Vec::new() }
    }

    /// Record the fingerprint observed for one file, replacing any earlier
    /// record for the same path.
    pub fn record(&mut self, path: String, fingerprint: String)
        requires
            old(self).inv(),
        ensures
            final(self).inv(),
            final(self)@ == old(self)@.insert(path@, fingerprint@),
    {
        let ghost pre = self.entries@;
        let mut i: usize = 0;
        let n = self.entries.len();
        while i < n
            invariant
                i <= n,
                n == self.entries@.len(),
                self.entries@ == pre,
                pre == old(self).entries@,
                entries_distinct(pre),
                forall|k: int| 0 <= k < i ==> pre[k].0@ != path@,
            decreases n - i,
        {
            if str_eq(self.entries[i].0.as_str(), path.as_str()) {
                self.entries[i] = (path, fingerprint);
                proof {
                    lemma_entries_replace(pre, self.entries@, i as int);
                    assert(entries_distinct(self.entries@));
                }
                return;
            }
            i += 1;
        }
        self.entries.push((path, fingerprint));
        proof {
            assert(self.entries@.drop_last() =~= pre);
            assert(entries_distinct(self.entries@));
        }
    }

    /// The fingerprint recorded for `path`, `None` when the path was never
    /// recorded.
    pub fn lookup(&self, path: &str) -> (r: Option<String>)
        requires
            self.inv(),
        ensures
            opt_view(r) == fingerprint_at(self@, path@),
    {
        let n = self.entries.len();
        let mut i: usize = 0;
        while i < n
            invariant
                i <= n,
                n == self.entries@.len(),
                entries_distinct(self.entries@),
                forall|k: int| 0 <= k < i ==> self.entries@[k].0@ != path@,
            decreases n - i,
        {
            if str_eq(self.entries[i].0.as_str(), path) {
                proof {
                    lemma_entries_map_at(self.entries@, i as int);
                }
                return Some(self.entries[i].1.clone());
            }
            i += 1;
        }
        proof {
            lemma_entries_map_dom(self.entries@, path@);
        }
        None
    }
}

/// The entry describes a real change between the snapshots and carries the
/// two fingerprints the snapshots assign to its path.
pub open spec fn change_ok(
    before: Map<Seq<char>, Seq<char>>,
    after: Map<Seq<char>, Seq<char>>,
    c: FileChange,
) -> bool {
    &&& is_changed(before, after, c.path@)
    &&& opt_view(c.prior) == fingerprint_at(before, c.path@)
    &&& opt_view(c.updated) == fingerprint_at(after, c.path@)
}

/// Some entry of the change list names `path`.
pub open spec fn change_listed(changes: Seq<FileChange>, path: Seq<char>) -> bool {
    exists|k: int| 0 <= k < changes.len() && changes[k].path@ == path
}

/// The change list is a correct and complete fingerprint diff of the two
/// snapshots: every entry describes a real change with the right
/// fingerprints, no path appears twice, and every changed path appears.
pub open spec fn diff_correct(
    before: Map<Seq<char>, Seq<char>>,
    after: Map<Seq<char>, Seq<char>>,
    changes: Seq<FileChange>,
) -> bool {
    &&& forall|k: int| 0 <= k < changes.len() ==> #[trigger] change_ok(before, after, changes[k])
    &&& forall|i: int, j: int| 0 <= i < j < changes.len() ==> changes[i].path@ != changes[j].path@
    &&& forall|p: Seq<char>| #[trigger] is_changed(before, after, p) ==> change_listed(changes, p)
}

/// Diff two snapshots of the workspace.
///
/// For every path whose fingerprint differs between `before` and `after` —
/// created, deleted, or modified — the result holds exactly one entry
/// carrying the fingerprints from both sides; paths whose fingerprint is
/// unchanged are pruned.
pub fn diff(before: &Snapshot, after: &Snapshot) -> (changes: Vec<FileChange>)
    requires
        before.inv(),
        after.inv(),
    ensures
        diff_correct(before@, after@, changes@),
{
    let ghost bs = before.entries@;
    let ghost a_entries = after.entries@;
    let ghost bm = before@;
    let ghost am = after@;
    let mut changes: Vec<FileChange> = Vec::new();
    let nb = before.entries.len();
    let mut i: usize = 0;
    while i < nb
        invariant
            i <= nb,
            before.inv(),
            after.inv(),
            bs == before.entries@,
            a_entries == after.entries@,
            nb == bs.len(),
            bm == before@,
            am == after@,
            forall|k: int| 0 <= k < changes@.len() ==> #[trigger] change_ok(bm, am, changes@[k]),
            forall|k: int|
                0 <= k < changes@.len() ==> exists|j: int|
                    0 <= j < i && #[trigger] changes@[k].path@ == bs[j].0@,
            forall|k: int| 0 <= k < changes@.len() ==> bm.contains_key(#[trigger] changes@[k].path@),
            forall|k: int, l: int| 0 <= k < l < changes@.len() ==> changes@[k].path@ != changes@[l].path@,
            forall|j: int|
                0 <= j < i && is_changed(bm, am, #[trigger] bs[j].0@) ==> change_listed(
                    changes@,
                    bs[j].0@,
                ),
        decreases nb - i,
    {
        proof {
            lemma_entries_map_at(bs, i as int);
        }
        let ghost pre_changes = changes@;
        let path = &before.entries[i].0;
        let prior_fp = &before.entries[i].1;
        let mut push_entry: Option<FileChange> = None;
        match after.lookup(path.as_str()) {
            None => {
                push_entry = Some(
                    FileChange {
                        path: path.clone(),
                        prior: Some(prior_fp.clone()),
                        updated: None,
                    },
                );
            },
            Some(new_fp) => {
                if !str_eq(prior_fp.as_str(), new_fp.as_str()) {
                    push_entry = Some(
                        FileChange {
                            path: path.clone(),
                            prior: Some(prior_fp.clone()),
                            updated: Some(new_fp),
                        },
                    );
                } else {
                    proof {
                        assert(!is_changed(bm, am, bs[i as int].0@));
                    }
                }
            },
        }
        match push_entry {
            Some(entry) => {
                proof {
                    assert(change_ok(bm, am, entry));
                    assert forall|k: int| 0 <= k < pre_changes.len() implies pre_changes[k].path@
                        != entry.path@ by {
                        let j = choose|j: int|
                            0 <= j < i && #[trigger] pre_changes[k].path@ == bs[j].0@;
                        assert(bs[j].0@ != bs[i as int].0@);
                    }
                }
                changes.push(entry);
                proof {
                    assert(changes@[changes@.len() - 1].path@ == bs[i as int].0@);
                    assert forall|j: int|
                        0 <= j <= i && is_changed(bm, am, #[trigger] bs[j].0@) implies change_listed(
                        changes@,
                        bs[j].0@,
                    ) by {
                        if j < i {
                            let k = choose|k: int|
                                0 <= k < pre_changes.len() && pre_changes[k].path@ == bs[j].0@;
                            assert(changes@[k].path@ == bs[j].0@);
                        }
                    }
                }
            },
            None => {},
        }
        i += 1;
    }
    let ghost first_pass = changes@;
    proof {
        assert forall|p: Seq<char>|
            is_changed(bm, am, p) && bm.contains_key(p) implies change_listed(first_pass, p) by {
            lemma_entries_map_dom(bs, p);
            let j = choose|j: int| 0 <= j < bs.len() && bs[j].0@ == p;
            assert(is_changed(bm, am, bs[j].0@));
        }
    }
    let na = after.entries.len();
    let mut i: usize = 0;
    while i < na
        invariant
            i <= na,
            before.inv(),
            after.inv(),
            bs == before.entries@,
            a_entries == after.entries@,
            na == a_entries.len(),
            bm == before@,
            am == after@,
            first_pass.len() <= changes@.len(),
            forall|k: int| 0 <= k < first_pass.len() ==> changes@[k] == first_pass[k],
            forall|p: Seq<char>|
                is_changed(bm, am, p) && bm.contains_key(p) ==> #[trigger] change_listed(
                    first_pass,
                    p,
                ),
            forall|k: int| 0 <= k < changes@.len() ==> #[trigger] change_ok(bm, am, changes@[k]),
            forall|k: int|
                first_pass.len() <= k < changes@.len() ==> !bm.contains_key(
                    #[trigger] changes@[k].path@,
                ),
            forall|k: int| 0 <= k < first_pass.len() ==> bm.contains_key(#[trigger] changes@[k].path@),
            forall|k: int|
                first_pass.len() <= k < changes@.len() ==> exists|j: int|
                    0 <= j < i && #[trigger] changes@[k].path@ == a_entries[j].0@,
            forall|k: int, l: int| 0 <= k < l < changes@.len() ==> changes@[k].path@ != changes@[l].path@,
            forall|j: int|
                0 <= j < i && is_changed(bm, am, #[trigger] a_entries[j].0@) ==> change_listed(
                    changes@,
                    a_entries[j].0@,
                ),
        decreases na - i,
    {
        proof {
            lemma_entries_map_at(a_entries, i as int);
        }
        let ghost pre_changes = changes@;
        let path = &after.entries[i].0;
        let new_fp = &after.entries[i].1;
        match before.lookup(path.as_str()) {
            None => {
                let entry = FileChange {
                    path: path.clone(),
                    prior: None,
                    updated: Some(new_fp.clone()),
                };
                proof {
                    assert(change_ok(bm, am, entry));
                    assert forall|k: int| 0 <= k < pre_changes.len() implies pre_changes[k].path@
                        != entry.path@ by {
                        if k >= first_pass.len() {
                            let j = choose|j: int|
                                0 <= j < i && #[trigger] pre_changes[k].path@ == a_entries[j].0@;
                            assert(a_entries[j].0@ != a_entries[i as int].0@);
                        }
                    }
                }
                changes.push(entry);
                proof {
                    assert(changes@[changes@.len() - 1].path@ == a_entries[i as int].0@);
                    assert forall|j: int|
                        0 <= j <= i && is_changed(bm, am, #[trigger] a_entries[j].0@) implies
                        change_listed(changes@, a_entries[j].0@) by {
                        if j < i {
                            let k = choose|k: int|
                                0 <= k < pre_changes.len() && pre_changes[k].path@ == a_entries[
                                    j
                                ].0@;
                            assert(changes@[k].path@ == a_entries[j].0@);
                        }
                    }
                }
            },
            Some(_) => {
                proof {
                    if is_changed(bm, am, a_entries[i as int].0@) {
                        assert(change_listed(first_pass, a_entries[i as int].0@));
                        let k = choose|k: int|
                            0 <= k < first_pass.len() && first_pass[k].path@ == a_entries[
                                i as int
                            ].0@;
                        assert(changes@[k].path@ == a_entries[i as int].0@);
                    }
                }
            },
        }
        i += 1;
    }
    proof {
        assert forall|p: Seq<char>| #[trigger]
            is_changed(bm, am, p) implies change_listed(changes@, p) by {
            if bm.contains_key(p) {
                assert(change_listed(first_pass, p));
                let k = choose|k: int|
                    0 <= k < first_pass.len() && first_pass[k].path@ == p;
                assert(changes@[k].path@ == p);
            } else {
                assert(am.contains_key(p));
                lemma_entries_map_dom(a_entries, p);
                let j = choose|j: int| 0 <= j < a_entries.len() && a_entries[j].0@ == p;
                assert(is_changed(bm, am, a_entries[j].0@));
            }
        }
    }
    changes
}

/// A file created by the run — absent before, present after — is reported,
/// with no prior fingerprint and with the new content's fingerprint.
pub proof fn lemma_diff_reports_creation(
    before: Map<Seq<char>, Seq<char>>,
    after: Map<Seq<char>, Seq<char>>,
    changes: Seq<FileChange>,
    p: Seq<char>,
)
    requires
        diff_correct(before, after, changes),
        !before.contains_key(p),
        after.contains_key(p),
    ensures
        change_listed(changes, p),
        forall|k: int|
            0 <= k < changes.len() && #[trigger] changes[k].path@ == p ==> changes[k].prior is None
                && opt_view(changes[k].updated) == Some(after[p]),
{
    assert(is_changed(before, after, p));
    assert forall|k: int|
        0 <= k < changes.len() && #[trigger] changes[k].path@ == p implies changes[k].prior is None
        && opt_view(changes[k].updated) == Some(after[p]) by {
        assert(change_ok(before, after, changes[k]));
    }
}

/// A file deleted by the run — present before, absent after — is reported,
/// with its prior fingerprint and with no new one.
pub proof fn lemma_diff_reports_deletion(
    before: Map<Seq<char>, Seq<char>>,
    after: Map<Seq<char>, Seq<char>>,
    changes: Seq<FileChange>,
    p: Seq<char>,
)
    requires
        diff_correct(before, after, changes),
        before.contains_key(p),
        !after.contains_key(p),
    ensures
        change_listed(changes, p),
        forall|k: int|
            0 <= k < changes.len() && #[trigger] changes[k].path@ == p ==> changes[k].updated is None
                && opt_view(changes[k].prior) == Some(before[p]),
{
    assert(is_changed(before, after, p));
    assert forall|k: int|
        0 <= k < changes.len() && #[trigger] changes[k].path@ == p implies changes[k].updated is None
        && opt_view(changes[k].prior) == Some(before[p]) by {
        assert(change_ok(before, after, changes[k]));
    }
}

/// A file whose bytes the run changed is reported with both fingerprints,
/// and they differ; a file whose fingerprint is unchanged — the case of a
/// byte-identical rewrite included — is omitted from the list.
pub proof fn lemma_diff_reports_modification(
    before: Map<Seq<char>, Seq<char>>,
    after: Map<Seq<char>, Seq<char>>,
    changes: Seq<FileChange>,
    p: Seq<char>,
)
    requires
        diff_correct(before, after, changes),
        before.contains_key(p),
        after.contains_key(p),
    ensures
        before[p] != after[p] ==> change_listed(changes, p) && forall|k: int|
            0 <= k < changes.len() && #[trigger] changes[k].path@ == p ==> opt_view(
                changes[k].prior,
            ) == Some(before[p]) && opt_view(changes[k].updated) == Some(after[p]),
        before[p] == after[p] ==> !change_listed(changes, p),
{
    if before[p] != after[p] {
        assert(is_changed(before, after, p));
        assert forall|k: int|
            0 <= k < changes.len() && #[trigger] changes[k].path@ == p implies opt_view(
            changes[k].prior,
        ) == Some(before[p]) && opt_view(changes[k].updated) == Some(after[p]) by {
            assert(change_ok(before, after, changes[k]));
        }
    } else {
        if change_listed(changes, p) {
            let k = choose|k: int| 0 <= k < changes.len() && changes[k].path@ == p;
            assert(change_ok(before, after, changes[k]));
        }
    }
}

/// Replacing the fingerprint of the entry that names `path` updates the map
/// at `path` alone.
proof fn lemma_entries_replace(pre: Seq<(String, String)>, post: Seq<(String, String)>, i: int)
    requires
        entries_distinct(pre),
        0 <= i < pre.len(),
        post.len() == pre.len(),
        forall|k: int| 0 <= k < pre.len() && k != i ==> post[k] == pre[k],
        post[i].0@ == pre[i].0@,
    ensures
        entries_map(post) == entries_map(pre).insert(pre[i].0@, post[i].1@),
    decreases pre.len(),
{
    if i == pre.len() - 1 {
        assert(post.drop_last() =~= pre.drop_last());
        assert(entries_map(pre).insert(pre[i].0@, post[i].1@)
            =~= entries_map(pre.drop_last()).insert(post[i].0@, post[i].1@));
    } else {
        assert(entries_distinct(pre.drop_last()));
        assert(forall|k: int|
            0 <= k < pre.len() - 1 && k != i ==> post.drop_last()[k] == pre.drop_last()[k]);
        assert(post.drop_last()[i] == post[i]);
        assert(pre.drop_last()[i] == pre[i]);
        lemma_entries_replace(pre.drop_last(), post.drop_last(), i);
        assert(post.last() == pre.last());
        assert(pre.last().0@ != pre[i].0@);
        assert(entries_map(pre.drop_last()).insert(pre[i].0@, post[i].1@).insert(
            pre.last().0@,
            pre.last().1@,
        ) =~= entries_map(pre.drop_last()).insert(pre.last().0@, pre.last().1@).insert(
            pre[i].0@,
            post[i].1@,
        ));
    }
}

} // verus!
