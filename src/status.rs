//! The working copy's status: which files its commit adds, modifies or
//! deletes relative to its first parent.

use vstd::prelude::*;

verus! {

#[derive(Clone, Copy, Debug, PartialEq, Eq, Structural)]
pub enum FileStatus {
    Added,
    Modified,
    Deleted,
}

/// What a path holds on one side of a tree comparison.
#[derive(Clone, Copy, Debug, PartialEq, Eq, Structural)]
pub enum EntryKind {
    File,
    /// A symlink, submodule, conflict or anything else that is not a file.
    Other,
}

#[derive(Clone, Debug)]
pub struct ChangedFile {
    pub path: String,
    pub status: FileStatus,
}

#[derive(Clone, Debug)]
pub struct WorkingCopyStatus {
    pub change_id: String,
    pub commit_id: String,
    pub description: String,
    pub files: Vec<ChangedFile>,
}

/// How a path changed, from what it held before and after; `None` where
/// the change is not listed (a file turned into something else, or the
/// other way round, or nothing on either side).
pub open spec fn status_of(before: Option<EntryKind>, after: Option<EntryKind>) -> Option<FileStatus> {
    match (before, after) {
        (Some(EntryKind::File), Some(EntryKind::File)) => Some(FileStatus::Modified),
        (None, Some(_)) => Some(FileStatus::Added),
        (Some(_), None) => Some(FileStatus::Deleted),
        _ => None,
    }
}

/// How a path changed, from what it held before and after.
pub fn classify_change(before: Option<EntryKind>, after: Option<EntryKind>) -> (r: Option<FileStatus>)
    ensures
        r == status_of(before, after),
{
    match (before, after) {
        (Some(EntryKind::File), Some(EntryKind::File)) => Some(FileStatus::Modified),
        (None, Some(_)) => Some(FileStatus::Added),
        (Some(_), None) => Some(FileStatus::Deleted),
        _ => None,
    }
}

/// One path of a tree comparison.
#[derive(Clone, Debug)]
pub struct TreeChange {
    pub path: String,
    pub before: Option<EntryKind>,
    pub after: Option<EntryKind>,
}

/// The listed changes among a tree comparison's paths, in order.
pub open spec fn listed_changes(cs: Seq<TreeChange>) -> Seq<(Seq<char>, FileStatus)>
    decreases cs.len(),
{
    if cs.len() == 0 {
        Seq::empty()
    } else {
        let r = listed_changes(cs.drop_last());
        match status_of(cs.last().before, cs.last().after) {
            Some(s) => r.push((cs.last().path@, s)),
            None => r,
        }
    }
}

pub open spec fn changed_view(fs: Seq<ChangedFile>) -> Seq<(Seq<char>, FileStatus)> {
    fs.map_values(|f: ChangedFile| (f.path@, f.status))
}

/// The status of a working-copy commit, from its display ids, description
/// and the comparison of its parent's tree with its own.
pub fn working_copy_status(
    change_id: String,
    commit_id: String,
    description: &str,
    changes: &Vec<TreeChange>,
) -> (r: WorkingCopyStatus)
    ensures
        r.change_id@ == change_id@,
        r.commit_id@ == commit_id@,
        r.description@ == crate::annotate::summary_line(description@),
        changed_view(r.files@) == listed_changes(changes@),
{
    let mut files: Vec<ChangedFile> = Vec::new();
    let mut k: usize = 0;
    while k < changes.len()
        invariant
            k <= changes@.len(),
            changed_view(files@) == listed_changes(changes@.take(k as int)),
        decreases changes@.len() - k,
    {
        proof {
            assert(changes@.take(k + 1).drop_last() =~= changes@.take(k as int));
        }
        let c = &changes[k];
        match classify_change(c.before, c.after) {
            Some(s) => {
                let path = crate::text::owned(c.path.as_str());
                let ghost before = files@;
                files.push(ChangedFile { path, status: s });
                proof {
                    assert(changed_view(files@) =~= changed_view(before).push((path@, s)));
                }
            },
            None => {},
        }
        k = k + 1;
    }
    proof {
        assert(changes@.take(k as int) =~= changes@);
    }
    WorkingCopyStatus {
        change_id,
        commit_id,
        description: crate::annotate::first_line(description),
        files,
    }
}

} // verus!
