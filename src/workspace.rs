//! Locating a workspace root, and the state of a loaded workspace.

use vstd::prelude::*;

use crate::log::{fetch_log, LogConfig, Revision};
use crate::repo::RepoView;
use crate::status::WorkingCopyStatus;

verus! {

/// What `std::path::Path::parent` makes of a path.
pub uninterp spec fn parent_dir(p: Seq<char>) -> Option<Seq<char>>;

pub open spec fn opt_text(o: Option<String>) -> Option<Seq<char>> {
    match o {
        Some(s) => Some(s@),
        None => None,
    }
}

/// Relies on `std::path::Path::parent`: the parent depends on the path text
/// alone and is that text without its last component, so it is shorter.
#[verifier::external_body]
fn path_parent(p: &str) -> (r: Option<String>)
    ensures
        opt_text(r) == parent_dir(p@),
        r is Some ==> r.unwrap()@.len() < p@.len(),
{
    std::path::Path::new(p).parent().map(|q| q.to_string_lossy().into_owned())
}

/// The directories from `start` up to the top: `start`, its parent, its
/// parent's parent, and so on while there is one.
pub fn candidate_dirs(start: &str) -> (r: Vec<String>)
    ensures
        r@.len() >= 1,
        r@[0]@ == start@,
        forall|k: int| 0 <= k < r@.len() - 1 ==> parent_dir(#[trigger] r@[k]@) == Some(r@[k + 1]@),
        parent_dir(r@.last()@) is None,
{
    let mut r: Vec<String> = Vec::new();
    let mut cur = crate::text::owned(start);
    loop
        invariant
            r@.len() >= 1 ==> r@[0]@ == start@,
            r@.len() == 0 ==> cur@ == start@,
            forall|k: int| 0 <= k < r@.len() - 1 ==> parent_dir(#[trigger] r@[k]@) == Some(r@[k + 1]@),
            r@.len() >= 1 ==> parent_dir(r@.last()@) == Some(cur@),
        decreases cur@.len(),
    {
        let next = path_parent(cur.as_str());
        let ghost prev = r@;
        let ghost c = cur@;
        match next {
            Some(p) => {
                r.push(cur);
                proof {
                    assert forall|k: int| 0 <= k < r@.len() - 1 implies parent_dir(#[trigger] r@[k]@) == Some(r@[k + 1]@) by {
                        if k < prev.len() - 1 {
                            assert(r@[k] == prev[k]);
                            assert(r@[k + 1] == prev[k + 1]);
                        } else {
                            assert(r@[k + 1]@ == c);
                        }
                    }
                }
                cur = p;
            },
            None => {
                r.push(cur);
                proof {
                    assert forall|k: int| 0 <= k < r@.len() - 1 implies parent_dir(#[trigger] r@[k]@) == Some(r@[k + 1]@) by {
                        if k < prev.len() - 1 {
                            assert(r@[k] == prev[k]);
                            assert(r@[k + 1] == prev[k + 1]);
                        } else {
                            assert(r@[k + 1]@ == c);
                        }
                    }
                }
                return r;
            },
        }
    }
}

/// The first candidate directory that holds a workspace marker, if any.
pub fn find_jj_repo(candidates: &Vec<String>, has_jj_dir: &Vec<bool>) -> (r: Option<String>)
    requires
        has_jj_dir@.len() == candidates@.len(),
    ensures
        r is None <==> forall|k: int| 0 <= k < candidates@.len() ==> !#[trigger] has_jj_dir@[k],
        r is Some ==> exists|k: int|
            0 <= k < candidates@.len() && #[trigger] has_jj_dir@[k] && r.unwrap()@ == candidates@[k]@
                && forall|j: int| 0 <= j < k ==> !#[trigger] has_jj_dir@[j],
{
    let mut k: usize = 0;
    while k < candidates.len()
        invariant
            k <= candidates@.len() == has_jj_dir@.len(),
            forall|j: int| 0 <= j < k ==> !#[trigger] has_jj_dir@[j],
        decreases candidates@.len() - k,
    {
        if has_jj_dir[k] {
            return Some(crate::text::owned(candidates[k].as_str()));
        }
        k = k + 1;
    }
    None
}

/// A workspace as the application holds it.
#[derive(Clone, Debug)]
pub enum RepoState {
    NotFound { path: String },
    Loaded {
        workspace_root: String,
        revisions: Vec<Revision>,
        status: Option<WorkingCopyStatus>,
    },
    Error { message: String },
}

/// How many revisions a freshly loaded workspace shows.
pub const INITIAL_LOG_LIMIT: usize = 50;

/// The state of a workspace found at `root` (or not found from `start`),
/// with the default log of its view (every entry as `fetch_log` gives it)
/// and its working-copy status.
pub fn load_workspace(
    start: &str,
    root: Option<String>,
    view: &RepoView,
    config: &LogConfig,
    status: Option<WorkingCopyStatus>,
) -> (r: RepoState)
    requires
        view.wf(),
    ensures
        root is None ==> (r matches RepoState::NotFound { path } && path@ == start@),
        root is Some ==> (r matches RepoState::Loaded { workspace_root, revisions, status: s }
            && s == status && workspace_root@ == root.unwrap()@ && revisions@.len() == if INITIAL_LOG_LIMIT < crate::revset::ordered_members(crate::log::default_log_set(*view)).len() {
                INITIAL_LOG_LIMIT as int
            } else {
                crate::revset::ordered_members(crate::log::default_log_set(*view)).len() as int
            } && (forall|k: int|
                0 <= k < revisions@.len() ==> crate::log::entry_core_ok(
                    *view,
                    crate::log::default_log_set(*view),
                    k,
                    #[trigger] revisions@[k],
                    *config,
                )) && crate::log::flags_ok(
                *view,
                crate::log::default_log_set(*view),
                revisions@,
                crate::parse::alias_views(config.aliases@),
            )),
{
    match root {
        None => RepoState::NotFound { path: crate::text::owned(start) },
        Some(workspace_root) => {
            let revisions = match fetch_log(view, INITIAL_LOG_LIMIT, None, config) {
                Ok(rs) => rs,
                Err(_) => Vec::new(),
            };
            RepoState::Loaded { workspace_root, revisions, status }
        },
    }
}

} // verus!
