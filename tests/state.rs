use tatami::diff_view::{DiffView, TextPosition};
use tatami::layout::{forget_project, merge_layout, AppLayout};
use tatami::mutation::CheckoutPlan;
use tatami::repo::{Commit, EngineError, NamedRef, RepoView, Signature};
use tatami::status::{classify_change, working_copy_status, EntryKind, FileStatus, TreeChange};
use tatami::workspace::{candidate_dirs, find_jj_repo};

fn sig() -> Signature {
    Signature { name: "Bo".to_string(), email: "bo@example.com".to_string(), timestamp_ms: 0 }
}

fn commit(id: u8, parents: Vec<usize>) -> Commit {
    Commit {
        commit_id: vec![id; 8],
        change_id: vec![id; 8],
        parents,
        tree_id: vec![id],
        description: String::new(),
        author: sig(),
        committer: sig(),
        hidden: false,
    }
}

/// root <- p <- c, working copy on c; bookmark `top` on c.
fn view() -> RepoView {
    RepoView {
        commits: vec![commit(0x00, vec![]), commit(0x11, vec![0]), commit(0x22, vec![1])],
        wc: 2,
        bookmarks: vec![NamedRef { name: "top".to_string(), target: 2 }],
        tags: vec![],
        remote_bookmarks: vec![],
    }
}

fn same(a: &RepoView, b: &RepoView) -> bool {
    format!("{:?}", a) == format!("{:?}", b)
}

#[test]
fn new_revision_sits_on_its_parent() {
    let mut v = view();
    let plan: CheckoutPlan = v
        .new_revision(&vec!["yy".to_string()], vec![0x33; 8], vec![0x33; 8], sig())
        .unwrap();
    assert_eq!(v.commits.len(), 4);
    let c = &v.commits[3];
    assert_eq!(c.parents, vec![1]);
    assert_eq!(c.tree_id, v.commits[1].tree_id);
    assert_eq!(v.wc, 3);
    assert_eq!(plan.to_commit, 3);
    assert_eq!(plan.from_tree, vec![0x22]);
}

#[test]
fn new_revision_with_two_parents_takes_first_tree() {
    let mut v = view();
    v.new_revision(&vec!["top".to_string(), "yy".to_string()], vec![0x44; 8], vec![0x44; 8], sig())
        .unwrap();
    assert_eq!(v.commits[3].parents, vec![2, 1]);
    assert_eq!(v.commits[3].tree_id, vec![0x22]);
}

#[test]
fn new_revision_needs_resolvable_parents() {
    let mut v = view();
    let before = view();
    assert_eq!(
        v.new_revision(&vec!["top".to_string(), "nope".to_string()], vec![1], vec![1], sig()).err(),
        Some(EngineError::Resolution)
    );
    assert_eq!(
        v.new_revision(&vec!["kkkk".to_string()], vec![1], vec![1], sig()).err(),
        Some(EngineError::NotFound)
    );
    assert!(same(&v, &before));
    assert_eq!(v.new_revision(&vec![], vec![1], vec![1], sig()).err(), Some(EngineError::NotFound));
    assert!(same(&v, &before));
}

#[test]
fn edit_moves_the_working_copy() {
    let mut v = view();
    let plan = v.edit_revision("yy").unwrap();
    assert_eq!(v.wc, 1);
    assert_eq!(plan.to_commit, 1);
    assert_eq!(plan.from_tree, vec![0x22]);
}

#[test]
fn edit_and_abandon_of_unknown_reference_change_nothing() {
    let mut v = view();
    let before = view();
    assert_eq!(v.edit_revision("kkkk").err(), Some(EngineError::NotFound));
    assert!(same(&v, &before));
    assert_eq!(v.abandon_revision("foo").err(), Some(EngineError::Resolution));
    assert!(same(&v, &before));
}

#[test]
fn abandon_reparents_children_and_moves_bookmarks() {
    let mut v = view();
    let plan = v.abandon_revision("yy").unwrap();
    assert!(plan.is_none());
    assert!(v.commits[1].hidden);
    assert_eq!(v.commits[2].parents, vec![0]);
    let mut v = view();
    let plan = v.abandon_revision("top").unwrap().unwrap();
    assert_eq!(v.wc, 1);
    assert_eq!(plan.to_commit, 1);
    assert_eq!(v.bookmarks[0].target, 1);
}

#[test]
fn abandon_refuses_the_root() {
    let mut v = view();
    assert_eq!(v.abandon_revision("zz").err(), Some(EngineError::Transaction));
}

#[test]
fn layout_updates_merge() {
    let cur = AppLayout {
        active_project_id: Some("p1".to_string()),
        selected_change_id: Some("abc".to_string()),
        sidebar_width: 30,
    };
    let only_width = AppLayout { active_project_id: None, selected_change_id: None, sidebar_width: 40 };
    let r = merge_layout(cur.clone(), only_width);
    assert_eq!(r.active_project_id.as_deref(), Some("p1"));
    assert_eq!(r.selected_change_id.as_deref(), Some("abc"));
    assert_eq!(r.sidebar_width, 40);
    let new_project = AppLayout { active_project_id: Some("p2".to_string()), selected_change_id: None, sidebar_width: 0 };
    let r = merge_layout(cur.clone(), new_project);
    assert_eq!(r.active_project_id.as_deref(), Some("p2"));
    assert_eq!(r.selected_change_id, None);
    assert_eq!(r.sidebar_width, 30);
    assert_eq!(AppLayout::default().sidebar_width, 25);
}

#[test]
fn deleting_the_active_project_clears_selection() {
    let cur = AppLayout {
        active_project_id: Some("p1".to_string()),
        selected_change_id: Some("abc".to_string()),
        sidebar_width: 30,
    };
    let (r, changed) = forget_project(cur.clone(), "p1");
    assert!(changed);
    assert_eq!((r.active_project_id, r.selected_change_id, r.sidebar_width), (None, None, 30));
    let (r, changed) = forget_project(cur, "p9");
    assert!(!changed);
    assert_eq!(r.active_project_id.as_deref(), Some("p1"));
}

#[test]
fn file_changes_are_classified() {
    assert_eq!(classify_change(Some(EntryKind::File), Some(EntryKind::File)), Some(FileStatus::Modified));
    assert_eq!(classify_change(None, Some(EntryKind::Other)), Some(FileStatus::Added));
    assert_eq!(classify_change(Some(EntryKind::File), None), Some(FileStatus::Deleted));
    assert_eq!(classify_change(Some(EntryKind::Other), Some(EntryKind::File)), None);
    let changes = vec![
        TreeChange { path: "a.rs".to_string(), before: None, after: Some(EntryKind::File) },
        TreeChange { path: "link".to_string(), before: Some(EntryKind::Other), after: Some(EntryKind::Other) },
        TreeChange { path: "b.rs".to_string(), before: Some(EntryKind::File), after: None },
    ];
    let st = working_copy_status("zz".to_string(), "00".to_string(), "fix\nbody", &changes);
    assert_eq!(st.description, "fix");
    let got: Vec<(String, FileStatus)> = st.files.iter().map(|f| (f.path.clone(), f.status)).collect();
    assert_eq!(got, vec![("a.rs".to_string(), FileStatus::Added), ("b.rs".to_string(), FileStatus::Deleted)]);
}

#[test]
fn workspace_root_is_the_first_marked_ancestor() {
    let dirs = candidate_dirs("/home/u/proj/src");
    assert_eq!(dirs, vec!["/home/u/proj/src", "/home/u/proj", "/home/u", "/home", "/"]);
    let marks = vec![false, true, false, false, false];
    assert_eq!(find_jj_repo(&dirs, &marks).as_deref(), Some("/home/u/proj"));
    assert_eq!(find_jj_repo(&dirs, &vec![false; 5]), None);
}

#[test]
fn selection_covers_columns_per_line() {
    let view = DiffView {
        lines: vec!["hello".to_string(), "wide world".to_string(), "end".to_string()],
        selection_start: Some(TextPosition { line: 2, column: 1 }),
        selection_end: Some(TextPosition { line: 0, column: 2 }),
    };
    assert_eq!(view.get_selection_for_line(0), Some((2, 5)));
    assert_eq!(view.get_selection_for_line(1), Some((0, 10)));
    assert_eq!(view.get_selection_for_line(2), Some((0, 1)));
    assert_eq!(view.get_selection_for_line(3), None);
    let empty = DiffView { lines: vec!["x".to_string()], selection_start: None, selection_end: None };
    assert_eq!(empty.get_selection_for_line(0), None);
}

#[test]
fn selection_columns_are_bytes() {
    let view = DiffView {
        lines: vec!["\u{e9}".to_string()],
        selection_start: Some(TextPosition { line: 0, column: 0 }),
        selection_end: Some(TextPosition { line: 0, column: 2 }),
    };
    assert_eq!(view.get_selection_for_line(0), Some((0, 2)));
}
