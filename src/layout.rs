//! Persisted application state: known projects and the window layout, and
//! how updates merge into the layout.

use vstd::prelude::*;

verus! {

/// A repository the application has opened.
#[derive(Clone, Debug)]
pub struct Project {
    pub id: String,
    pub path: String,
    pub name: String,
    pub last_opened_at: i64,
    pub revset_preset: Option<String>,
}

/// Which project and revision are selected, and how wide the sidebar is.
#[derive(Clone, Debug)]
pub struct AppLayout {
    pub active_project_id: Option<String>,
    pub selected_change_id: Option<String>,
    pub sidebar_width: i32,
}

/// The sidebar width of a fresh layout.
pub const DEFAULT_SIDEBAR_WIDTH: i32 = 25;

pub open spec fn opt_str(o: Option<String>) -> Option<Seq<char>> {
    match o {
        Some(s) => Some(s@),
        None => None,
    }
}

impl Default for AppLayout {
    fn default() -> (r: AppLayout)
        ensures
            r.active_project_id is None,
            r.selected_change_id is None,
            r.sidebar_width == DEFAULT_SIDEBAR_WIDTH,
    {
        AppLayout { active_project_id: None, selected_change_id: None, sidebar_width: DEFAULT_SIDEBAR_WIDTH }
    }
}

/// The layout after an update: a new active project replaces the old one
/// and the selection with it; a new selection replaces the old one; a
/// non-zero width replaces the old width.
pub open spec fn merged(current: AppLayout, updates: AppLayout) -> (Option<Seq<char>>, Option<Seq<char>>, i32) {
    let active = if updates.active_project_id is Some {
        opt_str(updates.active_project_id)
    } else {
        opt_str(current.active_project_id)
    };
    let selected = if updates.selected_change_id is Some || updates.active_project_id is Some {
        opt_str(updates.selected_change_id)
    } else {
        opt_str(current.selected_change_id)
    };
    let width = if updates.sidebar_width != 0 {
        updates.sidebar_width
    } else {
        current.sidebar_width
    };
    (active, selected, width)
}

pub open spec fn layout_view(l: AppLayout) -> (Option<Seq<char>>, Option<Seq<char>>, i32) {
    (opt_str(l.active_project_id), opt_str(l.selected_change_id), l.sidebar_width)
}

/// Merges an update into the current layout.
pub fn merge_layout(current: AppLayout, updates: AppLayout) -> (r: AppLayout)
    ensures
        layout_view(r) == merged(current, updates),
{
    let has_active = updates.active_project_id.is_some();
    let has_selected = updates.selected_change_id.is_some();
    let active_project_id = if has_active {
        updates.active_project_id
    } else {
        current.active_project_id
    };
    let selected_change_id = if has_selected || has_active {
        updates.selected_change_id
    } else {
        current.selected_change_id
    };
    let sidebar_width = if updates.sidebar_width != 0 {
        updates.sidebar_width
    } else {
        current.sidebar_width
    };
    AppLayout { active_project_id, selected_change_id, sidebar_width }
}

fn same_text(a: &String, b: &str) -> (r: bool)
    ensures
        r == (a@ == b@),
{
    let x = crate::text::chars_of(a.as_str());
    let y = crate::text::chars_of(b);
    crate::repo::chars_eq(&x, &y)
}

/// The layout after a project is deleted: if it was the active one, no
/// project and no revision stay selected. The flag tells whether the
/// layout changed.
pub fn forget_project(layout: AppLayout, id: &str) -> (r: (AppLayout, bool))
    ensures
        r.1 == (opt_str(layout.active_project_id) == Some(id@)),
        r.1 ==> layout_view(r.0) == (None::<Seq<char>>, None::<Seq<char>>, layout.sidebar_width),
        !r.1 ==> layout_view(r.0) == layout_view(layout),
{
    let is_active = match &layout.active_project_id {
        Some(a) => same_text(a, id),
        None => false,
    };
    if is_active {
        (AppLayout { active_project_id: None, selected_change_id: None, sidebar_width: layout.sidebar_width }, true)
    } else {
        (layout, false)
    }
}

} // verus!
