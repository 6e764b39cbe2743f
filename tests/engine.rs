use tatami::codec::{format_change_id, format_commit_id, shortest_unique_prefix_len};
use tatami::diff::{compute_file_diff, get_diff_text, revision_diff, FileContents, LineKind};
use tatami::graph::EdgeType;
use tatami::log::{default_aliases, fetch_log, resolve_query, LogConfig};
use tatami::parse::{parse_revset, Alias};
use tatami::repo::{Commit, EngineError, NamedRef, RemoteRef, RepoView, Signature};

fn sig(name: &str, email: &str, ts: i64) -> Signature {
    Signature {
        name: name.to_string(),
        email: email.to_string(),
        timestamp_ms: ts,
    }
}

fn commit(id: u8, change: u8, parents: Vec<usize>, ts: i64, desc: &str) -> Commit {
    Commit {
        commit_id: vec![id, 0, 0, 0, 0, 0, 0, 0],
        change_id: vec![change, 0, 0, 0, 0, 0, 0, 0],
        parents,
        tree_id: vec![id, 0xee],
        description: desc.to_string(),
        author: sig("Ann", "ann@example.com", ts),
        committer: sig("Ann", "ann@example.com", ts),
        hidden: false,
    }
}

/// A root, then A -> B -> C in a line; C is `main@origin`, the working copy
/// sits on C.
fn linear() -> RepoView {
    RepoView {
        commits: vec![
            commit(0x00, 0x00, vec![], 0, ""),
            commit(0xa1, 0x11, vec![0], 1_000, "first\nmore"),
            commit(0xb2, 0x22, vec![1], 2_000, "second"),
            commit(0xc3, 0x33, vec![2], 3_000, "third"),
        ],
        wc: 3,
        bookmarks: vec![NamedRef { name: "feature".to_string(), target: 2 }],
        tags: vec![],
        remote_bookmarks: vec![RemoteRef {
            name: "main".to_string(),
            remote: "origin".to_string(),
            target: 3,
            is_tracked: true,
        }],
    }
}

fn config() -> LogConfig {
    LogConfig {
        user_email: "ann@example.com".to_string(),
        now_ms: 3_000 + 90_000,
        aliases: default_aliases(),
    }
}

fn query(view: &RepoView, text: &str) -> Result<Vec<usize>, EngineError> {
    let e = parse_revset(text, &default_aliases())?;
    view.evaluate(&e)
}

#[test]
fn change_id_uses_reversed_alphabet() {
    assert_eq!(format_change_id(&[0u8; 16]), "zzzzzzzzzzzz");
    assert_eq!(format_change_id(&[0x01, 0x23, 0x45, 0x67, 0x89, 0xab, 0xcd]), "zyxwvutsrqpo");
    assert_eq!(format_change_id(&[0xff]), "kk");
}

#[test]
fn commit_id_is_short_hex() {
    assert_eq!(format_commit_id(&[0xde, 0xad, 0xbe, 0xef, 0x00, 0x11, 0x22, 0x33]), "deadbeef0011");
    assert_eq!(format_commit_id(&[0x0a]), "0a");
}

#[test]
fn shortest_prefix_examples() {
    let universe = vec!["abcdef".to_string(), "abcxyz".to_string(), "qqrrss".to_string()];
    assert_eq!(shortest_unique_prefix_len("abcdef", &universe), 4);
    assert_eq!(shortest_unique_prefix_len("abcxyz", &universe), 4);
    assert_eq!(shortest_unique_prefix_len("qqrrss", &universe), 1);
}

#[test]
fn shortest_prefix_falls_back_to_full_length() {
    let universe = vec!["abc".to_string(), "abcdef".to_string()];
    assert_eq!(shortest_unique_prefix_len("abc", &universe), 3);
    assert_eq!(shortest_unique_prefix_len("abcdef", &universe), 4);
}

#[test]
fn diff_of_same_text_is_all_context() {
    let x = b"one\ntwo\nthree\n";
    let d = compute_file_diff(x, x, "f.txt".to_string());
    assert_eq!(d.path, "f.txt");
    assert_eq!(d.hunks.len(), 1);
    let h = &d.hunks[0];
    assert_eq!(h.old_count, 3);
    assert_eq!(h.new_count, 3);
    assert!(h.lines.iter().all(|l| l.line_type == LineKind::Context));
}

#[test]
fn diff_numbers_lines_on_each_side() {
    let d = compute_file_diff(b"a\nb\nc\n", b"a\nx\nc\nd\n", "f".to_string());
    let h = &d.hunks[0];
    assert_eq!((h.old_start, h.old_count, h.new_start, h.new_count), (1, 3, 1, 4));
    let got: Vec<(LineKind, String, Option<usize>, Option<usize>)> = h
        .lines
        .iter()
        .map(|l| (l.line_type, l.content.clone(), l.old_line_number, l.new_line_number))
        .collect();
    assert_eq!(
        got,
        vec![
            (LineKind::Context, "a\n".to_string(), Some(1), Some(1)),
            (LineKind::Removed, "b\n".to_string(), Some(2), None),
            (LineKind::Added, "x\n".to_string(), None, Some(2)),
            (LineKind::Context, "c\n".to_string(), Some(3), Some(3)),
            (LineKind::Added, "d\n".to_string(), None, Some(4)),
        ]
    );
}

#[test]
fn diff_round_trip_rebuilds_new_text() {
    let old = "fn main() {\n    a();\n    b();\n}\n";
    let new = "fn main() {\n    b();\n    c();\n}\n// end";
    let d = compute_file_diff(old.as_bytes(), new.as_bytes(), "m.rs".to_string());
    let mut rebuilt = String::new();
    let mut rest = old.to_string();
    for l in &d.hunks[0].lines {
        match l.line_type {
            LineKind::Context => {
                assert!(rest.starts_with(&l.content));
                rest = rest[l.content.len()..].to_string();
                rebuilt.push_str(&l.content);
            }
            LineKind::Removed => {
                assert!(rest.starts_with(&l.content));
                rest = rest[l.content.len()..].to_string();
            }
            LineKind::Added => rebuilt.push_str(&l.content),
        }
    }
    assert_eq!(rest, "");
    assert_eq!(rebuilt, new);
}

#[test]
fn diff_pure_addition_and_deletion() {
    let add = compute_file_diff(b"", b"x\ny\n", "n".to_string());
    let h = &add.hunks[0];
    assert_eq!((h.old_count, h.new_count), (0, 2));
    assert!(h.lines.iter().all(|l| l.line_type == LineKind::Added && l.old_line_number.is_none()));
    assert_eq!(h.lines[1].new_line_number, Some(2));
    let del = compute_file_diff(b"x\ny\n", b"", "n".to_string());
    let h = &del.hunks[0];
    assert_eq!((h.old_count, h.new_count), (2, 0));
    assert!(h.lines.iter().all(|l| l.line_type == LineKind::Removed && l.new_line_number.is_none()));
    assert_eq!(h.lines[1].old_line_number, Some(2));
}

#[test]
fn diff_decodes_invalid_utf8_lossily() {
    let d = compute_file_diff(b"ok\n", b"ok\n\xff\n", "b".to_string());
    let h = &d.hunks[0];
    assert_eq!(h.new_count, 2);
    assert_eq!(h.lines[1].content, "\u{fffd}\n");
}

#[test]
fn diff_text_marks_and_joins_lines() {
    let d = compute_file_diff(b"a\nb\n", b"a\nc\n", "f".to_string());
    assert_eq!(get_diff_text(&d), " a\n-b\n+c");
}

#[test]
fn trunk_scenario() {
    let view = linear();
    assert_eq!(query(&view, "::trunk()").unwrap(), vec![3, 2, 1, 0]);
    assert_eq!(query(&view, "trunk()").unwrap(), vec![3]);
    let log = fetch_log(&view, 10, Some("::trunk() ~ root()"), &config()).unwrap();
    assert_eq!(log.len(), 3);
    assert!(log.iter().all(|r| r.is_immutable && r.is_trunk));
}

#[test]
fn evaluation_is_repeatable() {
    let view = linear();
    let a = query(&view, "all() ~ @").unwrap();
    let b = query(&view, "all() ~ @").unwrap();
    assert_eq!(a, b);
    assert_eq!(a, vec![2, 1, 0]);
}

#[test]
fn set_operators_and_ranges() {
    let view = linear();
    assert_eq!(query(&view, "feature").unwrap(), vec![2]);
    assert_eq!(query(&view, "feature::").unwrap(), vec![3, 2]);
    assert_eq!(query(&view, "feature..@").unwrap(), vec![3]);
    assert_eq!(query(&view, "root()::feature").unwrap(), vec![2, 1, 0]);
    assert_eq!(query(&view, "ancestors(@, 2)").unwrap(), vec![3, 2]);
    assert_eq!(query(&view, "descendants(feature) & ::@").unwrap(), vec![3, 2]);
    assert_eq!(query(&view, "visible_heads()").unwrap(), vec![3]);
    assert_eq!(query(&view, "feature | root()").unwrap(), vec![2, 0]);
    assert_eq!(query(&view, "latest(all())").unwrap(), vec![3]);
    assert_eq!(query(&view, "author_email(example)").unwrap(), vec![3, 2, 1, 0]);
    assert_eq!(query(&view, "remote_bookmarks(main, origin)").unwrap(), vec![3]);
    assert_eq!(query(&view, "bookmarks()").unwrap(), vec![2]);
}

#[test]
fn change_and_commit_prefixes_resolve() {
    let view = linear();
    // change id 0x22.. is "xx" in the reversed alphabet
    assert_eq!(query(&view, "xx").unwrap(), vec![2]);
    assert_eq!(query(&view, "b2").unwrap(), vec![2]);
}

#[test]
fn query_errors() {
    let view = linear();
    assert_eq!(query(&view, "(all()"), Err(EngineError::Parse));
    assert_eq!(query(&view, "nosuchfunction()"), Err(EngineError::Parse));
    assert_eq!(query(&view, "foo"), Err(EngineError::Resolution));
    assert_eq!(query(&view, "kkkk"), Err(EngineError::NotFound));
    assert_eq!(query(&view, "z").unwrap(), vec![0]);
    assert_eq!(query(&view, "present(foo) | @").unwrap(), vec![3]);
}

#[test]
fn resolve_query_reports_errors_as_data() {
    let view = linear();
    let ok = resolve_query(&view, "feature | @", &default_aliases());
    assert_eq!(ok.error, None);
    assert_eq!(ok.change_ids, vec!["wwzzzzzzzzzz".to_string(), "xxzzzzzzzzzz".to_string()]);
    let bad = resolve_query(&view, "foo |", &default_aliases());
    assert_eq!(bad.error, Some(EngineError::Parse));
    assert!(bad.change_ids.is_empty());
}

#[test]
fn aliases_expand_before_resolution() {
    let view = linear();
    let mut aliases = default_aliases();
    aliases.push(Alias { name: "mine".to_string(), text: "author_email(ann)".to_string() });
    let e = parse_revset("mine() & feature", &aliases).unwrap();
    assert_eq!(view.evaluate(&e).unwrap(), vec![2]);
}

#[test]
fn log_describes_each_revision() {
    let view = linear();
    let log = fetch_log(&view, 2, None, &config()).unwrap();
    assert_eq!(log.len(), 2);
    let c = &log[0];
    assert_eq!(c.commit_id, "c30000000000");
    assert_eq!(c.change_id, "wwzzzzzzzzzz");
    assert_eq!(c.change_id_short, "w");
    assert_eq!(c.description, "third");
    assert_eq!(c.author, "Ann");
    assert_eq!(c.timestamp, "1 minutes ago");
    assert!(c.is_working_copy && c.is_mine && !c.is_divergent);
    assert_eq!(c.parent_ids, vec!["b20000000000".to_string()]);
    assert_eq!(c.parent_edges.len(), 1);
    assert_eq!(c.parent_edges[0].edge_type, EdgeType::Direct);
    let b = &log[1];
    assert_eq!(b.bookmarks, vec!["feature".to_string()]);
    assert!(!b.is_working_copy);
    let all = fetch_log(&view, 10, None, &config()).unwrap();
    assert_eq!(all[2].description, "first");
    assert_eq!(all[3].description, "(no description)");
    assert_eq!(all[3].timestamp, "root");
}

#[test]
fn filtered_edges_are_indirect() {
    let view = linear();
    let log = fetch_log(&view, 10, Some("@ | root()"), &config()).unwrap();
    assert_eq!(log.len(), 2);
    assert_eq!(log[0].parent_edges.len(), 1);
    assert_eq!(log[0].parent_edges[0].edge_type, EdgeType::Indirect);
    assert_eq!(log[0].parent_edges[0].parent_id, "000000000000");
    let only = fetch_log(&view, 10, Some("@"), &config()).unwrap();
    assert_eq!(only[0].parent_edges[0].edge_type, EdgeType::Missing);
}

#[test]
fn divergent_changes_are_numbered() {
    let mut view = linear();
    view.commits.push(commit(0xd4, 0x44, vec![0], 4_000, "one"));
    view.commits.push(commit(0xe5, 0x44, vec![0], 5_000, "two"));
    view.commits.push(commit(0xf6, 0x44, vec![0], 6_000, "three"));
    let log = fetch_log(&view, 10, Some("vv"), &config());
    assert_eq!(log.err(), Some(EngineError::AmbiguousReference));
    let log = fetch_log(&view, 10, Some("d4 | e5 | f6"), &config()).unwrap();
    assert_eq!(log.len(), 3);
    assert!(log.iter().all(|r| r.is_divergent));
    let idx: Vec<usize> = log.iter().map(|r| r.divergent_index).collect();
    assert_eq!(idx, vec![0, 1, 2]);
    assert_eq!(log[0].change_id_short, "v/0");
    assert_eq!(log[1].change_id_short, "v/1");
    assert_eq!(log[2].change_id_short, "v/2");
}

#[test]
fn untracked_remote_bookmarks_are_immutable_heads() {
    let mut view = linear();
    view.remote_bookmarks.push(RemoteRef {
        name: "wip".to_string(),
        remote: "fork".to_string(),
        target: 2,
        is_tracked: false,
    });
    assert_eq!(query(&view, "untracked_remote_bookmarks()").unwrap(), vec![2]);
    assert_eq!(query(&view, "immutable_heads()").unwrap(), vec![3, 2]);
    view.remote_bookmarks.remove(0);
    let log = fetch_log(&view, 10, None, &config()).unwrap();
    let flags: Vec<(bool, bool)> = log.iter().map(|r| (r.is_immutable, r.is_trunk)).collect();
    assert_eq!(flags, vec![(false, false), (true, false), (true, false), (true, true)]);
}

#[test]
fn working_copy_symbol_and_spaces() {
    let view = linear();
    assert_eq!(query(&view, "  @  ").unwrap(), vec![3]);
    assert_eq!(query(&view, "( @ | feature ) & ~@").err(), Some(EngineError::Parse));
    assert_eq!(query(&view, "(@ | feature) ~ @").unwrap(), vec![2]);
    assert_eq!(query(&view, "::").unwrap(), vec![3, 2, 1, 0]);
}

#[test]
fn revision_diff_skips_unchanged_files() {
    let files = vec![
        FileContents { path: "same.txt".to_string(), old: b"a\n".to_vec(), new: b"a\n".to_vec() },
        FileContents { path: "new.txt".to_string(), old: vec![], new: b"x\n".to_vec() },
        FileContents { path: "gone.txt".to_string(), old: b"y\n".to_vec(), new: vec![] },
    ];
    let diffs = revision_diff(&files);
    let paths: Vec<&str> = diffs.iter().map(|d| d.path.as_str()).collect();
    assert_eq!(paths, vec!["new.txt", "gone.txt"]);
    assert_eq!(diffs[0].hunks[0].new_count, 1);
    assert_eq!(diffs[1].hunks[0].old_count, 1);
}

#[test]
fn diff_lines_split_at_every_terminator() {
    let x = b"a\r\nb\rc";
    let d = compute_file_diff(x, x, "t".to_string());
    let h = &d.hunks[0];
    assert_eq!((h.old_count, h.new_count), (3, 3));
    let contents: Vec<&str> = h.lines.iter().map(|l| l.content.as_str()).collect();
    assert_eq!(contents, vec!["a\r\n", "b\r", "c"]);
    let numbers: Vec<(Option<usize>, Option<usize>)> =
        h.lines.iter().map(|l| (l.old_line_number, l.new_line_number)).collect();
    assert_eq!(numbers, vec![(Some(1), Some(1)), (Some(2), Some(2)), (Some(3), Some(3))]);
}

#[test]
fn diff_sides_are_the_lines_of_each_text() {
    let d = compute_file_diff(b"x\ny\nz", b"y\nz\nw\n", "t".to_string());
    let h = &d.hunks[0];
    let old: Vec<&str> = h.lines.iter().filter(|l| l.line_type != LineKind::Added).map(|l| l.content.as_str()).collect();
    let new: Vec<&str> = h.lines.iter().filter(|l| l.line_type != LineKind::Removed).map(|l| l.content.as_str()).collect();
    assert_eq!(old, vec!["x\n", "y\n", "z"]);
    assert_eq!(new, vec!["y\n", "z\n", "w\n"]);
    assert_eq!((h.old_count, h.new_count), (3, 3));
}

#[test]
fn views_are_checked_for_well_formedness() {
    let mut view = linear();
    assert!(view.check_wf());
    view.commits[1].parents = vec![2];
    assert!(!view.check_wf());
    let mut view = linear();
    view.commits[2].hidden = true;
    assert!(!view.check_wf());
    let mut view = linear();
    view.bookmarks[0].target = 9;
    assert!(!view.check_wf());
}

#[test]
fn unresolvable_query_fails_the_log() {
    let view = linear();
    assert_eq!(fetch_log(&view, 10, Some("foo | @"), &config()).err(), Some(EngineError::Resolution));
    assert_eq!(fetch_log(&view, 10, Some("kkkk"), &config()).err(), Some(EngineError::NotFound));
    assert_eq!(fetch_log(&view, 10, Some("@ |"), &config()).err(), Some(EngineError::Parse));
}

#[test]
fn diff_of_one_changed_line() {
    let d = compute_file_diff(b"a\nb\n", b"a\nc\n", "f".to_string());
    let h = &d.hunks[0];
    assert_eq!((h.old_start, h.old_count, h.new_start, h.new_count), (1, 2, 1, 2));
    let got: Vec<(LineKind, &str, Option<usize>, Option<usize>)> = h
        .lines
        .iter()
        .map(|l| (l.line_type, l.content.as_str(), l.old_line_number, l.new_line_number))
        .collect();
    assert_eq!(
        got,
        vec![
            (LineKind::Context, "a\n", Some(1), Some(1)),
            (LineKind::Removed, "b\n", Some(2), None),
            (LineKind::Added, "c\n", None, Some(2)),
        ]
    );
}

#[test]
fn summary_keeps_a_lone_carriage_return() {
    assert_eq!(tatami::annotate::first_line("abc\r"), "abc\r");
    assert_eq!(tatami::annotate::first_line("x\r\ny"), "x");
    assert_eq!(tatami::annotate::first_line(""), "(no description)");
}
