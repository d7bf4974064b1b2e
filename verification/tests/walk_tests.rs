use mediawalk::cursor::{TaskAction, TaskCursor};
use mediawalk::ignore::{IgnoreConfig, IgnoreRule, Subdir, build_ignore_config, classify_rule, filter_subdirs, is_ignored};
use mediawalk::paths::{DirPath, parse_path, path_eq};
use mediawalk::walker::{DirTree, ModelTask, RootDir, run_dir_tasks, walk_forest};
use mediawalk::Status;

fn p(s: &str) -> DirPath {
    parse_path(s)
}

fn strings(items: &[&str]) -> Vec<String> {
    items.iter().map(|s| s.to_string()).collect()
}

fn cfg(rules: &[&str], roots: &[&str]) -> IgnoreConfig {
    build_ignore_config(&strings(rules), &strings(roots))
}

fn leaf(name: &str) -> DirTree {
    DirTree { name: name.to_string(), children: vec![] }
}

fn node(name: &str, children: Vec<DirTree>) -> DirTree {
    DirTree { name: name.to_string(), children }
}

fn noop_task() -> ModelTask {
    ModelTask { error_on: vec![], change_on: vec![] }
}

fn visited_strings(visited: &[DirPath]) -> Vec<String> {
    visited
        .iter()
        .map(|d| {
            let mut s = String::new();
            if d.absolute {
                s.push('/');
            }
            s.push_str(&d.segments.join("/"));
            s
        })
        .collect()
}

#[test]
fn parse_path_components() {
    let a = p("/a/b");
    assert!(a.absolute);
    assert_eq!(a.segments, strings(&["a", "b"]));
    let b = p("a//b/");
    assert!(!b.absolute);
    assert_eq!(b.segments, strings(&["a", "b"]));
}

#[test]
fn path_equality_is_component_wise() {
    assert!(path_eq(&p("/a/b"), &p("/a//b/")));
    assert!(!path_eq(&p("/a/b"), &p("a/b")));
    assert!(!path_eq(&p("/a/b"), &p("/a/b/c")));
}

#[test]
fn classify_rule_by_leading_character() {
    assert!(matches!(classify_rule("/abs/path"), IgnoreRule::AbsolutePath(_)));
    assert!(matches!(classify_rule(".cache"), IgnoreRule::RelativePrefix(_)));
    assert!(matches!(classify_rule("tmp"), IgnoreRule::BareName(_)));
}

#[test]
fn absolute_rule_matches_exact_path_only() {
    let c = cfg(&["/x/y"], &[]);
    assert!(is_ignored(&c, &p("/x/y"), &"y".to_string()));
    assert!(is_ignored(&c, &p("/x//y/"), &"y".to_string()));
    assert!(!is_ignored(&c, &p("/x/y/z"), &"z".to_string()));
    assert!(!is_ignored(&c, &p("x/y"), &"y".to_string()));
}

#[test]
fn bare_name_rule_matches_name_anywhere() {
    let c = cfg(&["tmp"], &[]);
    assert!(is_ignored(&c, &p("/a/tmp"), &"tmp".to_string()));
    assert!(is_ignored(&c, &p("/b/c/tmp"), &"tmp".to_string()));
    assert!(!is_ignored(&c, &p("/a/tmpx"), &"tmpx".to_string()));
}

#[test]
fn relative_rule_resolves_against_each_root() {
    let c = cfg(&[".cache"], &["/r", "/s"]);
    assert!(is_ignored(&c, &p("/r/cache"), &"cache".to_string()));
    assert!(is_ignored(&c, &p("/s/cache"), &"cache".to_string()));
    assert!(!is_ignored(&c, &p("/other/cache"), &"cache".to_string()));
}

#[test]
fn no_rule_means_not_ignored() {
    let c = cfg(&[], &["/r"]);
    assert!(!is_ignored(&c, &p("/r/anything"), &"anything".to_string()));
}

#[test]
fn filter_subdirs_keeps_order_and_drops_ignored() {
    let c = cfg(&["tmp"], &["/m"]);
    let cands = vec![
        Subdir { path: p("/m/a"), name: "a".to_string() },
        Subdir { path: p("/m/tmp"), name: "tmp".to_string() },
        Subdir { path: p("/m/b"), name: "b".to_string() },
    ];
    let kept = filter_subdirs(&cands, &c);
    assert_eq!(kept.len(), 2);
    assert!(path_eq(&kept[0].path, &p("/m/a")));
    assert!(path_eq(&kept[1].path, &p("/m/b")));
}

#[test]
fn walk_media_skips_tmp_subtree() {
    let c = cfg(&["tmp"], &["/media"]);
    let listing = vec![
        mediawalk::snapshot::RawEntry { path: "/media/a.mkv".to_string(), is_file: true },
        mediawalk::snapshot::RawEntry { path: "/media/b.mkv".to_string(), is_file: true },
        mediawalk::snapshot::RawEntry { path: "/media/tmp".to_string(), is_file: false },
    ];
    let snapshot = mediawalk::snapshot::build_snapshot(&listing, &strings(&["mkv"]), &vec![]);
    assert_eq!(snapshot.entries.len(), 2);
    let tree = node("media", vec![leaf("tmp")]);
    let roots = vec![RootDir { path: p("/media"), tree }];
    let tasks = vec![noop_task()];
    let report = walk_forest(&roots, &tasks, &c);
    assert_eq!(visited_strings(&report.visited), strings(&["/media"]));
    assert!(report.errors.is_empty());
}

#[test]
fn walk_three_level_tree_visits_all_once() {
    let c = cfg(&[], &["/r"]);
    let tree = node("r", vec![node("a", vec![leaf("b")])]);
    let roots = vec![RootDir { path: p("/r"), tree }];
    let tasks = vec![noop_task()];
    let report = walk_forest(&roots, &tasks, &c);
    assert_eq!(visited_strings(&report.visited), strings(&["/r", "/r/a", "/r/a/b"]));
}

#[test]
fn walk_ignored_subtree_descendants_never_visited() {
    let c = cfg(&["skip"], &["/r"]);
    let tree = node("r", vec![node("skip", vec![node("deep", vec![leaf("deeper")])]), leaf("keep")]);
    let roots = vec![RootDir { path: p("/r"), tree }];
    let report = walk_forest(&roots, &vec![noop_task()], &c);
    assert_eq!(visited_strings(&report.visited), strings(&["/r", "/r/keep"]));
}

#[test]
fn error_in_one_directory_does_not_stop_siblings() {
    let c = cfg(&[], &["/r"]);
    let tree = node("r", vec![leaf("a"), leaf("b")]);
    let roots = vec![RootDir { path: p("/r"), tree }];
    let failing = ModelTask { error_on: vec![p("/r/a")], change_on: vec![] };
    let report = walk_forest(&roots, &vec![failing], &c);
    assert_eq!(visited_strings(&report.visited), strings(&["/r", "/r/a", "/r/b"]));
    assert_eq!(visited_strings(&report.errors), strings(&["/r/a"]));
}

#[test]
fn walk_multiple_roots_in_order() {
    let c = cfg(&[], &["/one", "/two"]);
    let roots = vec![
        RootDir { path: p("/one"), tree: leaf("one") },
        RootDir { path: p("/two"), tree: node("two", vec![leaf("x")]) },
    ];
    let report = walk_forest(&roots, &vec![noop_task()], &c);
    assert_eq!(visited_strings(&report.visited), strings(&["/one", "/two", "/two/x"]));
}

#[test]
fn walk_with_zero_tasks_still_recurses() {
    let c = cfg(&[], &["/r"]);
    let tree = node("r", vec![leaf("a")]);
    let roots = vec![RootDir { path: p("/r"), tree }];
    let report = walk_forest(&roots, &vec![], &c);
    assert_eq!(visited_strings(&report.visited), strings(&["/r", "/r/a"]));
    assert!(report.errors.is_empty());
}

#[test]
fn run_dir_tasks_reports_error() {
    let failing = ModelTask { error_on: vec![p("/d")], change_on: vec![] };
    assert!(run_dir_tasks(&vec![noop_task(), failing], &p("/d")).0);
    assert!(!run_dir_tasks(&vec![noop_task()], &p("/d")).0);
}

#[test]
fn cursor_runs_tasks_in_order_with_initial_snapshot() {
    let mut cursor = TaskCursor::new(2);
    assert_eq!(cursor.next_action(), TaskAction::BuildSnapshot);
    cursor.snapshot_built();
    assert_eq!(cursor.next_action(), TaskAction::RunTask(0));
    cursor.task_done(Status::Unchanged);
    assert_eq!(cursor.next_action(), TaskAction::RunTask(1));
    cursor.task_done(Status::Unchanged);
    assert_eq!(cursor.next_action(), TaskAction::Finished);
}

#[test]
fn cursor_rebuilds_snapshot_after_mutation() {
    let mut cursor = TaskCursor::new(2);
    cursor.snapshot_built();
    assert_eq!(cursor.next_action(), TaskAction::RunTask(0));
    cursor.task_done(Status::FilesChanged);
    assert_eq!(cursor.next_action(), TaskAction::BuildSnapshot);
    cursor.snapshot_built();
    assert_eq!(cursor.next_action(), TaskAction::RunTask(1));
}

#[test]
fn cursor_stops_at_first_error() {
    let mut cursor = TaskCursor::new(3);
    cursor.snapshot_built();
    cursor.task_done(Status::Error);
    assert_eq!(cursor.next_action(), TaskAction::Finished);
}

#[test]
fn cursor_with_no_tasks_is_finished_at_once() {
    let cursor = TaskCursor::new(0);
    assert_eq!(cursor.next_action(), TaskAction::Finished);
}
