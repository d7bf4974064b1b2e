use mediawalk::season::{adapt_season_name, parse_u32, plan_seasonize};
use mediawalk::settings::Settings;
use mediawalk::snapshot::{FileSnapshot, Fileinfo, RawEntry, build_snapshot, extension_of_exec};
use mediawalk::Status;

fn sv(items: &[&str]) -> Vec<String> {
    items.iter().map(|s| s.to_string()).collect()
}

fn info(season: &str, extension: &str) -> Fileinfo {
    Fileinfo {
        showname: String::new(),
        season: season.to_string(),
        episode: String::new(),
        extension: extension.to_string(),
    }
}

fn snap(entries: Vec<(&str, &str)>) -> FileSnapshot {
    FileSnapshot {
        entries: entries
            .into_iter()
            .map(|(path, season)| (path.to_string(), info(season, "mkv")))
            .collect(),
    }
}

#[test]
fn adapt_pads_to_placeholder_width() {
    assert_eq!(adapt_season_name("Season XX", 5), "Season 05");
    assert_eq!(adapt_season_name("Season X", 5), "Season 5");
    assert_eq!(adapt_season_name("SXXXX", 7), "S0007");
}

#[test]
fn adapt_wide_number_overflows_placeholder() {
    assert_eq!(adapt_season_name("Season XX", 123), "Season 123");
}

#[test]
fn adapt_without_placeholder_keeps_template() {
    assert_eq!(adapt_season_name("Specials", 3), "Specials");
}

#[test]
fn adapt_replaces_each_run_separately() {
    assert_eq!(adapt_season_name("XX-XX", 4), "04-04");
    assert_eq!(adapt_season_name("X of XX", 9), "9 of 09");
}

#[test]
fn adapt_empty_template_stays_empty() {
    assert_eq!(adapt_season_name("", 1), "");
}

#[test]
fn parse_u32_reads_digit_strings() {
    assert_eq!(parse_u32("12"), Some(12));
    assert_eq!(parse_u32("0"), Some(0));
    assert_eq!(parse_u32("0012"), Some(12));
    assert_eq!(parse_u32("4294967295"), Some(u32::MAX));
}

#[test]
fn parse_u32_rejects_bad_input() {
    assert_eq!(parse_u32(""), None);
    assert_eq!(parse_u32("12a"), None);
    assert_eq!(parse_u32("-3"), None);
    assert_eq!(parse_u32("4294967296"), None);
}

#[test]
fn extension_follows_last_dot_of_name() {
    assert_eq!(extension_of_exec("/m/a.mkv"), Some("mkv".to_string()));
    assert_eq!(extension_of_exec("/m/archive.tar.gz"), Some("gz".to_string()));
    assert_eq!(extension_of_exec("/m/.hidden"), None);
    assert_eq!(extension_of_exec("/m/noext"), None);
    assert_eq!(extension_of_exec("/m.x/noext"), None);
}

#[test]
fn snapshot_keeps_only_listed_extensions() {
    let entries = vec![
        RawEntry { path: "/m/a.mkv".to_string(), is_file: true },
        RawEntry { path: "/m/b.txt".to_string(), is_file: true },
        RawEntry { path: "/m/tmp".to_string(), is_file: false },
        RawEntry { path: "/m/c.jpg".to_string(), is_file: true },
    ];
    let s = build_snapshot(&entries, &sv(&["mkv", "avi"]), &sv(&["jpg"]));
    assert_eq!(s.entries.len(), 2);
    assert_eq!(s.entries[0].0, "/m/a.mkv");
    assert_eq!(s.entries[0].1.extension, "mkv");
    assert_eq!(s.entries[1].0, "/m/c.jpg");
    assert_eq!(s.entries[1].1.extension, "jpg");
    assert_eq!(s.entries[0].1.showname, "");
}

#[test]
fn snapshot_of_empty_listing_is_empty() {
    let s = build_snapshot(&vec![], &sv(&["mkv"]), &sv(&[]));
    assert!(s.entries.is_empty());
}

#[test]
fn plan_moves_unplaced_files_into_season_dir() {
    let s = snap(vec![("/m/show/ep1.mkv", "1"), ("/m/show/ep2.mkv", "2")]);
    let plan = plan_seasonize(&s, &"Season XX".to_string());
    assert_eq!(plan.status, Status::FilesChanged);
    assert_eq!(plan.moves.len(), 2);
    assert_eq!(plan.moves[0].from, "/m/show/ep1.mkv");
    assert_eq!(plan.moves[0].to, "/m/show/Season 01/ep1.mkv");
    assert_eq!(plan.moves[1].to, "/m/show/Season 02/ep2.mkv");
}

#[test]
fn plan_leaves_placed_files_alone() {
    let s = snap(vec![("/m/show/Season 01/ep1.mkv", "1"), ("/m/show/ep2.mkv", "1")]);
    let plan = plan_seasonize(&s, &"Season XX".to_string());
    assert_eq!(plan.status, Status::FilesChanged);
    assert_eq!(plan.moves.len(), 1);
    assert_eq!(plan.moves[0].from, "/m/show/ep2.mkv");
}

#[test]
fn second_pass_after_moves_changes_nothing() {
    let template = "Season XX".to_string();
    let before = snap(vec![("/m/show/ep1.mkv", "1"), ("/m/show/ep2.mkv", "1")]);
    let first = plan_seasonize(&before, &template);
    assert_eq!(first.status, Status::FilesChanged);
    let after = FileSnapshot {
        entries: first
            .moves
            .iter()
            .map(|m| (m.to.clone(), info("1", "mkv")))
            .collect(),
    };
    let second = plan_seasonize(&after, &template);
    assert_eq!(second.status, Status::Unchanged);
    assert!(second.moves.is_empty());
}

#[test]
fn plan_on_empty_snapshot_is_unchanged() {
    let plan = plan_seasonize(&snap(vec![]), &"Season XX".to_string());
    assert_eq!(plan.status, Status::Unchanged);
    assert!(plan.moves.is_empty());
}

#[test]
fn plan_reports_error_on_unreadable_season() {
    let plan = plan_seasonize(&snap(vec![("/m/a.mkv", "abc")]), &"Season XX".to_string());
    assert_eq!(plan.status, Status::Error);
    assert!(plan.moves.is_empty());
}

#[test]
fn settings_build_ignore_config() {
    let settings = Settings {
        default_args: sv(&["-s"]),
        target_dirs: sv(&["/r"]),
        video_extensions: sv(&["mkv"]),
        image_extensions: sv(&["jpg"]),
        ignored_directories: sv(&[".cache", "tmp"]),
        season_dir_name: "Season XX".to_string(),
    };
    let cfg = settings.ignore_config();
    assert_eq!(cfg.rules.len(), 2);
    assert_eq!(cfg.roots.len(), 1);
    assert!(mediawalk::ignore::is_ignored(
        &cfg,
        &mediawalk::paths::parse_path("/r/cache"),
        &"cache".to_string()
    ));
    assert!(!mediawalk::ignore::is_ignored(
        &cfg,
        &mediawalk::paths::parse_path("/other/cache"),
        &"cache".to_string()
    ));
}
