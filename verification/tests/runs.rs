use autoclear_backup::candidate::{Candidate, Entry};
use autoclear_backup::cleanup::{clear_old_files, clear_old_files_at, Intent, Outcome};
use autoclear_backup::executor::Action;
use autoclear_backup::timestamp::{Timestamp, MAX_SECS};
use chrono::Utc;

const NOW: i64 = 1_700_000_000;
const DAY: i64 = 86_400;

fn at(secs: i64) -> Timestamp {
    Timestamp { secs, nanos: 0 }
}

fn entry(name: &str, days: i64) -> Entry {
    Entry { name: name.to_string(), modified: Some(at(NOW - days * DAY)) }
}

fn unreadable(name: &str) -> Entry {
    Entry { name: name.to_string(), modified: None }
}

fn file(path: &str, days: i64) -> Candidate {
    Candidate { modified_time: at(NOW - days * DAY), path: path.to_string() }
}

fn prefix(p: &str) -> Option<String> {
    Some(p.to_string())
}

fn run(entries: &Vec<Entry>, prefix: &Option<String>, test: bool) -> Outcome {
    clear_old_files_at("/b/", entries, prefix, test, at(NOW)).unwrap()
}

fn listing() -> Vec<Entry> {
    vec![
        entry("db-10", 10),
        entry("web-1", 1),
        entry("db-0", 0),
        entry("db-800", 800),
        unreadable("db-lost"),
        entry("db-40", 40),
        entry("db-2", 2),
        entry("db-400", 400),
        entry("notes.txt", 500),
    ]
}

#[test]
fn run_traces_each_boundary() {
    let o = run(&listing(), &prefix("db-"), false);
    let hits: Vec<(i64, usize, &str)> = o
        .selection
        .evictions
        .iter()
        .map(|e| (NOW - e.boundary.secs, e.position, e.path.as_str()))
        .collect();
    assert_eq!(
        hits,
        vec![
            (0, 1, "/b/db-2"),
            (DAY, 1, "/b/db-2"),
            (7 * DAY, 2, "/b/db-10"),
            (28 * DAY, 3, "/b/db-40"),
            (364 * DAY, 4, "/b/db-400"),
            (728 * DAY, 5, "/b/db-800"),
        ]
    );
    assert_eq!(o.selection.partition.keep, vec![file("/b/db-0", 0)]);
    assert_eq!(
        o.selection.partition.remove,
        vec![
            file("/b/db-2", 2),
            file("/b/db-10", 10),
            file("/b/db-40", 40),
            file("/b/db-400", 400),
            file("/b/db-800", 800),
        ]
    );
    assert_eq!(
        o.actions,
        vec![
            Action::Delete("/b/db-2".to_string()),
            Action::Delete("/b/db-10".to_string()),
            Action::Delete("/b/db-40".to_string()),
            Action::Delete("/b/db-400".to_string()),
            Action::Delete("/b/db-800".to_string()),
        ]
    );
    assert_eq!(o.now, at(NOW));
    assert_eq!(o.intent, Intent::Prefixed("db-".to_string()));
}

#[test]
fn dry_run_decides_as_a_real_run() {
    let dry = run(&listing(), &prefix("db-"), true);
    let real = run(&listing(), &prefix("db-"), false);
    assert_eq!(dry.selection, real.selection);
    assert_eq!(dry.now, real.now);
    assert_eq!(dry.intent, real.intent);
    assert_eq!(
        dry.actions,
        vec![
            Action::Announce("/b/db-2".to_string()),
            Action::Announce("/b/db-10".to_string()),
            Action::Announce("/b/db-40".to_string()),
            Action::Announce("/b/db-400".to_string()),
            Action::Announce("/b/db-800".to_string()),
        ]
    );
    assert_eq!(real.actions.len(), dry.actions.len());
    assert!(real.actions.iter().all(|a| matches!(a, Action::Delete(_))));
}

#[test]
fn run_without_prefix_removes_nothing() {
    for test in [false, true] {
        let o = run(&listing(), &None, test);
        assert_eq!(o.intent, Intent::Everything);
        assert_eq!(o.selection.partition.remove, Vec::new());
        assert_eq!(o.selection.evictions, Vec::new());
        assert_eq!(o.actions, Vec::new());
        assert_eq!(
            o.selection.partition.keep,
            vec![
                file("/b/db-10", 10),
                file("/b/web-1", 1),
                file("/b/db-0", 0),
                file("/b/db-800", 800),
                file("/b/db-40", 40),
                file("/b/db-2", 2),
                file("/b/db-400", 400),
                file("/b/notes.txt", 500),
            ]
        );
    }
}

#[test]
fn run_with_the_empty_prefix_sweeps_every_file() {
    let entries = vec![entry("a", 3), entry("b", 0)];
    let o = run(&entries, &prefix(""), false);
    assert_eq!(o.intent, Intent::Prefixed(String::new()));
    assert_eq!(o.selection.partition.remove, vec![file("/b/a", 3)]);
    assert_eq!(o.selection.partition.keep, vec![file("/b/b", 0)]);
    assert_eq!(o.actions, vec![Action::Delete("/b/a".to_string())]);
}

#[test]
fn run_without_matching_files_deletes_nothing() {
    let o = run(&listing(), &prefix("mail-"), false);
    assert_eq!(o.selection.partition.keep, Vec::new());
    assert_eq!(o.selection.partition.remove, Vec::new());
    assert_eq!(o.selection.evictions, Vec::new());
    assert_eq!(o.actions, Vec::new());
}

#[test]
fn run_over_an_empty_directory_deletes_nothing() {
    for p in [prefix("db-"), None] {
        let o = run(&Vec::new(), &p, false);
        assert_eq!(o.selection.partition.keep, Vec::new());
        assert_eq!(o.selection.partition.remove, Vec::new());
        assert_eq!(o.actions, Vec::new());
    }
}

#[test]
fn unreadable_file_is_on_neither_side() {
    let entries = vec![entry("db-3", 3), unreadable("db-lost"), entry("db-5", 5)];
    let o = run(&entries, &prefix("db-"), false);
    let all: Vec<&Candidate> =
        o.selection.partition.keep.iter().chain(o.selection.partition.remove.iter()).collect();
    assert_eq!(all.len(), 2);
    assert!(all.iter().all(|f| f.path != "/b/db-lost"));
    assert_eq!(o.selection.partition.remove, vec![file("/b/db-3", 3)]);
    assert_eq!(o.selection.partition.keep, vec![file("/b/db-5", 5)]);
}

#[test]
fn run_of_only_unreadable_files_deletes_nothing() {
    let entries = vec![unreadable("db-1"), unreadable("db-2")];
    let o = run(&entries, &prefix("db-"), false);
    assert_eq!(o.selection.partition.keep, Vec::new());
    assert_eq!(o.selection.partition.remove, Vec::new());
    assert_eq!(o.actions, Vec::new());
}

#[test]
fn run_needs_a_now_that_supports_the_boundaries() {
    let entries = listing();
    assert!(clear_old_files_at("/b/", &entries, &prefix("db-"), false, at(MAX_SECS + 1)).is_none());
    assert!(clear_old_files_at("/b/", &entries, &None, true, at(i64::MIN)).is_none());
    let overlong = Timestamp { secs: NOW, nanos: 1_000_000_000 };
    assert!(clear_old_files_at("/b/", &entries, &prefix("db-"), false, overlong).is_none());
    assert!(clear_old_files_at("/b/", &entries, &prefix("db-"), false, at(MAX_SECS)).is_some());
}

#[test]
fn run_by_the_clock_counts_back_from_the_present() {
    let before = Utc::now().timestamp();
    let entries = vec![
        Entry { name: "db-old".to_string(), modified: Some(at(946_684_800)) },
        Entry { name: "db-older".to_string(), modified: Some(at(0)) },
        Entry { name: "db-ahead".to_string(), modified: Some(at(MAX_SECS)) },
        Entry { name: "web".to_string(), modified: Some(at(0)) },
    ];
    let o = clear_old_files("/b/", &entries, &prefix("db-"), true);
    let after = Utc::now().timestamp();
    assert!(before <= o.now.secs && o.now.secs <= after);
    assert!(o.now.nanos < 1_000_000_000);
    let paths: Vec<&str> = o.selection.partition.keep.iter().map(|f| f.path.as_str()).collect();
    assert_eq!(paths, vec!["/b/db-ahead", "/b/db-older"]);
    assert_eq!(
        o.selection.partition.remove,
        vec![Candidate { modified_time: at(946_684_800), path: "/b/db-old".to_string() }]
    );
    assert_eq!(o.actions, vec![Action::Announce("/b/db-old".to_string())]);
    assert_eq!(o.selection.evictions.len(), 6);
    assert_eq!(o.selection.evictions[0].boundary, o.now);
    assert_eq!(o.selection.evictions[5].boundary.secs, o.now.secs - 104 * 7 * DAY);
}

#[test]
fn run_by_the_clock_without_prefix_removes_nothing() {
    let entries = vec![Entry { name: "db-old".to_string(), modified: Some(at(0)) }];
    let o = clear_old_files("/b/", &entries, &None, false);
    assert_eq!(o.selection.partition.remove, Vec::new());
    assert_eq!(o.actions, Vec::new());
    assert_eq!(o.selection.partition.keep.len(), 1);
}
