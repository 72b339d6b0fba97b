use std::path::PathBuf;
use todo::events::{attributed, record};
use todo::ops::path_for;
use todo::paths::{events_path, lock_path, resolve_company, todos_path};

#[test]
fn records_carry_everything() {
    let e = record(
        "reprioritize",
        "ab12",
        "acme",
        Some("P1"),
        Some("P0"),
        None,
        Some("builder-1"),
        1_782_950_461,
        0,
    );
    assert_eq!(e.ts, "2026-07-02T00:01:01+00:00");
    assert_eq!(e.op, "reprioritize");
    assert_eq!(e.id, "ab12");
    assert_eq!(e.by, "builder-1");
    assert_eq!(e.from, Some("P1"));
    assert_eq!(e.to, Some("P0"));
    assert_eq!(e.subject, None);
    assert_eq!(e.company, "acme");
}

fn at(secs: u64, nanos: u32) -> String {
    record("op", "id", "c", None, None, None, None, secs, nanos).ts
}

#[test]
fn times_of_records_are_exact() {
    assert_eq!(at(0, 0), "1970-01-01T00:00:00+00:00");
    assert_eq!(at(951_782_400, 500_000_000), "2000-02-29T00:00:00.500+00:00");
    assert_eq!(at(1_782_950_461, 1_000), "2026-07-02T00:01:01.000001+00:00");
    assert_eq!(at(1_782_950_461, 123_456_789), "2026-07-02T00:01:01.123456789+00:00");
    assert_eq!(at(253_402_300_799, 999_999_999), "9999-12-31T23:59:59.999999999+00:00");
    assert_eq!(at(253_402_300_800, 0), "+10000-01-01T00:00:00+00:00");
    assert_eq!(at(8_210_266_876_799, 0), "+262142-12-31T23:59:59+00:00");
}

#[test]
fn done_with_switchboard_name_stamps_handle() {
    let e = record("done", "ab12", "_test_closer_a", None, None, None, Some("builder-7623"), 0, 0);
    assert_eq!(e.by, "builder-7623");
    assert_eq!(e.op, "done");
    assert!(attributed(Some("builder-7623")));
}

#[test]
fn done_without_any_handle_stamps_unattributed() {
    let e = record("done", "ab12", "_test_closer_b", None, None, None, None, 0, 0);
    assert_eq!(e.by, "UNATTRIBUTED");
    let e = record("done", "ab12", "_test_closer_b", None, None, None, Some(""), 0, 0);
    assert_eq!(e.by, "UNATTRIBUTED");
    assert!(!attributed(None));
    assert!(!attributed(Some("")));
}

#[test]
fn company_comes_from_flag_then_environment() {
    assert_eq!(resolve_company(Some("a"), Some("b")), "a");
    assert_eq!(resolve_company(None, Some("b")), "b");
    assert_eq!(resolve_company(None, None), "_global");
}

#[test]
fn files_are_under_home() {
    assert_eq!(todos_path("/home/u", "acme"), "/home/u/.config/substrate/acme/todos.md");
    assert_eq!(path_for("/home/u", "acme"), "/home/u/.config/substrate/acme/todos.md");
    assert_eq!(lock_path("/home/u", "acme"), "/home/u/.config/substrate/acme/.todos.lock");
    assert_eq!(events_path("/home/u"), "/home/u/.local/state/todo/events.jsonl");
    assert_eq!(todos_path("", "acme"), ".config/substrate/acme/todos.md");
    assert_eq!(events_path("/"), "/.local/state/todo/events.jsonl");
}

#[test]
fn paths_join_as_the_platform_does() {
    for home in ["", "/", "/home/u", "/home/u/", "rel"] {
        for company in ["acme", "", "a/b", "a/", "a//", "a/.", ".", "/abs", "/", "/.", "..", "x.y"] {
            let todos = PathBuf::from(home)
                .join(".config/substrate")
                .join(company)
                .join("todos.md");
            let lock = todos.with_file_name(".todos.lock");
            assert_eq!(todos_path(home, company), todos.to_str().unwrap());
            assert_eq!(lock_path(home, company), lock.to_str().unwrap());
        }
        let events = PathBuf::from(home).join(".local/state/todo/events.jsonl");
        assert_eq!(events_path(home), events.to_str().unwrap());
    }
}
