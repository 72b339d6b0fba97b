use todo::model::{IdleOkState, Item, ParkState, Priority, StatsOutput, Todos};
use todo::ops;
use todo::ops::{is_churn, OpError};
use todo::parser;
use todo::writer;

fn make_item(
    id: &str,
    open: bool,
    first_seen_open: Option<&str>,
    force_real: bool,
    created_ts: Option<&str>,
    closed_on: Option<&str>,
) -> Item {
    Item {
        id: id.to_string(),
        priority: Priority(1),
        subject: "test item".to_string(),
        open,
        line: 0,
        closed_on: closed_on.map(|s| s.to_string()),
        idle_ok: IdleOkState::Unset,
        park: ParkState::Active,
        released: false,
        released_ts: None,
        created_ts: created_ts.map(|s| s.to_string()),
        lane: None,
        first_seen_open: first_seen_open.map(|s| s.to_string()),
        force_real,
        evidence: vec![],
    }
}

fn stats_from_todos(todos: &Todos, since: &str) -> StatsOutput {
    ops::stats(todos, since)
}

// --- Markers of churn tracking ---

#[test]
fn writer_emits_nothing_for_absent_fseen_real() {
    let mut todos = Todos::empty("test");
    todos.items.push(make_item("a1b2", true, None, false, None, None));
    let out = writer::render(&todos);
    assert!(!out.contains("[fseen"), "fseen must not appear when first_seen_open=None");
    assert!(!out.contains("[real]"), "[real] must not appear when force_real=false");
}

#[test]
fn writer_emits_fseen_and_real_when_set() {
    let mut todos = Todos::empty("test");
    todos.items.push(make_item("a1b2", true, Some("2026-07-02T01:00:00Z"), true, None, None));
    let out = writer::render(&todos);
    assert!(out.contains("[fseen 2026-07-02T01:00:00Z]"), "fseen must appear");
    assert!(out.contains("[real]"), "[real] must appear");
}

#[test]
fn roundtrip_fseen_real_markers() {
    let src = "## P1\n- [ ] [#a1b2] [created 2026-07-02T00:10:00Z] [fseen 2026-07-02T01:00:00Z] [real] the subject\n";
    let parsed = parser::parse(src, "test");
    let rendered = writer::render(&parsed);
    let reparsed = parser::parse(&rendered, "test");
    let item = &reparsed.items[0];
    assert_eq!(item.first_seen_open.as_deref(), Some("2026-07-02T01:00:00Z"));
    assert!(item.force_real);
    assert_eq!(item.subject, "the subject");
}

// --- Churn ---

#[test]
fn pre_epoch_item_not_churn() {
    let item = make_item("b1c2", false, None, false, Some("2026-06-30T12:00:00Z"), Some("2026-07-02"));
    assert!(!is_churn(&item), "pre-epoch item must not be flagged churn");
}

#[test]
fn no_created_ts_not_churn() {
    let item = make_item("c2d3", false, None, false, None, Some("2026-07-02"));
    assert!(!is_churn(&item), "item with no created_ts must not be flagged churn");
}

#[test]
fn shape_a_phantom_burst_all_excluded() {
    let items: Vec<Item> = (0..10)
        .map(|i| {
            make_item(
                &format!("ph{:02}", i),
                false,
                None,
                false,
                Some("2026-07-02T00:30:00Z"),
                Some("2026-07-02"),
            )
        })
        .collect();
    let churn_count = items.iter().filter(|i| is_churn(i)).count();
    assert_eq!(churn_count, 10, "all 10 phantom items must be churn");

    let mut todos = Todos::empty("test");
    todos.items = items;
    let out = stats_from_todos(&todos, "2026-07-02T00:00:00Z");
    assert_eq!(out.excluded_churn, 10);
    assert_eq!(out.closed_real, 0);
}

#[test]
fn shape_b_legit_close_counted() {
    let item = make_item(
        "lg01",
        false,
        Some("2026-07-02T00:05:00Z"),
        false,
        Some("2026-07-02T00:01:00Z"),
        Some("2026-07-02"),
    );
    assert!(!is_churn(&item));
    let mut todos = Todos::empty("test");
    todos.items = vec![item];
    let out = stats_from_todos(&todos, "2026-07-02T00:00:00Z");
    assert_eq!(out.closed_real, 1);
    assert_eq!(out.excluded_churn, 0);
}

#[test]
fn shape_c_cross_day_no_sweep_excluded() {
    let item = make_item(
        "cd01",
        false,
        None,
        false,
        Some("2026-07-02T00:01:00Z"),
        Some("2026-07-03"),
    );
    assert!(is_churn(&item));
    let mut todos = Todos::empty("test");
    todos.items = vec![item];
    let out = stats_from_todos(&todos, "2026-07-02T00:00:00Z");
    assert_eq!(out.excluded_churn, 1);
}

#[test]
fn shape_d_force_real_counted() {
    let item = make_item(
        "fr01",
        false,
        None,
        true,
        Some("2026-07-02T00:01:00Z"),
        Some("2026-07-02"),
    );
    assert!(!is_churn(&item));
    let mut todos = Todos::empty("test");
    todos.items = vec![item];
    let out = stats_from_todos(&todos, "2026-07-02T00:00:00Z");
    assert_eq!(out.closed_real, 1);
    assert_eq!(out.forced_real, 1);
    assert_eq!(out.excluded_churn, 0);
}

#[test]
fn shape_e_sweep_reliability_counted() {
    let item = make_item(
        "sr01",
        false,
        Some("2026-07-02T00:05:00Z"),
        false,
        Some("2026-07-02T00:01:00Z"),
        Some("2026-07-02"),
    );
    assert!(!is_churn(&item), "swept item must not be churn");
    let mut todos = Todos::empty("test");
    todos.items = vec![item];
    let out = stats_from_todos(&todos, "2026-07-02T00:00:00Z");
    assert_eq!(out.closed_real, 1);
    assert_eq!(out.excluded_churn, 0);
}

#[test]
fn churn_starts_at_the_epoch() {
    let at = make_item("e1", false, None, false, Some("2026-07-02T00:00:00Z"), Some("2026-07-02"));
    assert!(is_churn(&at));
    let just_before =
        make_item("e2", false, None, false, Some("2026-07-01T23:59:59Z"), Some("2026-07-02"));
    assert!(!is_churn(&just_before));
    assert_eq!(ops::PHASE_2A_EPOCH, "2026-07-02T00:00:00Z");
}

// --- Evidence ---

#[test]
fn evidence_add_rejects_bracket_in_ref() {
    let mut todos = Todos::empty("__test_nonexistent__");
    let result = ops::evidence_add(&mut todos, "id", "bad]ref");
    assert!(result.is_err(), "expected Err for ref containing ']'");
    let msg = result.unwrap_err().message();
    assert!(msg.contains("']'"), "error should name the forbidden char: {}", msg);
}

#[test]
fn evidence_add_accepts_clean_ref() {
    let mut todos = Todos::empty("__test_nonexistent__");
    let result = ops::evidence_add(&mut todos, "id", "wire:abc123");
    match result {
        Err(OpError::InvalidInput(e)) => {
            panic!("guard fired on a clean ref: {}", e);
        }
        _ => {}
    }
}

#[test]
fn evidence_is_appended_and_cleared() {
    let mut todos = two_items();
    ops::evidence_add(&mut todos, "aa11", "first").unwrap();
    let e = ops::evidence_add(&mut todos, "aa11", "second").unwrap();
    assert_eq!(todos.items[0].evidence, vec!["first", "second"]);
    assert!(todos.items[1].evidence.is_empty());
    assert_eq!(e.op, "evidence_add");
    assert_eq!(e.id, "aa11");
    assert_eq!(e.subject.as_deref(), Some("second"));
    let e = ops::evidence_clear(&mut todos, "aa11").unwrap();
    assert_eq!(e.op, "evidence_clear");
    assert!(todos.items[0].evidence.is_empty());
}

// --- One item at a time ---

const NOW: u64 = 1_782_950_461; // 2026-07-02T00:01:01Z

fn two_items() -> Todos {
    let mut todos = Todos::empty("c");
    todos.items.push(make_item("aa11", true, None, false, None, None));
    todos.items.push(make_item("bb22", true, None, false, None, None));
    todos
}

#[test]
fn unknown_ids_are_refused() {
    let named = Err(OpError::NotFound("id `zz` not found".to_string()));
    let plain = Err(OpError::NotFound("id not found".to_string()));
    let mut t = two_items();
    assert_eq!(ops::bless(&mut t, "zz"), named);
    assert_eq!(ops::release(&mut t, "zz", NOW), named);
    assert_eq!(ops::unrelease(&mut t, "zz"), named);
    assert_eq!(ops::park(&mut t, "zz"), named);
    assert_eq!(ops::unpark(&mut t, "zz"), named);
    assert_eq!(ops::park_suggest(&mut t, "zz"), named);
    assert_eq!(ops::evidence_add(&mut t, "zz", "r"), named);
    assert_eq!(ops::evidence_clear(&mut t, "zz"), named);
    assert_eq!(ops::reprioritize(&mut t, "zz", Priority(0)), plain);
    assert_eq!(ops::done(&mut t, "zz", false, NOW), plain);
    assert_eq!(ops::reopen(&mut t, "zz"), plain);
    assert_eq!(
        ops::evidence_add(&mut t, "zz", "]").unwrap_err().message(),
        "evidence ref must not contain ']'"
    );
}

#[test]
fn bless_approves() {
    let mut t = two_items();
    let e = ops::bless(&mut t, "bb22").unwrap();
    assert_eq!(t.items[1].idle_ok, IdleOkState::Approved);
    assert_eq!(t.items[0].idle_ok, IdleOkState::Unset);
    assert_eq!((e.op, e.id.as_str()), ("bless", "bb22"));
    assert_eq!((e.from, e.to, e.subject), (None, None, None));
}

#[test]
fn release_and_back() {
    let mut t = two_items();
    let e = ops::release(&mut t, "aa11", NOW).unwrap();
    assert!(t.items[0].released);
    assert_eq!(t.items[0].released_ts.as_deref(), Some("2026-07-02T00:01:01Z"));
    assert_eq!(e.subject.as_deref(), Some("2026-07-02T00:01:01Z"));
    assert!(t.items[0].open);
    ops::unrelease(&mut t, "aa11").unwrap();
    assert!(!t.items[0].released);
    assert_eq!(t.items[0].released_ts, None);
}

#[test]
fn done_and_back() {
    let mut t = two_items();
    let e = ops::done(&mut t, "aa11", false, NOW).unwrap();
    assert_eq!(e.op, "done");
    assert!(!t.items[0].open);
    assert_eq!(t.items[0].closed_on.as_deref(), Some("2026-07-02"));
    assert!(!t.items[0].force_real);
    ops::reopen(&mut t, "aa11").unwrap();
    assert!(t.items[0].open);
    assert_eq!(t.items[0].closed_on, None);
    ops::done(&mut t, "aa11", true, NOW).unwrap();
    assert!(t.items[0].force_real);
    ops::reopen(&mut t, "aa11").unwrap();
    assert!(t.items[0].force_real);
}

#[test]
fn reprioritize_moves_and_keeps_the_id() {
    let mut t = two_items();
    let e = ops::reprioritize(&mut t, "bb22", Priority(0)).unwrap();
    assert_eq!(t.items[1].priority, Priority(0));
    assert_eq!(t.items[1].id, "bb22");
    assert_eq!(e.from.as_deref(), Some("P1"));
    assert_eq!(e.to.as_deref(), Some("P0"));
    ops::reprioritize(&mut t, "bb22", Priority(0)).unwrap();
    assert_eq!(t.items[1].priority, Priority(0));
    assert_eq!(t.items[0].priority, Priority(1));
}

#[test]
fn first_of_two_equal_ids_is_changed() {
    let mut t = two_items();
    t.items[1].id = "aa11".to_string();
    ops::park(&mut t, "aa11").unwrap();
    assert_eq!(t.items[0].park, ParkState::Parked);
    assert_eq!(t.items[1].park, ParkState::Active);
    assert!(t.has_id("aa11"));
    assert!(!t.has_id("bb22"));
    assert_eq!(t.find("aa11").unwrap().park, ParkState::Parked);
    t.find_mut("aa11").unwrap().subject = "changed".to_string();
    assert_eq!(t.items[0].subject, "changed");
    assert_eq!(t.by_priority(&Priority(1), true).len(), 2);
    assert_eq!(t.by_priority(&Priority(2), false).len(), 0);
}

// --- Ids ---

#[test]
fn ids_are_drawn_from_the_clock() {
    assert_eq!(ops::generate_id(1, 4242), "pujc");
    assert_eq!(ops::generate_id(123456789, 4242), "tebc");
    assert_eq!(ops::generate_id(7, 7).len(), 4);
}

#[test]
fn fresh_add_stamps_created_ts() {
    let mut t = Todos::empty("_test_m0");
    let (id, e) = ops::add(
        &mut t,
        "M0 (b)-test subject",
        Priority(1),
        IdleOkState::Unset,
        false,
        NOW,
        &[1],
        4242,
    )
    .unwrap();
    assert_eq!(id, "pujc");
    let item = t.find(&id).unwrap();
    assert_eq!(item.created_ts.as_deref(), Some("2026-07-02T00:01:01Z"));
    assert_eq!(item.subject, "M0 (b)-test subject");
    assert!(item.open);
    assert_eq!(e.op, "add");
    assert_eq!(e.to.as_deref(), Some("P1"));
    assert_eq!(e.subject.as_deref(), Some("M0 (b)-test subject"));
}

#[test]
fn add_avoids_ids_in_use() {
    let mut t = two_items();
    t.items[0].id = "pujc".to_string();
    let add = |t: &mut Todos, draws: &[u32]| {
        ops::add(t, "s", Priority(0), IdleOkState::Suggest, true, NOW, draws, 4242)
    };
    assert!(add(&mut t, &[1, 1]).is_none());
    assert!(add(&mut t, &[]).is_none());
    assert_eq!(t.items.len(), 2);
    let (id, _) = add(&mut t, &[1, 2, 3]).unwrap();
    assert_eq!(id, "e7k1");
    assert_eq!(t.items[2].id, "e7k1");
    assert_eq!(t.items[2].idle_ok, IdleOkState::Suggest);
    assert!(t.items[2].force_real);
}

#[test]
fn touch_fills_missing_ids_only() {
    let mut t = two_items();
    t.items[0].id = String::new();
    t.items[1].id = "pujc".to_string();
    t.items.push(make_item("", true, None, false, None, None));
    assert!(ops::touch(&mut t, &[1, 2], 4242).is_none());
    assert_eq!(t.items[0].id, "");
    let out = ops::touch(&mut t, &[1, 2, 2, 3], 4242).unwrap();
    assert_eq!(out.backfilled, 2);
    assert_eq!(out.entry.unwrap().id, "backfilled-2");
    let ids: Vec<&str> = t.items.iter().map(|i| i.id.as_str()).collect();
    assert_eq!(ids, vec!["e7k1", "pujc", "nwda"]);
    let again = ops::touch(&mut t, &[], 4242).unwrap();
    assert_eq!(again.backfilled, 0);
    assert!(again.entry.is_none());
}

#[test]
fn a_write_leaves_no_item_without_id() {
    let mut t = parser::parse("## P0\n- [ ] no id yet\n", "c");
    assert!(ops::written(&mut t, &[], 4242).is_none());
    let text = ops::written(&mut t, &[1], 4242).unwrap();
    assert_eq!(text, "# todos — c\n\n## P0\n- [ ] [#pujc] no id yet\n\n");
    assert_eq!(parser::parse(&text, "c").items[0].id, "pujc");
}

// --- Sweeps ---

#[test]
fn sweep_stamps_open_items_once() {
    let mut t = two_items();
    t.items[1].first_seen_open = Some("earlier".to_string());
    t.items.push(make_item("cc33", false, None, false, None, Some("2026-01-01")));
    let out = ops::sweep(&mut t, NOW);
    assert_eq!((out.scanned, out.stamped), (2, 1));
    let e = out.entry.unwrap();
    assert_eq!(e.op, "sweep");
    assert_eq!(e.id, "stamped-1");
    assert_eq!(e.subject.as_deref(), Some("scanned=2"));
    assert_eq!(t.items[0].first_seen_open.as_deref(), Some("2026-07-02T00:01:01Z"));
    assert_eq!(t.items[1].first_seen_open.as_deref(), Some("earlier"));
    assert_eq!(t.items[2].first_seen_open, None);
    let again = ops::sweep(&mut t, NOW + 300);
    assert_eq!((again.scanned, again.stamped), (2, 0));
    assert!(again.entry.is_none());
    assert_eq!(t.items[0].first_seen_open.as_deref(), Some("2026-07-02T00:01:01Z"));
}

#[test]
fn backfill_takes_leading_dates_up_to_today() {
    let subjects = [
        "2026-06-01 filed",
        "[2026-07-02] today",
        "2026-07-03 tomorrow",
        "see 2026-06-01",
        "2026-06-011 too long",
        "  [2026-05-05 spaced",
    ];
    let mut t = Todos::empty("c");
    for s in subjects {
        let mut i = make_item("x", true, None, false, None, None);
        i.subject = s.to_string();
        t.items.push(i);
    }
    t.items.push(make_item("y", true, None, false, Some("kept"), None));
    let dry = ops::backfill_created(&mut t, true, NOW);
    assert_eq!((dry.scanned, dry.stamped, dry.rejected_future), (6, 3, 1));
    assert!(dry.entry.is_none());
    assert!(t.items[0].created_ts.is_none());
    let wet = ops::backfill_created(&mut t, false, NOW);
    assert_eq!((wet.scanned, wet.stamped, wet.rejected_future), (6, 3, 1));
    let e = wet.entry.unwrap();
    assert_eq!(e.op, "backfill-created");
    assert_eq!(e.id, "stamped-3");
    assert_eq!(e.subject.as_deref(), Some("scanned=6,rejected_future=1"));
    let got: Vec<Option<&str>> = t.items.iter().map(|i| i.created_ts.as_deref()).collect();
    assert_eq!(
        got,
        vec![
            Some("2026-06-01T00:00:00Z"),
            Some("2026-07-02T00:00:00Z"),
            None,
            None,
            None,
            Some("2026-05-05T00:00:00Z"),
            Some("kept"),
        ]
    );
    assert_eq!(ops::backfill_created(&mut t, false, NOW).stamped, 0);
}

#[test]
fn burst_counts_only_if_forced_or_swept() {
    let mut t = Todos::empty("c");
    let quick = ops::add(&mut t, "q", Priority(1), IdleOkState::Unset, false, NOW, &[1], 9).unwrap().0;
    ops::done(&mut t, &quick, false, NOW).unwrap();
    let forced = ops::add(&mut t, "f", Priority(1), IdleOkState::Unset, false, NOW, &[2], 9).unwrap().0;
    ops::done(&mut t, &forced, true, NOW).unwrap();
    let seen = ops::add(&mut t, "s", Priority(1), IdleOkState::Unset, false, NOW, &[3], 9).unwrap().0;
    ops::sweep(&mut t, NOW + 60);
    ops::done(&mut t, &seen, false, NOW + 61).unwrap();
    let out = ops::stats(&t, "2026-07-02");
    assert_eq!((out.closed_real, out.excluded_churn, out.forced_real), (2, 1, 1));
    assert_eq!(out.summary, "closed 2 real, excluded 1 churn, 1 forced-real");
    assert_eq!(out.company, "c");
    assert_eq!(out.since, "2026-07-02");
}

// --- Changes that are stored in between ---

const CANONICAL: &str = "# todos — test\n\nkept by hand\n\n## P0\n- [ ] [#a1b2] [real] first\n- [ ] [#c3d4] [x/y/_] second\n\n## P2\n- [ ] [#c3d4] same id\n- [x] [#e5f6] third (closed 2026-01-02)\n\n";

/// Writes the list and reads it again.
fn stored(t: &mut Todos) -> (String, Todos) {
    let text = ops::written(t, &[], 7).unwrap();
    let again = parser::parse(&text, "test");
    (text, again)
}

#[test]
fn unpark_restores_the_file() {
    for suggest in [false, true] {
        let mut t = parser::parse(CANONICAL, "test");
        assert_eq!(writer::render(&t), CANONICAL);
        if suggest {
            ops::park_suggest(&mut t, "c3d4").unwrap();
        } else {
            ops::park(&mut t, "c3d4").unwrap();
        }
        let (text, mut t) = stored(&mut t);
        assert_ne!(text, CANONICAL);
        ops::unpark(&mut t, "c3d4").unwrap();
        assert_eq!(stored(&mut t).0, CANONICAL);
    }
}

#[test]
fn unrelease_restores_the_file() {
    let mut t = parser::parse(CANONICAL, "test");
    ops::release(&mut t, "a1b2", NOW).unwrap();
    let (text, mut t) = stored(&mut t);
    assert!(text.contains("[#a1b2] [released "));
    ops::unrelease(&mut t, "a1b2").unwrap();
    assert_eq!(stored(&mut t).0, CANONICAL);
}

#[test]
fn reopen_restores_the_file() {
    // A mark that was there before stays, so `force_real` leaves no trace.
    for (id, force) in [("c3d4", false), ("a1b2", false), ("a1b2", true)] {
        let mut t = parser::parse(CANONICAL, "test");
        ops::done(&mut t, id, force, NOW).unwrap();
        let (text, mut t) = stored(&mut t);
        assert_eq!(text.matches("(closed ").count(), 2);
        ops::reopen(&mut t, id).unwrap();
        assert_eq!(stored(&mut t).0, CANONICAL);
    }
}

#[test]
fn second_sweep_finds_the_file_as_the_first_left_it() {
    // Out of order, without ids, and one subject that is taken for a marker.
    let src = "## P2\n- [ ] late\n## P0\n- [ ]  [real] early\n- [x] gone\n";
    let mut t = parser::parse(src, "test");
    let first = ops::sweep(&mut t, NOW);
    assert_eq!((first.scanned, first.stamped), (2, 2));
    let text = ops::written(&mut t, &[1, 2, 3, 4], 7).unwrap();
    let mut t = parser::parse(&text, "test");
    let second = ops::sweep(&mut t, NOW + 86_400);
    assert_eq!((second.scanned, second.stamped), (2, 0));
    assert!(second.entry.is_none());
    assert_eq!(writer::render(&t), text);
}
