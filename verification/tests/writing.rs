use todo::model::{IdleOkState, Item, ParkState, Priority, Todos};
use todo::parser::parse;
use todo::writer::render;

#[test]
fn renders_canonical_format() {
    let todos = Todos {
        version: 1,
        company: "global".to_string(),
        items: vec![
            Item {
                id: "abc1".into(),
                priority: Priority(0),
                subject: "first item".into(),
                open: true,
                line: 0,
                closed_on: None,
                idle_ok: IdleOkState::Unset,
                park: ParkState::Active,
                released: false,
                released_ts: None,
                created_ts: None,
                lane: None,
                first_seen_open: None,
                force_real: false,
                evidence: vec![],
            },
            Item {
                id: "def2".into(),
                priority: Priority(0),
                subject: "done thing".into(),
                open: false,
                line: 0,
                closed_on: Some("2026-06-22".into()),
                idle_ok: IdleOkState::Unset,
                park: ParkState::Active,
                released: false,
                released_ts: None,
                created_ts: None,
                lane: None,
                first_seen_open: None,
                force_real: false,
                evidence: vec![],
            },
        ],
        preamble: vec!["# todos — global".into()],
    };
    let out = render(&todos);
    assert!(out.contains("## P0"));
    assert!(out.contains("- [ ] [#abc1] first item"));
    assert!(out.contains("- [x] [#def2] done thing (closed 2026-06-22)"));
}

#[test]
fn roundtrips_through_parser() {
    let src = "# todos — global\n<!-- note -->\n\n## P0\n- [ ] [#abc1] first\n\n## P1\n- [x] [#def2] done (closed 2026-06-22)\n";
    let parsed = parse(src, "global");
    let rendered = render(&parsed);
    let reparsed = parse(&rendered, "global");
    assert_eq!(parsed.items.len(), reparsed.items.len());
    for (a, b) in parsed.items.iter().zip(reparsed.items.iter()) {
        assert_eq!(a.id, b.id);
        assert_eq!(a.priority, b.priority);
        assert_eq!(a.subject, b.subject);
        assert_eq!(a.open, b.open);
        assert_eq!(a.closed_on, b.closed_on);
    }
}

// --- The canonical form ---

fn item(id: &str, level: u32, subject: &str) -> Item {
    Item {
        id: id.to_string(),
        priority: Priority(level),
        subject: subject.to_string(),
        open: true,
        line: 0,
        closed_on: None,
        idle_ok: IdleOkState::Unset,
        park: ParkState::Active,
        released: false,
        released_ts: None,
        created_ts: None,
        lane: None,
        first_seen_open: None,
        force_real: false,
        evidence: vec![],
    }
}

#[test]
fn canonical_text_is_exact() {
    let mut todos = Todos::empty("acme");
    todos.items.push(item("b2", 10, "ten"));
    todos.items.push(item("a1", 2, "two"));
    let mut full = item("c3", 2, "full");
    full.open = false;
    full.closed_on = Some("2026-01-03".to_string());
    full.idle_ok = IdleOkState::Approved;
    full.park = ParkState::Parked;
    full.released = true;
    full.released_ts = Some("R".to_string());
    full.created_ts = Some("C".to_string());
    full.first_seen_open = Some("F".to_string());
    full.force_real = true;
    full.evidence = vec!["x".to_string(), "y".to_string()];
    todos.items.push(full);
    assert_eq!(
        render(&todos),
        "# todos — acme\n\n## P2\n- [ ] [#a1] two\n- [x] [#c3] [idle-ok] [parked] [released R] [created C] [fseen F] [real] [ev x] [ev y] full (closed 2026-01-03)\n\n## P10\n- [ ] [#b2] ten\n\n"
    );
}

#[test]
fn preamble_comes_out_verbatim() {
    let mut todos = Todos::empty("acme");
    todos.preamble = vec!["# mine".to_string(), "note".to_string()];
    assert_eq!(render(&todos), "# mine\nnote\n\n");
    todos.preamble.push("".to_string());
    assert_eq!(render(&todos), "# mine\nnote\n\n");
    assert_eq!(render(&Todos::empty("acme")), "# todos — acme\n\n");
}

#[test]
fn item_without_state_is_bare() {
    let mut todos = Todos::empty("acme");
    todos.items.push(item("", 0, "bare"));
    assert!(render(&todos).contains("\n- [ ] bare\n"));
}

#[test]
fn file_settles_after_one_rewrite() {
    let src = "hello\n\n## P5\n- [ ] [#e5] five\nstray\n## P1\n- [x] [#a1] [parked] one (closed 2026-01-01)\n- [ ] [#b1] [lane:a/b/_] two\n";
    let first = parse(src, "c");
    let text = render(&first);
    let second = parse(&text, "c");
    assert_eq!(render(&second), text);
    let ids: Vec<&str> = second.items.iter().map(|i| i.id.as_str()).collect();
    assert_eq!(ids, vec!["a1", "b1", "e5"]);
    assert_eq!(second.items[1].lane.as_ref().unwrap().project, "b");
    assert_eq!(second.preamble, vec!["hello", ""]);
    let lines: Vec<&str> = text.lines().collect();
    for i in &second.items {
        assert!(lines[i.line - 1].contains(&format!("[#{}]", i.id)));
    }
}

#[test]
fn subject_like_a_marker_is_taken_for_one() {
    let mut todos = Todos::empty("c");
    todos.items.push(item("a1", 0, "[parked] not a state"));
    let again = parse(&render(&todos), "c");
    assert_eq!(again.items[0].park, ParkState::Parked);
    assert_eq!(again.items[0].subject, "not a state");
}
