use todo::model::{IdleOkState, Lane, ParkState, Priority};
use todo::parser::{parse, peek_lane};
use todo::writer;

#[test]
fn parses_canonical_format() {
    let src = "# todos — global\n<!-- preamble -->\n\n## P0\n- [ ] [#abc1] first item\n- [x] [#def2] done (closed 2026-06-22)\n\n## P1\n- [ ] [#ghi3] later\n";
    let todos = parse(src, "global");
    assert_eq!(todos.company, "global");
    assert_eq!(todos.items.len(), 3);
    assert_eq!(todos.items[0].id, "abc1");
    assert_eq!(todos.items[0].priority, Priority(0));
    assert!(todos.items[0].open);
    assert_eq!(todos.items[1].id, "def2");
    assert!(!todos.items[1].open);
    assert_eq!(todos.items[1].closed_on.as_deref(), Some("2026-06-22"));
    assert_eq!(todos.items[2].priority, Priority(1));
}

#[test]
fn missing_id_is_empty() {
    let src = "## P0\n- [ ] subject without id\n";
    let todos = parse(src, "global");
    assert_eq!(todos.items.len(), 1);
    assert_eq!(todos.items[0].id, "");
    assert_eq!(todos.items[0].subject, "subject without id");
}

#[test]
fn priority_parse() {
    assert_eq!(Priority::parse("P0"), Some(Priority(0)));
    assert_eq!(Priority::parse("P42"), Some(Priority(42)));
    assert_eq!(Priority::parse("Px"), None);
}

#[test]
fn peek_lane_parses_full_tag() {
    let lane = peek_lane("[lane:substrate/todo/parser]");
    assert_eq!(lane, Some(Lane {
        company: "substrate".into(),
        project: "todo".into(),
        component: Some("parser".into()),
    }));
}

#[test]
fn peek_lane_underscore_thread_is_none() {
    let lane = peek_lane("[lane:acme/_/_]");
    assert!(lane.is_some());
    let l = lane.unwrap();
    assert_eq!(l.company, "acme");
    assert_eq!(l.project, "_");
    assert_eq!(l.component, None);
}

#[test]
fn peek_lane_untagged_is_none() {
    assert_eq!(peek_lane("some plain subject"), None);
    assert_eq!(peek_lane("[created 2026-01-01T00:00:00Z] subject"), None);
}

#[test]
fn parse_lane_tagged_item_lane_field() {
    let src = "## P1\n- [ ] [#abc1] [lane:outfit/app-android/_] fix crash\n";
    let todos = parse(src, "global");
    assert_eq!(todos.items.len(), 1);
    let item = &todos.items[0];
    let lane = item.lane.as_ref().expect("lane should be Some");
    assert_eq!(lane.company, "outfit");
    assert_eq!(lane.project, "app-android");
    assert_eq!(lane.component, None);
    // subject still contains the tag (backward-compat)
    assert!(item.subject.starts_with("[lane:outfit/app-android/_]"));
}

#[test]
fn parse_untagged_item_lane_is_none() {
    let src = "## P0\n- [ ] [#xyz1] no lane tag here\n";
    let todos = parse(src, "global");
    assert_eq!(todos.items.len(), 1);
    assert!(todos.items[0].lane.is_none());
}

#[test]
fn parses_fseen_marker() {
    let src = "## P1\n- [ ] [#aa01] [created 2026-07-02T00:01:00Z] [fseen 2026-07-02T00:05:00Z] the subject\n";
    let todos = parse(src, "global");
    let item = &todos.items[0];
    assert_eq!(item.first_seen_open.as_deref(), Some("2026-07-02T00:05:00Z"));
    assert!(!item.force_real);
    assert_eq!(item.subject, "the subject");
}

#[test]
fn parses_real_marker() {
    let src = "## P1\n- [x] [#bb02] [created 2026-07-02T00:01:00Z] [real] quick task (closed 2026-07-02)\n";
    let todos = parse(src, "global");
    let item = &todos.items[0];
    assert!(item.force_real);
    assert!(item.first_seen_open.is_none());
    assert_eq!(item.subject, "quick task");
}

#[test]
fn parses_fseen_and_real_together() {
    let src = "## P0\n- [ ] [#cc03] [created 2026-07-02T00:01:00Z] [fseen 2026-07-02T00:06:00Z] [real] dual subject\n";
    let todos = parse(src, "global");
    let item = &todos.items[0];
    assert_eq!(item.first_seen_open.as_deref(), Some("2026-07-02T00:06:00Z"));
    assert!(item.force_real);
    assert_eq!(item.subject, "dual subject");
}

#[test]
fn absent_fseen_real_parses_to_defaults() {
    let src = "## P0\n- [ ] [#dd04] plain subject\n";
    let todos = parse(src, "global");
    let item = &todos.items[0];
    assert!(item.first_seen_open.is_none());
    assert!(!item.force_real);
}

// --- Evidence pool tests ---

#[test]
fn parses_single_evidence_marker() {
    let src = "## P0\n- [ ] [#ev01] [ev msg:abc123] subject text\n";
    let todos = parse(src, "global");
    let item = &todos.items[0];
    assert_eq!(item.evidence, vec!["msg:abc123"]);
    assert_eq!(item.subject, "subject text");
}

#[test]
fn parses_multiple_evidence_markers_in_order() {
    let src = "## P0\n- [ ] [#ev02] [ev wire-a1b2] [ev file.rs:42] [ev https://example.com] the task\n";
    let todos = parse(src, "global");
    let item = &todos.items[0];
    assert_eq!(item.evidence, vec!["wire-a1b2", "file.rs:42", "https://example.com"]);
    assert_eq!(item.subject, "the task");
}

#[test]
fn no_evidence_markers_gives_empty_vec() {
    let src = "## P0\n- [ ] [#ev03] plain subject\n";
    let todos = parse(src, "global");
    let item = &todos.items[0];
    assert!(item.evidence.is_empty());
}

#[test]
fn evidence_markers_after_real_marker() {
    let src = "## P0\n- [ ] [#ev04] [created 2026-07-01T00:00:00Z] [real] [ev ref-xyz] subject\n";
    let todos = parse(src, "global");
    let item = &todos.items[0];
    assert!(item.force_real);
    assert_eq!(item.evidence, vec!["ref-xyz"]);
    assert_eq!(item.subject, "subject");
}

#[test]
fn evidence_roundtrip_byte_stable() {
    // Evidence markers roundtrip: parse -> write -> parse gives identical evidence.
    let src = "## P0\n- [ ] [#ev05] [ev ref-a] [ev ref-b] subject with evidence\n";
    let parsed = parse(src, "global");
    let rendered = writer::render(&parsed);
    let reparsed = parse(&rendered, "global");
    assert_eq!(reparsed.items[0].evidence, vec!["ref-a", "ref-b"]);
    assert_eq!(reparsed.items[0].subject, "subject with evidence");
}

#[test]
fn existing_items_roundtrip_byte_stable_no_evidence_emitted() {
    // Items with no evidence must not have [ev] markers added — byte-stable.
    let src = "# todos — global\n\n## P0\n- [ ] [#xx01] plain item\n- [x] [#xx02] done item (closed 2026-07-01)\n";
    let parsed = parse(src, "global");
    let rendered = writer::render(&parsed);
    // No [ev] in rendered output.
    assert!(!rendered.contains("[ev "));
    // md5 of rendered == md5 of a fresh render of the same data — content stable.
    let reparsed = parse(&rendered, "global");
    assert_eq!(reparsed.items[0].evidence, Vec::<String>::new());
    assert_eq!(reparsed.items[1].evidence, Vec::<String>::new());
}

#[test]
fn evidence_with_lane_tag_roundtrip() {
    // [ev] before lane-in-subject: both must survive roundtrip.
    let src = "## P1\n- [ ] [#ev06] [ev wire:abc] [lane:substrate/todo/_] the subject\n";
    let parsed = parse(src, "global");
    let item = &parsed.items[0];
    assert_eq!(item.evidence, vec!["wire:abc"]);
    assert!(item.subject.starts_with("[lane:substrate/todo/_]"));
    // Roundtrip preserves both.
    let rendered = writer::render(&parsed);
    let reparsed = parse(&rendered, "global");
    assert_eq!(reparsed.items[0].evidence, vec!["wire:abc"]);
    assert!(reparsed.items[0].subject.starts_with("[lane:substrate/todo/_]"));
}

// --- Edges of the grammar ---

#[test]
fn every_marker_is_read() {
    let src = "## P2\n- [X] [#zz09] [idle-ok-suggest] [park-suggest] [released 2026-01-02T03:04:05Z] [created 2026-01-01T00:00:00Z] [fseen 2026-01-01T00:05:00Z] [real] [ev a] [lane:x/y/z] all of it (closed 2026-01-03)\n";
    let todos = parse(src, "c");
    let item = &todos.items[0];
    assert_eq!(item.id, "zz09");
    assert_eq!(item.priority, Priority(2));
    assert!(!item.open);
    assert_eq!(item.line, 2);
    assert_eq!(item.idle_ok, IdleOkState::Suggest);
    assert_eq!(item.park, ParkState::Suggested);
    assert!(item.released);
    assert_eq!(item.released_ts.as_deref(), Some("2026-01-02T03:04:05Z"));
    assert_eq!(item.created_ts.as_deref(), Some("2026-01-01T00:00:00Z"));
    assert_eq!(item.first_seen_open.as_deref(), Some("2026-01-01T00:05:00Z"));
    assert!(item.force_real);
    assert_eq!(item.evidence, vec!["a"]);
    assert_eq!(item.subject, "[lane:x/y/z] all of it");
    assert_eq!(item.closed_on.as_deref(), Some("2026-01-03"));
    let lane = item.lane.as_ref().unwrap();
    assert_eq!(lane.component.as_deref(), Some("z"));
}

#[test]
fn preamble_ends_at_the_first_heading() {
    let src = "title\n\n<!-- note -->\n## Notes\nfree text\n- [ ] in no bucket\n## P3\n- [ ] in a bucket\n";
    let todos = parse(src, "c");
    assert_eq!(todos.preamble, vec!["title", "", "<!-- note -->"]);
    assert_eq!(todos.items.len(), 1);
    assert_eq!(todos.items[0].subject, "in a bucket");
    assert_eq!(todos.items[0].line, 8);
}

#[test]
fn windows_line_endings_are_read() {
    let todos = parse("# t\r\n\r\n## P0\r\n- [ ] [#ab12] x\r\n", "c");
    assert_eq!(todos.preamble, vec!["# t", ""]);
    assert_eq!(todos.items[0].id, "ab12");
    assert_eq!(todos.items[0].subject, "x");
}

#[test]
fn closing_annotation_stands_at_the_end_only() {
    let todos = parse("## P0\n- [x] a (closed 2026-01-01) b\n- [x] c (paren)\n", "c");
    assert_eq!(todos.items[0].subject, "a (closed 2026-01-01) b");
    assert_eq!(todos.items[0].closed_on, None);
    assert_eq!(todos.items[1].subject, "c (paren)");
    assert_eq!(todos.items[1].closed_on, None);
}

#[test]
fn only_a_date_is_a_closing_annotation() {
    let src = "## P0\n- [ ] office (closed mondays)\n- [x] a (closed 2026-1-2)\n- [x] b (closed 2026-01-02 )\n- [x] c (closed 2026-01-02)\n- [x] (closed 2026-01-03)\n- [x] d (closed x) (closed 2026-01-04)\n";
    let todos = parse(src, "c");
    let got: Vec<(&str, Option<&str>)> =
        todos.items.iter().map(|i| (i.subject.as_str(), i.closed_on.as_deref())).collect();
    assert_eq!(
        got,
        vec![
            ("office (closed mondays)", None),
            ("a (closed 2026-1-2)", None),
            ("b (closed 2026-01-02 )", None),
            ("c", Some("2026-01-02")),
            ("", Some("2026-01-03")),
            ("d (closed x)", Some("2026-01-04")),
        ]
    );
    let again = parse(&writer::render(&todos), "c");
    assert_eq!(again.items[0].subject, "office (closed mondays)");
    assert_eq!(again.items[5].subject, "d (closed x)");
    assert_eq!(again.items[5].closed_on.as_deref(), Some("2026-01-04"));
}

#[test]
fn an_id_is_a_token() {
    let src = "## P0\n- [ ] [#é-1:x] a\n- [ ] [#] b\n- [ ] [#two words] c\n- [ ] [#open d\n";
    let todos = parse(src, "c");
    let got: Vec<(&str, &str)> =
        todos.items.iter().map(|i| (i.id.as_str(), i.subject.as_str())).collect();
    assert_eq!(
        got,
        vec![("é-1:x", "a"), ("", "[#] b"), ("", "[#two words] c"), ("", "[#open d")]
    );
}

#[test]
fn signed_headings_open_no_bucket() {
    let todos = parse("## P+1\n- [ ] lost\n## P1\n- [ ] kept\n", "c");
    assert_eq!(todos.items.len(), 1);
    assert_eq!(todos.items[0].subject, "kept");
}

#[test]
fn priority_text_form() {
    assert_eq!(Priority(7).as_str(), "P7");
    assert_eq!(Priority(4_294_967_295).as_str(), "P4294967295");
    assert_eq!(Priority::parse("P4294967295"), Some(Priority(4_294_967_295)));
    assert_eq!(Priority::parse("P4294967296"), None);
    assert_eq!(Priority::parse("P"), None);
    assert_eq!(Priority::parse("p1"), None);
    assert_eq!(Priority::parse("P+5"), None);
    assert_eq!(Priority::parse("P-1"), None);
    assert_eq!(Priority::parse("P 1"), None);
    assert_eq!(Priority::parse("P007"), Some(Priority(7)));
}

#[test]
fn state_names() {
    assert_eq!(IdleOkState::default().as_str(), "none");
    assert_eq!(IdleOkState::parse("suggest"), Ok(IdleOkState::Suggest));
    assert_eq!(IdleOkState::parse("approved"), Ok(IdleOkState::Approved));
    assert_eq!(
        IdleOkState::parse("maybe"),
        Err("unknown idle_ok state `maybe`".to_string())
    );
    assert_eq!(ParkState::default().as_str(), "active");
    assert_eq!(ParkState::parse("parked"), Ok(ParkState::Parked));
    assert_eq!(ParkState::parse("suggested"), Ok(ParkState::Suggested));
    assert_eq!(
        ParkState::parse("gone"),
        Err("unknown park state `gone`".to_string())
    );
}

#[test]
fn lane_tags_that_are_none() {
    assert_eq!(peek_lane("[lane:a/b]"), None);
    assert_eq!(peek_lane("[lane:/b/c]"), None);
    assert_eq!(peek_lane("[lane:a//c]"), None);
    assert_eq!(peek_lane("x [lane:a/b/c]"), None);
    assert_eq!(peek_lane("[lane:a/b/c/d]"), None);
    assert_eq!(peek_lane("[lane:a/b] see docs/x [1]"), None);
    assert_eq!(peek_lane("[lane:a/b/c"), None);
    assert_eq!(peek_lane("[lane:a/b/] x").unwrap().component.as_deref(), Some(""));
}

#[test]
fn preamble_runs_to_a_heading_or_the_end() {
    let t = parse("# a\n\ntext\n## P1\n- [ ] x\n# no preamble\n", "test");
    assert_eq!(t.preamble, vec!["# a", "", "text"]);
    let t = parse("# a\n- [ ] x\n", "test");
    assert_eq!(t.preamble, vec!["# a", "- [ ] x"]);
    assert!(t.items.is_empty());
}
