use todo::listing::{clip, parse_lane_arg, pretty_lines, select, ListFilter};
use todo::model::{IdleOkState, Item, ParkState, Priority, Todos};
use todo::ops;
use todo::parser::{parse, peek_lane};
use todo::reports::{count_by_project, salience_inputs, weight};
use todo::writer::render;

const NOW: u64 = 1_782_950_461; // 2026-07-02T00:01:01Z

fn with_one(company: &str, subject: &str, level: u32) -> (Todos, String) {
    let mut t = Todos::empty(company);
    let (id, _) =
        ops::add(&mut t, subject, Priority(level), IdleOkState::Unset, false, NOW, &[1], 1).unwrap();
    (t, id)
}

fn ids(t: &Todos, f: &ListFilter) -> Vec<String> {
    select(t, f).iter().map(|i: &&Item| i.id.clone()).collect()
}

// --- The backlog ---

#[test]
fn park_hides_from_default_list_but_include_parked_shows_it() {
    let (mut t, id) = with_one("_test_park", "parkable item", 1);
    let default = ListFilter::default();
    assert_eq!(ids(&t, &default), vec![id.clone()]);
    ops::park(&mut t, &id).unwrap();
    assert!(ids(&t, &default).is_empty());
    let mut all = ListFilter::default();
    all.include_parked = true;
    assert_eq!(ids(&t, &all), vec![id]);
    assert_eq!(t.items[0].park.as_str(), "parked");
}

#[test]
fn unpark_restores_to_default_list() {
    let (mut t, id) = with_one("_test_unpark", "roundtrip item", 1);
    ops::park(&mut t, &id).unwrap();
    ops::unpark(&mut t, &id).unwrap();
    assert_eq!(ids(&t, &ListFilter::default()), vec![id]);
    assert_eq!(t.items[0].park.as_str(), "active");
}

#[test]
fn park_suggest_stays_visible_not_hidden() {
    let (mut t, id) = with_one("_test_suggest", "suggested item", 1);
    ops::park_suggest(&mut t, &id).unwrap();
    assert_eq!(ids(&t, &ListFilter::default()), vec![id]);
    assert_eq!(t.items[0].park.as_str(), "suggested");
}

#[test]
fn parked_marker_survives_roundtrip() {
    let (mut t, id) = with_one("_test_roundtrip", "persisted park", 1);
    ops::park(&mut t, &id).unwrap();
    let text = render(&t);
    assert!(text.contains("[parked]"), "ledger MUST persist the [parked] marker: {}", text);
    let again = parse(&text, "_test_roundtrip");
    assert_eq!(again.find(&id).unwrap().park, ParkState::Parked);
}

// --- Filters ---

#[test]
fn filters_select() {
    let src = "## P0\n- [ ] [#a] [idle-ok] [lane:x/p/_] one\n- [x] [#b] two (closed 2026-01-01)\n## P1\n- [ ] [#c] [idle-ok-suggest] [released R] [lane:x/q/_] three\n- [ ] [#d] [parked] four\n";
    let t = parse(src, "c");
    let pick = |set: &dyn Fn(&mut ListFilter)| {
        let mut f = ListFilter::default();
        set(&mut f);
        ids(&t, &f).join(",")
    };
    assert_eq!(pick(&|_| {}), "a,c");
    assert_eq!(pick(&|f| f.include_done = true), "a,b,c");
    assert_eq!(pick(&|f| f.include_parked = true), "a,c,d");
    assert_eq!(pick(&|f| f.priority = Some(Priority(1))), "c");
    assert_eq!(pick(&|f| f.idle_ok = Some(IdleOkState::Approved)), "a");
    assert_eq!(pick(&|f| f.idle_ok = Some(IdleOkState::Suggest)), "c");
    assert_eq!(pick(&|f| f.released = Some(true)), "c");
    assert_eq!(pick(&|f| f.released = Some(false)), "a");
    assert_eq!(pick(&|f| f.lane_company = Some("x".to_string())), "a,c");
    assert_eq!(pick(&|f| f.lane_company = Some("y".to_string())), "");
    assert_eq!(pick(&|f| f.lane_project = Some("q".to_string())), "c");
}

// --- Lane tags ---

#[test]
fn lane_arguments() {
    assert_eq!(parse_lane_arg("a/b").unwrap(), "[lane:a/b/_]");
    assert_eq!(parse_lane_arg("a/b/").unwrap(), "[lane:a/b/_]");
    assert_eq!(parse_lane_arg("a/b/c").unwrap(), "[lane:a/b/c]");
    for bad in ["", "a", "/b", "a/", "a//c", "a/b/c/d", "a/b/c/"] {
        assert_eq!(
            parse_lane_arg(bad).unwrap_err(),
            format!("lane `{}` must be company/project[/component]", bad)
        );
    }
}

#[test]
fn lane_tag_in_front_of_a_subject_is_its_lane() {
    let subject = format!("{} fix it", parse_lane_arg("acme/app/ui").unwrap());
    let lane = peek_lane(&subject).unwrap();
    assert_eq!(lane.company, "acme");
    assert_eq!(lane.project, "app");
    assert_eq!(lane.component.as_deref(), Some("ui"));
    let (t, id) = with_one("c", &subject, 1);
    assert!(t.items[0].lane.is_none());
    let again = parse(&render(&t), "c");
    assert_eq!(again.find(&id).unwrap().lane.as_ref().unwrap().project, "app");
    assert_eq!(again.find(&id).unwrap().subject, subject);
}

// --- The table ---

#[test]
fn table_lines() {
    let t = parse("## P0\n- [ ] [#ab12] short\n- [x] [#long-id-9] done (closed 2026-01-01)\n", "c");
    let items: Vec<&Item> = t.items.iter().collect();
    let lines = pretty_lines(&items);
    assert_eq!(lines.len(), 4);
    assert_eq!(lines[0], "id        prio   open    subject");
    assert_eq!(lines[1], "─".repeat(80));
    assert_eq!(lines[2], "ab12      P0     open    short");
    assert_eq!(lines[3], "long-id-9  P0     done    done");
    assert_eq!(pretty_lines(&[]), vec!["(no items)"]);
}

#[test]
fn long_subjects_are_clipped() {
    let sixty = "x".repeat(60);
    assert_eq!(clip(&sixty), Some(sixty.clone()));
    let more = "x".repeat(61);
    assert_eq!(clip(&more), Some(format!("{}...", "x".repeat(57))));
    let inside = format!("{}é{}", "x".repeat(56), "x".repeat(10));
    assert_eq!(clip(&inside), None);
    let outside = format!("{}é{}", "x".repeat(55), "x".repeat(10));
    assert_eq!(clip(&outside), Some(format!("{}é...", "x".repeat(55))));
}

// --- Counts ---

#[test]
fn counts_by_project() {
    let src = "## P0\n- [ ] [lane:b/x/_] one\n- [ ] plain\n- [x] [lane:b/x/_] closed\n## P1\n- [ ] [lane:a/y/t] two\n- [ ] [lane:b/x/_] three\n## P2\n- [ ] [lane:b/x/_] four\n## P7\n- [ ] [lane:b/x/_] five\n";
    let out = count_by_project(&parse(src, "c"));
    assert_eq!(out.company, "c");
    let keys: Vec<&str> = out.projects.iter().map(|p| p.0.as_str()).collect();
    assert_eq!(keys, vec!["a/y", "b/x", "untagged"]);
    let b = out.projects[1].1;
    assert_eq!((b.p0, b.p1, b.p2, b.other, b.total), (1, 1, 1, 1, 4));
    let a = out.projects[0].1;
    assert_eq!((a.p0, a.p1, a.p2, a.other, a.total), (0, 1, 0, 0, 1));
    let total: usize = out.projects.iter().map(|p| p.1.total).sum();
    assert_eq!(total, 6);
}

// --- Stats ---

#[test]
fn only_the_date_of_since_matters() {
    let src = "## P0\n- [x] [#a] one (closed 2026-03-01)\n- [x] [#b] two (closed 2026-03-02)\n- [x] [#c] no date\n- [ ] [#d] open (closed 2026-03-05)\n";
    let t = parse(src, "c");
    assert_eq!(ops::stats(&t, "2026-03-02T23:59:59Z").closed_real, 1);
    assert_eq!(ops::stats(&t, "2026-03").closed_real, 2);
    assert_eq!(ops::stats(&t, "").closed_real, 2);
    assert_eq!(ops::stats(&t, "2026-03-03").closed_real, 0);
    assert_eq!(ops::stats(&t, "2026-03-02é").closed_real, 1);
}

// --- Salience ---

#[test]
fn scored_item_has_positive_weight() {
    let (t, id) = with_one("_test_wt1", "weight b-test item", 1);
    assert_eq!(salience_inputs(&t, NOW + 7_200), vec![(7_200, 2)]);
    let out = weight(&t, NOW + 7_200, 5, &[220]);
    assert_eq!(out.company, "_test_wt1");
    assert_eq!(out.scored_count, 1);
    assert_eq!(out.items[0].id, id);
    assert_eq!(out.items[0].weight, 220);
    assert_eq!(out.items[0].age_secs, 7_200);
    assert_eq!(out.ts, "2026-07-02T02:01:01Z");
}

#[test]
fn closed_items_excluded_from_weight() {
    let (mut t, id) = with_one("_test_wt2", "closed item should not score", 0);
    ops::done(&mut t, &id, false, NOW).unwrap();
    let out = weight(&t, NOW, 5, &[]);
    assert_eq!(out.scored_count, 0);
    assert!(out.items.is_empty());
}

#[test]
fn ranking_is_descending_and_stable() {
    let src = "## P0\n- [ ] [#a] [created 1970-01-01T00:00:10Z] a\n- [ ] [#b] b\n- [ ] [#c] [created soon] c\n## P1\n- [ ] [#d] [created 1970-01-01T00:00:50Z] d\n## P2\n- [ ] [#e] [created 1970-01-01T00:00:00Z] e\n";
    let t = parse(src, "c");
    assert_eq!(salience_inputs(&t, 40), vec![(30, 3), (0, 3), (0, 2), (40, 1)]);
    let out = weight(&t, 40, 3, &[5, 7, 5, 9]);
    let got: Vec<&str> = out.items.iter().map(|i| i.id.as_str()).collect();
    assert_eq!(got, vec!["e", "c", "a"]);
    assert_eq!((out.scored_count, out.unscored_count, out.top_n), (4, 1, 3));
    assert_eq!(out.items[0].priority, "P2");
    assert_eq!(out.items[1].created_ts, "soon");
    let all = weight(&t, 40, 99, &[5, 7, 5, 9]);
    let got: Vec<&str> = all.items.iter().map(|i| i.id.as_str()).collect();
    assert_eq!(got, vec!["e", "c", "a", "d"]);
}
