use todo::cli::{parse_args, Command};
use todo::model::{IdleOkState, Priority};

fn read(args: &[&str]) -> Result<Command, Option<String>> {
    let owned: Vec<String> = args.iter().map(|a| a.to_string()).collect();
    parse_args(&owned).command.map_err(|u| u.message)
}

fn company(args: &[&str]) -> Option<String> {
    let owned: Vec<String> = args.iter().map(|a| a.to_string()).collect();
    parse_args(&owned).company
}

fn refusal(args: &[&str]) -> Option<String> {
    read(args).unwrap_err()
}

#[test]
fn company_flags_come_first() {
    assert_eq!(company(&["--company", "a", "list"]).as_deref(), Some("a"));
    assert_eq!(company(&["--company", "a", "--company", "b"]).as_deref(), Some("b"));
    assert_eq!(company(&["--company", "a", "--company"]), None);
    assert_eq!(company(&["list", "--company", "a"]), None);
    assert!(matches!(read(&["--company", "a", "sweep"]), Ok(Command::Sweep)));
}

#[test]
fn add_arguments() {
    match read(&["add", "s", "-p", "P0", "--idle-ok", "--force-real", "--lane", "a/b"]).unwrap() {
        Command::Add { subject, priority, idle_ok, force_real } => {
            assert_eq!(subject, "[lane:a/b/_] s");
            assert_eq!(priority, Priority(0));
            assert_eq!(idle_ok, IdleOkState::Approved);
            assert!(force_real);
        }
        other => panic!("{:?}", other),
    }
    match read(&["add", "s", "--idle-ok-suggest"]).unwrap() {
        Command::Add { subject, priority, idle_ok, force_real } => {
            assert_eq!(subject, "s");
            assert_eq!(priority, Priority(1));
            assert_eq!(idle_ok, IdleOkState::Suggest);
            assert!(!force_real);
        }
        other => panic!("{:?}", other),
    }
    let says = |args: &[&str]| refusal(args).unwrap();
    assert_eq!(says(&["add"]), "todo: `add` requires a subject");
    assert_eq!(says(&["add", "s", "-p"]), "todo: `--priority` needs a value");
    assert_eq!(says(&["add", "s", "-p", "X"]), "todo: bad priority `X` (expected P0/P1/...)");
    assert_eq!(says(&["add", "s", "--lane"]), "todo: `--lane` needs a value (company/project[/component])");
    assert_eq!(says(&["add", "s", "--lane", "a"]), "todo: add: lane `a` must be company/project[/component]");
    assert_eq!(says(&["add", "s", "--bogus"]), "todo: add: unknown flag `--bogus`");
}

#[test]
fn list_arguments() {
    match read(&[]).unwrap() {
        Command::List { filter, pretty } => {
            assert!(!pretty && !filter.include_done && !filter.include_parked);
            assert!(filter.priority.is_none() && filter.released.is_none());
        }
        other => panic!("{:?}", other),
    }
    let args = [
        "list", "--priority", "P2", "--include-done", "--pretty", "--json", "--idle-ok",
        "--unreleased", "--include-parked", "--company", "x", "--project", "y",
    ];
    match read(&args).unwrap() {
        Command::List { filter, pretty } => {
            assert!(pretty && filter.include_done && filter.include_parked);
            assert_eq!(filter.priority, Some(Priority(2)));
            assert_eq!(filter.idle_ok, Some(IdleOkState::Approved));
            assert_eq!(filter.released, Some(false));
            assert_eq!(filter.lane_company.as_deref(), Some("x"));
            assert_eq!(filter.lane_project.as_deref(), Some("y"));
        }
        other => panic!("{:?}", other),
    }
    match read(&["list", "-p", "what", "--released", "--project"]).unwrap() {
        Command::List { filter, .. } => {
            assert_eq!(filter.priority, None);
            assert_eq!(filter.released, Some(true));
            assert_eq!(filter.lane_project, None);
        }
        other => panic!("{:?}", other),
    }
    assert_eq!(refusal(&["list", "-p"]), None);
    assert_eq!(refusal(&["list", "x"]).unwrap(), "todo: list: unknown flag `x`");
}

#[test]
fn commands_on_one_item() {
    assert!(matches!(read(&["reopen", "a"]), Ok(Command::Reopen { id }) if id == "a"));
    assert!(matches!(read(&["show", "a", "more"]), Ok(Command::Show { id }) if id == "a"));
    assert!(matches!(read(&["bless", "a"]), Ok(Command::Bless { .. })));
    assert!(matches!(read(&["release", "a"]), Ok(Command::Release { .. })));
    assert!(matches!(read(&["unrelease", "a"]), Ok(Command::Unrelease { .. })));
    assert!(matches!(read(&["park", "a"]), Ok(Command::Park { .. })));
    assert!(matches!(read(&["unpark", "a"]), Ok(Command::Unpark { .. })));
    assert!(matches!(read(&["park-suggest", "a"]), Ok(Command::ParkSuggest { .. })));
    for word in ["reopen", "show", "done", "reprioritize"] {
        assert_eq!(refusal(&[word]), None);
    }
    for word in ["bless", "release", "unrelease", "park", "unpark", "park-suggest", "evidence"] {
        assert_eq!(refusal(&[word]), Some(format!("todo: {} requires <id>", word)));
    }
    assert!(matches!(read(&["done", "a"]), Ok(Command::Done { force_real: false, .. })));
    assert!(matches!(read(&["done", "a", "--force-real"]), Ok(Command::Done { force_real: true, .. })));
    assert_eq!(refusal(&["done", "a", "b"]).unwrap(), "todo: done: unknown flag `b`");
    assert!(matches!(
        read(&["reprioritize", "a", "x", "--to", "P3", "--to"]),
        Ok(Command::Reprioritize { target: Priority(3), .. })
    ));
    assert_eq!(
        refusal(&["reprioritize", "a", "--to", "P3", "--to", "Q"]).unwrap(),
        "todo: reprioritize requires --to P<N>"
    );
}

#[test]
fn evidence_arguments() {
    assert!(matches!(read(&["evidence", "a"]), Ok(Command::EvidenceShow { json: false, .. })));
    assert!(matches!(read(&["evidence", "a", "--json"]), Ok(Command::EvidenceShow { json: true, .. })));
    assert!(matches!(
        read(&["evidence", "a", "--add", "r"]),
        Ok(Command::EvidenceAdd { reference, .. }) if reference == "r"
    ));
    assert!(matches!(
        read(&["evidence", "a", "--add", "r", "--clear"]),
        Ok(Command::EvidenceClear { .. })
    ));
    assert_eq!(refusal(&["evidence", "a", "--add"]).unwrap(), "todo: evidence: --add requires a value");
    assert_eq!(refusal(&["evidence", "a", "z"]).unwrap(), "todo: evidence: unknown flag `z`");
}

#[test]
fn reports_and_the_rest() {
    assert!(matches!(read(&["weight"]), Ok(Command::Weight { top_n: 5 })));
    assert!(matches!(read(&["weight", "-n", "+12"]), Ok(Command::Weight { top_n: 12 })));
    assert!(matches!(
        read(&["weight", "--top", "18446744073709551615"]),
        Ok(Command::Weight { top_n: usize::MAX })
    ));
    for bad in ["", "-1", "x", "18446744073709551616"] {
        assert_eq!(
            refusal(&["weight", "--top", bad]).unwrap(),
            "todo: weight: --top requires a positive integer"
        );
    }
    assert_eq!(
        refusal(&["weight", "--top"]).unwrap(),
        "todo: weight: --top requires a positive integer"
    );
    assert!(matches!(
        read(&["stats", "--since", "t", "--json"]),
        Ok(Command::Stats { since, json: true }) if since == "t"
    ));
    assert_eq!(
        refusal(&["stats", "--since", "t", "--since"]).unwrap(),
        "todo: stats: requires --since <iso8601>"
    );
    assert!(matches!(read(&["count", "--json", "--by-project"]), Ok(Command::Count)));
    assert_eq!(refusal(&["count"]).unwrap(), "todo: count: requires --by-project");
    assert!(matches!(
        read(&["backfill-created", "--dry-run"]),
        Ok(Command::BackfillCreated { dry_run: true })
    ));
    assert!(matches!(read(&["backfill-created"]), Ok(Command::BackfillCreated { dry_run: false })));
    assert!(matches!(read(&["touch", "x"]), Ok(Command::Touch)));
    assert!(matches!(read(&["path"]), Ok(Command::Path)));
    assert!(matches!(read(&["company"]), Ok(Command::Company)));
    assert!(refusal(&["company", "x"]).unwrap().starts_with("todo: company-setting via flag"));
    for word in ["help", "-h", "--help"] {
        assert!(matches!(read(&[word]), Ok(Command::Help)));
    }
    assert_eq!(
        refusal(&["fly"]).unwrap(),
        "todo: unknown subcommand `fly`. Try `todo --help`."
    );
}
