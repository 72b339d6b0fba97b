//! The command line: what the arguments ask for.

use crate::decimal;
use crate::listing;
use crate::listing::ListFilter;
use crate::model;
use crate::model::{IdleOkState, Priority};
use crate::text;
use vstd::prelude::*;

verus! {

// ---------------------------------------------------------------------------
// Commands
// ---------------------------------------------------------------------------

/// What the arguments ask for.
#[derive(Debug, Clone)]
pub enum Command {
    Add { subject: String, priority: Priority, idle_ok: IdleOkState, force_real: bool },
    List { filter: ListFilter, pretty: bool },
    Reprioritize { id: String, target: Priority },
    Done { id: String, force_real: bool },
    Reopen { id: String },
    Show { id: String },
    Bless { id: String },
    Release { id: String },
    Unrelease { id: String },
    Park { id: String },
    Unpark { id: String },
    ParkSuggest { id: String },
    EvidenceShow { id: String, json: bool },
    EvidenceAdd { id: String, reference: String },
    EvidenceClear { id: String },
    BackfillCreated { dry_run: bool },
    Weight { top_n: usize },
    Sweep,
    Stats { since: String, json: bool },
    Touch,
    Path,
    Company,
    Count,
    Help,
}

/// View of a [`Command`].
pub enum CommandView {
    Add { subject: Seq<char>, priority: u32, idle_ok: IdleOkState, force_real: bool },
    List { filter: listing::FilterView, pretty: bool },
    Reprioritize { id: Seq<char>, target: u32 },
    Done { id: Seq<char>, force_real: bool },
    Reopen { id: Seq<char> },
    Show { id: Seq<char> },
    Bless { id: Seq<char> },
    Release { id: Seq<char> },
    Unrelease { id: Seq<char> },
    Park { id: Seq<char> },
    Unpark { id: Seq<char> },
    ParkSuggest { id: Seq<char> },
    EvidenceShow { id: Seq<char>, json: bool },
    EvidenceAdd { id: Seq<char>, reference: Seq<char> },
    EvidenceClear { id: Seq<char> },
    BackfillCreated { dry_run: bool },
    Weight { top_n: usize },
    Sweep,
    Stats { since: Seq<char>, json: bool },
    Touch,
    Path,
    Company,
    Count,
    Help,
}

impl View for Command {
    type V = CommandView;

    open spec fn view(&self) -> CommandView {
        match self {
            Command::Add { subject, priority, idle_ok, force_real } => CommandView::Add {
                subject: subject@,
                priority: priority.0,
                idle_ok: *idle_ok,
                force_real: *force_real,
            },
            Command::List { filter, pretty } => CommandView::List {
                filter: filter@,
                pretty: *pretty,
            },
            Command::Reprioritize { id, target } => CommandView::Reprioritize {
                id: id@,
                target: target.0,
            },
            Command::Done { id, force_real } => CommandView::Done {
                id: id@,
                force_real: *force_real,
            },
            Command::Reopen { id } => CommandView::Reopen { id: id@ },
            Command::Show { id } => CommandView::Show { id: id@ },
            Command::Bless { id } => CommandView::Bless { id: id@ },
            Command::Release { id } => CommandView::Release { id: id@ },
            Command::Unrelease { id } => CommandView::Unrelease { id: id@ },
            Command::Park { id } => CommandView::Park { id: id@ },
            Command::Unpark { id } => CommandView::Unpark { id: id@ },
            Command::ParkSuggest { id } => CommandView::ParkSuggest { id: id@ },
            Command::EvidenceShow { id, json } => CommandView::EvidenceShow {
                id: id@,
                json: *json,
            },
            Command::EvidenceAdd { id, reference } => CommandView::EvidenceAdd {
                id: id@,
                reference: reference@,
            },
            Command::EvidenceClear { id } => CommandView::EvidenceClear { id: id@ },
            Command::BackfillCreated { dry_run } => CommandView::BackfillCreated {
                dry_run: *dry_run,
            },
            Command::Weight { top_n } => CommandView::Weight { top_n: *top_n },
            Command::Sweep => CommandView::Sweep,
            Command::Stats { since, json } => CommandView::Stats { since: since@, json: *json },
            Command::Touch => CommandView::Touch,
            Command::Path => CommandView::Path,
            Command::Company => CommandView::Company,
            Command::Count => CommandView::Count,
            Command::Help => CommandView::Help,
        }
    }
}

/// Why the arguments ask for nothing; there may be a message for the user.
#[derive(Debug, Clone)]
pub struct Usage {
    pub message: Option<String>,
}

/// What reading arguments comes to.
pub open spec fn outcome(r: Result<Command, Usage>) -> Result<CommandView, Option<Seq<char>>> {
    match r {
        Ok(c) => Ok(c@),
        Err(u) => Err(model::opt_text(u.message)),
    }
}

fn complain(message: &str) -> (r: Usage)
    ensures
        model::opt_text(r.message) == Some(message@),
{
    Usage { message: Some(text::owned(message)) }
}

fn silent() -> (r: Usage)
    ensures
        model::opt_text(r.message) is None,
{
    Usage { message: None }
}

/// The complaint about a flag that a command does not know.
pub open spec fn unknown_flag(command: Seq<char>, flag: Seq<char>) -> Seq<char> {
    "todo: "@ + command + (": unknown flag `"@ + flag + "`"@)
}

fn complain_flag(command: &str, flag: &str) -> (r: Usage)
    ensures
        model::opt_text(r.message) == Some(unknown_flag(command@, flag@)),
{
    let tail: String = text::concat3(": unknown flag `", flag, "`");
    Usage { message: Some(text::concat3("todo: ", command, tail.as_str())) }
}

/// View of arguments.
pub open spec fn words(args: Seq<String>) -> Seq<Seq<char>> {
    args.map_values(|a: String| a@)
}

/// The arguments from the `i`-th on.
spec fn from(args: Seq<String>, i: int) -> Seq<Seq<char>> {
    words(args).skip(i)
}

/// Taking arguments one or two at a time.
proof fn lemma_from(args: Seq<String>, i: int)
    requires
        0 <= i <= args.len(),
    ensures
        from(args, i).len() == args.len() - i,
        i < args.len() ==> from(args, i)[0] == args[i]@ && from(args, i).skip(1) == from(
            args,
            i + 1,
        ),
        i + 1 < args.len() ==> from(args, i)[1] == args[i + 1]@ && from(args, i).skip(2) == from(
            args,
            i + 2,
        ),
{
    let w = words(args);
    if i < args.len() {
        assert(w.skip(i).skip(1) =~= w.skip(i + 1));
    }
    if i + 1 < args.len() {
        assert(w.skip(i).skip(2) =~= w.skip(i + 2));
    }
}

fn is(args: &[String], i: usize, word: &str) -> (r: bool)
    requires
        i < args@.len(),
    ensures
        r == (args@[i as int]@ == word@),
{
    text::same_text(args[i].as_str(), word)
}

fn copy(args: &[String], i: usize) -> (r: String)
    requires
        i < args@.len(),
    ensures
        r@ == args@[i as int]@,
{
    text::owned(args[i].as_str())
}

// ---------------------------------------------------------------------------
// Adding
// ---------------------------------------------------------------------------

/// The flags of `add`.
pub struct AddFlags {
    pub priority: u32,
    pub idle_ok: IdleOkState,
    pub lane: Option<Seq<char>>,
    pub force_real: bool,
}

/// Reads the flags of `add`.
pub open spec fn read_add(args: Seq<Seq<char>>, st: AddFlags) -> Result<
    AddFlags,
    Option<Seq<char>>,
>
    decreases args.len(),
{
    if args.len() == 0 {
        Ok(st)
    } else if args[0] == "--priority"@ || args[0] == "-p"@ {
        if args.len() < 2 {
            Err(Some("todo: `--priority` needs a value"@))
        } else {
            match model::read_priority(args[1]) {
                Some(p) => read_add(args.skip(2), AddFlags { priority: p, ..st }),
                None => Err(
                    Some("todo: bad priority `"@ + args[1] + "` (expected P0/P1/...)"@),
                ),
            }
        }
    } else if args[0] == "--idle-ok"@ {
        read_add(args.skip(1), AddFlags { idle_ok: IdleOkState::Approved, ..st })
    } else if args[0] == "--idle-ok-suggest"@ {
        read_add(args.skip(1), AddFlags { idle_ok: IdleOkState::Suggest, ..st })
    } else if args[0] == "--force-real"@ {
        read_add(args.skip(1), AddFlags { force_real: true, ..st })
    } else if args[0] == "--lane"@ {
        if args.len() < 2 {
            Err(Some("todo: `--lane` needs a value (company/project[/component])"@))
        } else {
            match listing::lane_segments(args[1]) {
                Some((a, b, c)) => read_add(
                    args.skip(2),
                    AddFlags { lane: Some(listing::lane_tag(a, b, c)), ..st },
                ),
                None => Err(
                    Some(
                        "todo: add: "@ + ("lane `"@ + args[1]
                            + "` must be company/project[/component]"@),
                    ),
                ),
            }
        }
    } else {
        Err(Some(unknown_flag("add"@, args[0])))
    }
}

/// Reads what follows `add`: the subject, then flags. A lane tag goes in front
/// of the subject.
pub open spec fn read_add_command(args: Seq<Seq<char>>) -> Result<CommandView, Option<Seq<char>>> {
    if args.len() == 0 {
        Err(Some("todo: `add` requires a subject"@))
    } else {
        match read_add(
            args.skip(1),
            AddFlags { priority: 1, idle_ok: IdleOkState::Unset, lane: None, force_real: false },
        ) {
            Ok(st) => Ok(
                CommandView::Add {
                    subject: match st.lane {
                        Some(tag) => tag + " "@ + args[0],
                        None => args[0],
                    },
                    priority: st.priority,
                    idle_ok: st.idle_ok,
                    force_real: st.force_real,
                },
            ),
            Err(e) => Err(e),
        }
    }
}

fn parse_add(args: &[String], start: usize) -> (r: Result<Command, Usage>)
    requires
        start <= args@.len(),
    ensures
        outcome(r) == read_add_command(from(args@, start as int)),
{
    let n: usize = args.len();
    let ghost all = from(args@, start as int);
    proof {
        lemma_from(args@, start as int);
    }
    if start == n {
        return Err(complain("todo: `add` requires a subject"));
    }
    let mut level: u32 = 1;
    let mut idle_ok: IdleOkState = IdleOkState::Unset;
    let mut lane: Option<String> = None;
    let mut force_real: bool = false;
    let ghost start_flags = AddFlags {
        priority: 1,
        idle_ok: IdleOkState::Unset,
        lane: None,
        force_real: false,
    };
    let mut i: usize = start + 1;
    while i < n
        invariant
            n == args@.len(),
            start < n,
            start + 1 <= i <= n,
            all == from(args@, start as int),
            all.len() > 0,
            start_flags == (AddFlags {
                priority: 1,
                idle_ok: IdleOkState::Unset,
                lane: None,
                force_real: false,
            }),
            read_add(all.skip(1), start_flags) == read_add(
                from(args@, i as int),
                AddFlags { priority: level, idle_ok, lane: model::opt_text(lane), force_real },
            ),
        decreases n - i,
    {
        proof {
            lemma_from(args@, i as int);
        }
        if is(args, i, "--priority") || is(args, i, "-p") {
            if i + 1 == n {
                return Err(complain("todo: `--priority` needs a value"));
            }
            match Priority::parse(args[i + 1].as_str()) {
                Some(p) => {
                    level = p.0;
                },
                None => {
                    let m: String = text::concat3(
                        "todo: bad priority `",
                        args[i + 1].as_str(),
                        "` (expected P0/P1/...)",
                    );
                    return Err(complain(m.as_str()));
                },
            }
            i = i + 2;
        } else if is(args, i, "--idle-ok") {
            idle_ok = IdleOkState::Approved;
            i = i + 1;
        } else if is(args, i, "--idle-ok-suggest") {
            idle_ok = IdleOkState::Suggest;
            i = i + 1;
        } else if is(args, i, "--force-real") {
            force_real = true;
            i = i + 1;
        } else if is(args, i, "--lane") {
            if i + 1 == n {
                return Err(
                    complain("todo: `--lane` needs a value (company/project[/component])"),
                );
            }
            match listing::parse_lane_arg(args[i + 1].as_str()) {
                Ok(tag) => {
                    lane = Some(tag);
                },
                Err(e) => {
                    let m: String = text::concat3("todo: add: ", e.as_str(), "");
                    proof {
                        reveal_strlit("");
                        assert(m@ =~= "todo: add: "@ + e@);
                    }
                    return Err(complain(m.as_str()));
                },
            }
            i = i + 2;
        } else {
            return Err(complain_flag("add", args[i].as_str()));
        }
    }
    proof {
        lemma_from(args@, i as int);
    }
    let subject: String = match lane {
        Some(tag) => text::concat3(tag.as_str(), " ", args[start].as_str()),
        None => copy(args, start),
    };
    Ok(Command::Add { subject, priority: Priority(level), idle_ok, force_real })
}

// ---------------------------------------------------------------------------
// Listing
// ---------------------------------------------------------------------------

/// Reads the flags of `list`. A priority that cannot be read asks for none.
pub open spec fn read_list(args: Seq<Seq<char>>, st: listing::FilterView, pretty: bool) -> Result<
    CommandView,
    Option<Seq<char>>,
>
    decreases args.len(),
{
    if args.len() == 0 {
        Ok(CommandView::List { filter: st, pretty })
    } else if args[0] == "--priority"@ || args[0] == "-p"@ {
        if args.len() < 2 {
            Err(None)
        } else {
            read_list(
                args.skip(2),
                listing::FilterView { priority: model::read_priority(args[1]), ..st },
                pretty,
            )
        }
    } else if args[0] == "--include-done"@ {
        read_list(args.skip(1), listing::FilterView { include_done: true, ..st }, pretty)
    } else if args[0] == "--pretty"@ {
        read_list(args.skip(1), st, true)
    } else if args[0] == "--json"@ {
        read_list(args.skip(1), st, pretty)
    } else if args[0] == "--idle-ok"@ {
        read_list(
            args.skip(1),
            listing::FilterView { idle_ok: Some(IdleOkState::Approved), ..st },
            pretty,
        )
    } else if args[0] == "--idle-ok-suggest"@ {
        read_list(
            args.skip(1),
            listing::FilterView { idle_ok: Some(IdleOkState::Suggest), ..st },
            pretty,
        )
    } else if args[0] == "--released"@ {
        read_list(args.skip(1), listing::FilterView { released: Some(true), ..st }, pretty)
    } else if args[0] == "--unreleased"@ {
        read_list(args.skip(1), listing::FilterView { released: Some(false), ..st }, pretty)
    } else if args[0] == "--include-parked"@ {
        read_list(args.skip(1), listing::FilterView { include_parked: true, ..st }, pretty)
    } else if args[0] == "--company"@ {
        if args.len() < 2 {
            read_list(
                args.skip(1),
                listing::FilterView { lane_company: None, ..st },
                pretty,
            )
        } else {
            read_list(
                args.skip(2),
                listing::FilterView { lane_company: Some(args[1]), ..st },
                pretty,
            )
        }
    } else if args[0] == "--project"@ {
        if args.len() < 2 {
            read_list(
                args.skip(1),
                listing::FilterView { lane_project: None, ..st },
                pretty,
            )
        } else {
            read_list(
                args.skip(2),
                listing::FilterView { lane_project: Some(args[1]), ..st },
                pretty,
            )
        }
    } else {
        Err(Some(unknown_flag("list"@, args[0])))
    }
}

fn parse_list(args: &[String], start: usize) -> (r: Result<Command, Usage>)
    requires
        start <= args@.len(),
    ensures
        outcome(r) == read_list(from(args@, start as int), listing::default_filter(), false),
{
    let n: usize = args.len();
    let mut f: ListFilter = ListFilter::default();
    let mut pretty: bool = false;
    let mut i: usize = start;
    while i < n
        invariant
            n == args@.len(),
            start <= i <= n,
            read_list(from(args@, start as int), listing::default_filter(), false) == read_list(
                from(args@, i as int),
                f@,
                pretty,
            ),
        decreases n - i,
    {
        proof {
            lemma_from(args@, i as int);
            if i + 1 == n {
                lemma_from(args@, n as int);
            }
        }
        if is(args, i, "--priority") || is(args, i, "-p") {
            if i + 1 == n {
                return Err(silent());
            }
            f.priority = Priority::parse(args[i + 1].as_str());
            i = i + 2;
        } else if is(args, i, "--include-done") {
            f.include_done = true;
            i = i + 1;
        } else if is(args, i, "--pretty") {
            pretty = true;
            i = i + 1;
        } else if is(args, i, "--json") {
            i = i + 1;
        } else if is(args, i, "--idle-ok") {
            f.idle_ok = Some(IdleOkState::Approved);
            i = i + 1;
        } else if is(args, i, "--idle-ok-suggest") {
            f.idle_ok = Some(IdleOkState::Suggest);
            i = i + 1;
        } else if is(args, i, "--released") {
            f.released = Some(true);
            i = i + 1;
        } else if is(args, i, "--unreleased") {
            f.released = Some(false);
            i = i + 1;
        } else if is(args, i, "--include-parked") {
            f.include_parked = true;
            i = i + 1;
        } else if is(args, i, "--company") {
            if i + 1 == n {
                f.lane_company = None;
                i = i + 1;
            } else {
                f.lane_company = Some(copy(args, i + 1));
                i = i + 2;
            }
        } else if is(args, i, "--project") {
            if i + 1 == n {
                f.lane_project = None;
                i = i + 1;
            } else {
                f.lane_project = Some(copy(args, i + 1));
                i = i + 2;
            }
        } else {
            return Err(complain_flag("list", args[i].as_str()));
        }
    }
    proof {
        lemma_from(args@, i as int);
    }
    Ok(Command::List { filter: f, pretty })
}

// ---------------------------------------------------------------------------
// Other commands with flags
// ---------------------------------------------------------------------------

/// Reads what follows the id of `reprioritize`: the last `--to` counts,
/// anything else is passed over.
pub open spec fn read_target(args: Seq<Seq<char>>, target: Option<u32>) -> Option<u32>
    decreases args.len(),
{
    if args.len() == 0 {
        target
    } else if args[0] == "--to"@ && args.len() >= 2 {
        read_target(args.skip(2), model::read_priority(args[1]))
    } else {
        read_target(args.skip(1), target)
    }
}

/// Reads what follows `reprioritize`.
pub open spec fn read_reprioritize(args: Seq<Seq<char>>) -> Result<CommandView, Option<Seq<char>>> {
    if args.len() == 0 {
        Err(None)
    } else {
        match read_target(args.skip(1), None) {
            Some(target) => Ok(CommandView::Reprioritize { id: args[0], target }),
            None => Err(Some("todo: reprioritize requires --to P<N>"@)),
        }
    }
}

fn parse_reprioritize(args: &[String], start: usize) -> (r: Result<Command, Usage>)
    requires
        start <= args@.len(),
    ensures
        outcome(r) == read_reprioritize(from(args@, start as int)),
{
    let n: usize = args.len();
    let ghost all = from(args@, start as int);
    proof {
        lemma_from(args@, start as int);
    }
    if start == n {
        return Err(silent());
    }
    let mut target: Option<u32> = None;
    let mut i: usize = start + 1;
    while i < n
        invariant
            n == args@.len(),
            start + 1 <= i <= n,
            all == from(args@, start as int),
            read_target(all.skip(1), None) == read_target(from(args@, i as int), target),
        decreases n - i,
    {
        proof {
            lemma_from(args@, i as int);
        }
        if is(args, i, "--to") && i + 1 < n {
            target = match Priority::parse(args[i + 1].as_str()) {
                Some(p) => Some(p.0),
                None => None,
            };
            i = i + 2;
        } else {
            i = i + 1;
        }
    }
    proof {
        lemma_from(args@, i as int);
    }
    match target {
        Some(level) => Ok(
            Command::Reprioritize { id: copy(args, start), target: Priority(level) },
        ),
        None => Err(complain("todo: reprioritize requires --to P<N>")),
    }
}

/// Reads flags of which only one is known, `flag`: whether it is there.
pub open spec fn read_switch(
    args: Seq<Seq<char>>,
    command: Seq<char>,
    flag: Seq<char>,
    on: bool,
) -> Result<bool, Option<Seq<char>>>
    decreases args.len(),
{
    if args.len() == 0 {
        Ok(on)
    } else if args[0] == flag {
        read_switch(args.skip(1), command, flag, true)
    } else {
        Err(Some(unknown_flag(command, args[0])))
    }
}

fn parse_switch(args: &[String], start: usize, command: &str, flag: &str) -> (r: Result<bool, Usage>)
    requires
        start <= args@.len(),
    ensures
        match read_switch(from(args@, start as int), command@, flag@, false) {
            Ok(b) => r == Ok::<bool, Usage>(b),
            Err(e) => r matches Err(u) && model::opt_text(u.message) == e,
        },
{
    let n: usize = args.len();
    let mut on: bool = false;
    let mut i: usize = start;
    while i < n
        invariant
            n == args@.len(),
            start <= i <= n,
            read_switch(from(args@, start as int), command@, flag@, false) == read_switch(
                from(args@, i as int),
                command@,
                flag@,
                on,
            ),
        decreases n - i,
    {
        proof {
            lemma_from(args@, i as int);
        }
        if is(args, i, flag) {
            on = true;
            i = i + 1;
        } else {
            return Err(complain_flag(command, args[i].as_str()));
        }
    }
    proof {
        lemma_from(args@, i as int);
    }
    Ok(on)
}

/// Reads what follows `done`.
pub open spec fn read_done(args: Seq<Seq<char>>) -> Result<CommandView, Option<Seq<char>>> {
    if args.len() == 0 {
        Err(None)
    } else {
        match read_switch(args.skip(1), "done"@, "--force-real"@, false) {
            Ok(force_real) => Ok(CommandView::Done { id: args[0], force_real }),
            Err(e) => Err(e),
        }
    }
}

fn parse_done(args: &[String], start: usize) -> (r: Result<Command, Usage>)
    requires
        start <= args@.len(),
    ensures
        outcome(r) == read_done(from(args@, start as int)),
{
    proof {
        lemma_from(args@, start as int);
    }
    if start == args.len() {
        return Err(silent());
    }
    match parse_switch(args, start + 1, "done", "--force-real") {
        Ok(force_real) => Ok(Command::Done { id: copy(args, start), force_real }),
        Err(u) => Err(u),
    }
}

/// Reads what follows `backfill-created`.
pub open spec fn read_backfill(args: Seq<Seq<char>>) -> Result<CommandView, Option<Seq<char>>> {
    match read_switch(args, "backfill-created"@, "--dry-run"@, false) {
        Ok(dry_run) => Ok(CommandView::BackfillCreated { dry_run }),
        Err(e) => Err(e),
    }
}

fn parse_backfill(args: &[String], start: usize) -> (r: Result<Command, Usage>)
    requires
        start <= args@.len(),
    ensures
        outcome(r) == read_backfill(from(args@, start as int)),
{
    match parse_switch(args, start, "backfill-created", "--dry-run") {
        Ok(dry_run) => Ok(Command::BackfillCreated { dry_run }),
        Err(u) => Err(u),
    }
}

/// The flags of `evidence`.
pub struct EvidenceFlags {
    pub reference: Option<Seq<char>>,
    pub clear: bool,
    pub json: bool,
}

/// Reads the flags of `evidence`.
pub open spec fn read_evidence_flags(args: Seq<Seq<char>>, st: EvidenceFlags) -> Result<
    EvidenceFlags,
    Option<Seq<char>>,
>
    decreases args.len(),
{
    if args.len() == 0 {
        Ok(st)
    } else if args[0] == "--add"@ {
        if args.len() < 2 {
            Err(Some("todo: evidence: --add requires a value"@))
        } else {
            read_evidence_flags(
                args.skip(2),
                EvidenceFlags { reference: Some(args[1]), ..st },
            )
        }
    } else if args[0] == "--clear"@ {
        read_evidence_flags(args.skip(1), EvidenceFlags { clear: true, ..st })
    } else if args[0] == "--json"@ {
        read_evidence_flags(args.skip(1), EvidenceFlags { json: true, ..st })
    } else {
        Err(Some(unknown_flag("evidence"@, args[0])))
    }
}

/// Reads what follows `evidence`. Clearing goes before adding, adding before
/// showing.
pub open spec fn read_evidence_command(args: Seq<Seq<char>>) -> Result<
    CommandView,
    Option<Seq<char>>,
> {
    if args.len() == 0 {
        Err(Some("todo: evidence requires <id>"@))
    } else {
        match read_evidence_flags(
            args.skip(1),
            EvidenceFlags { reference: None, clear: false, json: false },
        ) {
            Ok(st) => if st.clear {
                Ok(CommandView::EvidenceClear { id: args[0] })
            } else {
                match st.reference {
                    Some(reference) => Ok(CommandView::EvidenceAdd { id: args[0], reference }),
                    None => Ok(CommandView::EvidenceShow { id: args[0], json: st.json }),
                }
            },
            Err(e) => Err(e),
        }
    }
}

fn parse_evidence(args: &[String], start: usize) -> (r: Result<Command, Usage>)
    requires
        start <= args@.len(),
    ensures
        outcome(r) == read_evidence_command(from(args@, start as int)),
{
    let n: usize = args.len();
    let ghost all = from(args@, start as int);
    proof {
        lemma_from(args@, start as int);
    }
    if start == n {
        return Err(complain("todo: evidence requires <id>"));
    }
    let mut reference: Option<String> = None;
    let mut clear: bool = false;
    let mut json: bool = false;
    let ghost none = EvidenceFlags { reference: None, clear: false, json: false };
    let mut i: usize = start + 1;
    while i < n
        invariant
            n == args@.len(),
            start + 1 <= i <= n,
            all == from(args@, start as int),
            all.len() > 0,
            none == (EvidenceFlags { reference: None, clear: false, json: false }),
            read_evidence_flags(all.skip(1), none) == read_evidence_flags(
                from(args@, i as int),
                EvidenceFlags { reference: model::opt_text(reference), clear, json },
            ),
        decreases n - i,
    {
        proof {
            lemma_from(args@, i as int);
        }
        if is(args, i, "--add") {
            if i + 1 == n {
                return Err(complain("todo: evidence: --add requires a value"));
            }
            reference = Some(copy(args, i + 1));
            i = i + 2;
        } else if is(args, i, "--clear") {
            clear = true;
            i = i + 1;
        } else if is(args, i, "--json") {
            json = true;
            i = i + 1;
        } else {
            return Err(complain_flag("evidence", args[i].as_str()));
        }
    }
    proof {
        lemma_from(args@, i as int);
    }
    let id: String = copy(args, start);
    if clear {
        return Ok(Command::EvidenceClear { id });
    }
    match reference {
        Some(reference) => Ok(Command::EvidenceAdd { id, reference }),
        None => Ok(Command::EvidenceShow { id, json }),
    }
}

/// Reads the flags of `weight`.
pub open spec fn read_weight(args: Seq<Seq<char>>, top_n: usize) -> Result<
    CommandView,
    Option<Seq<char>>,
>
    decreases args.len(),
{
    if args.len() == 0 {
        Ok(CommandView::Weight { top_n })
    } else if args[0] == "--top"@ || args[0] == "-n"@ {
        match (if args.len() < 2 {
            None
        } else {
            decimal::read_usize(args[1])
        }) {
            Some(n) => read_weight(args.skip(2), n),
            None => Err(Some("todo: weight: --top requires a positive integer"@)),
        }
    } else {
        Err(Some(unknown_flag("weight"@, args[0])))
    }
}

fn parse_weight(args: &[String], start: usize) -> (r: Result<Command, Usage>)
    requires
        start <= args@.len(),
    ensures
        outcome(r) == read_weight(from(args@, start as int), 5),
{
    let n: usize = args.len();
    let mut top_n: usize = 5;
    let mut i: usize = start;
    while i < n
        invariant
            n == args@.len(),
            start <= i <= n,
            read_weight(from(args@, start as int), 5) == read_weight(
                from(args@, i as int),
                top_n,
            ),
        decreases n - i,
    {
        proof {
            lemma_from(args@, i as int);
        }
        if is(args, i, "--top") || is(args, i, "-n") {
            if i + 1 == n {
                return Err(complain("todo: weight: --top requires a positive integer"));
            }
            let cs: Vec<char> = text::chars_of(args[i + 1].as_str());
            match decimal::parse_usize(cs.as_slice()) {
                Some(k) => {
                    top_n = k;
                },
                None => {
                    return Err(complain("todo: weight: --top requires a positive integer"));
                },
            }
            i = i + 2;
        } else {
            return Err(complain_flag("weight", args[i].as_str()));
        }
    }
    proof {
        lemma_from(args@, i as int);
    }
    Ok(Command::Weight { top_n })
}

/// Reads the flags of `stats`.
pub open spec fn read_stats(args: Seq<Seq<char>>, since: Option<Seq<char>>, json: bool) -> Result<
    CommandView,
    Option<Seq<char>>,
>
    decreases args.len(),
{
    if args.len() == 0 {
        match since {
            Some(t) => Ok(CommandView::Stats { since: t, json }),
            None => Err(Some("todo: stats: requires --since <iso8601>"@)),
        }
    } else if args[0] == "--since"@ {
        if args.len() < 2 {
            read_stats(args.skip(1), None, json)
        } else {
            read_stats(args.skip(2), Some(args[1]), json)
        }
    } else if args[0] == "--json"@ {
        read_stats(args.skip(1), since, true)
    } else {
        Err(Some(unknown_flag("stats"@, args[0])))
    }
}

fn parse_stats(args: &[String], start: usize) -> (r: Result<Command, Usage>)
    requires
        start <= args@.len(),
    ensures
        outcome(r) == read_stats(from(args@, start as int), None, false),
{
    let n: usize = args.len();
    let mut since: Option<String> = None;
    let mut json: bool = false;
    let mut i: usize = start;
    while i < n
        invariant
            n == args@.len(),
            start <= i <= n,
            read_stats(from(args@, start as int), None, false) == read_stats(
                from(args@, i as int),
                model::opt_text(since),
                json,
            ),
        decreases n - i,
    {
        proof {
            lemma_from(args@, i as int);
            if i + 1 == n {
                lemma_from(args@, n as int);
            }
        }
        if is(args, i, "--since") {
            if i + 1 == n {
                since = None;
                i = i + 1;
            } else {
                since = Some(copy(args, i + 1));
                i = i + 2;
            }
        } else if is(args, i, "--json") {
            json = true;
            i = i + 1;
        } else {
            return Err(complain_flag("stats", args[i].as_str()));
        }
    }
    proof {
        lemma_from(args@, i as int);
    }
    match since {
        Some(t) => Ok(Command::Stats { since: t, json }),
        None => Err(complain("todo: stats: requires --since <iso8601>")),
    }
}

/// Reads the flags of `count`.
pub open spec fn read_count(args: Seq<Seq<char>>, by_project: bool) -> Result<
    CommandView,
    Option<Seq<char>>,
>
    decreases args.len(),
{
    if args.len() == 0 {
        if by_project {
            Ok(CommandView::Count)
        } else {
            Err(Some("todo: count: requires --by-project"@))
        }
    } else if args[0] == "--by-project"@ {
        read_count(args.skip(1), true)
    } else if args[0] == "--json"@ {
        read_count(args.skip(1), by_project)
    } else {
        Err(Some(unknown_flag("count"@, args[0])))
    }
}

fn parse_count(args: &[String], start: usize) -> (r: Result<Command, Usage>)
    requires
        start <= args@.len(),
    ensures
        outcome(r) == read_count(from(args@, start as int), false),
{
    let n: usize = args.len();
    let mut by_project: bool = false;
    let mut i: usize = start;
    while i < n
        invariant
            n == args@.len(),
            start <= i <= n,
            read_count(from(args@, start as int), false) == read_count(
                from(args@, i as int),
                by_project,
            ),
        decreases n - i,
    {
        proof {
            lemma_from(args@, i as int);
        }
        if is(args, i, "--by-project") {
            by_project = true;
            i = i + 1;
        } else if is(args, i, "--json") {
            i = i + 1;
        } else {
            return Err(complain_flag("count", args[i].as_str()));
        }
    }
    proof {
        lemma_from(args@, i as int);
    }
    if by_project {
        Ok(Command::Count)
    } else {
        Err(complain("todo: count: requires --by-project"))
    }
}

// ---------------------------------------------------------------------------
// Dispatch
// ---------------------------------------------------------------------------

/// The id that a command needs; what is said if it is missing.
pub open spec fn read_id(args: Seq<Seq<char>>, complaint: Option<Seq<char>>) -> Result<
    Seq<char>,
    Option<Seq<char>>,
> {
    if args.len() == 0 {
        Err(complaint)
    } else {
        Ok(args[0])
    }
}

/// A command that takes an id and nothing else.
pub open spec fn with_id(
    args: Seq<Seq<char>>,
    complaint: Option<Seq<char>>,
    f: spec_fn(Seq<char>) -> CommandView,
) -> Result<CommandView, Option<Seq<char>>> {
    match read_id(args, complaint) {
        Ok(id) => Ok(f(id)),
        Err(e) => Err(e),
    }
}

fn need_id(args: &[String], start: usize, complaint: &str) -> (r: Result<String, Usage>)
    requires
        start <= args@.len(),
    ensures
        match read_id(from(args@, start as int), Some(complaint@)) {
            Ok(id) => r matches Ok(t) && t@ == id,
            Err(e) => r matches Err(u) && model::opt_text(u.message) == e,
        },
{
    proof {
        lemma_from(args@, start as int);
    }
    if start == args.len() {
        Err(complain(complaint))
    } else {
        Ok(copy(args, start))
    }
}

fn need_id_silently(args: &[String], start: usize) -> (r: Result<String, Usage>)
    requires
        start <= args@.len(),
    ensures
        match read_id(from(args@, start as int), None) {
            Ok(id) => r matches Ok(t) && t@ == id,
            Err(e) => r matches Err(u) && model::opt_text(u.message) == e,
        },
{
    proof {
        lemma_from(args@, start as int);
    }
    if start == args.len() {
        Err(silent())
    } else {
        Ok(copy(args, start))
    }
}

/// Reads the commands that change the state of one item.
pub open spec fn read_state_command(word: Seq<char>, rest: Seq<Seq<char>>) -> Option<
    Result<CommandView, Option<Seq<char>>>,
> {
    if word == "reopen"@ {
        Some(with_id(rest, None, |id: Seq<char>| CommandView::Reopen { id }))
    } else if word == "show"@ {
        Some(with_id(rest, None, |id: Seq<char>| CommandView::Show { id }))
    } else if word == "bless"@ {
        Some(
            with_id(
                rest,
                Some("todo: bless requires <id>"@),
                |id: Seq<char>| CommandView::Bless { id },
            ),
        )
    } else if word == "release"@ {
        Some(
            with_id(
                rest,
                Some("todo: release requires <id>"@),
                |id: Seq<char>| CommandView::Release { id },
            ),
        )
    } else if word == "unrelease"@ {
        Some(
            with_id(
                rest,
                Some("todo: unrelease requires <id>"@),
                |id: Seq<char>| CommandView::Unrelease { id },
            ),
        )
    } else if word == "park"@ {
        Some(
            with_id(
                rest,
                Some("todo: park requires <id>"@),
                |id: Seq<char>| CommandView::Park { id },
            ),
        )
    } else if word == "unpark"@ {
        Some(
            with_id(
                rest,
                Some("todo: unpark requires <id>"@),
                |id: Seq<char>| CommandView::Unpark { id },
            ),
        )
    } else if word == "park-suggest"@ {
        Some(
            with_id(
                rest,
                Some("todo: park-suggest requires <id>"@),
                |id: Seq<char>| CommandView::ParkSuggest { id },
            ),
        )
    } else {
        None
    }
}

fn parse_state_command(word: &str, args: &[String], start: usize) -> (r: Option<
    Result<Command, Usage>,
>)
    requires
        start <= args@.len(),
    ensures
        match read_state_command(word@, from(args@, start as int)) {
            Some(o) => r matches Some(x) && outcome(x) == o,
            None => r is None,
        },
{
    if text::same_text(word, "reopen") {
        Some(
            match need_id_silently(args, start) {
                Ok(id) => Ok(Command::Reopen { id }),
                Err(u) => Err(u),
            },
        )
    } else if text::same_text(word, "show") {
        Some(
            match need_id_silently(args, start) {
                Ok(id) => Ok(Command::Show { id }),
                Err(u) => Err(u),
            },
        )
    } else if text::same_text(word, "bless") {
        Some(
            match need_id(args, start, "todo: bless requires <id>") {
                Ok(id) => Ok(Command::Bless { id }),
                Err(u) => Err(u),
            },
        )
    } else if text::same_text(word, "release") {
        Some(
            match need_id(args, start, "todo: release requires <id>") {
                Ok(id) => Ok(Command::Release { id }),
                Err(u) => Err(u),
            },
        )
    } else if text::same_text(word, "unrelease") {
        Some(
            match need_id(args, start, "todo: unrelease requires <id>") {
                Ok(id) => Ok(Command::Unrelease { id }),
                Err(u) => Err(u),
            },
        )
    } else if text::same_text(word, "park") {
        Some(
            match need_id(args, start, "todo: park requires <id>") {
                Ok(id) => Ok(Command::Park { id }),
                Err(u) => Err(u),
            },
        )
    } else if text::same_text(word, "unpark") {
        Some(
            match need_id(args, start, "todo: unpark requires <id>") {
                Ok(id) => Ok(Command::Unpark { id }),
                Err(u) => Err(u),
            },
        )
    } else if text::same_text(word, "park-suggest") {
        Some(
            match need_id(args, start, "todo: park-suggest requires <id>") {
                Ok(id) => Ok(Command::ParkSuggest { id }),
                Err(u) => Err(u),
            },
        )
    } else {
        None
    }
}

/// Reads a command and its arguments. No command at all asks for the default
/// listing.
pub open spec fn read_command(args: Seq<Seq<char>>) -> Result<CommandView, Option<Seq<char>>> {
    if args.len() == 0 {
        Ok(CommandView::List { filter: listing::default_filter(), pretty: false })
    } else {
        let word = args[0];
        let rest = args.skip(1);
        match read_state_command(word, rest) {
            Some(r) => r,
            None => if word == "add"@ {
                read_add_command(rest)
            } else if word == "list"@ {
                read_list(rest, listing::default_filter(), false)
            } else if word == "reprioritize"@ {
                read_reprioritize(rest)
            } else if word == "done"@ {
                read_done(rest)
            } else if word == "evidence"@ {
                read_evidence_command(rest)
            } else if word == "backfill-created"@ {
                read_backfill(rest)
            } else if word == "weight"@ {
                read_weight(rest, 5)
            } else if word == "sweep"@ {
                Ok(CommandView::Sweep)
            } else if word == "stats"@ {
                read_stats(rest, None, false)
            } else if word == "touch"@ {
                Ok(CommandView::Touch)
            } else if word == "path"@ {
                Ok(CommandView::Path)
            } else if word == "company"@ {
                if rest.len() > 0 {
                    Err(
                        Some(
                            "todo: company-setting via flag not implemented in v0.1; set $TODO_COMPANY or pass --company"@,
                        ),
                    )
                } else {
                    Ok(CommandView::Company)
                }
            } else if word == "count"@ {
                read_count(rest, false)
            } else if word == "--help"@ || word == "-h"@ || word == "help"@ {
                Ok(CommandView::Help)
            } else {
                Err(Some("todo: unknown subcommand `"@ + word + "`. Try `todo --help`."@))
            },
        }
    }
}

fn parse_command(args: &[String], start: usize) -> (r: Result<Command, Usage>)
    requires
        start <= args@.len(),
    ensures
        outcome(r) == read_command(from(args@, start as int)),
{
    let n: usize = args.len();
    proof {
        lemma_from(args@, start as int);
    }
    if start == n {
        return Ok(Command::List { filter: ListFilter::default(), pretty: false });
    }
    let word: &str = args[start].as_str();
    let next: usize = start + 1;
    proof {
        lemma_from(args@, next as int);
    }
    if let Some(r) = parse_state_command(word, args, next) {
        return r;
    }
    if text::same_text(word, "add") {
        parse_add(args, next)
    } else if text::same_text(word, "list") {
        parse_list(args, next)
    } else if text::same_text(word, "reprioritize") {
        parse_reprioritize(args, next)
    } else if text::same_text(word, "done") {
        parse_done(args, next)
    } else if text::same_text(word, "evidence") {
        parse_evidence(args, next)
    } else if text::same_text(word, "backfill-created") {
        parse_backfill(args, next)
    } else if text::same_text(word, "weight") {
        parse_weight(args, next)
    } else if text::same_text(word, "sweep") {
        Ok(Command::Sweep)
    } else if text::same_text(word, "stats") {
        parse_stats(args, next)
    } else if text::same_text(word, "touch") {
        Ok(Command::Touch)
    } else if text::same_text(word, "path") {
        Ok(Command::Path)
    } else if text::same_text(word, "company") {
        if next < n {
            Err(
                complain(
                    "todo: company-setting via flag not implemented in v0.1; set $TODO_COMPANY or pass --company",
                ),
            )
        } else {
            Ok(Command::Company)
        }
    } else if text::same_text(word, "count") {
        parse_count(args, next)
    } else if text::same_text(word, "--help") || text::same_text(word, "-h") || text::same_text(
        word,
        "help",
    ) {
        Ok(Command::Help)
    } else {
        let m: String = text::concat3("todo: unknown subcommand `", word, "`. Try `todo --help`.");
        Err(complain(m.as_str()))
    }
}

/// Reads the flags before the command: the last `--company` counts, and one
/// without a value takes back what was given.
pub open spec fn read_company(args: Seq<Seq<char>>, company: Option<Seq<char>>) -> (
    Option<Seq<char>>,
    Seq<Seq<char>>,
)
    decreases args.len(),
{
    if args.len() == 0 || args[0] != "--company"@ {
        (company, args)
    } else if args.len() == 1 {
        (None, args.skip(1))
    } else {
        read_company(args.skip(2), Some(args[1]))
    }
}

/// The company that the arguments name, if any, and what they ask for.
#[derive(Debug)]
pub struct Invocation {
    pub company: Option<String>,
    pub command: Result<Command, Usage>,
}

/// Reads the arguments of the program.
pub fn parse_args(args: &[String]) -> (r: Invocation)
    ensures
        ({
            let (company, rest) = read_company(words(args@), None);
            &&& model::opt_text(r.company) == company
            &&& outcome(r.command) == read_command(rest)
        }),
{
    let n: usize = args.len();
    let mut company: Option<String> = None;
    let mut i: usize = 0;
    assert(from(args@, 0) =~= words(args@));
    while i < n && is(args, i, "--company")
        invariant
            n == args@.len(),
            0 <= i <= n,
            read_company(words(args@), None) == read_company(
                from(args@, i as int),
                model::opt_text(company),
            ),
        decreases n - i,
    {
        proof {
            lemma_from(args@, i as int);
        }
        if i + 1 == n {
            proof {
                lemma_from(args@, n as int);
            }
            return Invocation { company: None, command: parse_command(args, n) };
        }
        company = Some(copy(args, i + 1));
        i = i + 2;
    }
    proof {
        lemma_from(args@, i as int);
    }
    Invocation { company, command: parse_command(args, i) }
}

// ---------------------------------------------------------------------------
// What flags promise
// ---------------------------------------------------------------------------

/// The words of the flags are all different.
proof fn reveal_flags()
    ensures
        "--priority"@ =~= seq!['-', '-', 'p', 'r', 'i', 'o', 'r', 'i', 't', 'y'],
        "-p"@ =~= seq!['-', 'p'],
        "--include-done"@.len() == 14,
        "--pretty"@.len() == 8,
        "--pretty"@[2] == 'p',
        "--json"@.len() == 6,
        "--json"@[2] == 'j',
        "--lane"@.len() == 6,
        "--lane"@[2] == 'l',
        "--idle-ok"@.len() == 9,
        "--idle-ok"@[2] == 'i',
        "--idle-ok-suggest"@.len() == 17,
        "--released"@.len() == 10,
        "--released"@[2] == 'r',
        "--unreleased"@.len() == 12,
        "--unreleased"@[2] == 'u',
        "--force-real"@.len() == 12,
        "--force-real"@[2] == 'f',
        "--include-parked"@.len() == 16,
        "--company"@.len() == 9,
        "--company"@[2] == 'c',
        "--project"@.len() == 9,
        "--project"@[2] == 'p',
{
    reveal_strlit("--priority");
    reveal_strlit("-p");
    reveal_strlit("--include-done");
    reveal_strlit("--pretty");
    reveal_strlit("--json");
    reveal_strlit("--lane");
    reveal_strlit("--idle-ok");
    reveal_strlit("--idle-ok-suggest");
    reveal_strlit("--released");
    reveal_strlit("--unreleased");
    reveal_strlit("--force-real");
    reveal_strlit("--include-parked");
    reveal_strlit("--company");
    reveal_strlit("--project");
}

/// The filter and the form that a `list` command asks for.
pub open spec fn asks(
    r: Result<CommandView, Option<Seq<char>>>,
    filter: listing::FilterView,
    pretty: bool,
) -> bool {
    r == Ok::<CommandView, Option<Seq<char>>>(CommandView::List { filter, pretty })
}

/// Flags of `list` are read one after the other: more of them go on from what
/// the first ones asked for, unless the last of those still waits for a value.
pub proof fn law_list_flags_add_up(
    a: Seq<Seq<char>>,
    b: Seq<Seq<char>>,
    start: listing::FilterView,
    begun: bool,
    filter: listing::FilterView,
    pretty: bool,
)
    requires
        asks(read_list(a, start, begun), filter, pretty),
        a.len() > 0 ==> a.last() != "--company"@ && a.last() != "--project"@,
    ensures
        read_list(a + b, start, begun) == read_list(b, filter, pretty),
    decreases a.len(),
{
    reveal_flags();
    if a.len() == 0 {
        assert(a + b =~= b);
    } else {
        let s = a + b;
        assert(s[0] == a[0]);
        assert(s.skip(1) =~= a.skip(1) + b);
        if a.len() > 1 {
            assert(s[1] == a[1]);
            assert(s.skip(2) =~= a.skip(2) + b);
            assert(a.skip(1).last() == a.last());
            if a.len() > 2 {
                assert(a.skip(2).last() == a.last());
            }
        } else {
            assert(a[0] == a.last());
        }
        let w = a[0];
        if w == "--priority"@ || w == "-p"@ {
            law_list_flags_add_up(
                a.skip(2),
                b,
                listing::FilterView { priority: model::read_priority(a[1]), ..start },
                begun,
                filter,
                pretty,
            );
        } else if w == "--include-done"@ {
            law_list_flags_add_up(
                a.skip(1),
                b,
                listing::FilterView { include_done: true, ..start },
                begun,
                filter,
                pretty,
            );
        } else if w == "--pretty"@ {
            law_list_flags_add_up(a.skip(1), b, start, true, filter, pretty);
        } else if w == "--json"@ {
            law_list_flags_add_up(a.skip(1), b, start, begun, filter, pretty);
        } else if w == "--idle-ok"@ {
            law_list_flags_add_up(
                a.skip(1),
                b,
                listing::FilterView { idle_ok: Some(IdleOkState::Approved), ..start },
                begun,
                filter,
                pretty,
            );
        } else if w == "--idle-ok-suggest"@ {
            law_list_flags_add_up(
                a.skip(1),
                b,
                listing::FilterView { idle_ok: Some(IdleOkState::Suggest), ..start },
                begun,
                filter,
                pretty,
            );
        } else if w == "--released"@ {
            law_list_flags_add_up(
                a.skip(1),
                b,
                listing::FilterView { released: Some(true), ..start },
                begun,
                filter,
                pretty,
            );
        } else if w == "--unreleased"@ {
            law_list_flags_add_up(
                a.skip(1),
                b,
                listing::FilterView { released: Some(false), ..start },
                begun,
                filter,
                pretty,
            );
        } else if w == "--include-parked"@ {
            law_list_flags_add_up(
                a.skip(1),
                b,
                listing::FilterView { include_parked: true, ..start },
                begun,
                filter,
                pretty,
            );
        } else if w == "--company"@ {
            law_list_flags_add_up(
                a.skip(2),
                b,
                listing::FilterView { lane_company: Some(a[1]), ..start },
                begun,
                filter,
                pretty,
            );
        } else if w == "--project"@ {
            law_list_flags_add_up(
                a.skip(2),
                b,
                listing::FilterView { lane_project: Some(a[1]), ..start },
                begun,
                filter,
                pretty,
            );
        }
    }
}

/// The last flag of `list` has its say: it sets the one thing it is about,
/// whatever the flags before it asked for, and leaves the rest to them.
pub proof fn law_last_list_flag(
    a: Seq<Seq<char>>,
    value: Seq<char>,
    start: listing::FilterView,
    begun: bool,
    filter: listing::FilterView,
    pretty: bool,
)
    requires
        asks(read_list(a, start, begun), filter, pretty),
        a.len() > 0 ==> a.last() != "--company"@ && a.last() != "--project"@,
    ensures
        asks(
            read_list(a + seq!["--priority"@, value], start, begun),
            listing::FilterView { priority: model::read_priority(value), ..filter },
            pretty,
        ),
        asks(
            read_list(a + seq!["-p"@, value], start, begun),
            listing::FilterView { priority: model::read_priority(value), ..filter },
            pretty,
        ),
        asks(
            read_list(a + seq!["--company"@, value], start, begun),
            listing::FilterView { lane_company: Some(value), ..filter },
            pretty,
        ),
        asks(
            read_list(a + seq!["--project"@, value], start, begun),
            listing::FilterView { lane_project: Some(value), ..filter },
            pretty,
        ),
        asks(
            read_list(a + seq!["--include-done"@], start, begun),
            listing::FilterView { include_done: true, ..filter },
            pretty,
        ),
        asks(
            read_list(a + seq!["--include-parked"@], start, begun),
            listing::FilterView { include_parked: true, ..filter },
            pretty,
        ),
        asks(
            read_list(a + seq!["--idle-ok"@], start, begun),
            listing::FilterView { idle_ok: Some(IdleOkState::Approved), ..filter },
            pretty,
        ),
        asks(
            read_list(a + seq!["--idle-ok-suggest"@], start, begun),
            listing::FilterView { idle_ok: Some(IdleOkState::Suggest), ..filter },
            pretty,
        ),
        asks(
            read_list(a + seq!["--released"@], start, begun),
            listing::FilterView { released: Some(true), ..filter },
            pretty,
        ),
        asks(
            read_list(a + seq!["--unreleased"@], start, begun),
            listing::FilterView { released: Some(false), ..filter },
            pretty,
        ),
        asks(read_list(a + seq!["--pretty"@], start, begun), filter, true),
        asks(read_list(a + seq!["--json"@], start, begun), filter, pretty),
{
    lemma_last_value(a, "--priority"@, value, start, begun, filter, pretty);
    lemma_last_value(a, "-p"@, value, start, begun, filter, pretty);
    lemma_last_value(a, "--company"@, value, start, begun, filter, pretty);
    lemma_last_value(a, "--project"@, value, start, begun, filter, pretty);
    lemma_last_word(a, "--include-done"@, start, begun, filter, pretty);
    lemma_last_word(a, "--include-parked"@, start, begun, filter, pretty);
    lemma_last_word(a, "--idle-ok"@, start, begun, filter, pretty);
    lemma_last_word(a, "--idle-ok-suggest"@, start, begun, filter, pretty);
    lemma_last_word(a, "--released"@, start, begun, filter, pretty);
    lemma_last_word(a, "--unreleased"@, start, begun, filter, pretty);
    lemma_last_word(a, "--pretty"@, start, begun, filter, pretty);
    lemma_last_word(a, "--json"@, start, begun, filter, pretty);
}

proof fn lemma_last_value(
    a: Seq<Seq<char>>,
    word: Seq<char>,
    value: Seq<char>,
    start: listing::FilterView,
    begun: bool,
    filter: listing::FilterView,
    pretty: bool,
)
    requires
        asks(read_list(a, start, begun), filter, pretty),
        a.len() > 0 ==> a.last() != "--company"@ && a.last() != "--project"@,
    ensures
        word == "--priority"@ || word == "-p"@ ==> asks(
            read_list(a + seq![word, value], start, begun),
            listing::FilterView { priority: model::read_priority(value), ..filter },
            pretty,
        ),
        word == "--company"@ ==> asks(
            read_list(a + seq![word, value], start, begun),
            listing::FilterView { lane_company: Some(value), ..filter },
            pretty,
        ),
        word == "--project"@ ==> asks(
            read_list(a + seq![word, value], start, begun),
            listing::FilterView { lane_project: Some(value), ..filter },
            pretty,
        ),
{
    reveal_flags();
    let b = seq![word, value];
    law_list_flags_add_up(a, b, start, begun, filter, pretty);
    assert(b.skip(2) =~= Seq::empty());
    reveal_with_fuel(read_list, 2);
}

proof fn lemma_last_word(
    a: Seq<Seq<char>>,
    word: Seq<char>,
    start: listing::FilterView,
    begun: bool,
    filter: listing::FilterView,
    pretty: bool,
)
    requires
        asks(read_list(a, start, begun), filter, pretty),
        a.len() > 0 ==> a.last() != "--company"@ && a.last() != "--project"@,
    ensures
        word == "--include-done"@ ==> asks(
            read_list(a + seq![word], start, begun),
            listing::FilterView { include_done: true, ..filter },
            pretty,
        ),
        word == "--include-parked"@ ==> asks(
            read_list(a + seq![word], start, begun),
            listing::FilterView { include_parked: true, ..filter },
            pretty,
        ),
        word == "--idle-ok"@ ==> asks(
            read_list(a + seq![word], start, begun),
            listing::FilterView { idle_ok: Some(IdleOkState::Approved), ..filter },
            pretty,
        ),
        word == "--idle-ok-suggest"@ ==> asks(
            read_list(a + seq![word], start, begun),
            listing::FilterView { idle_ok: Some(IdleOkState::Suggest), ..filter },
            pretty,
        ),
        word == "--released"@ ==> asks(
            read_list(a + seq![word], start, begun),
            listing::FilterView { released: Some(true), ..filter },
            pretty,
        ),
        word == "--unreleased"@ ==> asks(
            read_list(a + seq![word], start, begun),
            listing::FilterView { released: Some(false), ..filter },
            pretty,
        ),
        word == "--pretty"@ ==> asks(read_list(a + seq![word], start, begun), filter, true),
        word == "--json"@ ==> asks(read_list(a + seq![word], start, begun), filter, pretty),
{
    reveal_flags();
    let b = seq![word];
    law_list_flags_add_up(a, b, start, begun, filter, pretty);
    assert(b.skip(1) =~= Seq::empty());
    reveal_with_fuel(read_list, 2);
}

/// Flags of `add` are read one after the other, and the last one has its say.
pub proof fn law_add_flags_add_up(a: Seq<Seq<char>>, b: Seq<Seq<char>>, start: AddFlags)
    ensures
        read_add(a, start) matches Ok(st) ==> read_add(a + b, start) == read_add(b, st),
    decreases a.len(),
{
    reveal_flags();
    if a.len() == 0 {
        assert(a + b =~= b);
    } else {
        let s = a + b;
        assert(s[0] == a[0]);
        assert(s.skip(1) =~= a.skip(1) + b);
        if a.len() > 1 {
            assert(s[1] == a[1]);
            assert(s.skip(2) =~= a.skip(2) + b);
        }
        let w = a[0];
        if w == "--priority"@ || w == "-p"@ {
            if a.len() > 1 {
                if let Some(p) = model::read_priority(a[1]) {
                    law_add_flags_add_up(a.skip(2), b, AddFlags { priority: p, ..start });
                }
            }
        } else if w == "--idle-ok"@ {
            law_add_flags_add_up(
                a.skip(1),
                b,
                AddFlags { idle_ok: IdleOkState::Approved, ..start },
            );
        } else if w == "--idle-ok-suggest"@ {
            law_add_flags_add_up(a.skip(1), b, AddFlags { idle_ok: IdleOkState::Suggest, ..start });
        } else if w == "--force-real"@ {
            law_add_flags_add_up(a.skip(1), b, AddFlags { force_real: true, ..start });
        } else if w == "--lane"@ {
            if a.len() > 1 {
                if let Some((x, y, z)) = listing::lane_segments(a[1]) {
                    law_add_flags_add_up(
                        a.skip(2),
                        b,
                        AddFlags { lane: Some(listing::lane_tag(x, y, z)), ..start },
                    );
                }
            }
        }
    }
}

/// `add` with nothing but a subject asks for a P1 item that is neither
/// authorized nor forced. `--priority` asks for another bucket and nothing
/// else, `--lane` puts the tag in front of the subject and changes nothing
/// else.
pub proof fn law_add_defaults(subject: Seq<char>, level: u32, lane: Seq<char>)
    ensures
        read_add_command(seq![subject]) matches Ok(c) && c == (CommandView::Add {
            subject,
            priority: 1,
            idle_ok: IdleOkState::Unset,
            force_real: false,
        }),
        read_add_command(seq![subject, "--priority"@, model::priority_text(level)]) matches Ok(c)
            && c == (CommandView::Add {
            subject,
            priority: level,
            idle_ok: IdleOkState::Unset,
            force_real: false,
        }),
        listing::lane_segments(lane) matches Some((x, y, z)) ==> {
            read_add_command(seq![subject, "--lane"@, lane]) matches Ok(c) && c
                == (CommandView::Add {
                subject: listing::lane_tag(x, y, z) + " "@ + subject,
                priority: 1,
                idle_ok: IdleOkState::Unset,
                force_real: false,
            })
        },
        read_add_command(Seq::empty()) is Err,
{
    reveal_flags();
    reveal_with_fuel(read_add, 3);
    model::lemma_priority_reads_back(level);
    assert(seq![subject].skip(1) =~= Seq::empty());
    let a = seq![subject, "--priority"@, model::priority_text(level)];
    assert(a.skip(1).skip(2) =~= Seq::empty());
    let b = seq![subject, "--lane"@, lane];
    assert(b.skip(1).skip(2) =~= Seq::empty());
}

/// A command on one item is about the item that it names and about no other.
pub proof fn law_commands_name_their_item(id: Seq<char>, level: u32, value: Seq<char>)
    ensures
        read_done(seq![id]) == Ok::<CommandView, Option<Seq<char>>>(
            CommandView::Done { id, force_real: false },
        ),
        read_done(seq![id, "--force-real"@]) == Ok::<CommandView, Option<Seq<char>>>(
            CommandView::Done { id, force_real: true },
        ),
        read_reprioritize(seq![id, "--to"@, model::priority_text(level)]) == Ok::<
            CommandView,
            Option<Seq<char>>,
        >(CommandView::Reprioritize { id, target: level }),
        read_evidence_command(seq![id]) == Ok::<CommandView, Option<Seq<char>>>(
            CommandView::EvidenceShow { id, json: false },
        ),
        read_evidence_command(seq![id, "--add"@, value]) == Ok::<CommandView, Option<Seq<char>>>(
            CommandView::EvidenceAdd { id, reference: value },
        ),
        read_evidence_command(seq![id, "--clear"@]) == Ok::<CommandView, Option<Seq<char>>>(
            CommandView::EvidenceClear { id },
        ),
        read_state_command("reopen"@, seq![id]) matches Some(r) && r == Ok::<
            CommandView,
            Option<Seq<char>>,
        >(CommandView::Reopen { id }),
{
    reveal_with_fuel(read_switch, 3);
    reveal_with_fuel(read_target, 3);
    reveal_with_fuel(read_evidence_flags, 3);
    reveal_strlit("--add");
    reveal_strlit("--clear");
    reveal_strlit("--to");
    assert("--add"@.len() == 5 && "--clear"@.len() == 7);
    model::lemma_priority_reads_back(level);
    assert(seq![id].skip(1) =~= Seq::empty());
    assert(seq![id, "--force-real"@].skip(1).skip(1) =~= Seq::empty());
    assert(seq![id, "--clear"@].skip(1).skip(1) =~= Seq::empty());
    assert(seq![id, "--to"@, model::priority_text(level)].skip(1).skip(2) =~= Seq::empty());
    assert(seq![id, "--add"@, value].skip(1).skip(2) =~= Seq::empty());
}

/// `weight` ranks as many items as it is asked for, and `stats` counts since
/// the time that is given.
pub proof fn law_report_arguments(n: usize, since: Seq<char>, top: usize)
    ensures
        read_weight(seq!["--top"@, decimal::decimal(n as nat)], top) == Ok::<
            CommandView,
            Option<Seq<char>>,
        >(CommandView::Weight { top_n: n }),
        read_weight(Seq::empty(), top) == Ok::<CommandView, Option<Seq<char>>>(
            CommandView::Weight { top_n: top },
        ),
        read_stats(seq!["--since"@, since], None, false) == Ok::<CommandView, Option<Seq<char>>>(
            CommandView::Stats { since, json: false },
        ),
        read_stats(Seq::empty(), None, false) is Err,
{
    reveal_with_fuel(read_weight, 2);
    reveal_with_fuel(read_stats, 2);
    decimal::law_numbers(n as nat, Seq::empty());
    assert(seq!["--top"@, decimal::decimal(n as nat)].skip(2) =~= Seq::empty());
    assert(seq!["--since"@, since].skip(2) =~= Seq::empty());
}

/// Flags that name a company come before the command and make no difference to
/// it; the last one counts.
pub proof fn law_company_flags(
    name: Seq<char>,
    args: Seq<Seq<char>>,
    given: Option<Seq<char>>,
)
    ensures
        read_company(seq!["--company"@, name] + args, given).1 == read_company(args, None).1,
        args.len() == 0 || args[0] != "--company"@ ==> read_company(
            seq!["--company"@, name] + args,
            given,
        ) == (Some(name), args),
        args.len() > 0 && args[0] != "--company"@ ==> read_company(args, given) == (given, args),
{
    let s = seq!["--company"@, name] + args;
    assert(s.skip(2) =~= args);
    lemma_rest_of_the_arguments(args, Some(name), None);
}

proof fn lemma_rest_of_the_arguments(
    args: Seq<Seq<char>>,
    a: Option<Seq<char>>,
    b: Option<Seq<char>>,
)
    ensures
        read_company(args, a).1 == read_company(args, b).1,
    decreases args.len(),
{
    if args.len() >= 2 && args[0] == "--company"@ {
        lemma_rest_of_the_arguments(args.skip(2), Some(args[1]), Some(args[1]));
    }
}

} // verus!
