//! What can be read off a todo list: closes and churn, open items by project,
//! and the salience ranking.

use crate::calendar;
use crate::decimal;
use crate::model;
use crate::model::{CountByProjectOutput, Item, ProjectCount, StatsOutput, Todos, WeightOutput};
use crate::model::WeightedItem;
use crate::ops;
use crate::text;
use vstd::prelude::*;

verus! {

// ---------------------------------------------------------------------------
// Closes and churn
// ---------------------------------------------------------------------------

/// The start of churn tracking. Items created before it were never swept and
/// are exempt.
pub const PHASE_2A_EPOCH: &'static str = "2026-07-02T00:00:00Z";

/// The close of the item is churn: no sweep ever saw it open, it was not
/// forced to count, and it was created since tracking started.
pub open spec fn churn(it: model::ItemView) -> bool {
    &&& !it.force_real
    &&& it.first_seen_open is None
    &&& it.created_ts matches Some(ts)
    &&& !text::before(ts, PHASE_2A_EPOCH@)
}

/// Whether the close of a (closed) item is churn.
pub fn is_churn(item: &Item) -> (r: bool)
    ensures
        r == churn(item@),
{
    if item.force_real {
        return false;
    }
    if item.first_seen_open.is_some() {
        return false;
    }
    match &item.created_ts {
        Some(ts) => !text::str_before(ts.as_str(), PHASE_2A_EPOCH),
        None => false,
    }
}

/// The item was closed on or after the given date.
pub open spec fn closed_since(it: model::ItemView, date: Seq<char>) -> bool {
    !it.open && (it.closed_on matches Some(d) && !text::before(d, date))
}

/// The date part of a timestamp, its first ten bytes.
pub open spec fn date_part(since: Seq<char>) -> Seq<char> {
    text::byte_prefix(since, 10)->0
}

/// The summary line.
pub open spec fn summary_text(counted: nat, churned: nat, forced: nat) -> Seq<char> {
    "closed "@ + decimal::decimal(counted) + " real, excluded "@ + decimal::decimal(churned)
        + " churn, "@ + decimal::decimal(forced) + " forced-real"@
}

fn summary(counted: usize, churned: usize, forced: usize) -> (r: String)
    ensures
        r@ == summary_text(counted as nat, churned as nat, forced as nat),
{
    let mut r: String = text::owned("closed ");
    text::push_str(&mut r, decimal::decimal_of(counted as u64).as_str());
    text::push_str(&mut r, " real, excluded ");
    text::push_str(&mut r, decimal::decimal_of(churned as u64).as_str());
    text::push_str(&mut r, " churn, ");
    text::push_str(&mut r, decimal::decimal_of(forced as u64).as_str());
    text::push_str(&mut r, " forced-real");
    r
}

/// Counts the closes since a given time: those that count, those that are
/// churn, and those that count because they were forced to. Only the date part
/// of the time matters; it must not end inside a character.
pub fn stats(todos: &Todos, since: &str) -> (r: StatsOutput)
    requires
        text::byte_prefix(since@, 10) is Some,
    ensures
        r.company@ == todos@.company,
        r.since@ == since@,
        r.closed_real == ops::count(
            todos@.items,
            |it: model::ItemView| closed_since(it, date_part(since@)) && !churn(it),
        ),
        r.excluded_churn == ops::count(
            todos@.items,
            |it: model::ItemView| closed_since(it, date_part(since@)) && churn(it),
        ),
        r.forced_real == ops::count(
            todos@.items,
            |it: model::ItemView| closed_since(it, date_part(since@)) && it.force_real,
        ),
        r.summary@ == summary_text(
            r.closed_real as nat,
            r.excluded_churn as nat,
            r.forced_real as nat,
        ),
        r.forced_real <= r.closed_real,
        r.closed_real + r.excluded_churn == ops::count(
            todos@.items,
            |it: model::ItemView|
                !it.open && it.closed_on is Some && !text::before(
                    it.closed_on->0,
                    date_part(since@),
                ),
        ),
{
    let date: String = match text::first_bytes(since, 10) {
        Some(d) => d,
        None => text::owned(""),
    };
    let n: usize = todos.items.len();
    let mut closed_real: usize = 0;
    let mut excluded_churn: usize = 0;
    let mut forced_real: usize = 0;
    let mut i: usize = 0;
    let ghost items = todos@.items;
    let ghost day = date_part(since@);
    let ghost is_real = |it: model::ItemView| closed_since(it, date_part(since@)) && !churn(it);
    let ghost is_churned = |it: model::ItemView| closed_since(it, date_part(since@)) && churn(it);
    let ghost is_forced = |it: model::ItemView|
        closed_since(it, date_part(since@)) && it.force_real;
    proof {
        ops::lemma_count_none(items, is_real);
        ops::lemma_count_none(items, is_churned);
        ops::lemma_count_none(items, is_forced);
    }
    while i < n
        invariant
            n == todos.items@.len(),
            items == todos@.items,
            n == items.len(),
            0 <= i <= n,
            day == date_part(since@),
            date@ == day,
            is_real == (|it: model::ItemView|
                closed_since(it, date_part(since@)) && !churn(it)),
            is_churned == (|it: model::ItemView|
                closed_since(it, date_part(since@)) && churn(it)),
            is_forced == (|it: model::ItemView|
                closed_since(it, date_part(since@)) && it.force_real),
            closed_real == ops::count(items.take(i as int), is_real),
            excluded_churn == ops::count(items.take(i as int), is_churned),
            forced_real == ops::count(items.take(i as int), is_forced),
            closed_real + excluded_churn <= i,
            forced_real <= closed_real,
        decreases n - i,
    {
        let item: &Item = &todos.items[i];
        assert(items[i as int] == item@);
        proof {
            ops::lemma_count_step(items, is_real, i as int);
            ops::lemma_count_step(items, is_churned, i as int);
            ops::lemma_count_step(items, is_forced, i as int);
        }
        if !item.open {
            match &item.closed_on {
                Some(d) => {
                    if !text::str_before(d.as_str(), date.as_str()) {
                        if is_churn(item) {
                            excluded_churn = excluded_churn + 1;
                        } else {
                            closed_real = closed_real + 1;
                            if item.force_real {
                                forced_real = forced_real + 1;
                            }
                        }
                    }
                },
                None => {},
            }
        }
        i = i + 1;
    }
    assert(items.take(n as int) =~= items);
    proof {
        ops::lemma_count_sum(
            items,
            is_real,
            is_churned,
            |it: model::ItemView|
                !it.open && it.closed_on is Some && !text::before(
                    it.closed_on->0,
                    date_part(since@),
                ),
        );
    }
    StatsOutput {
        company: text::owned(todos.company.as_str()),
        since: text::owned(since),
        closed_real,
        excluded_churn,
        forced_real,
        summary: summary(closed_real, excluded_churn, forced_real),
    }
}

// ---------------------------------------------------------------------------
// Open items by project
// ---------------------------------------------------------------------------

/// The project that an item is counted under.
pub open spec fn project_key(it: model::ItemView) -> Seq<char> {
    match it.lane {
        Some(l) => l.company + "/"@ + l.project,
        None => "untagged"@,
    }
}

/// An open item of the project.
pub open spec fn in_project(it: model::ItemView, key: Seq<char>) -> bool {
    it.open && project_key(it) == key
}

/// The number of open items of a project in one bucket.
pub open spec fn in_bucket(items: Seq<model::ItemView>, key: Seq<char>, level: u32) -> nat {
    ops::count(items, |it: model::ItemView| in_project(it, key) && it.priority == level)
}

/// The counts of a project.
pub open spec fn is_tally(items: Seq<model::ItemView>, key: Seq<char>, c: ProjectCount) -> bool {
    &&& c.p0 == in_bucket(items, key, 0)
    &&& c.p1 == in_bucket(items, key, 1)
    &&& c.p2 == in_bucket(items, key, 2)
    &&& c.other == ops::count(
        items,
        |it: model::ItemView| in_project(it, key) && it.priority > 2,
    )
    &&& c.total == ops::count(items, |it: model::ItemView| in_project(it, key))
}

/// The projects are those of the open items, each once, in ascending order,
/// with their counts.
pub open spec fn is_count(items: Seq<model::ItemView>, projects: Seq<(String, ProjectCount)>) -> bool {
    &&& forall|i: int, j: int|
        0 <= i < j < projects.len() ==> text::before(
            (#[trigger] projects[i]).0@,
            (#[trigger] projects[j]).0@,
        )
    &&& forall|i: int|
        0 <= i < projects.len() ==> is_tally(items, (#[trigger] projects[i]).0@, projects[i].1)
            && projects[i].1.total > 0
    &&& forall|j: int|
        0 <= j < items.len() && (#[trigger] items[j]).open ==> listed(
            projects,
            project_key(items[j]),
        )
}

/// The project is among them.
pub open spec fn listed(projects: Seq<(String, ProjectCount)>, key: Seq<char>) -> bool {
    exists|i: int| 0 <= i < projects.len() && (#[trigger] projects[i]).0@ == key
}

fn key_of(item: &Item) -> (r: String)
    ensures
        r@ == project_key(item@),
{
    match &item.lane {
        Some(l) => text::concat3(l.company.as_str(), "/", l.project.as_str()),
        None => text::owned("untagged"),
    }
}

/// The counts with one more item of the given level.
spec fn tally_with(c: ProjectCount, d: ProjectCount, level: u32) -> bool {
    &&& d.p0 == c.p0 + if level == 0 {
        1int
    } else {
        0
    }
    &&& d.p1 == c.p1 + if level == 1 {
        1int
    } else {
        0
    }
    &&& d.p2 == c.p2 + if level == 2 {
        1int
    } else {
        0
    }
    &&& d.other == c.other + if level > 2 {
        1int
    } else {
        0
    }
    &&& d.total == c.total + 1
}

fn tally_one(c: ProjectCount, level: u32) -> (d: ProjectCount)
    requires
        c.p0 < usize::MAX,
        c.p1 < usize::MAX,
        c.p2 < usize::MAX,
        c.other < usize::MAX,
        c.total < usize::MAX,
    ensures
        tally_with(c, d, level),
{
    let mut d: ProjectCount = c;
    if level == 0 {
        d.p0 = d.p0 + 1;
    } else if level == 1 {
        d.p1 = d.p1 + 1;
    } else if level == 2 {
        d.p2 = d.p2 + 1;
    } else {
        d.other = d.other + 1;
    }
    d.total = d.total + 1;
    d
}

/// One item more, for one project.
proof fn lemma_tally_step(
    items: Seq<model::ItemView>,
    i: int,
    key: Seq<char>,
    c: ProjectCount,
    d: ProjectCount,
)
    requires
        0 <= i < items.len(),
        is_tally(items.take(i), key, c),
        in_project(items[i], key) ==> tally_with(c, d, items[i].priority),
        !in_project(items[i], key) ==> d == c,
    ensures
        is_tally(items.take(i + 1), key, d),
{
    ops::lemma_count_step(
        items,
        |it: model::ItemView| in_project(it, key) && it.priority == 0,
        i,
    );
    ops::lemma_count_step(
        items,
        |it: model::ItemView| in_project(it, key) && it.priority == 1,
        i,
    );
    ops::lemma_count_step(
        items,
        |it: model::ItemView| in_project(it, key) && it.priority == 2,
        i,
    );
    ops::lemma_count_step(items, |it: model::ItemView| in_project(it, key) && it.priority > 2, i);
    ops::lemma_count_step(items, |it: model::ItemView| in_project(it, key), i);
}

/// The counts of a project are bounded by the number of items.
proof fn lemma_tally_bound(items: Seq<model::ItemView>, key: Seq<char>, c: ProjectCount)
    requires
        is_tally(items, key, c),
    ensures
        c.p0 <= items.len(),
        c.p1 <= items.len(),
        c.p2 <= items.len(),
        c.other <= items.len(),
        c.total <= items.len(),
{
    items.lemma_filter_len(|it: model::ItemView| in_project(it, key) && it.priority == 0);
    items.lemma_filter_len(|it: model::ItemView| in_project(it, key) && it.priority == 1);
    items.lemma_filter_len(|it: model::ItemView| in_project(it, key) && it.priority == 2);
    items.lemma_filter_len(|it: model::ItemView| in_project(it, key) && it.priority > 2);
    items.lemma_filter_len(|it: model::ItemView| in_project(it, key));
}

/// Nothing to count.
pub proof fn lemma_count_zero(items: Seq<model::ItemView>, p: spec_fn(model::ItemView) -> bool)
    requires
        forall|j: int| 0 <= j < items.len() ==> !p(#[trigger] items[j]),
    ensures
        ops::count(items, p) == 0,
    decreases items.len(),
{
    reveal(Seq::filter);
    if items.len() > 0 {
        lemma_count_zero(items.drop_last(), p);
    }
}

/// A project that no open item is in has nothing to count.
proof fn lemma_tally_zero(items: Seq<model::ItemView>, key: Seq<char>)
    requires
        forall|j: int| 0 <= j < items.len() ==> !in_project(#[trigger] items[j], key),
    ensures
        is_tally(items, key, (ProjectCount { p0: 0, p1: 0, p2: 0, other: 0, total: 0 })),
{
    lemma_count_zero(items, |it: model::ItemView| in_project(it, key) && it.priority == 0);
    lemma_count_zero(items, |it: model::ItemView| in_project(it, key) && it.priority == 1);
    lemma_count_zero(items, |it: model::ItemView| in_project(it, key) && it.priority == 2);
    lemma_count_zero(items, |it: model::ItemView| in_project(it, key) && it.priority > 2);
    lemma_count_zero(items, |it: model::ItemView| in_project(it, key));
}

/// The place of a project, or where it belongs.
fn place_of(projects: &Vec<(String, ProjectCount)>, key: &str) -> (p: usize)
    requires
        forall|i: int, j: int|
            0 <= i < j < projects@.len() ==> text::before(
                (#[trigger] projects@[i]).0@,
                (#[trigger] projects@[j]).0@,
            ),
    ensures
        p <= projects@.len(),
        forall|i: int| 0 <= i < p ==> text::before((#[trigger] projects@[i]).0@, key@),
        p < projects@.len() ==> !text::before(projects@[p as int].0@, key@),
{
    let n: usize = projects.len();
    let mut p: usize = 0;
    while p < n && text::str_before(projects[p].0.as_str(), key)
        invariant
            n == projects@.len(),
            0 <= p <= n,
            forall|i: int| 0 <= i < p ==> text::before((#[trigger] projects@[i]).0@, key@),
        decreases n - p,
    {
        p = p + 1;
    }
    p
}

/// Counts one open item.
fn count_item(
    projects: &mut Vec<(String, ProjectCount)>,
    item: &Item,
    Ghost(items): Ghost<Seq<model::ItemView>>,
    Ghost(i): Ghost<int>,
)
    requires
        0 <= i < items.len() <= usize::MAX,
        items[i] == item@,
        item.open,
        is_count(items.take(i), old(projects)@),
    ensures
        is_count(items.take(i + 1), final(projects)@),
{
    let key: String = key_of(item);
    let p: usize = place_of(projects, key.as_str());
    let n: usize = projects.len();
    let ghost before = projects@;
    if p < n && text::same_text(projects[p].0.as_str(), key.as_str()) {
        let c: ProjectCount = projects[p].1;
        proof {
            lemma_tally_bound(items.take(i), key@, c);
        }
        let d: ProjectCount = tally_one(c, item.priority.0);
        projects.set(p, (key, d));
        proof {
            lemma_updated(items, i, before, projects@, p as int);
        }
    } else {
        let zero = ProjectCount { p0: 0, p1: 0, p2: 0, other: 0, total: 0 };
        let d: ProjectCount = tally_one(zero, item.priority.0);
        projects.insert(p, (key, d));
        proof {
            lemma_inserted(items, i, before, projects@, p as int);
        }
    }
}

/// A project that was there, with one more item.
proof fn lemma_updated(
    items: Seq<model::ItemView>,
    i: int,
    before: Seq<(String, ProjectCount)>,
    after: Seq<(String, ProjectCount)>,
    p: int,
)
    requires
        0 <= i < items.len(),
        items[i].open,
        is_count(items.take(i), before),
        0 <= p < before.len(),
        before[p].0@ == project_key(items[i]),
        after == before.update(p, after[p]),
        after[p].0@ == before[p].0@,
        tally_with(before[p].1, after[p].1, items[i].priority),
    ensures
        is_count(items.take(i + 1), after),
{
    let now = items.take(i + 1);
    assert forall|a: int, b: int| 0 <= a < b < after.len() implies text::before(
        (#[trigger] after[a]).0@,
        (#[trigger] after[b]).0@,
    ) by {
        assert(text::before(before[a].0@, before[b].0@));
    }
    assert forall|a: int| 0 <= a < after.len() implies is_tally(
        now,
        (#[trigger] after[a]).0@,
        after[a].1,
    ) && after[a].1.total > 0 by {
        assert(is_tally(items.take(i), before[a].0@, before[a].1));
        if a != p && before[a].0@ == before[p].0@ {
            text::lemma_before_irreflexive(before[a].0@);
            if a < p {
                assert(text::before(before[a].0@, before[p].0@));
            } else {
                assert(text::before(before[p].0@, before[a].0@));
            }
        }
        lemma_tally_step(items, i, before[a].0@, before[a].1, after[a].1);
    }
    assert forall|j: int| 0 <= j < now.len() && (#[trigger] now[j]).open implies listed(
        after,
        project_key(now[j]),
    ) by {
        let key = project_key(now[j]);
        if j < i {
            assert(items.take(i)[j] == now[j]);
            assert(listed(before, key));
            let a = choose|a: int| 0 <= a < before.len() && (#[trigger] before[a]).0@ == key;
            assert(after[a].0@ == key);
        } else {
            assert(after[p].0@ == key);
        }
    }
}

/// A project that was not there, with its first item.
proof fn lemma_inserted(
    items: Seq<model::ItemView>,
    i: int,
    before: Seq<(String, ProjectCount)>,
    after: Seq<(String, ProjectCount)>,
    p: int,
)
    requires
        0 <= i < items.len(),
        items[i].open,
        is_count(items.take(i), before),
        0 <= p <= before.len(),
        after == before.insert(p, after[p]),
        after[p].0@ == project_key(items[i]),
        forall|a: int| 0 <= a < p ==> text::before((#[trigger] before[a]).0@, after[p].0@),
        p < before.len() ==> !text::before(before[p].0@, after[p].0@) && before[p].0@
            != after[p].0@,
        tally_with(
            ProjectCount { p0: 0, p1: 0, p2: 0, other: 0, total: 0 },
            after[p].1,
            items[i].priority,
        ),
    ensures
        is_count(items.take(i + 1), after),
{
    let now = items.take(i + 1);
    let key = after[p].0@;
    let zero = ProjectCount { p0: 0, p1: 0, p2: 0, other: 0, total: 0 };
    // What comes after the place comes after the key.
    assert forall|a: int| p <= a < before.len() implies text::before(
        key,
        (#[trigger] before[a]).0@,
    ) by {
        text::lemma_before_total(before[p].0@, key);
        if a > p {
            assert(text::before(before[p].0@, before[a].0@));
            text::lemma_before_transitive(key, before[p].0@, before[a].0@);
        }
    }
    assert forall|a: int, b: int| 0 <= a < b < after.len() implies text::before(
        (#[trigger] after[a]).0@,
        (#[trigger] after[b]).0@,
    ) by {
        if a < p && b < p {
            assert(after[a] == before[a] && after[b] == before[b]);
        } else if a < p && b == p {
            assert(after[a] == before[a]);
        } else if a < p {
            assert(after[a] == before[a] && after[b] == before[b - 1]);
            assert(text::before(before[a].0@, before[b - 1].0@));
        } else if a == p {
            assert(after[b] == before[b - 1]);
        } else {
            assert(after[a] == before[a - 1] && after[b] == before[b - 1]);
        }
    }
    assert forall|a: int| 0 <= a < before.len() implies (#[trigger] before[a]).0@ != key by {
        text::lemma_before_irreflexive(key);
        if a < p {
            assert(text::before(before[a].0@, key));
        } else {
            assert(text::before(key, before[a].0@));
        }
    }
    let past = items.take(i);
    assert forall|j: int| 0 <= j < past.len() implies !in_project(#[trigger] past[j], key) by {
        if in_project(past[j], key) {
            assert(listed(before, key));
        }
    }
    lemma_tally_zero(past, key);
    assert forall|a: int| 0 <= a < after.len() implies is_tally(
        now,
        (#[trigger] after[a]).0@,
        after[a].1,
    ) && after[a].1.total > 0 by {
        if a == p {
            lemma_tally_step(items, i, key, zero, after[p].1);
        } else {
            let b = if a < p {
                a
            } else {
                a - 1
            };
            assert(after[a] == before[b]);
            assert(is_tally(past, before[b].0@, before[b].1));
            lemma_tally_step(items, i, before[b].0@, before[b].1, before[b].1);
        }
    }
    assert forall|j: int| 0 <= j < now.len() && (#[trigger] now[j]).open implies listed(
        after,
        project_key(now[j]),
    ) by {
        let k = project_key(now[j]);
        if j < i {
            assert(past[j] == now[j]);
            assert(listed(before, k));
            let a = choose|a: int| 0 <= a < before.len() && (#[trigger] before[a]).0@ == k;
            if a < p {
                assert(after[a].0@ == k);
            } else {
                assert(after[a + 1].0@ == k);
            }
        } else {
            assert(after[p].0@ == k);
        }
    }
}

/// Counts the open items by project. Items without a lane are counted under
/// `untagged`.
pub fn count_by_project(todos: &Todos) -> (r: CountByProjectOutput)
    ensures
        r.company@ == todos@.company,
        is_count(todos@.items, r.projects@),
{
    let n: usize = todos.items.len();
    let mut projects: Vec<(String, ProjectCount)> = Vec::new();
    let mut i: usize = 0;
    let ghost items = todos@.items;
    while i < n
        invariant
            n == todos.items@.len(),
            items == todos@.items,
            n == items.len(),
            0 <= i <= n,
            is_count(items.take(i as int), projects@),
        decreases n - i,
    {
        let item: &Item = &todos.items[i];
        assert(items[i as int] == item@);
        if item.open {
            count_item(&mut projects, item, Ghost(items), Ghost(i as int));
        } else {
            proof {
                lemma_skipped(items, i as int, projects@);
            }
        }
        i = i + 1;
    }
    assert(items.take(n as int) =~= items);
    CountByProjectOutput { company: text::owned(todos.company.as_str()), projects }
}

/// A closed item is not counted.
proof fn lemma_skipped(
    items: Seq<model::ItemView>,
    i: int,
    projects: Seq<(String, ProjectCount)>,
)
    requires
        0 <= i < items.len(),
        !items[i].open,
        is_count(items.take(i), projects),
    ensures
        is_count(items.take(i + 1), projects),
{
    let now = items.take(i + 1);
    assert forall|a: int| 0 <= a < projects.len() implies is_tally(
        now,
        (#[trigger] projects[a]).0@,
        projects[a].1,
    ) && projects[a].1.total > 0 by {
        assert(is_tally(items.take(i), projects[a].0@, projects[a].1));
        lemma_tally_step(items, i, projects[a].0@, projects[a].1, projects[a].1);
    }
    assert forall|j: int| 0 <= j < now.len() && (#[trigger] now[j]).open implies listed(
        projects,
        project_key(now[j]),
    ) by {
        assert(items.take(i)[j] == now[j]);
    }
}

// ---------------------------------------------------------------------------
// Salience
// ---------------------------------------------------------------------------

/// An item that is scored: open, with a creation time.
pub open spec fn scorable(it: model::ItemView) -> bool {
    it.open && it.created_ts is Some
}

/// The items that are scored, in the order of the list.
pub open spec fn pool(items: Seq<model::ItemView>) -> Seq<model::ItemView> {
    items.filter(|it: model::ItemView| scorable(it))
}

/// How much a bucket counts.
pub open spec fn importance(level: u32) -> u64 {
    if level == 0 {
        3
    } else if level == 1 {
        2
    } else {
        1
    }
}

/// The age of a scored item in seconds; zero if its creation time cannot be
/// read or lies in the future.
pub open spec fn age(it: model::ItemView, now: u64) -> u64 {
    match calendar::read_iso(it.created_ts->0) {
        Some(created) => if created < now {
            (now - created) as u64
        } else {
            0
        },
        None => 0,
    }
}

/// What the weight of an item is computed from: its age and its importance.
pub open spec fn salience(it: model::ItemView, now: u64) -> (u64, u64) {
    (age(it, now), importance(it.priority))
}

/// A scored item with its weight.
pub open spec fn weighted(it: model::ItemView, now: u64, weight: u64) -> model::WeightedView {
    model::WeightedView {
        id: it.id,
        subject: it.subject,
        priority: model::priority_text(it.priority),
        created_ts: it.created_ts->0,
        age_secs: age(it, now),
        weight,
    }
}

/// The scored items with their weights, in the order of the list.
pub open spec fn scored(items: Seq<model::ItemView>, now: u64, weights: Seq<u64>) -> Seq<
    model::WeightedView,
> {
    Seq::new(pool(items).len(), |k: int| weighted(pool(items)[k], now, weights[k]))
}

/// One more entry in a ranking: behind all that weigh as much or more.
pub open spec fn rank_one(r: Seq<model::WeightedView>, x: model::WeightedView) -> Seq<
    model::WeightedView,
>
    decreases r.len(),
{
    if r.len() == 0 || r[0].weight < x.weight {
        seq![x] + r
    } else {
        seq![r[0]] + rank_one(r.skip(1), x)
    }
}

/// The entries by descending weight; those of the same weight keep their
/// order.
pub open spec fn ranked(s: Seq<model::WeightedView>) -> Seq<model::WeightedView>
    decreases s.len(),
{
    if s.len() == 0 {
        Seq::empty()
    } else {
        rank_one(ranked(s.drop_last()), s.last())
    }
}

/// The first `n` of a sequence, or all.
pub open spec fn at_most(s: Seq<model::WeightedView>, n: nat) -> Seq<model::WeightedView> {
    if n < s.len() {
        s.take(n as int)
    } else {
        s
    }
}

/// One item further in the pool.
proof fn lemma_pool_step(items: Seq<model::ItemView>, i: int)
    requires
        0 <= i < items.len(),
    ensures
        pool(items.take(i + 1)) == if scorable(items[i]) {
            pool(items.take(i)).push(items[i])
        } else {
            pool(items.take(i))
        },
        pool(items.take(i)).len() <= i,
        pool(items.take(i + 1)).len() <= pool(items).len(),
        scorable(items[i]) ==> pool(items)[pool(items.take(i)).len() as int] == items[i],
    decreases items.len() - i,
{
    reveal(Seq::filter);
    let p = |it: model::ItemView| scorable(it);
    assert(items.take(i + 1).drop_last() =~= items.take(i));
    assert(items.take(i + 1).last() == items[i]);
    items.take(i).lemma_filter_len(p);
    let rest = items.skip(i + 1);
    assert(items =~= items.take(i + 1) + rest);
    Seq::filter_distributes_over_add(items.take(i + 1), rest, p);
}

fn importance_of(level: u32) -> (r: u64)
    ensures
        r == importance(level),
{
    if level == 0 {
        3
    } else if level == 1 {
        2
    } else {
        1
    }
}

fn age_of(ts: &str, now: u64) -> (r: u64)
    ensures
        r == match calendar::read_iso(ts@) {
            Some(created) => if created < now {
                (now - created) as u64
            } else {
                0
            },
            None => 0,
        },
{
    match calendar::parse_iso8601_secs(ts) {
        Some(created) => {
            if created < now {
                now - created
            } else {
                0
            }
        },
        None => 0,
    }
}

/// What the weights of the scored items are computed from, in the order of
/// the list: age in seconds and importance.
pub fn salience_inputs(todos: &Todos, now: u64) -> (r: Vec<(u64, u64)>)
    ensures
        r@ == pool(todos@.items).map_values(|it: model::ItemView| salience(it, now)),
{
    let n: usize = todos.items.len();
    let mut r: Vec<(u64, u64)> = Vec::new();
    let mut i: usize = 0;
    let ghost items = todos@.items;
    let ghost f = |it: model::ItemView| salience(it, now);
    assert(pool(items.take(0)) =~= Seq::empty()) by {
        items.take(0).lemma_filter_len(|it: model::ItemView| scorable(it));
    }
    assert(r@ =~= pool(items.take(0)).map_values(f));
    while i < n
        invariant
            n == todos.items@.len(),
            items == todos@.items,
            n == items.len(),
            0 <= i <= n,
            f == (|it: model::ItemView| salience(it, now)),
            r@ == pool(items.take(i as int)).map_values(f),
        decreases n - i,
    {
        let item: &Item = &todos.items[i];
        assert(items[i as int] == item@);
        proof {
            lemma_pool_step(items, i as int);
        }
        if item.open {
            match &item.created_ts {
                Some(ts) => {
                    r.push((age_of(ts.as_str(), now), importance_of(item.priority.0)));
                    assert(r@ =~= pool(items.take(i as int + 1)).map_values(f));
                },
                None => {},
            }
        }
        i = i + 1;
    }
    assert(items.take(n as int) =~= items);
    r
}

/// Insertion at the place where the weights ask for it.
proof fn lemma_rank_at(r: Seq<model::WeightedView>, x: model::WeightedView, k: int)
    requires
        0 <= k <= r.len(),
        forall|i: int| 0 <= i < k ==> (#[trigger] r[i]).weight >= x.weight,
        k < r.len() ==> r[k].weight < x.weight,
    ensures
        rank_one(r, x) == r.insert(k, x),
    decreases k,
{
    if k == 0 {
        assert(seq![x] + r =~= r.insert(0, x));
    } else {
        let t = r.skip(1);
        assert(r[0].weight >= x.weight);
        assert forall|i: int| 0 <= i < k - 1 implies (#[trigger] t[i]).weight >= x.weight by {
            assert(t[i] == r[i + 1]);
        }
        lemma_rank_at(t, x, k - 1);
        assert(seq![r[0]] + t.insert(k - 1, x) =~= r.insert(k, x));
    }
}

fn rank_in(r: &mut Vec<WeightedItem>, x: WeightedItem)
    ensures
        model::weighted_view(final(r)@) == rank_one(model::weighted_view(old(r)@), x@),
{
    let n: usize = r.len();
    let ghost before = r@;
    let mut k: usize = 0;
    while k < n && r[k].weight >= x.weight
        invariant
            n == r@.len(),
            r@ == before,
            0 <= k <= n,
            forall|i: int| 0 <= i < k ==> (#[trigger] before[i]).weight >= x.weight,
        decreases n - k,
    {
        k = k + 1;
    }
    let ghost v = model::weighted_view(before);
    proof {
        assert forall|i: int| 0 <= i < k implies (#[trigger] v[i]).weight >= x@.weight by {
            assert(v[i] == before[i]@);
        }
        lemma_rank_at(v, x@, k as int);
    }
    let ghost xv = x@;
    r.insert(k, x);
    assert(model::weighted_view(r@) =~= v.insert(k as int, xv));
}

fn make_weighted(item: &Item, ts: &String, now: u64, weight: u64) -> (r: WeightedItem)
    requires
        item.created_ts == Some(*ts),
    ensures
        r@ == weighted(item@, now, weight),
{
    WeightedItem {
        id: text::owned(item.id.as_str()),
        subject: text::owned(item.subject.as_str()),
        priority: item.priority.as_str(),
        created_ts: text::owned(ts.as_str()),
        age_secs: age_of(ts.as_str(), now),
        weight,
    }
}

/// Ranks the scored items by weight and returns the first `top_n`. `weights`
/// gives the weight of each scored item, in the order of the list.
pub fn weight(todos: &Todos, now: u64, top_n: usize, weights: &[u64]) -> (r: WeightOutput)
    requires
        weights@.len() == pool(todos@.items).len(),
    ensures
        r.ts@ == calendar::iso_text(now as nat),
        r.company@ == todos@.company,
        r.top_n == top_n,
        r.scored_count == pool(todos@.items).len(),
        r.scored_count + r.unscored_count == ops::count(
            todos@.items,
            |it: model::ItemView| it.open,
        ),
        r.unscored_count == ops::count(
            todos@.items,
            |it: model::ItemView| it.open && it.created_ts is None,
        ),
        model::weighted_view(r.items@) == at_most(
            ranked(scored(todos@.items, now, weights@)),
            top_n as nat,
        ),
{
    let n: usize = todos.items.len();
    let mut items: Vec<WeightedItem> = Vec::new();
    let mut scored_count: usize = 0;
    let mut unscored_count: usize = 0;
    let mut i: usize = 0;
    let ghost all = todos@.items;
    let ghost entries = scored(all, now, weights@);
    let ghost undated = |it: model::ItemView| it.open && it.created_ts is None;
    proof {
        all.take(0).lemma_filter_len(|it: model::ItemView| scorable(it));
        ops::lemma_count_none(all, undated);
        assert(entries.take(0) =~= Seq::empty());
        assert(model::weighted_view(items@) =~= ranked(entries.take(0)));
    }
    while i < n
        invariant
            n == todos.items@.len(),
            all == todos@.items,
            n == all.len(),
            0 <= i <= n,
            weights@.len() == pool(all).len(),
            entries == scored(all, now, weights@),
            undated == (|it: model::ItemView| it.open && it.created_ts is None),
            scored_count == pool(all.take(i as int)).len(),
            scored_count <= pool(all).len(),
            unscored_count == ops::count(all.take(i as int), undated),
            scored_count + unscored_count <= i,
            model::weighted_view(items@) == ranked(entries.take(scored_count as int)),
        decreases n - i,
    {
        let item: &Item = &todos.items[i];
        assert(all[i as int] == item@);
        proof {
            lemma_pool_step(all, i as int);
            ops::lemma_count_step(all, undated, i as int);
        }
        if item.open {
            match &item.created_ts {
                Some(ts) => {
                    let w: WeightedItem = make_weighted(item, ts, now, weights[scored_count]);
                    proof {
                        let k = scored_count as int;
                        assert(entries[k] == w@);
                        assert(entries.take(k + 1).drop_last() =~= entries.take(k));
                    }
                    rank_in(&mut items, w);
                    scored_count = scored_count + 1;
                },
                None => {
                    unscored_count = unscored_count + 1;
                },
            }
        }
        i = i + 1;
    }
    assert(all.take(n as int) =~= all);
    assert(entries.take(scored_count as int) =~= entries);
    proof {
        ops::lemma_count_sum(
            all,
            |it: model::ItemView| scorable(it),
            undated,
            |it: model::ItemView| it.open,
        );
    }
    let ghost full = items@;
    items.truncate(top_n);
    assert(model::weighted_view(items@) =~= at_most(model::weighted_view(full), top_n as nat));
    WeightOutput {
        ts: calendar::current_iso8601(now),
        company: text::owned(todos.company.as_str()),
        top_n,
        scored_count,
        unscored_count,
        items,
    }
}

} // verus!
