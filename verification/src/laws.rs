//! What the operations and reports promise together.

use crate::calendar;
use crate::canonical;
use crate::decimal;
use crate::ledger;
use crate::listing;
use crate::model;
use crate::model::{IdleOkState, ParkState, ProjectCount};
use crate::ops;
use crate::parser;
use crate::reports;
use crate::roundtrip;
use crate::text;
use crate::writer;
use vstd::prelude::*;

verus! {

// ---------------------------------------------------------------------------
// Changes to one item
// ---------------------------------------------------------------------------

/// The change keeps the id of every item.
pub open spec fn keeps_id(f: spec_fn(model::ItemView) -> model::ItemView) -> bool {
    forall|it: model::ItemView| (#[trigger] f(it)).id == it.id
}

/// A change touches the one item and nothing else, and where it keeps the id,
/// every item is found at the same place afterwards.
pub proof fn law_edit_touches_one(
    t: model::TodosView,
    id: Seq<char>,
    f: spec_fn(model::ItemView) -> model::ItemView,
)
    ensures
        ops::edit(t, id, f) matches Some(u) ==> {
            let i = model::position(t.items, id)->0;
            &&& u.items.len() == t.items.len()
            &&& t.items[i].id == id
            &&& u.items[i] == f(t.items[i])
            &&& forall|j: int| 0 <= j < t.items.len() && j != i ==> #[trigger] u.items[j] == t.items[j]
            &&& u.company == t.company
            &&& u.version == t.version
            &&& u.preamble == t.preamble
            &&& keeps_id(f) ==> forall|x: Seq<char>| #[trigger]
                model::position(u.items, x) == model::position(t.items, x)
        },
{
    model::lemma_position(t.items, id);
    if let Some(u) = ops::edit(t, id, f) {
        if keeps_id(f) {
            assert forall|x: Seq<char>| #[trigger]
                model::position(u.items, x) == model::position(t.items, x) by {
                lemma_same_ids(t.items, u.items, x);
            }
        }
    }
}

/// Lists with the same ids find the same places.
proof fn lemma_same_ids(a: Seq<model::ItemView>, b: Seq<model::ItemView>, x: Seq<char>)
    requires
        a.len() == b.len(),
        forall|j: int| 0 <= j < a.len() ==> (#[trigger] a[j]).id == b[j].id,
    ensures
        model::position(a, x) == model::position(b, x),
    decreases a.len(),
{
    if a.len() > 0 {
        assert(a[0].id == b[0].id);
        assert forall|j: int| 0 <= j < a.skip(1).len() implies (#[trigger] a.skip(1)[j]).id
            == b.skip(1)[j].id by {
            assert(a[j + 1].id == b[j + 1].id);
        }
        lemma_same_ids(a.skip(1), b.skip(1), x);
    }
}

/// Two changes to the same item, one after the other, are one change.
pub proof fn law_edits_compose(
    t: model::TodosView,
    id: Seq<char>,
    f: spec_fn(model::ItemView) -> model::ItemView,
    g: spec_fn(model::ItemView) -> model::ItemView,
)
    requires
        keeps_id(f),
    ensures
        match ops::edit(t, id, f) {
            Some(u) => ops::edit(u, id, g) == ops::edit(t, id, |it: model::ItemView| g(f(it))),
            None => ops::edit(t, id, |it: model::ItemView| g(f(it))) is None,
        },
{
    model::lemma_position(t.items, id);
    law_edit_touches_one(t, id, f);
    if let Some(u) = ops::edit(t, id, f) {
        let i = model::position(t.items, id)->0;
        assert(model::position(u.items, id) == Some(i));
        assert(u.items.update(i, g(u.items[i])) =~= t.items.update(i, g(f(t.items[i]))));
    }
}

/// A change that leaves the item as it is leaves the list as it is.
proof fn lemma_edit_nothing(
    t: model::TodosView,
    id: Seq<char>,
    f: spec_fn(model::ItemView) -> model::ItemView,
)
    requires
        model::position(t.items, id) matches Some(i) ==> f(t.items[i]) == t.items[i],
    ensures
        ops::edit(t, id, f) matches Some(u) ==> u == t,
{
    model::lemma_position(t.items, id);
    if let Some(i) = model::position(t.items, id) {
        assert(t.items.update(i, f(t.items[i])) =~= t.items);
    }
}

/// `unpark` undoes `park` and `park_suggest`: the item is active afterwards,
/// and the list is the same if it was before.
pub proof fn law_unpark_undoes(t: model::TodosView, id: Seq<char>, state: ParkState)
    ensures
        ops::edit(t, id, |it: model::ItemView| ops::park_set(it, state)) matches Some(u) ==> {
            let v = ops::edit(u, id, |it: model::ItemView| ops::park_set(it, ParkState::Active));
            let i = model::position(t.items, id)->0;
            &&& v is Some
            &&& v->0.items[i] == (model::ItemView { park: ParkState::Active, ..t.items[i] })
            &&& t.items[i].park == ParkState::Active ==> v->0 == t
        },
{
    let f = |it: model::ItemView| ops::park_set(it, state);
    let g = |it: model::ItemView| ops::park_set(it, ParkState::Active);
    model::lemma_position(t.items, id);
    law_edits_compose(t, id, f, g);
    let h = |it: model::ItemView| g(f(it));
    if let Some(i) = model::position(t.items, id) {
        if t.items[i].park == ParkState::Active {
            lemma_edit_nothing(t, id, h);
        }
    }
}

/// `unrelease` undoes `release`.
pub proof fn law_unrelease_undoes(t: model::TodosView, id: Seq<char>, ts: Seq<char>)
    requires
        model::position(t.items, id) matches Some(i) && !t.items[i].released
            && t.items[i].released_ts is None,
    ensures
        ops::edit(t, id, |it: model::ItemView| ops::released_at(it, ts)) matches Some(u)
            && ops::edit(u, id, |it: model::ItemView| ops::unreleased(it)) == Some(t),
{
    let f = |it: model::ItemView| ops::released_at(it, ts);
    let g = |it: model::ItemView| ops::unreleased(it);
    law_edits_compose(t, id, f, g);
    lemma_edit_nothing(t, id, |it: model::ItemView| g(f(it)));
}

/// `reopen` undoes `done`, but for the mark that the close counts.
pub proof fn law_reopen_undoes(t: model::TodosView, id: Seq<char>, day: Seq<char>, force: bool)
    requires
        model::position(t.items, id) matches Some(i) && t.items[i].open && t.items[i].closed_on is None,
    ensures
        ({
            let i = model::position(t.items, id)->0;
            let u = ops::edit(t, id, |it: model::ItemView| ops::closed(it, day, force));
            &&& u is Some
            &&& ops::edit(u->0, id, |it: model::ItemView| ops::reopened(it)) == ops::edit(
                t,
                id,
                |it: model::ItemView|
                    model::ItemView { force_real: it.force_real || force, ..it },
            )
            &&& !force || t.items[i].force_real ==> ops::edit(
                u->0,
                id,
                |it: model::ItemView| ops::reopened(it),
            ) == Some(t)
        }),
{
    let f = |it: model::ItemView| ops::closed(it, day, force);
    let g = |it: model::ItemView| ops::reopened(it);
    law_edits_compose(t, id, f, g);
    let i = model::position(t.items, id)->0;
    let h = |it: model::ItemView| model::ItemView { force_real: it.force_real || force, ..it };
    assert(g(f(t.items[i])) == h(t.items[i]));
    if !force || t.items[i].force_real {
        lemma_edit_nothing(t, id, h);
    }
}

/// No operation changes the id of an item, so references to it stay valid.
pub proof fn law_ids_are_stable(
    it: model::ItemView,
    t: Seq<char>,
    state: ParkState,
    level: u32,
    force: bool,
)
    ensures
        ops::blessed(it).id == it.id,
        ops::released_at(it, t).id == it.id,
        ops::unreleased(it).id == it.id,
        ops::park_set(it, state).id == it.id,
        ops::with_evidence(it, t).id == it.id,
        ops::without_evidence(it).id == it.id,
        ops::moved(it, level).id == it.id,
        ops::closed(it, t, force).id == it.id,
        ops::reopened(it).id == it.id,
        ops::swept(it, t).id == it.id,
        ops::dated(it, t).id == it.id,
{
}

/// Moving an item to the bucket it is in changes nothing, and moving it twice
/// to the same bucket is moving it once.
pub proof fn law_reprioritize_is_idempotent(t: model::TodosView, id: Seq<char>, level: u32)
    ensures
        ops::edit(t, id, |it: model::ItemView| ops::moved(it, level)) matches Some(u) ==> {
            &&& ops::edit(u, id, |it: model::ItemView| ops::moved(it, level)) == Some(u)
            &&& t.items[model::position(t.items, id)->0].priority == level ==> u == t
        },
{
    let f = |it: model::ItemView| ops::moved(it, level);
    model::lemma_position(t.items, id);
    law_edits_compose(t, id, f, f);
    if let Some(i) = model::position(t.items, id) {
        assert(f(f(t.items[i])) == f(t.items[i]));
        if t.items[i].priority == level {
            lemma_edit_nothing(t, id, f);
        }
    }
}

/// Evidence is appended at the end, in order, and clearing leaves none.
pub proof fn law_evidence(it: model::ItemView, a: Seq<char>, b: Seq<char>)
    ensures
        ops::with_evidence(ops::with_evidence(it, a), b).evidence == it.evidence + seq![a, b],
        ops::without_evidence(ops::with_evidence(it, a)) == ops::without_evidence(it),
{
    assert(it.evidence.push(a).push(b) =~= it.evidence + seq![a, b]);
}

/// The operations keep items in the shape of the grammar: closing does up to
/// the end of the year 9999, opening again unless the subject ends like another
/// closing annotation.
pub proof fn law_operations_keep_shape(
    it: model::ItemView,
    now: nat,
    reference: Seq<char>,
    state: ParkState,
    level: u32,
    force: bool,
)
    requires
        roundtrip::well_shaped(it),
        roundtrip::marker_arg(reference),
    ensures
        roundtrip::well_shaped(ops::blessed(it)),
        roundtrip::well_shaped(ops::released_at(it, calendar::iso_text(now))),
        roundtrip::well_shaped(ops::unreleased(it)),
        roundtrip::well_shaped(ops::park_set(it, state)),
        roundtrip::well_shaped(ops::with_evidence(it, reference)),
        roundtrip::well_shaped(ops::without_evidence(it)),
        roundtrip::well_shaped(ops::moved(it, level)),
        now < calendar::five_digit_years() ==> roundtrip::well_shaped(
            ops::closed(it, calendar::day_text(now), force),
        ),
        roundtrip::well_shaped(ops::reopened(it)) <==> parser::split_closed(it.subject).1 is None,
        roundtrip::well_shaped(ops::swept(it, calendar::iso_text(now))),
        roundtrip::well_shaped(ops::dated(it, calendar::day_text(now))),
{
    lemma_iso_plain(now);
    let day = calendar::day_text(now);
    if now < calendar::five_digit_years() {
        calendar::law_day_shape(now);
    }
    let ev = ops::with_evidence(it, reference);
    assert forall|i: int| 0 <= i < ev.evidence.len() implies roundtrip::marker_arg(
        #[trigger] ev.evidence[i],
    ) by {
        if i < it.evidence.len() {
            assert(ev.evidence[i] == it.evidence[i]);
        }
    }
    if ops::datable(it, day) {
        lemma_filing_date(it);
        reveal_strlit("T00:00:00Z");
    }
}

/// A timestamp holds digits and separators only.
proof fn lemma_iso_plain(now: nat)
    ensures
        roundtrip::marker_arg(calendar::iso_text(now)),
{
    let c = calendar::date_of((now / 86_400) as int);
    let t = now % 86_400;
    lemma_padded_plain(c.year as nat, 4);
    lemma_padded_plain(c.month as nat, 2);
    lemma_padded_plain(c.day as nat, 2);
    lemma_padded_plain(t / 3_600, 2);
    lemma_padded_plain(t % 3_600 / 60, 2);
    lemma_padded_plain(t % 60, 2);
    assert(plain(calendar::date_text(c)));
    assert(plain(calendar::time_text(t)));
    assert(plain(calendar::iso_text(now)));
}

/// Text without line feeds and brackets.
spec fn plain(s: Seq<char>) -> bool {
    forall|i: int| 0 <= i < s.len() ==> #[trigger] s[i] != '\n' && s[i] != ']'
}

proof fn lemma_padded_plain(n: nat, width: nat)
    ensures
        plain(decimal::padded(n, width)),
{
    decimal::lemma_padded_reads_back(n, width);
    let p = decimal::padded(n, width);
    assert forall|i: int| 0 <= i < p.len() implies #[trigger] p[i] != '\n' && p[i] != ']' by {
        assert(decimal::is_digit(p[i]));
    }
}

/// A filing date can stand in a marker.
proof fn lemma_filing_date(it: model::ItemView)
    ensures
        ops::filing_date(it) matches Some(d) ==> roundtrip::marker_arg(d),
{
    if let Some(d) = ops::filing_date(it) {
        assert(calendar::date_shape(d));
        assert forall|i: int| 0 <= i < d.len() implies d[i] != ']' && d[i] != '\n' by {
            if i != 4 && i != 7 {
                assert(decimal::is_digit(d[i]));
            }
        }
    }
}

// ---------------------------------------------------------------------------
// The backlog
// ---------------------------------------------------------------------------

/// `park` takes an item out of the default listing, `unpark` brings it back,
/// and `park_suggest` never hides it.
pub proof fn law_backlog(it: model::ItemView)
    ensures
        !listing::shown(listing::default_filter(), ops::park_set(it, ParkState::Parked)),
        listing::shown(listing::default_filter(), ops::park_set(it, ParkState::Active)) <==> it.open,
        listing::shown(listing::default_filter(), ops::park_set(it, ParkState::Suggested)) <==> it.open,
        listing::shown(
            listing::FilterView { include_parked: true, ..listing::default_filter() },
            ops::park_set(it, ParkState::Parked),
        ) <==> it.open,
{
}

// ---------------------------------------------------------------------------
// Ids
// ---------------------------------------------------------------------------

/// An id that is drawn is in use nowhere.
pub proof fn law_fresh_id(items: Seq<model::ItemView>, draws: Seq<u32>, pid: u32)
    ensures
        ops::fresh_id(items, draws, pid) matches Some((id, rest)) ==> {
            &&& !ops::taken(items, id)
            &&& id.len() == 4
            &&& parser::is_token(id) && roundtrip::marker_arg(id)
            &&& rest.len() < draws.len()
        },
    decreases draws.len(),
{
    if draws.len() > 0 {
        let id = ops::drawn_id(draws[0], pid);
        if !ops::taken(items, id) {
            ops::law_id_shape(draws[0], pid);
            assert forall|i: int| 0 <= i < id.len() implies id[i] != ']' && id[i] != '\n'
                && !text::is_space(#[trigger] id[i]) by {
                let c = id[i];
            }
        } else {
            law_fresh_id(items, draws.skip(1), pid);
        }
    }
}

/// A new item is found under its id, and every other id is found where it was.
pub proof fn law_added_item_is_found(t: model::TodosView, it: model::ItemView, x: Seq<char>)
    requires
        !ops::taken(t.items, it.id),
    ensures
        model::position(ops::with_item(t, it).items, it.id) == Some(t.items.len() as int),
        x != it.id ==> model::position(ops::with_item(t, it).items, x) == model::position(
            t.items,
            x,
        ),
{
    let u = t.items.push(it);
    model::lemma_position(u, it.id);
    model::lemma_position(u, x);
    model::lemma_position(t.items, x);
    assert(u[t.items.len() as int] == it);
    match model::position(u, it.id) {
        Some(i) => {
            if i < t.items.len() {
                assert(t.items[i].id == it.id);
            }
        },
        None => {},
    }
    if x != it.id {
        match (model::position(u, x), model::position(t.items, x)) {
            (Some(i), Some(j)) => {
                if i < t.items.len() {
                    assert(t.items[i] == u[i]);
                }
                assert(u[j] == t.items[j]);
            },
            (Some(i), None) => {
                assert(i < t.items.len());
                assert(t.items[i] == u[i]);
            },
            (None, Some(j)) => {
                assert(u[j] == t.items[j]);
            },
            (None, None) => {},
        }
    }
}

/// What back-filling ids from the `i`-th item on leaves and gives.
proof fn lemma_filled(items: Seq<model::ItemView>, i: nat, draws: Seq<u32>, pid: u32)
    requires
        i <= items.len(),
    ensures
        ops::filled(items, i, draws, pid) matches Some(u) ==> {
            &&& u.len() == items.len()
            &&& forall|j: int|
                0 <= j < u.len() ==> #[trigger] u[j] == (model::ItemView {
                    id: u[j].id,
                    ..items[j]
                })
            &&& forall|j: int|
                0 <= j < u.len() && (j < i || items[j].id.len() > 0) ==> (#[trigger] u[j]).id
                    == items[j].id
            &&& forall|j: int| i <= j < u.len() ==> (#[trigger] u[j]).id.len() > 0
        },
    decreases items.len() - i,
{
    if i < items.len() {
        if items[i as int].id.len() > 0 {
            lemma_filled(items, i + 1, draws, pid);
        } else {
            law_fresh_id(items, draws, pid);
            if let Some((id, rest)) = ops::fresh_id(items, draws, pid) {
                let given = model::ItemView { id, ..items[i as int] };
                let next = items.update(i as int, given);
                lemma_filled(next, i + 1, rest, pid);
                if let Some(u) = ops::filled(items, i, draws, pid) {
                    assert(u[i as int].id == next[i as int].id);
                    assert forall|j: int| 0 <= j < u.len() implies #[trigger] u[j] == (
                    model::ItemView { id: u[j].id, ..items[j] }) by {
                        assert(u[j] == (model::ItemView { id: u[j].id, ..next[j] }));
                    }
                    assert forall|j: int|
                        0 <= j < u.len() && (j < i || items[j].id.len() > 0) implies (
                    #[trigger] u[j]).id == items[j].id by {
                        assert(next[j] == items[j]);
                    }
                }
            }
        }
    }
}

/// An id that back-filling gives can stand in its marker.
proof fn lemma_filled_token(items: Seq<model::ItemView>, i: nat, draws: Seq<u32>, pid: u32, j: int)
    requires
        i <= items.len(),
        0 <= j < items.len(),
    ensures
        ops::filled(items, i, draws, pid) matches Some(u) ==> u[j].id == items[j].id || (
        parser::is_token(u[j].id) && roundtrip::marker_arg(u[j].id)),
    decreases items.len() - i,
{
    if i < items.len() {
        if items[i as int].id.len() > 0 {
            lemma_filled_token(items, i + 1, draws, pid, j);
        } else {
            law_fresh_id(items, draws, pid);
            if let Some((id, rest)) = ops::fresh_id(items, draws, pid) {
                let next = items.update(i as int, model::ItemView { id, ..items[i as int] });
                lemma_filled_token(next, i + 1, rest, pid, j);
            }
        }
    }
}

/// Back-filling keeps the shape of every item, leaves none blank that was not,
/// and leaves none ambiguous that was not: a storable list is storable with
/// its ids filled in.
pub proof fn law_filling_keeps_lists_storable(t: model::TodosView, draws: Seq<u32>, pid: u32)
    ensures
        ops::filled(t.items, 0, draws, pid) matches Some(items) ==> {
            &&& forall|j: int|
                0 <= j < items.len() ==> (roundtrip::well_shaped(t.items[j])
                    ==> roundtrip::well_shaped(#[trigger] items[j])) && (!roundtrip::blank(t.items[j])
                    ==> !roundtrip::blank(items[j]))
            &&& ledger::storable(t) ==> ledger::storable(model::TodosView { items, ..t })
        },
{
    lemma_filled(t.items, 0, draws, pid);
    if let Some(items) = ops::filled(t.items, 0, draws, pid) {
        let u = model::TodosView { items, ..t };
        assert(ledger::head(u) == ledger::head(t));
        assert forall|j: int| 0 <= j < items.len() implies (roundtrip::well_shaped(t.items[j])
            ==> roundtrip::well_shaped(#[trigger] items[j])) && (!roundtrip::blank(t.items[j])
            ==> !roundtrip::blank(items[j])) && (roundtrip::unambiguous(t.items[j])
            ==> roundtrip::unambiguous(items[j])) by {
            lemma_filled_token(t.items, 0, draws, pid, j);
            assert(items[j].id.len() > 0);
            assert(items[j] == (model::ItemView { id: items[j].id, ..t.items[j] }));
            assert(roundtrip::present(items[j], 0));
            if roundtrip::unambiguous(t.items[j]) {
                roundtrip::lemma_stays_unambiguous(t.items[j], items[j]);
            }
        }
        if ledger::storable(t) {
            assert forall|j: int| 0 <= j < u.items.len() implies roundtrip::well_shaped(
                #[trigger] u.items[j],
            ) && roundtrip::unambiguous(u.items[j]) by {
                assert(roundtrip::well_shaped(t.items[j]));
                assert(u.items[j] == items[j]);
            }
        }
    }
}

/// No id that back-filling gives is that of another item.
proof fn lemma_filled_apart(
    items: Seq<model::ItemView>,
    i: nat,
    draws: Seq<u32>,
    pid: u32,
    j: int,
    k: int,
)
    requires
        i <= j < items.len(),
        0 <= k < items.len(),
        j != k,
        items[j].id.len() == 0,
    ensures
        ops::filled(items, i, draws, pid) matches Some(u) ==> u[j].id != u[k].id,
    decreases items.len() - i,
{
    if items[i as int].id.len() > 0 {
        lemma_filled_apart(items, i + 1, draws, pid, j, k);
    } else {
        law_fresh_id(items, draws, pid);
        if let Some((id, rest)) = ops::fresh_id(items, draws, pid) {
            let next = items.update(i as int, model::ItemView { id, ..items[i as int] });
            lemma_filled(next, i + 1, rest, pid);
            if let Some(u) = ops::filled(items, i, draws, pid) {
                if j != i {
                    assert(next[j] == items[j]);
                    lemma_filled_apart(next, i + 1, rest, pid, j, k);
                } else {
                    assert(u[j].id == next[j].id);
                    // The later ones avoid the id; the others had theirs before.
                    if k < i || items[k].id.len() > 0 {
                        assert(u[k].id == next[k].id);
                        assert(next[k] == items[k]);
                    } else {
                        assert(next[k] == items[k]);
                        lemma_filled_apart(next, i + 1, rest, pid, k, j);
                    }
                }
            }
        }
    }
}

/// Back-filling ids gives every item one, keeps those there are, changes
/// nothing else, and gives no id that any other item has; doing it again
/// changes nothing.
pub proof fn law_touch(items: Seq<model::ItemView>, draws: Seq<u32>, more: Seq<u32>, pid: u32)
    ensures
        ops::filled(items, 0, draws, pid) matches Some(u) ==> {
            &&& u.len() == items.len()
            &&& forall|j: int|
                0 <= j < u.len() ==> #[trigger] u[j] == (model::ItemView {
                    id: u[j].id,
                    ..items[j]
                })
            &&& forall|j: int|
                0 <= j < u.len() && items[j].id.len() > 0 ==> (#[trigger] u[j]).id == items[j].id
            &&& forall|j: int| 0 <= j < u.len() ==> (#[trigger] u[j]).id.len() > 0
            &&& forall|j: int, k: int|
                0 <= j < u.len() && 0 <= k < u.len() && j != k && items[j].id.len() == 0 ==> (
                #[trigger] u[j]).id != (#[trigger] u[k]).id
            &&& ops::filled(u, 0, more, pid) == Some(u)
        },
{
    lemma_filled(items, 0, draws, pid);
    if let Some(u) = ops::filled(items, 0, draws, pid) {
        assert forall|j: int, k: int|
            0 <= j < u.len() && 0 <= k < u.len() && j != k && items[j].id.len() == 0 implies (
        #[trigger] u[j]).id != (#[trigger] u[k]).id by {
            lemma_filled_apart(items, 0, draws, pid, j, k);
        }
        lemma_nothing_to_fill(u, 0, more, pid);
    }
}

proof fn lemma_nothing_to_fill(items: Seq<model::ItemView>, i: nat, draws: Seq<u32>, pid: u32)
    requires
        forall|j: int| 0 <= j < items.len() ==> (#[trigger] items[j]).id.len() > 0,
    ensures
        ops::filled(items, i, draws, pid) == Some(items),
    decreases items.len() - i,
{
    if i < items.len() {
        lemma_nothing_to_fill(items, i + 1, draws, pid);
    }
}

// ---------------------------------------------------------------------------
// Sweeps
// ---------------------------------------------------------------------------

/// Sweeping is idempotent: a second sweep, at whatever time, stamps nothing
/// and changes nothing.
pub proof fn law_sweep_is_idempotent(items: Seq<model::ItemView>, ts: Seq<char>, later: Seq<char>)
    ensures
        ({
            let u = ops::each(items, |it: model::ItemView| ops::swept(it, ts));
            &&& ops::each(u, |it: model::ItemView| ops::swept(it, later)) == u
            &&& ops::count(u, |it: model::ItemView| ops::unseen(it)) == 0
        }),
{
    let u = ops::each(items, |it: model::ItemView| ops::swept(it, ts));
    assert forall|j: int| 0 <= j < u.len() implies !ops::unseen(#[trigger] u[j]) by {
        assert(u[j] == ops::swept(items[j], ts));
    }
    assert(ops::each(u, |it: model::ItemView| ops::swept(it, later)) =~= u);
    reports::lemma_count_zero(u, |it: model::ItemView| ops::unseen(it));
}

/// Back-filling creation times is idempotent on the same day.
pub proof fn law_backfill_is_idempotent(items: Seq<model::ItemView>, today: Seq<char>)
    ensures
        ({
            let u = ops::each(items, |it: model::ItemView| ops::dated(it, today));
            &&& ops::each(u, |it: model::ItemView| ops::dated(it, today)) == u
            &&& ops::count(u, |it: model::ItemView| ops::datable(it, today)) == 0
        }),
{
    let u = ops::each(items, |it: model::ItemView| ops::dated(it, today));
    assert forall|j: int| 0 <= j < u.len() implies !ops::datable(#[trigger] u[j], today) by {
        assert(u[j] == ops::dated(items[j], today));
    }
    assert(ops::each(u, |it: model::ItemView| ops::dated(it, today)) =~= u);
    reports::lemma_count_zero(u, |it: model::ItemView| ops::datable(it, today));
}

/// A back-filled creation time is never after today.
pub proof fn law_backfill_guards_the_future(it: model::ItemView, today: Seq<char>)
    requires
        it.created_ts is None,
    ensures
        ops::dated(it, today).created_ts matches Some(ts) ==> ts.len() >= 10 && !text::before(
            today,
            ts.take(10),
        ),
{
    if ops::datable(it, today) {
        let d = ops::filing_date(it)->0;
        assert(calendar::date_shape(d));
        assert((d + "T00:00:00Z"@).take(10) =~= d);
    }
}

// ---------------------------------------------------------------------------
// Churn
// ---------------------------------------------------------------------------

/// The second at which churn tracking starts.
pub open spec fn epoch() -> nat {
    1_782_950_400
}

/// The start of churn tracking as text is that second's timestamp.
proof fn lemma_epoch()
    ensures
        reports::PHASE_2A_EPOCH@ == calendar::iso_text(epoch()),
        epoch() < calendar::five_digit_years(),
{
    let c = calendar::DateView { year: 2026, month: 7, day: 2 };
    calendar::law_march_count(2026, 7, 2);
    calendar::law_dates_and_numbers(c);
    assert(calendar::date_of(20_636) == c);
    reveal_strlit("2026-07-02T00:00:00Z");
    reveal_with_fuel(decimal::decimal, 5);
    assert(decimal::padded(2_026, 4) =~= seq!['2', '0', '2', '6']);
    assert(decimal::padded(7, 2) =~= seq!['0', '7']);
    assert(decimal::padded(2, 2) =~= seq!['0', '2']);
    assert(decimal::padded(0, 2) =~= seq!['0', '0']);
    assert(calendar::time_text(0) =~= seq!['0', '0', ':', '0', '0', ':', '0', '0']);
    assert(calendar::date_text(c) =~= seq!['2', '0', '2', '6', '-', '0', '7', '-', '0', '2']);
    assert(reports::PHASE_2A_EPOCH@ =~= calendar::iso_text(epoch()));
}

/// For an item created at a known second, a close is churn exactly if it was
/// created since tracking started, never swept and not forced to count.
pub proof fn law_churn_in_time(it: model::ItemView, created: nat)
    requires
        it.created_ts == Some(calendar::iso_text(created)),
        created < calendar::five_digit_years(),
    ensures
        reports::churn(it) <==> created >= epoch() && it.first_seen_open is None && !it.force_real,
{
    lemma_epoch();
    calendar::law_iso_order(created, epoch());
}

/// An item that a sweep saw open never becomes churn, nor one that is forced to
/// count on closing, nor one of unknown age.
pub proof fn law_swept_or_forced_is_no_churn(it: model::ItemView, ts: Seq<char>, day: Seq<char>, force: bool)
    ensures
        it.open ==> !reports::churn(ops::closed(ops::swept(it, ts), day, force)),
        !reports::churn(ops::closed(it, day, true)),
        it.created_ts is None ==> !reports::churn(it),
{
}

/// An item that is added and closed without a sweep between is churn, unless
/// one of the two was forced to count.
pub proof fn law_burst_is_churn(
    id: Seq<char>,
    subject: Seq<char>,
    level: u32,
    idle_ok: IdleOkState,
    add_forced: bool,
    done_forced: bool,
    now: nat,
    day: Seq<char>,
)
    requires
        epoch() <= now < calendar::five_digit_years(),
    ensures
        reports::churn(
            ops::closed(
                ops::new_item(id, subject, level, idle_ok, add_forced, calendar::iso_text(now)),
                day,
                done_forced,
            ),
        ) <==> !add_forced && !done_forced,
{
    let it = ops::closed(
        ops::new_item(id, subject, level, idle_ok, add_forced, calendar::iso_text(now)),
        day,
        done_forced,
    );
    law_churn_in_time(it, now);
}

/// The closes since a date are those that count and those that are churn, and
/// all that were forced count.
pub proof fn law_stats_partition(items: Seq<model::ItemView>, date: Seq<char>)
    ensures
        ops::count(
            items,
            |it: model::ItemView| reports::closed_since(it, date) && !reports::churn(it),
        ) + ops::count(
            items,
            |it: model::ItemView| reports::closed_since(it, date) && reports::churn(it),
        ) == ops::count(items, |it: model::ItemView| reports::closed_since(it, date)),
        ops::count(items, |it: model::ItemView| reports::closed_since(it, date) && it.force_real)
            <= ops::count(
            items,
            |it: model::ItemView| reports::closed_since(it, date) && !reports::churn(it),
        ),
    decreases items.len(),
{
    reveal(Seq::filter);
    if items.len() > 0 {
        law_stats_partition(items.drop_last(), date);
    }
}

// ---------------------------------------------------------------------------
// Counts
// ---------------------------------------------------------------------------

/// The totals of all projects together.
pub open spec fn all_totals(projects: Seq<(String, ProjectCount)>) -> nat
    decreases projects.len(),
{
    if projects.len() == 0 {
        0
    } else {
        all_totals(projects.drop_last()) + projects.last().1.total as nat
    }
}

/// The open items of the given projects.
spec fn in_projects(items: Seq<model::ItemView>, keys: Seq<Seq<char>>) -> nat
    decreases keys.len(),
{
    if keys.len() == 0 {
        0
    } else {
        in_projects(items, keys.drop_last()) + ops::count(
            items,
            |it: model::ItemView| reports::in_project(it, keys.last()),
        )
    }
}

/// One item more among projects that are all different.
proof fn lemma_in_projects_step(items: Seq<model::ItemView>, keys: Seq<Seq<char>>)
    requires
        items.len() > 0,
        forall|i: int, j: int| 0 <= i < j < keys.len() ==> #[trigger] keys[i] != #[trigger] keys[j],
    ensures
        in_projects(items, keys) == in_projects(items.drop_last(), keys) + if items.last().open
            && keys.contains(reports::project_key(items.last())) {
            1nat
        } else {
            0
        },
    decreases keys.len(),
{
    if keys.len() > 0 {
        let rest = keys.drop_last();
        let key = keys.last();
        assert forall|i: int, j: int| 0 <= i < j < rest.len() implies #[trigger] rest[i]
            != #[trigger] rest[j] by {
            assert(keys[i] != keys[j]);
        }
        lemma_in_projects_step(items, rest);
        let k = reports::project_key(items.last());
        assert(keys.contains(k) <==> rest.contains(k) || k == key) by {
            if keys.contains(k) {
                let i = choose|i: int| 0 <= i < keys.len() && keys[i] == k;
                if i < rest.len() {
                    assert(rest[i] == k);
                }
            }
            if rest.contains(k) {
                let i = choose|i: int| 0 <= i < rest.len() && rest[i] == k;
                assert(keys[i] == k);
            }
            assert(keys[keys.len() - 1] == key);
        }
        if rest.contains(k) && k == key {
            let i = choose|i: int| 0 <= i < rest.len() && rest[i] == k;
            assert(keys[i] != keys[keys.len() - 1]);
        }
        reveal(Seq::filter);
    }
}

proof fn lemma_in_projects(items: Seq<model::ItemView>, keys: Seq<Seq<char>>)
    requires
        forall|i: int, j: int| 0 <= i < j < keys.len() ==> #[trigger] keys[i] != #[trigger] keys[j],
        forall|j: int|
            0 <= j < items.len() && (#[trigger] items[j]).open ==> keys.contains(
                reports::project_key(items[j]),
            ),
    ensures
        in_projects(items, keys) == ops::count(items, |it: model::ItemView| it.open),
    decreases items.len(),
{
    reveal(Seq::filter);
    if items.len() == 0 {
        lemma_in_projects_none(items, keys);
    } else {
        let t = items.drop_last();
        assert forall|j: int| 0 <= j < t.len() && (#[trigger] t[j]).open implies keys.contains(
            reports::project_key(t[j]),
        ) by {
            assert(t[j] == items[j]);
        }
        lemma_in_projects(t, keys);
        lemma_in_projects_step(items, keys);
        assert(items[items.len() - 1] == items.last());
    }
}

proof fn lemma_in_projects_none(items: Seq<model::ItemView>, keys: Seq<Seq<char>>)
    requires
        items.len() == 0,
    ensures
        in_projects(items, keys) == 0,
    decreases keys.len(),
{
    if keys.len() > 0 {
        lemma_in_projects_none(items, keys.drop_last());
        items.lemma_filter_len(|it: model::ItemView| reports::in_project(it, keys.last()));
    }
}

/// No open item is dropped and none is counted twice: the totals of the
/// projects add up to the open items, and the buckets of each to its total.
pub proof fn law_counts_add_up(
    items: Seq<model::ItemView>,
    projects: Seq<(String, ProjectCount)>,
)
    requires
        reports::is_count(items, projects),
    ensures
        all_totals(projects) == ops::count(items, |it: model::ItemView| it.open),
        forall|i: int|
            0 <= i < projects.len() ==> {
                let c = (#[trigger] projects[i]).1;
                c.p0 + c.p1 + c.p2 + c.other == c.total
            },
{
    let keys = Seq::new(projects.len(), |i: int| projects[i].0@);
    assert forall|i: int, j: int| 0 <= i < j < keys.len() implies #[trigger] keys[i]
        != #[trigger] keys[j] by {
        assert(text::before(projects[i].0@, projects[j].0@));
        text::lemma_before_irreflexive(keys[i]);
    }
    assert forall|j: int| 0 <= j < items.len() && (#[trigger] items[j]).open implies keys.contains(
        reports::project_key(items[j]),
    ) by {
        let key = reports::project_key(items[j]);
        assert(reports::listed(projects, key));
        let i = choose|i: int| 0 <= i < projects.len() && (#[trigger] projects[i]).0@ == key;
        assert(keys[i] == key);
    }
    lemma_in_projects(items, keys);
    assert forall|i: int| 0 <= i < projects.len() implies (#[trigger] projects[i]).1.total
        == ops::count(items, |it: model::ItemView| reports::in_project(it, keys[i])) by {
        assert(reports::is_tally(items, projects[i].0@, projects[i].1));
    }
    lemma_all_totals(items, projects, keys);
    assert forall|i: int| 0 <= i < projects.len() implies {
        let c = (#[trigger] projects[i]).1;
        c.p0 + c.p1 + c.p2 + c.other == c.total
    } by {
        assert(reports::is_tally(items, projects[i].0@, projects[i].1));
        lemma_buckets_add_up(items, projects[i].0@);
    }
}

proof fn lemma_all_totals(
    items: Seq<model::ItemView>,
    projects: Seq<(String, ProjectCount)>,
    keys: Seq<Seq<char>>,
)
    requires
        projects.len() == keys.len(),
        forall|i: int|
            0 <= i < projects.len() ==> (#[trigger] projects[i]).1.total == ops::count(
                items,
                |it: model::ItemView| reports::in_project(it, keys[i]),
            ),
    ensures
        all_totals(projects) == in_projects(items, keys),
    decreases projects.len(),
{
    if projects.len() > 0 {
        let p = projects.drop_last();
        let k = keys.drop_last();
        assert forall|i: int| 0 <= i < p.len() implies (#[trigger] p[i]).1.total == ops::count(
            items,
            |it: model::ItemView| reports::in_project(it, k[i]),
        ) by {
            assert(projects[i] == p[i]);
            assert(keys[i] == k[i]);
        }
        lemma_all_totals(items, p, k);
        let n = projects.len() - 1;
        assert(projects[n].1.total == ops::count(
            items,
            |it: model::ItemView| reports::in_project(it, keys[n]),
        ));
    }
}

proof fn lemma_buckets_add_up(items: Seq<model::ItemView>, key: Seq<char>)
    ensures
        reports::in_bucket(items, key, 0) + reports::in_bucket(items, key, 1) + reports::in_bucket(
            items,
            key,
            2,
        ) + ops::count(
            items,
            |it: model::ItemView| reports::in_project(it, key) && it.priority > 2,
        ) == ops::count(items, |it: model::ItemView| reports::in_project(it, key)),
    decreases items.len(),
{
    reveal(Seq::filter);
    if items.len() > 0 {
        lemma_buckets_add_up(items.drop_last(), key);
    }
}

// ---------------------------------------------------------------------------
// Ranking
// ---------------------------------------------------------------------------

/// A ranking holds the same entries, by descending weight.
pub proof fn law_ranking(s: Seq<model::WeightedView>)
    ensures
        reports::ranked(s).to_multiset() == s.to_multiset(),
        reports::ranked(s).len() == s.len(),
        forall|i: int, j: int|
            0 <= i <= j < s.len() ==> (#[trigger] reports::ranked(s)[i]).weight >= (
            #[trigger] reports::ranked(s)[j]).weight,
    decreases s.len(),
{
    broadcast use vstd::seq_lib::group_to_multiset_ensures;

    if s.len() > 0 {
        let t = s.drop_last();
        law_ranking(t);
        lemma_rank_one(reports::ranked(t), s.last());
        assert(s =~= t.push(s.last()));
    } else {
        assert(reports::ranked(s) =~= s);
    }
}

/// One more entry keeps a ranking in order.
proof fn lemma_rank_one(r: Seq<model::WeightedView>, x: model::WeightedView)
    requires
        forall|i: int, j: int|
            0 <= i <= j < r.len() ==> (#[trigger] r[i]).weight >= (#[trigger] r[j]).weight,
    ensures
        reports::rank_one(r, x).to_multiset() == r.to_multiset().insert(x),
        reports::rank_one(r, x).len() == r.len() + 1,
        forall|i: int, j: int|
            0 <= i <= j < r.len() + 1 ==> (#[trigger] reports::rank_one(r, x)[i]).weight >= (
            #[trigger] reports::rank_one(r, x)[j]).weight,
        forall|i: int|
            0 <= i < r.len() + 1 ==> #[trigger] reports::rank_one(r, x)[i] == x || r.contains(
                reports::rank_one(r, x)[i],
            ),
    decreases r.len(),
{
    broadcast use vstd::seq_lib::group_to_multiset_ensures;

    let out = reports::rank_one(r, x);
    if r.len() == 0 || r[0].weight < x.weight {
        assert(out =~= r.insert(0, x));
        assert forall|i: int| 0 <= i < r.len() + 1 implies #[trigger] out[i] == x || r.contains(
            out[i],
        ) by {
            if i > 0 {
                assert(r[i - 1] == out[i]);
            }
        }
        assert forall|i: int, j: int| 0 <= i <= j < r.len() + 1 implies (#[trigger] out[i]).weight
            >= (#[trigger] out[j]).weight by {
            if i > 0 {
                assert(out[i] == r[i - 1] && out[j] == r[j - 1]);
            } else if j > 0 {
                assert(out[j] == r[j - 1]);
                assert(r[0].weight >= r[j - 1].weight);
            }
        }
    } else {
        let t = r.skip(1);
        assert forall|i: int, j: int| 0 <= i <= j < t.len() implies (#[trigger] t[i]).weight >= (
        #[trigger] t[j]).weight by {
            assert(t[i] == r[i + 1] && t[j] == r[j + 1]);
        }
        lemma_rank_one(t, x);
        let u = reports::rank_one(t, x);
        assert(out =~= u.insert(0, r[0]));
        assert(r =~= t.insert(0, r[0]));
        assert(out.to_multiset() =~= r.to_multiset().insert(x));
        assert forall|i: int| 0 <= i < r.len() + 1 implies #[trigger] out[i] == x || r.contains(
            out[i],
        ) by {
            if i == 0 {
                assert(r[0] == out[0]);
            } else {
                assert(out[i] == u[i - 1]);
                if t.contains(u[i - 1]) {
                    let k = choose|k: int| 0 <= k < t.len() && t[k] == u[i - 1];
                    assert(r[k + 1] == out[i]);
                }
            }
        }
        assert forall|i: int, j: int| 0 <= i <= j < r.len() + 1 implies (#[trigger] out[i]).weight
            >= (#[trigger] out[j]).weight by {
            if i > 0 {
                assert(out[i] == u[i - 1] && out[j] == u[j - 1]);
            } else if j > 0 {
                assert(out[j] == u[j - 1]);
                if u[j - 1] != x {
                    let k = choose|k: int| 0 <= k < t.len() && t[k] == u[j - 1];
                    assert(r[k + 1] == u[j - 1]);
                    assert(r[0].weight >= r[k + 1].weight);
                }
            }
        }
    }
}

/// Entries of the same weight keep their order, whatever the weight.
pub proof fn law_ranking_is_stable(s: Seq<model::WeightedView>, weight: u64)
    ensures
        reports::ranked(s).filter(|x: model::WeightedView| x.weight == weight) == s.filter(
            |x: model::WeightedView| x.weight == weight,
        ),
    decreases s.len(),
{
    let p = |x: model::WeightedView| x.weight == weight;
    reveal(Seq::filter);
    if s.len() > 0 {
        let t = s.drop_last();
        law_ranking_is_stable(t, weight);
        law_ranking(t);
        lemma_rank_filter(reports::ranked(t), s.last(), weight);
    }
}

proof fn lemma_rank_filter(r: Seq<model::WeightedView>, x: model::WeightedView, weight: u64)
    requires
        forall|i: int, j: int|
            0 <= i <= j < r.len() ==> (#[trigger] r[i]).weight >= (#[trigger] r[j]).weight,
    ensures
        reports::rank_one(r, x).filter(|y: model::WeightedView| y.weight == weight) == if x.weight
            == weight {
            r.filter(|y: model::WeightedView| y.weight == weight).push(x)
        } else {
            r.filter(|y: model::WeightedView| y.weight == weight)
        },
    decreases r.len(),
{
    let p = |y: model::WeightedView| y.weight == weight;
    let one = seq![x];
    assert(one.filter(p) =~= if x.weight == weight {
        one
    } else {
        Seq::empty()
    }) by {
        reveal_with_fuel(Seq::filter, 3);
        assert(one.drop_last() =~= Seq::empty());
    }
    if r.len() == 0 || r[0].weight < x.weight {
        Seq::filter_distributes_over_add(one, r, p);
        if x.weight == weight {
            assert(r.filter(p) =~= Seq::empty()) by {
                assert forall|i: int| 0 <= i < r.len() implies !p(#[trigger] r[i]) by {
                    assert(r[0].weight >= r[i].weight);
                }
                lemma_filter_none(r, weight);
            }
            assert(one + Seq::empty() =~= Seq::<model::WeightedView>::empty().push(x));
        } else {
            assert(Seq::<model::WeightedView>::empty() + r.filter(p) =~= r.filter(p));
        }
    } else {
        let t = r.skip(1);
        assert forall|i: int, j: int| 0 <= i <= j < t.len() implies (#[trigger] t[i]).weight >= (
        #[trigger] t[j]).weight by {
            assert(t[i] == r[i + 1] && t[j] == r[j + 1]);
        }
        lemma_rank_filter(t, x, weight);
        let first = seq![r[0]];
        Seq::filter_distributes_over_add(first, reports::rank_one(t, x), p);
        Seq::filter_distributes_over_add(first, t, p);
        assert(r =~= first + t);
        assert(first.filter(p) + t.filter(p).push(x) =~= (first.filter(p) + t.filter(p)).push(x));
    }
}

proof fn lemma_filter_none(r: Seq<model::WeightedView>, weight: u64)
    requires
        forall|i: int| 0 <= i < r.len() ==> (#[trigger] r[i]).weight != weight,
    ensures
        r.filter(|y: model::WeightedView| y.weight == weight).len() == 0,
    decreases r.len(),
{
    reveal(Seq::filter);
    if r.len() > 0 {
        lemma_filter_none(r.drop_last(), weight);
    }
}

// ---------------------------------------------------------------------------
// Storing
// ---------------------------------------------------------------------------

/// A change to one item survives being stored: if the changed list is
/// storable, the changed item is among those read back.
pub proof fn law_change_survives(
    t: model::TodosView,
    id: Seq<char>,
    f: spec_fn(model::ItemView) -> model::ItemView,
)
    requires
        ops::edit(t, id, f) matches Some(u) && ledger::storable(u),
    ensures
        ({
            let u = ops::edit(t, id, f)->0;
            let it = f(t.items[model::position(t.items, id)->0]);
            let v = parser::parsed(writer::rendered(u), u.company);
            exists|k: int|
                0 <= k < v.items.len() && #[trigger] v.items[k] == (model::ItemView {
                    line: v.items[k].line,
                    ..roundtrip::stored(it)
                })
        }),
{
    let u = ops::edit(t, id, f)->0;
    model::lemma_position(t.items, id);
    let i = model::position(t.items, id)->0;
    let it = f(t.items[i]);
    assert(u.items[i] == it);
    ledger::law_file_reads_back(u);
    let v = parser::parsed(writer::rendered(u), u.company);
    let k = ledger::lemma_grouped_contains(u.items, i);
    assert(v.items[k] == (model::ItemView {
        line: v.items[k].line,
        ..roundtrip::stored(it)
    }));
}

/// A written list, read back, has no item without an id.
pub proof fn law_written_items_have_ids(t: model::TodosView, draws: Seq<u32>, pid: u32)
    requires
        ledger::storable(t),
        ops::filled(t.items, 0, draws, pid) is Some,
    ensures
        ({
            let u = model::TodosView { items: ops::filled(t.items, 0, draws, pid)->0, ..t };
            let v = parser::parsed(writer::rendered(u), u.company);
            &&& v.items.len() == t.items.len()
            &&& forall|k: int| 0 <= k < v.items.len() ==> (#[trigger] v.items[k]).id.len() > 0
        }),
{
    let items = ops::filled(t.items, 0, draws, pid)->0;
    let u = model::TodosView { items, ..t };
    let v = parser::parsed(writer::rendered(u), u.company);
    law_touch(t.items, draws, draws, pid);
    law_filling_keeps_lists_storable(t, draws, pid);
    ledger::law_file_reads_back(u);
    ledger::lemma_grouped_len(items);
    assert forall|k: int| 0 <= k < v.items.len() implies (#[trigger] v.items[k]).id.len() > 0 by {
        let i = ledger::lemma_grouped_from(items, k);
        assert(v.items[k].id == items[i].id);
    }
}

// ---------------------------------------------------------------------------
// Undoing after storing
// ---------------------------------------------------------------------------

/// Every item has an id.
pub open spec fn complete(items: Seq<model::ItemView>) -> bool {
    forall|j: int| 0 <= j < items.len() ==> (#[trigger] items[j]).id.len() > 0
}

/// A list in which every item has an id is written as it is: there is nothing
/// to fill in.
pub proof fn law_complete_lists_are_written_as_they_are(
    t: model::TodosView,
    draws: Seq<u32>,
    pid: u32,
)
    requires
        complete(t.items),
    ensures
        ops::filled(t.items, 0, draws, pid) == Some(t.items),
{
    lemma_nothing_to_fill(t.items, 0, draws, pid);
}

/// `g` undoes `f` on the item, whatever line and lane it was read with in
/// between.
pub open spec fn undoes(
    g: spec_fn(model::ItemView) -> model::ItemView,
    f: spec_fn(model::ItemView) -> model::ItemView,
    it: model::ItemView,
) -> bool {
    forall|x: model::ItemView|
        x == (model::ItemView { line: x.line, lane: x.lane, ..f(it) }) ==> #[trigger] g(x) == (
        model::ItemView { line: g(x).line, lane: g(x).lane, ..it })
}

/// A change that keeps id and bucket is undone after the changed list was
/// written and read again: the text is the one before the change. No item
/// loses its id on the way.
pub proof fn law_undone_after_storing(
    t: model::TodosView,
    id: Seq<char>,
    f: spec_fn(model::ItemView) -> model::ItemView,
    g: spec_fn(model::ItemView) -> model::ItemView,
)
    requires
        canonical::in_order(t.items),
        ledger::no_crlf(ledger::head(t)),
        model::position(t.items, id) matches Some(i) && {
            &&& f(t.items[i]).id == t.items[i].id
            &&& f(t.items[i]).priority == t.items[i].priority
            &&& undoes(g, f, t.items[i])
        },
        ledger::storable(ops::edit(t, id, f)->0),
    ensures
        ({
            let u = ops::edit(t, id, f)->0;
            let v = parser::parsed(writer::rendered(u), u.company);
            &&& ops::edit(t, id, f) is Some
            &&& ops::edit(v, id, g) matches Some(w) && {
                &&& writer::rendered(w) == writer::rendered(t)
                &&& complete(t.items) ==> complete(u.items) && complete(w.items)
            }
        }),
{
    let u = ops::edit(t, id, f)->0;
    let v = parser::parsed(writer::rendered(u), u.company);
    let i = model::position(t.items, id)->0;
    model::lemma_position(t.items, id);
    assert(canonical::in_order(u.items)) by {
        assert forall|a: int, b: int| 0 <= a < b < u.items.len() implies (
        #[trigger] u.items[a]).priority <= (#[trigger] u.items[b]).priority by {
            assert(t.items[a].priority <= t.items[b].priority);
        }
    }
    canonical::lemma_in_order_grouped(u.items);
    ledger::law_file_reads_back(u);
    assert forall|j: int| 0 <= j < t.items.len() implies (#[trigger] t.items[j]).id
        == v.items[j].id by {
        assert(v.items[j] == (model::ItemView {
            line: v.items[j].line,
            ..roundtrip::stored(u.items[j])
        }));
    }
    lemma_same_ids(t.items, v.items, id);
    let w = ops::edit(v, id, g)->0;
    let x = v.items[i];
    assert(x == (model::ItemView { line: x.line, lane: x.lane, ..f(t.items[i]) })) by {
        assert(x == (model::ItemView { line: x.line, ..roundtrip::stored(u.items[i]) }));
    }
    assert(g(x) == (model::ItemView { line: g(x).line, lane: g(x).lane, ..t.items[i] }));
    assert forall|j: int| 0 <= j < w.items.len() implies #[trigger] w.items[j] == (
    model::ItemView { line: w.items[j].line, lane: w.items[j].lane, ..t.items[j] }) by {
        if j != i {
            assert(w.items[j] == v.items[j]);
            assert(v.items[j] == (model::ItemView {
                line: v.items[j].line,
                ..roundtrip::stored(u.items[j])
            }));
        }
    }
    ledger::lemma_written_alike(w, t);
}

/// What was in canonical form before is so after `unpark` has undone `park`
/// or `park_suggest`: for an item that was active, the file is the same, word
/// for word.
pub proof fn law_unpark_restores_the_file(
    source: Seq<char>,
    company: Seq<char>,
    id: Seq<char>,
    state: ParkState,
)
    requires
        canonical::canonical(source, company),
        model::position(parser::parsed(source, company).items, id) matches Some(i) && parser::parsed(
            source,
            company,
        ).items[i].park == ParkState::Active,
    ensures
        ({
            let t = parser::parsed(source, company);
            let u = ops::edit(t, id, |it: model::ItemView| ops::park_set(it, state));
            let v = parser::parsed(writer::rendered(u->0), company);
            let w = ops::edit(v, id, |it: model::ItemView| ops::park_set(it, ParkState::Active));
            &&& u is Some
            &&& w is Some
            &&& writer::rendered(w->0) == source
            &&& complete(t.items) ==> complete(u->0.items) && complete(w->0.items)
        }),
{
    let t = parser::parsed(source, company);
    let f = |it: model::ItemView| ops::park_set(it, state);
    let g = |it: model::ItemView| ops::park_set(it, ParkState::Active);
    let i = model::position(t.items, id)->0;
    canonical::law_canonical_files(source, company);
    model::lemma_position(t.items, id);
    let it = t.items[i];
    assert(roundtrip::well_shaped(it));
    roundtrip::lemma_stays_unambiguous(it, f(it));
    lemma_edit_storable(t, id, f);
    law_undone_after_storing(t, id, f, g);
}

/// As above, for `unrelease` after `release` and an item that was not
/// released.
pub proof fn law_unrelease_restores_the_file(
    source: Seq<char>,
    company: Seq<char>,
    id: Seq<char>,
    now: nat,
)
    requires
        canonical::canonical(source, company),
        model::position(parser::parsed(source, company).items, id) matches Some(i)
            && !parser::parsed(source, company).items[i].released,
    ensures
        ({
            let t = parser::parsed(source, company);
            let u = ops::edit(
                t,
                id,
                |it: model::ItemView| ops::released_at(it, calendar::iso_text(now)),
            );
            let v = parser::parsed(writer::rendered(u->0), company);
            let w = ops::edit(v, id, |it: model::ItemView| ops::unreleased(it));
            &&& u is Some
            &&& w is Some
            &&& writer::rendered(w->0) == source
            &&& complete(t.items) ==> complete(u->0.items) && complete(w->0.items)
        }),
{
    let t = parser::parsed(source, company);
    let f = |it: model::ItemView| ops::released_at(it, calendar::iso_text(now));
    let g = |it: model::ItemView| ops::unreleased(it);
    let i = model::position(t.items, id)->0;
    canonical::law_canonical_files(source, company);
    model::lemma_position(t.items, id);
    let it = t.items[i];
    assert(roundtrip::well_shaped(it));
    lemma_iso_plain(now);
    roundtrip::lemma_stays_unambiguous(it, f(it));
    lemma_edit_storable(t, id, f);
    law_undone_after_storing(t, id, f, g);
}

/// As above, for `reopen` after `done` and an item that was open, without a
/// closing date, up to the end of the year 9999; with `force` only if the
/// item was marked before.
pub proof fn law_reopen_restores_the_file(
    source: Seq<char>,
    company: Seq<char>,
    id: Seq<char>,
    now: nat,
    force: bool,
)
    requires
        canonical::canonical(source, company),
        now < calendar::five_digit_years(),
        model::position(parser::parsed(source, company).items, id) matches Some(i) && {
            let it = parser::parsed(source, company).items[i];
            it.open && it.closed_on is None && (force ==> it.force_real)
        },
    ensures
        ({
            let t = parser::parsed(source, company);
            let u = ops::edit(
                t,
                id,
                |it: model::ItemView| ops::closed(it, calendar::day_text(now), force),
            );
            let v = parser::parsed(writer::rendered(u->0), company);
            let w = ops::edit(v, id, |it: model::ItemView| ops::reopened(it));
            &&& u is Some
            &&& w is Some
            &&& writer::rendered(w->0) == source
            &&& complete(t.items) ==> complete(u->0.items) && complete(w->0.items)
        }),
{
    let t = parser::parsed(source, company);
    let f = |it: model::ItemView| ops::closed(it, calendar::day_text(now), force);
    let g = |it: model::ItemView| ops::reopened(it);
    let i = model::position(t.items, id)->0;
    canonical::law_canonical_files(source, company);
    model::lemma_position(t.items, id);
    let it = t.items[i];
    assert(roundtrip::well_shaped(it));
    calendar::law_day_shape(now);
    roundtrip::lemma_stays_unambiguous(it, f(it));
    lemma_edit_storable(t, id, f);
    law_undone_after_storing(t, id, f, g);
}

/// A storable list with one item changed is storable if the item is.
proof fn lemma_edit_storable(
    t: model::TodosView,
    id: Seq<char>,
    f: spec_fn(model::ItemView) -> model::ItemView,
)
    requires
        ledger::storable(t),
        model::position(t.items, id) matches Some(i) && roundtrip::well_shaped(f(t.items[i]))
            && roundtrip::unambiguous(f(t.items[i])),
    ensures
        ops::edit(t, id, f) matches Some(u) && ledger::storable(u),
{
    model::lemma_position(t.items, id);
    let i = model::position(t.items, id)->0;
    let u = ops::edit(t, id, f)->0;
    assert(ledger::head(u) == ledger::head(t));
    assert forall|j: int| 0 <= j < u.items.len() implies roundtrip::well_shaped(
        #[trigger] u.items[j],
    ) && roundtrip::unambiguous(u.items[j]) by {
        if j != i {
            assert(u.items[j] == t.items[j]);
        }
    }
}

/// A second sweep, at whatever time, over the list that the first one left in
/// the file, missing ids filled in: it scans as many items, stamps none and
/// leaves every item as it is, so that there is nothing to write. If the list
/// is storable and no line before its buckets ends in a stray carriage return,
/// writing it again gives the same text in any case.
pub proof fn law_second_sweep_stamps_nothing(
    source: Seq<char>,
    company: Seq<char>,
    now: nat,
    later: Seq<char>,
    draws: Seq<u32>,
    pid: u32,
)
    requires
        roundtrip::one_line(company),
    ensures
        ({
            let t = parser::parsed(source, company);
            let swept = ops::each(
                t.items,
                |it: model::ItemView| ops::swept(it, calendar::iso_text(now)),
            );
            ops::filled(swept, 0, draws, pid) matches Some(items) ==> {
                let u = model::TodosView { items, ..t };
                let v = parser::parsed(writer::rendered(u), company);
                let again = ops::each(v.items, |it: model::ItemView| ops::swept(it, later));
                &&& ops::count(v.items, |it: model::ItemView| it.open) == ops::count(
                    t.items,
                    |it: model::ItemView| it.open,
                )
                &&& ops::count(v.items, |it: model::ItemView| ops::unseen(it)) == 0
                &&& again == v.items
                &&& ledger::storable(t) && ledger::no_crlf(ledger::head(t)) ==> writer::rendered(
                    model::TodosView { items: again, ..v },
                ) == writer::rendered(u)
            }
        }),
{
    let t = parser::parsed(source, company);
    let ts = calendar::iso_text(now);
    let swept = ops::each(t.items, |it: model::ItemView| ops::swept(it, ts));
    let s = model::TodosView { items: swept, ..t };
    let is_open = |it: model::ItemView| it.open;
    let is_unseen = |it: model::ItemView| ops::unseen(it);
    ledger::law_no_heading_before_the_buckets(source, company);
    lemma_swept_shape(source, company, now);
    lemma_filled(swept, 0, draws, pid);
    law_filling_keeps_lists_storable(s, draws, pid);
    if let Some(items) = ops::filled(swept, 0, draws, pid) {
        let u = model::TodosView { items, ..t };
        let v = parser::parsed(writer::rendered(u), company);
        let again = ops::each(v.items, |it: model::ItemView| ops::swept(it, later));
        let g = ledger::grouped(items);
        assert(ledger::head(u) == ledger::head(t));
        assert forall|j: int| 0 <= j < items.len() implies roundtrip::well_shaped(
            #[trigger] items[j],
        ) && !roundtrip::blank(items[j]) && items[j].open == t.items[j].open && !ops::unseen(
            items[j],
        ) by {
            assert(roundtrip::well_shaped(swept[j]) && !roundtrip::blank(swept[j]));
            assert(swept[j] == ops::swept(t.items[j], ts));
            assert(items[j] == (model::ItemView { id: items[j].id, ..swept[j] }));
        }
        canonical::law_every_item_is_read(u);
        assert forall|k: int| 0 <= k < v.items.len() implies !ops::unseen(#[trigger] v.items[k])
            && v.items[k].open == g[k].open by {
            let j = ledger::lemma_grouped_from(items, k);
            assert(roundtrip::well_shaped(items[j]));
            assert(canonical::came_from(v.items[k], g[k]));
            roundtrip::lemma_seen_stays_seen(g[k], v.items[k].line);
        }
        reports::lemma_count_zero(v.items, is_unseen);
        lemma_count_alike(v.items, g, is_open);
        ledger::lemma_grouped_count(items, is_open);
        lemma_count_alike(items, t.items, is_open);
        assert(again =~= v.items);
        assert(model::TodosView { items: again, ..v } == v);
        if ledger::storable(t) && ledger::no_crlf(ledger::head(t)) {
            lemma_swept_storable(t, now);
            ledger::law_writing_settles(u);
        }
    }
}

/// A sweep that stamps nothing leaves the list as it was.
pub proof fn law_idle_sweep_changes_nothing(items: Seq<model::ItemView>, ts: Seq<char>)
    requires
        ops::count(items, |it: model::ItemView| ops::unseen(it)) == 0,
    ensures
        ops::each(items, |it: model::ItemView| ops::swept(it, ts)) == items,
{
    let is_unseen = |it: model::ItemView| ops::unseen(it);
    let swept = ops::each(items, |it: model::ItemView| ops::swept(it, ts));
    assert forall|j: int| 0 <= j < items.len() implies swept[j] == items[j] by {
        if is_unseen(items[j]) {
            items.lemma_filter_contains(is_unseen, j);
        }
    }
    assert(swept =~= items);
}

/// A storable list is storable after a sweep.
proof fn lemma_swept_storable(t: model::TodosView, now: nat)
    requires
        ledger::storable(t),
    ensures
        ledger::storable(
            model::TodosView {
                items: ops::each(
                    t.items,
                    |it: model::ItemView| ops::swept(it, calendar::iso_text(now)),
                ),
                ..t
            },
        ),
{
    let ts = calendar::iso_text(now);
    let swept = ops::each(t.items, |it: model::ItemView| ops::swept(it, ts));
    let s = model::TodosView { items: swept, ..t };
    lemma_iso_plain(now);
    assert(ledger::head(s) == ledger::head(t));
    assert forall|j: int| 0 <= j < swept.len() implies roundtrip::well_shaped(#[trigger] swept[j])
        && roundtrip::unambiguous(swept[j]) by {
        assert(roundtrip::well_shaped(t.items[j]));
        assert(swept[j] == ops::swept(t.items[j], ts));
        roundtrip::lemma_stays_unambiguous(t.items[j], swept[j]);
    }
}

/// Items that were read keep their shape in a sweep, and none becomes blank.
proof fn lemma_swept_shape(source: Seq<char>, company: Seq<char>, now: nat)
    ensures
        ({
            let swept = ops::each(
                parser::parsed(source, company).items,
                |it: model::ItemView| ops::swept(it, calendar::iso_text(now)),
            );
            forall|j: int|
                0 <= j < swept.len() ==> roundtrip::well_shaped(#[trigger] swept[j])
                    && !roundtrip::blank(swept[j])
        }),
{
    let t = parser::parsed(source, company);
    let ts = calendar::iso_text(now);
    let swept = ops::each(t.items, |it: model::ItemView| ops::swept(it, ts));
    ledger::law_items_are_well_shaped(source, company);
    ledger::law_items_are_not_blank(source, company);
    lemma_iso_plain(now);
    assert forall|j: int| 0 <= j < swept.len() implies roundtrip::well_shaped(#[trigger] swept[j])
        && !roundtrip::blank(swept[j]) by {
        assert(roundtrip::well_shaped(t.items[j]) && !roundtrip::blank(t.items[j]));
        assert(swept[j] == ops::swept(t.items[j], ts));
        if ops::unseen(t.items[j]) {
            assert(roundtrip::present(swept[j], 5));
        }
    }
}

/// Lists of which the same places have the property count the same.
proof fn lemma_count_alike(
    a: Seq<model::ItemView>,
    b: Seq<model::ItemView>,
    p: spec_fn(model::ItemView) -> bool,
)
    requires
        a.len() == b.len(),
        forall|j: int| 0 <= j < a.len() ==> p(#[trigger] a[j]) == p(b[j]),
    ensures
        ops::count(a, p) == ops::count(b, p),
    decreases a.len(),
{
    reveal(Seq::filter);
    if a.len() > 0 {
        assert(p(a[a.len() - 1]) == p(b[b.len() - 1]));
        assert forall|j: int| 0 <= j < a.drop_last().len() implies p(#[trigger] a.drop_last()[j])
            == p(b.drop_last()[j]) by {
            assert(a.drop_last()[j] == a[j]);
        }
        lemma_count_alike(a.drop_last(), b.drop_last(), p);
    }
}

} // verus!
