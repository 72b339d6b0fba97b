//! What the operations are for: what each does to an item, to the lists and to
//! the reports, and what it leaves alone.

use crate::calendar;
use crate::decimal;
use crate::listing;
use crate::listing::FilterView;
use crate::model;
use crate::model::{IdleOkState, ParkState, ProjectCount};
use crate::ops;
use crate::reports;
use crate::text;
use vstd::prelude::*;

verus! {

// ---------------------------------------------------------------------------
// One item
// ---------------------------------------------------------------------------

/// A new item has the subject, the bucket and the state that were asked for.
/// It is open, in the active list, neither delivered nor seen by a sweep, and
/// without evidence.
pub proof fn law_new_items(
    id: Seq<char>,
    subject: Seq<char>,
    level: u32,
    idle_ok: IdleOkState,
    force_real: bool,
    ts: Seq<char>,
)
    ensures
        ({
            let it = ops::new_item(id, subject, level, idle_ok, force_real, ts);
            &&& it.id == id
            &&& it.subject == subject
            &&& it.priority == level
            &&& it.idle_ok == idle_ok
            &&& it.force_real == force_real
            &&& it.created_ts == Some(ts)
            &&& it.open
            &&& it.closed_on is None
            &&& it.park == ParkState::Active
            &&& !it.released
            &&& it.released_ts is None
            &&& it.first_seen_open is None
            &&& it.evidence.len() == 0
            &&& it.lane is None
        }),
{
}

/// An added item comes last, everything before it stays, and it is shown by
/// the listing without flags, by that of its bucket and by that of no other.
pub proof fn law_adding_shows_the_item(
    t: model::TodosView,
    id: Seq<char>,
    subject: Seq<char>,
    level: u32,
    idle_ok: IdleOkState,
    force_real: bool,
    ts: Seq<char>,
    other: u32,
)
    ensures
        ({
            let u = ops::with_item(
                t,
                ops::new_item(id, subject, level, idle_ok, force_real, ts),
            );
            let it = u.items.last();
            &&& u.items.drop_last() == t.items
            &&& it.id == id && it.subject == subject && it.priority == level
            &&& u.company == t.company
            &&& u.preamble == t.preamble
            &&& u.version == t.version
            &&& listing::shown(listing::default_filter(), it)
            &&& listing::shown(
                FilterView { priority: Some(other), ..listing::default_filter() },
                it,
            ) <==> other == level
        }),
{
    let it = ops::new_item(id, subject, level, idle_ok, force_real, ts);
    assert(t.items.push(it).drop_last() =~= t.items);
}

/// Each operation sets what it is for and leaves every other part of the item
/// as it was.
pub proof fn law_each_operation_keeps_to_its_part(
    it: model::ItemView,
    t: Seq<char>,
    state: ParkState,
    level: u32,
    force: bool,
)
    ensures
        ops::blessed(it).idle_ok == IdleOkState::Approved,
        ops::blessed(it) == (model::ItemView { idle_ok: ops::blessed(it).idle_ok, ..it }),
        ops::released_at(it, t).released && ops::released_at(it, t).released_ts == Some(t),
        ops::unreleased(ops::released_at(it, t)) == ops::unreleased(it),
        !ops::unreleased(it).released && ops::unreleased(it).released_ts is None,
        ops::unreleased(it) == (model::ItemView { released: false, released_ts: None, ..it }),
        ops::released_at(it, t) == (model::ItemView { released: true, released_ts: Some(t), ..it }),
        ops::park_set(it, state).park == state,
        ops::park_set(it, state) == (model::ItemView { park: ops::park_set(it, state).park, ..it }),
        ops::moved(it, level).priority == level,
        ops::moved(it, level) == (model::ItemView { priority: ops::moved(it, level).priority, ..it }),
        ops::with_evidence(it, t).evidence.drop_last() == it.evidence,
        ops::with_evidence(it, t).evidence.last() == t,
        ops::with_evidence(it, t) == (model::ItemView {
            evidence: ops::with_evidence(it, t).evidence,
            ..it
        }),
        ops::without_evidence(it).evidence.len() == 0,
        ops::without_evidence(it) == (model::ItemView {
            evidence: ops::without_evidence(it).evidence,
            ..it
        }),
        !ops::closed(it, t, force).open && ops::closed(it, t, force).closed_on == Some(t),
        ops::closed(it, t, force).force_real <==> it.force_real || force,
        ops::closed(it, t, force) == (model::ItemView {
            open: false,
            closed_on: Some(t),
            force_real: ops::closed(it, t, force).force_real,
            ..it
        }),
        ops::reopened(it).open && ops::reopened(it).closed_on is None,
        ops::reopened(it) == (model::ItemView { open: true, closed_on: None, ..it }),
{
    assert(it.evidence.push(t).drop_last() =~= it.evidence);
}

/// What an operation does shows in the listings: a closed item is shown only
/// where closed ones are asked for, a reopened one again; delivered, blessed
/// and moved items are found by the filters for them and by no other.
pub proof fn law_listings_follow_operations(
    f: FilterView,
    it: model::ItemView,
    t: Seq<char>,
    level: u32,
    other: u32,
    state: IdleOkState,
    force: bool,
)
    ensures
        listing::shown(f, ops::closed(it, t, force)) ==> f.include_done,
        listing::shown(FilterView { include_done: true, ..f }, ops::closed(it, t, force))
            == listing::shown(FilterView { include_done: true, ..f }, it),
        listing::shown(f, ops::reopened(it)) == listing::shown(
            FilterView { include_done: true, ..f },
            it,
        ),
        listing::shown(FilterView { released: Some(true), ..f }, ops::released_at(it, t))
            == listing::shown(FilterView { released: None, ..f }, it),
        !listing::shown(FilterView { released: Some(false), ..f }, ops::released_at(it, t)),
        !listing::shown(FilterView { released: Some(true), ..f }, ops::unreleased(it)),
        listing::shown(FilterView { idle_ok: Some(state), ..f }, ops::blessed(it)) <==> state
            == IdleOkState::Approved && listing::shown(FilterView { idle_ok: None, ..f }, it),
        listing::shown(FilterView { priority: Some(other), ..f }, ops::moved(it, level)) <==> other
            == level && listing::shown(FilterView { priority: None, ..f }, it),
{
}

/// An operation on one item succeeds exactly if some item has the id. It then
/// changes the first such item alone; if it is refused, nothing is changed.
pub proof fn law_operations_on_one_item(
    before: model::TodosView,
    after: model::TodosView,
    id: Seq<char>,
    f: spec_fn(model::ItemView) -> model::ItemView,
    r: Result<ops::AuditEntry, ops::OpError>,
    done: ops::AuditView,
    refused: ops::OpErrorView,
)
    requires
        ops::edits(before, after, id, f, r, done, refused),
    ensures
        r is Ok <==> exists|i: int| 0 <= i < before.items.len() && (#[trigger] before.items[i]).id == id,
        r matches Ok(e) ==> e@ == done,
        r matches Err(e) ==> e@ == refused && after == before,
        after.items.len() == before.items.len(),
        forall|i: int|
            0 <= i < before.items.len() && (#[trigger] before.items[i]).id != id ==> after.items[i]
                == before.items[i],
        forall|i: int|
            0 <= i < before.items.len() && (#[trigger] before.items[i]).id == id && (forall|j: int|
                0 <= j < i ==> (#[trigger] before.items[j]).id != id) ==> after.items[i] == f(
                before.items[i],
            ),
        after.company == before.company,
        after.preamble == before.preamble,
        after.version == before.version,
{
    model::lemma_position(before.items, id);
    if let Some(p) = model::position(before.items, id) {
        assert(before.items[p].id == id);
        assert forall|i: int|
            0 <= i < before.items.len() && (#[trigger] before.items[i]).id == id && (forall|j: int|
                0 <= j < i ==> (#[trigger] before.items[j]).id != id) implies after.items[i] == f(
            before.items[i],
        ) by {
            if p < i {
                assert(before.items[p].id != id);
            }
            if i < p {
                assert(before.items[i].id != id);
            }
        }
    }
}

// ---------------------------------------------------------------------------
// Sweeps and back-filling
// ---------------------------------------------------------------------------

/// A sweep stamps open items that have no stamp with its time. Closed items
/// and stamps that are there stay, and nothing else changes.
pub proof fn law_sweeping(it: model::ItemView, ts: Seq<char>)
    ensures
        it.open && it.first_seen_open is None ==> ops::swept(it, ts).first_seen_open == Some(ts),
        !it.open || it.first_seen_open is Some ==> ops::swept(it, ts) == it,
        ops::swept(it, ts) == (model::ItemView {
            first_seen_open: ops::swept(it, ts).first_seen_open,
            ..it
        }),
        it.open ==> ops::swept(it, ts).first_seen_open is Some,
{
}

/// The date that leads a subject: ten characters of its shape, after white
/// space and one bracket at most, and not followed by a digit.
pub proof fn law_leading_dates(space: Seq<char>, d: Seq<char>, rest: Seq<char>, s: Seq<char>)
    requires
        forall|i: int| 0 <= i < space.len() ==> text::is_space(#[trigger] space[i]),
        calendar::date_shape(d),
        rest.len() > 0 ==> !('0' as u32 <= rest[0] as u32 <= '9' as u32),
    ensures
        calendar::leading_date(space + d + rest) == Some(d),
        calendar::leading_date(space + seq!['['] + d + rest) == Some(d),
        calendar::leading_date(s) matches Some(found) ==> {
            let t = text::trim_start(s);
            &&& calendar::date_shape(found)
            &&& (t.len() >= 10 && t.take(10) == found && !(t.len() > 10 && '0' as u32 <= t[10] as u32
                <= '9' as u32)) || (t.len() >= 11 && t[0] == '[' && t.subrange(1, 11) == found && !(
            t.len() > 11 && '0' as u32 <= t[11] as u32 <= '9' as u32))
        },
{
    assert(d[0] as u32 >= 48 && d[0] as u32 <= 57);
    let a = d + rest;
    assert(space + d + rest =~= space + a);
    lemma_space_before(space, a);
    assert(text::trim_start(a) == a);
    assert(a.take(10) =~= d);
    let b = seq!['['] + d + rest;
    assert(space + seq!['['] + d + rest =~= space + b);
    lemma_space_before(space, b);
    assert(text::trim_start(b) == b);
    assert(b.skip(1) =~= a);
    let t = text::trim_start(s);
    if t.len() >= 11 {
        assert(t.skip(1).take(10) =~= t.subrange(1, 11));
    }
}

proof fn lemma_space_before(space: Seq<char>, w: Seq<char>)
    requires
        forall|i: int| 0 <= i < space.len() ==> text::is_space(#[trigger] space[i]),
    ensures
        text::trim_start(space + w) == text::trim_start(w),
    decreases space.len(),
{
    if space.len() == 0 {
        assert(space + w =~= w);
    } else {
        assert(text::is_space(space[0]));
        assert((space + w).skip(1) =~= space.skip(1) + w);
        lemma_space_before(space.skip(1), w);
    }
}

/// A back-fill gives an item without creation time whose subject leads with a
/// day the first second of that day, unless the day is still to come. An item
/// that has a creation time keeps it, and nothing else changes.
pub proof fn law_backfilling(it: model::ItemView, day: nat, rest: Seq<char>, now: nat)
    requires
        day < calendar::five_digit_years(),
        now < calendar::five_digit_years(),
        rest.len() > 0 ==> !('0' as u32 <= rest[0] as u32 <= '9' as u32),
    ensures
        ({
            let today = calendar::day_text(now);
            let r = ops::dated(it, today);
            &&& r == (model::ItemView { created_ts: r.created_ts, ..it })
            &&& it.created_ts is Some ==> r == it && !ops::datable(it, today) && !ops::future_dated(
                it,
                today,
            )
            &&& it.created_ts is None && it.subject == calendar::day_text(day) + rest ==> {
                &&& r.created_ts == if day / 86_400 <= now / 86_400 {
                    Some(calendar::iso_text(day / 86_400 * 86_400))
                } else {
                    None
                }
                &&& ops::datable(it, today) <==> day / 86_400 <= now / 86_400
                &&& ops::future_dated(it, today) <==> day / 86_400 > now / 86_400
            }
            &&& it.created_ts is None && calendar::leading_date(it.subject) is None ==> r == it
                && !ops::datable(it, today) && !ops::future_dated(it, today)
        }),
{
    let d = calendar::day_text(day);
    calendar::law_day_shape(day);
    calendar::law_iso_order(now, day);
    calendar::law_midnight(day);
    let none = Seq::<char>::empty();
    law_leading_dates(none, d, rest, it.subject);
    assert(none + d + rest =~= d + rest);
}

// ---------------------------------------------------------------------------
// Closes
// ---------------------------------------------------------------------------

/// Whether a close falls in the time asked for is a matter of its day alone:
/// closing now counts since every day up to today and since no later one,
/// whatever else the item is, and an open item was not closed.
pub proof fn law_closes_are_dated(
    it: model::ItemView,
    jt: model::ItemView,
    now: nat,
    since: nat,
    force: bool,
    date: Seq<char>,
)
    requires
        now < calendar::five_digit_years(),
        since < calendar::five_digit_years(),
    ensures
        reports::closed_since(
            ops::closed(it, calendar::day_text(now), force),
            calendar::day_text(since),
        ) <==> since / 86_400 <= now / 86_400,
        !reports::closed_since(ops::reopened(it), date),
        it.open ==> !reports::closed_since(it, date),
        it.closed_on is None ==> !reports::closed_since(it, date),
        it.open == jt.open && it.closed_on == jt.closed_on ==> reports::closed_since(it, date)
            == reports::closed_since(jt, date),
{
    calendar::law_iso_order(now, since);
}

/// Whether a close is churn is a matter of when the item was created, whether
/// a sweep saw it open and whether it was forced to count, and of nothing
/// else.
pub proof fn law_churn_looks_at_three_things(it: model::ItemView, jt: model::ItemView)
    requires
        it.created_ts == jt.created_ts,
        it.first_seen_open == jt.first_seen_open,
        it.force_real == jt.force_real,
    ensures
        reports::churn(it) == reports::churn(jt),
{
}

/// Asking since an earlier time finds every close that asking since a later one
/// does, and a later creation time never makes churn into a close that counts;
/// texts that are no dates are in the order of texts.
pub proof fn law_earlier_and_later(it: model::ItemView, early: Seq<char>, late: Seq<char>)
    requires
        !text::before(late, early),
    ensures
        reports::closed_since(it, late) ==> reports::closed_since(it, early),
        reports::churn(model::ItemView { created_ts: Some(early), ..it }) ==> reports::churn(
            model::ItemView { created_ts: Some(late), ..it },
        ),
        !it.open && it.closed_on == Some(late) ==> reports::closed_since(it, early),
        it.closed_on == Some(early) && text::before(early, late) ==> !reports::closed_since(
            it,
            late,
        ),
{
    if let Some(d) = it.closed_on {
        lemma_not_before(d, late, early);
    }
    if !text::before(early, reports::PHASE_2A_EPOCH@) {
        lemma_not_before(late, early, reports::PHASE_2A_EPOCH@);
    }
}

/// What does not come before something that does not come before a third does
/// not come before that.
proof fn lemma_not_before(a: Seq<char>, b: Seq<char>, c: Seq<char>)
    requires
        !text::before(b, c),
    ensures
        !text::before(a, b) ==> !text::before(a, c),
{
    if text::before(a, c) {
        text::lemma_before_total(b, c);
        if text::before(c, b) {
            text::lemma_before_transitive(a, c, b);
        }
    }
}

/// The number of items with a property after one was replaced.
proof fn lemma_count_update(
    items: Seq<model::ItemView>,
    i: int,
    x: model::ItemView,
    p: spec_fn(model::ItemView) -> bool,
)
    requires
        0 <= i < items.len(),
    ensures
        ops::count(items.update(i, x), p) + (if p(items[i]) {
            1int
        } else {
            0
        }) == ops::count(items, p) + (if p(x) {
            1int
        } else {
            0
        }),
    decreases items.len(),
{
    reveal(Seq::filter);
    let u = items.update(i, x);
    if i < items.len() - 1 {
        assert(u.drop_last() =~= items.drop_last().update(i, x));
        lemma_count_update(items.drop_last(), i, x, p);
    } else {
        assert(u.drop_last() =~= items.drop_last());
    }
}

/// Closing an open item adds one close to today's, real or churn, and one to
/// the forced ones if it is forced; reopening takes it back.
pub proof fn law_done_adds_a_close(
    t: model::TodosView,
    id: Seq<char>,
    now: nat,
    since: nat,
    force: bool,
)
    requires
        since <= now < calendar::five_digit_years(),
        model::position(t.items, id) matches Some(i) && t.items[i].open,
    ensures
        ({
            let i = model::position(t.items, id)->0;
            let date = calendar::day_text(since);
            let u = ops::edit(
                t,
                id,
                |it: model::ItemView| ops::closed(it, calendar::day_text(now), force),
            )->0;
            let genuine = |it: model::ItemView|
                reports::closed_since(it, date) && !reports::churn(it);
            let churned = |it: model::ItemView|
                reports::closed_since(it, date) && reports::churn(it);
            let forced = |it: model::ItemView| reports::closed_since(it, date) && it.force_real;
            let open = |it: model::ItemView| it.open;
            &&& ops::count(u.items, open) == ops::count(t.items, open) - 1
            &&& ops::count(u.items, genuine) + ops::count(u.items, churned) == ops::count(
                t.items,
                genuine,
            ) + ops::count(t.items, churned) + 1
            &&& force || t.items[i].force_real || t.items[i].first_seen_open is Some
                || t.items[i].created_ts is None ==> ops::count(u.items, genuine) == ops::count(
                t.items,
                genuine,
            ) + 1
            &&& ops::count(u.items, forced) == ops::count(t.items, forced) + if force
                || t.items[i].force_real {
                1int
            } else {
                0
            }
        }),
{
    let i = model::position(t.items, id)->0;
    model::lemma_position(t.items, id);
    let date = calendar::day_text(since);
    let f = |it: model::ItemView| ops::closed(it, calendar::day_text(now), force);
    let x = f(t.items[i]);
    let genuine = |it: model::ItemView| reports::closed_since(it, date) && !reports::churn(it);
    let churned = |it: model::ItemView| reports::closed_since(it, date) && reports::churn(it);
    let forced = |it: model::ItemView| reports::closed_since(it, date) && it.force_real;
    let open = |it: model::ItemView| it.open;
    law_closes_are_dated(t.items[i], t.items[i], now, since, force, date);
    lemma_count_update(t.items, i, x, genuine);
    lemma_count_update(t.items, i, x, churned);
    lemma_count_update(t.items, i, x, forced);
    lemma_count_update(t.items, i, x, open);
}

/// Moving an item to another bucket takes one from the old bucket, adds one to
/// the new, and leaves every other bucket as large as it was.
pub proof fn law_moving_between_buckets(
    t: model::TodosView,
    id: Seq<char>,
    level: u32,
    other: u32,
)
    requires
        model::position(t.items, id) matches Some(i) && t.items[i].priority != level,
    ensures
        ({
            let from = t.items[model::position(t.items, id)->0].priority;
            let u = ops::edit(t, id, |it: model::ItemView| ops::moved(it, level))->0;
            &&& model::bucket(u.items, level, false).len() == model::bucket(
                t.items,
                level,
                false,
            ).len() + 1
            &&& model::bucket(u.items, from, false).len() == model::bucket(
                t.items,
                from,
                false,
            ).len() - 1
            &&& other != level && other != from ==> model::bucket(u.items, other, false).len()
                == model::bucket(t.items, other, false).len()
        }),
{
    let i = model::position(t.items, id)->0;
    model::lemma_position(t.items, id);
    let x = ops::moved(t.items[i], level);
    lemma_bucket_update(t.items, i, x, level);
    lemma_bucket_update(t.items, i, x, t.items[i].priority);
    lemma_bucket_update(t.items, i, x, other);
}

proof fn lemma_bucket_update(
    items: Seq<model::ItemView>,
    i: int,
    x: model::ItemView,
    level: u32,
)
    requires
        0 <= i < items.len(),
    ensures
        model::bucket(items.update(i, x), level, false).len() + (if items[i].priority == level {
            1int
        } else {
            0
        }) == model::bucket(items, level, false).len() + (if x.priority == level {
            1int
        } else {
            0
        }),
    decreases items.len(),
{
    reveal(Seq::filter);
    let u = items.update(i, x);
    if i < items.len() - 1 {
        assert(u.drop_last() =~= items.drop_last().update(i, x));
        lemma_bucket_update(items.drop_last(), i, x, level);
    } else {
        assert(u.drop_last() =~= items.drop_last());
    }
}

/// A bucket holds the items of its level, all of them, in the order of the
/// list; only the open ones if that is asked.
pub proof fn law_buckets(items: Seq<model::ItemView>, it: model::ItemView, level: u32, only: bool)
    ensures
        model::bucket(items.push(it), level, only) == if it.priority == level && (it.open || !only) {
            model::bucket(items, level, only).push(it)
        } else {
            model::bucket(items, level, only)
        },
        model::bucket(Seq::empty(), level, only).len() == 0,
{
    reveal(Seq::filter);
    assert(items.push(it).drop_last() =~= items);
}

// ---------------------------------------------------------------------------
// Salience
// ---------------------------------------------------------------------------

/// The age of an item created at a known second is the time that has passed
/// since, and zero if that second is still to come.
pub proof fn law_age_is_elapsed_time(it: model::ItemView, created: u64, now: u64)
    requires
        it.created_ts == Some(calendar::iso_text(created as nat)),
        created < calendar::five_digit_years(),
    ensures
        created <= now ==> reports::age(it, now) == now - created,
        created > now ==> reports::age(it, now) == 0,
        reports::salience(it, now).0 == reports::age(it, now),
{
    calendar::law_iso_reads_back(created);
}

/// A creation time that cannot be read gives no age.
pub proof fn law_unreadable_age(it: model::ItemView, now: u64)
    requires
        it.created_ts is Some,
        calendar::read_iso(it.created_ts->0) is None,
    ensures
        reports::age(it, now) == 0,
{
}

/// Of two items in the same bucket the one created earlier has the greater
/// age, and the same importance.
pub proof fn law_older_is_more_salient(
    it: model::ItemView,
    jt: model::ItemView,
    earlier: u64,
    later: u64,
    now: u64,
)
    requires
        earlier < later <= now,
        later < calendar::five_digit_years(),
        it.created_ts == Some(calendar::iso_text(earlier as nat)),
        jt.created_ts == Some(calendar::iso_text(later as nat)),
        it.priority == jt.priority,
    ensures
        reports::salience(it, now).0 > reports::salience(jt, now).0,
        reports::salience(it, now).0 - reports::salience(jt, now).0 == later - earlier,
        reports::salience(it, now).1 == reports::salience(jt, now).1,
{
    law_age_is_elapsed_time(it, earlier, now);
    law_age_is_elapsed_time(jt, later, now);
}

/// P0 counts three times and P1 twice as much as any other bucket, at any age.
pub proof fn law_importance(it: model::ItemView, jt: model::ItemView, now: u64)
    requires
        jt.priority >= 2,
    ensures
        reports::salience(jt, now).1 == 1,
        it.priority == 0 ==> reports::salience(it, now).1 == 3 * reports::salience(jt, now).1,
        it.priority == 1 ==> reports::salience(it, now).1 == 2 * reports::salience(jt, now).1,
        it.priority >= 2 ==> reports::salience(it, now).1 == reports::salience(jt, now).1,
{
}

/// The items that are scored are the open ones with a creation time, all of
/// them, in the order of the list.
pub proof fn law_pool(items: Seq<model::ItemView>, it: model::ItemView)
    ensures
        reports::pool(items.push(it)) == if it.open && it.created_ts is Some {
            reports::pool(items).push(it)
        } else {
            reports::pool(items)
        },
        reports::pool(Seq::empty()).len() == 0,
        reports::pool(items).len() + ops::count(
            items,
            |it: model::ItemView| it.open && it.created_ts is None,
        ) == ops::count(items, |it: model::ItemView| it.open),
    decreases items.len(),
{
    reveal(Seq::filter);
    assert(items.push(it).drop_last() =~= items);
    if items.len() > 0 {
        law_pool(items.drop_last(), items.last());
        assert(items.drop_last().push(items.last()) =~= items);
    }
}

/// An entry of the ranking shows the item it is about, its age, and the weight
/// that was computed for it.
pub proof fn law_ranking_entries(
    items: Seq<model::ItemView>,
    now: u64,
    weights: Seq<u64>,
    k: int,
)
    requires
        weights.len() == reports::pool(items).len(),
        0 <= k < weights.len(),
    ensures
        reports::scored(items, now, weights).len() == weights.len(),
        ({
            let it = reports::pool(items)[k];
            let w = reports::scored(items, now, weights)[k];
            &&& w.id == it.id
            &&& w.subject == it.subject
            &&& w.priority == model::priority_text(it.priority)
            &&& Some(w.created_ts) == it.created_ts
            &&& w.age_secs == reports::salience(it, now).0
            &&& w.weight == weights[k]
        }),
{
    items.lemma_filter_pred(|it: model::ItemView| reports::scorable(it), k);
}

/// The first `n` of a ranking are as many as there are, up to `n`; none that
/// is left out weighs more than one of them.
pub proof fn law_top_of_the_ranking(s: Seq<model::WeightedView>, n: nat)
    ensures
        ({
            let all = reports::ranked(s);
            let top = reports::at_most(all, n);
            &&& top.len() == if n < s.len() {
                n
            } else {
                s.len()
            }
            &&& top == all.take(top.len() as int)
            &&& forall|i: int, j: int|
                0 <= i < top.len() && top.len() <= j < all.len() ==> (#[trigger] top[i]).weight >= (
                #[trigger] all[j]).weight
        }),
{
    crate::laws::law_ranking(s);
    let all = reports::ranked(s);
    assert(all.take(all.len() as int) =~= all);
}

// ---------------------------------------------------------------------------
// Projects
// ---------------------------------------------------------------------------

/// Items are counted together exactly if they are in the same project of the
/// same company, or both in none.
pub proof fn law_projects(it: model::ItemView, jt: model::ItemView)
    requires
        it.lane matches Some(l) ==> text::find(l.company, '/') is None,
        jt.lane matches Some(l) ==> text::find(l.company, '/') is None,
    ensures
        match (it.lane, jt.lane) {
            (Some(a), Some(b)) => (reports::project_key(it) == reports::project_key(jt)) == (
            a.company == b.company && a.project == b.project),
            (None, None) => reports::project_key(it) == reports::project_key(jt),
            _ => reports::project_key(it) != reports::project_key(jt),
        },
{
    match (it.lane, jt.lane) {
        (Some(a), Some(b)) => {
            if reports::project_key(it) == reports::project_key(jt) {
                lemma_same_key(a.company, a.project, b.company, b.project);
            }
        },
        (Some(a), None) => {
            lemma_key_of_a_lane(a.company, a.project);
        },
        (None, Some(b)) => {
            lemma_key_of_a_lane(b.company, b.project);
        },
        (None, None) => {},
    }
}

proof fn lemma_same_key(a: Seq<char>, p: Seq<char>, b: Seq<char>, q: Seq<char>)
    requires
        text::find(a, '/') is None,
        text::find(b, '/') is None,
        a + "/"@ + p == b + "/"@ + q,
    ensures
        a == b,
        p == q,
{
    let x = a + "/"@ + p;
    let y = b + "/"@ + q;
    reveal_strlit("/");
    lemma_first_separator(a, p);
    lemma_first_separator(b, q);
    assert(a.len() == b.len());
    assert(x.take(a.len() as int) =~= a);
    assert(y.take(b.len() as int) =~= b);
    assert(x.skip(a.len() as int + 1) =~= p);
    assert(y.skip(b.len() as int + 1) =~= q);
}

proof fn lemma_key_of_a_lane(a: Seq<char>, p: Seq<char>)
    ensures
        a + "/"@ + p != "untagged"@,
{
    reveal_strlit("/");
    reveal_strlit("untagged");
    let x = a + "/"@ + p;
    let k = a.len() as int;
    assert(x[k] == '/');
    let u = "untagged"@;
    assert(u =~= seq!['u', 'n', 't', 'a', 'g', 'g', 'e', 'd']);
    assert(x.len() == k + 1 + p.len());
    if x == u {
        assert(k < 8);
        assert(u[k] == '/');
    }
}

proof fn lemma_first_separator(a: Seq<char>, b: Seq<char>)
    requires
        text::find(a, '/') is None,
    ensures
        text::find(a + "/"@ + b, '/') == Some(a.len() as int),
{
    reveal_strlit("/");
    text::lemma_find(a, '/');
    let s = a + "/"@ + b;
    assert forall|j: int| 0 <= j < a.len() implies s[j] != '/' by {
        assert(s[j] == a[j]);
    }
    text::lemma_find_at(s, '/', a.len() as int);
}

/// One more open item of a project adds one to its total and one to its
/// bucket, P0, P1, P2 or the rest. A closed item, or one of another project,
/// adds nothing.
pub proof fn law_counting_one_more(
    items: Seq<model::ItemView>,
    it: model::ItemView,
    key: Seq<char>,
    c: ProjectCount,
    d: ProjectCount,
)
    requires
        reports::is_tally(items, key, c),
        reports::is_tally(items.push(it), key, d),
    ensures
        it.open && reports::project_key(it) == key ==> {
            &&& d.total == c.total + 1
            &&& d.p0 == c.p0 + if it.priority == 0 {
                1int
            } else {
                0
            }
            &&& d.p1 == c.p1 + if it.priority == 1 {
                1int
            } else {
                0
            }
            &&& d.p2 == c.p2 + if it.priority == 2 {
                1int
            } else {
                0
            }
            &&& d.other == c.other + if it.priority > 2 {
                1int
            } else {
                0
            }
        },
        !it.open || reports::project_key(it) != key ==> d == c,
{
    reveal(Seq::filter);
    assert(items.push(it).drop_last() =~= items);
}

/// An empty list counts nothing.
pub proof fn law_nothing_to_count(key: Seq<char>, c: ProjectCount)
    requires
        reports::is_tally(Seq::empty(), key, c),
    ensures
        c.p0 == 0 && c.p1 == 0 && c.p2 == 0 && c.other == 0 && c.total == 0,
{
    reveal(Seq::filter);
}

// ---------------------------------------------------------------------------
// Counting, ids and the audit log
// ---------------------------------------------------------------------------

/// Counting goes item by item, and a change to every item changes each of
/// them.
pub proof fn law_counting(
    items: Seq<model::ItemView>,
    it: model::ItemView,
    p: spec_fn(model::ItemView) -> bool,
    f: spec_fn(model::ItemView) -> model::ItemView,
)
    ensures
        ops::count(Seq::empty(), p) == 0,
        ops::count(items.push(it), p) == ops::count(items, p) + if p(it) {
            1int
        } else {
            0
        },
        ops::each(items, f).len() == items.len(),
        forall|i: int| 0 <= i < items.len() ==> #[trigger] ops::each(items, f)[i] == f(items[i]),
{
    reveal(Seq::filter);
    assert(items.push(it).drop_last() =~= items);
}

/// The items that lack an id are those with an empty one.
pub proof fn law_missing_ids(items: Seq<model::ItemView>, it: model::ItemView)
    ensures
        ops::without_id(Seq::empty()) == 0,
        ops::without_id(items.push(it)) == ops::without_id(items) + if it.id.len() == 0 {
            1int
        } else {
            0
        },
{
    reveal(Seq::filter);
    assert(items.push(it).drop_last() =~= items);
}

/// A fresh id is the first one drawn that no item has, and the draws after it
/// are left; there is none only if every draw gives an id in use.
pub proof fn law_first_fresh_draw(items: Seq<model::ItemView>, draws: Seq<u32>, pid: u32)
    ensures
        match ops::fresh_id(items, draws, pid) {
            Some((id, rest)) => exists|k: int|
                #![trigger draws[k]]
                0 <= k < draws.len() && id == ops::drawn_id(draws[k], pid) && rest == draws.skip(
                    k + 1,
                ) && !ops::taken(items, id) && forall|j: int|
                    0 <= j < k ==> ops::taken(items, ops::drawn_id(#[trigger] draws[j], pid)),
            None => forall|j: int|
                0 <= j < draws.len() ==> ops::taken(items, ops::drawn_id(#[trigger] draws[j], pid)),
        },
    decreases draws.len(),
{
    if draws.len() > 0 {
        let tail = draws.skip(1);
        if ops::taken(items, ops::drawn_id(draws[0], pid)) {
            law_first_fresh_draw(items, tail, pid);
            match ops::fresh_id(items, tail, pid) {
                Some((id, rest)) => {
                    let k = choose|k: int|
                        #![trigger tail[k]]
                        0 <= k < tail.len() && id == ops::drawn_id(tail[k], pid) && rest
                            == tail.skip(k + 1) && !ops::taken(items, id) && forall|j: int|
                            0 <= j < k ==> ops::taken(
                                items,
                                ops::drawn_id(#[trigger] tail[j], pid),
                            );
                    assert(draws[k + 1] == tail[k]);
                    assert(tail.skip(k + 1) =~= draws.skip(k + 2));
                    assert forall|j: int| 0 <= j < k + 1 implies ops::taken(
                        items,
                        ops::drawn_id(#[trigger] draws[j], pid),
                    ) by {
                        if j > 0 {
                            assert(draws[j] == tail[j - 1]);
                        }
                    }
                },
                None => {
                    assert forall|j: int| 0 <= j < draws.len() implies ops::taken(
                        items,
                        ops::drawn_id(#[trigger] draws[j], pid),
                    ) by {
                        if j > 0 {
                            assert(draws[j] == tail[j - 1]);
                        }
                    }
                },
            }
        }
    }
}

/// The generator does not run together: different numbers stay different, and
/// all 36 characters are told apart.
pub proof fn law_generator(a: u64, b: u64)
    ensures
        ops::mixed(a) == ops::mixed(b) ==> a == b,
        ops::base36(a) == ops::base36(b) <==> a % 36 == b % 36,
{
    if ops::mixed(a) == ops::mixed(b) {
        let m = 2_654_435_769int;
        let x = a * m + 1;
        let y = b * m + 1;
        let w = 0x1_0000_0000_0000_0000int;
        assert(x % w == y % w);
        let k = x / w - y / w;
        assert(x - y == k * w) by (nonlinear_arith)
            requires
                x % w == y % w,
                k == x / w - y / w,
                w == 0x1_0000_0000_0000_0000int,
        ;
        lemma_odd_multiple(a as int - b as int, k);
    }
}

/// The multiplier has an inverse modulo 2^64, so only multiples of 2^64 are
/// sent to multiples of it.
proof fn lemma_odd_multiple(d: int, k: int)
    requires
        d * 2_654_435_769 == k * 0x1_0000_0000_0000_0000,
        -0x1_0000_0000_0000_0000 < d < 0x1_0000_0000_0000_0000,
    ensures
        d == 0,
{
    let inverse = 16_744_077_200_915_741_833int;
    let q = 2_409_426_686int;
    assert(2_654_435_769 * inverse == 1 + q * 0x1_0000_0000_0000_0000);
    let z = k * inverse - q * d;
    assert(d == z * 0x1_0000_0000_0000_0000) by (nonlinear_arith)
        requires
            d * 2_654_435_769 == k * 0x1_0000_0000_0000_0000,
            2_654_435_769 * inverse == 1 + q * 0x1_0000_0000_0000_0000,
            z == k * inverse - q * d,
    ;
}

/// An audit entry names the operation and the item, or how many items there
/// were; the bucket it says an item came from is the one it was in.
pub proof fn law_audit_entries(
    op: Seq<char>,
    id: Seq<char>,
    label: Seq<char>,
    n: nat,
    t: model::TodosView,
)
    ensures
        ops::plain_entry(op, id).op == op,
        ops::plain_entry(op, id).id == id,
        ops::plain_entry(op, id).from is None,
        ops::plain_entry(op, id).to is None,
        ops::plain_entry(op, id).subject is None,
        ops::count_entry(op, label, n).op == op,
        ops::count_entry(op, label, n).id == label + decimal::decimal(n),
        model::position(t.items, id) matches Some(i) ==> model::read_priority(
            ops::bucket_of(t, id),
        ) == Some(t.items[i].priority),
{
    if let Some(i) = model::position(t.items, id) {
        model::lemma_priority_reads_back(t.items[i].priority);
    }
}

/// What is asked for since a timestamp is asked for since its day.
pub proof fn law_since_takes_the_day(since: nat)
    requires
        since < calendar::five_digit_years(),
    ensures
        text::byte_prefix(calendar::iso_text(since), 10) is Some,
        reports::date_part(calendar::iso_text(since)) == calendar::day_text(since),
        reports::date_part(calendar::day_text(since)) == calendar::day_text(since),
{
    let s = calendar::iso_text(since);
    let d = calendar::day_text(since);
    calendar::law_days(since, since);
    calendar::law_day_shape(since);
    assert forall|i: int| 0 <= i < d.len() implies (#[trigger] d[i] as u32) < 128 by {
        if i != 4 && i != 7 {
            assert(decimal::is_digit(d[i]));
        }
    }
    text::law_width_of_parts(d, s.skip(10));
    text::law_width_of_parts(s.skip(10), Seq::empty());
    assert(s =~= d + s.skip(10));
    text::law_first_bytes(s, 10);
    text::law_first_bytes(d, 10);
    match text::byte_prefix(s, 10) {
        Some(p) => {
            lemma_same_width(s, p.len() as int, 10);
        },
        None => {
            assert(s.take(10) == d);
        },
    }
}

/// Of the beginnings of a text only one has a given width.
proof fn lemma_same_width(s: Seq<char>, i: int, j: int)
    requires
        0 <= i <= s.len(),
        0 <= j <= s.len(),
        text::byte_width(s.take(i)) == text::byte_width(s.take(j)),
    ensures
        i == j,
{
    if i < j {
        text::law_width_of_parts(s.take(i), s.subrange(i, j));
        text::law_width_of_parts(s.subrange(i, j), Seq::empty());
        assert(s.take(i) + s.subrange(i, j) =~= s.take(j));
    } else if j < i {
        text::law_width_of_parts(s.take(j), s.subrange(j, i));
        text::law_width_of_parts(s.subrange(j, i), Seq::empty());
        assert(s.take(j) + s.subrange(j, i) =~= s.take(i));
    }
}

/// The summary says how many closes count, how many are churn and how many
/// were forced, in this order.
pub proof fn law_summary(counted: nat, churned: nat, forced: nat)
    ensures
        ({
            let s = reports::summary_text(counted, churned, forced);
            let a = "closed "@ + decimal::decimal(counted) + " real, "@;
            let b = "excluded "@ + decimal::decimal(churned) + " churn, "@;
            let c = decimal::decimal(forced) + " forced-real"@;
            s == a + b + c
        }),
{
    reveal_strlit(" real, excluded ");
    reveal_strlit(" real, ");
    reveal_strlit("excluded ");
    assert(" real, excluded "@ =~= " real, "@ + "excluded "@);
    let s = reports::summary_text(counted, churned, forced);
    let a = "closed "@ + decimal::decimal(counted) + " real, "@;
    let b = "excluded "@ + decimal::decimal(churned) + " churn, "@;
    let c = decimal::decimal(forced) + " forced-real"@;
    assert(s =~= a + b + c);
}

} // verus!
