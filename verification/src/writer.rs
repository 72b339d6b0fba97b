//! Writes a todo list in its canonical Markdown form.
//!
//! The preamble comes out verbatim, the items grouped by bucket in ascending
//! order, each bucket in the order of the list. Empty buckets are left out.
//! State that an item does not have leaves no mark.

use crate::model;
use crate::model::{IdleOkState, Item, ParkState, Priority, Todos};
use crate::text;
use vstd::prelude::*;
use vstd::string::*;

verus! {

// ---------------------------------------------------------------------------
// The canonical form
// ---------------------------------------------------------------------------

/// The checkbox of an item.
pub open spec fn checkbox_text(open: bool) -> Seq<char> {
    if open {
        "- [ ] "@
    } else {
        "- [x] "@
    }
}

/// The id marker; nothing for an empty id.
pub open spec fn id_text(id: Seq<char>) -> Seq<char> {
    if id.len() == 0 {
        Seq::empty()
    } else {
        "[#"@ + id + "] "@
    }
}

/// The idle-ok marker.
pub open spec fn idle_text(s: IdleOkState) -> Seq<char> {
    match s {
        IdleOkState::Unset => Seq::empty(),
        IdleOkState::Suggest => "[idle-ok-suggest] "@,
        IdleOkState::Approved => "[idle-ok] "@,
    }
}

/// The park marker.
pub open spec fn park_text(s: ParkState) -> Seq<char> {
    match s {
        ParkState::Active => Seq::empty(),
        ParkState::Suggested => "[park-suggest] "@,
        ParkState::Parked => "[parked] "@,
    }
}

/// A marker with an argument.
pub open spec fn field_text(opening: Seq<char>, arg: Option<Seq<char>>) -> Seq<char> {
    match arg {
        Some(t) => opening + t + "] "@,
        None => Seq::empty(),
    }
}

/// The released marker.
pub open spec fn released_text(released: bool, ts: Option<Seq<char>>) -> Seq<char> {
    if released {
        match ts {
            Some(t) => field_text("[released "@, ts),
            None => "[released] "@,
        }
    } else {
        Seq::empty()
    }
}

/// The marker of an item that never counts as churn.
pub open spec fn real_text(force_real: bool) -> Seq<char> {
    if force_real {
        "[real] "@
    } else {
        Seq::empty()
    }
}

/// One marker per evidence reference.
pub open spec fn evidence_text(refs: Seq<Seq<char>>) -> Seq<char>
    decreases refs.len(),
{
    if refs.len() == 0 {
        Seq::empty()
    } else {
        field_text("[ev "@, Some(refs[0])) + evidence_text(refs.skip(1))
    }
}

/// The annotation of a closed item.
pub open spec fn closed_text(date: Option<Seq<char>>) -> Seq<char> {
    match date {
        Some(d) => " (closed "@ + d + ")"@,
        None => Seq::empty(),
    }
}

/// What follows the markers: the subject and the closing annotation.
pub open spec fn tail_text(it: model::ItemView) -> Seq<char> {
    it.subject + closed_text(it.closed_on)
}

/// What follows the checkbox.
pub open spec fn body_text(it: model::ItemView) -> Seq<char> {
    id_text(it.id) + (idle_text(it.idle_ok) + (park_text(it.park) + (released_text(
        it.released,
        it.released_ts,
    ) + (field_text("[created "@, it.created_ts) + (field_text("[fseen "@, it.first_seen_open) + (
    real_text(it.force_real) + (evidence_text(it.evidence) + tail_text(it))))))))
}

/// The line of an item, without its ending.
pub open spec fn item_text(it: model::ItemView) -> Seq<char> {
    checkbox_text(it.open) + body_text(it)
}

/// Each line with its ending.
pub open spec fn unlines(ls: Seq<Seq<char>>) -> Seq<char>
    decreases ls.len(),
{
    if ls.len() == 0 {
        Seq::empty()
    } else {
        (ls[0] + seq!['\n']) + unlines(ls.skip(1))
    }
}

/// The lines of items.
pub open spec fn item_lines(items: Seq<model::ItemView>) -> Seq<Seq<char>> {
    items.map_values(|it: model::ItemView| item_text(it))
}

/// The lines of a bucket: the heading, the items, an empty line.
pub open spec fn bucket_lines(level: u32, items: Seq<model::ItemView>) -> Seq<Seq<char>> {
    seq!["## "@ + model::priority_text(level)] + item_lines(items) + seq![Seq::<char>::empty()]
}

/// A level put in its place among ascending levels, unless it is there.
pub open spec fn insert_level(ls: Seq<u32>, p: u32) -> Seq<u32>
    decreases ls.len(),
{
    if ls.len() == 0 || p < ls[0] {
        seq![p] + ls
    } else if p == ls[0] {
        ls
    } else {
        seq![ls[0]] + insert_level(ls.skip(1), p)
    }
}

/// The levels that occur, ascending, each once.
pub open spec fn levels(items: Seq<model::ItemView>) -> Seq<u32>
    decreases items.len(),
{
    if items.len() == 0 {
        Seq::empty()
    } else {
        insert_level(levels(items.drop_last()), items.last().priority)
    }
}

/// The lines of the buckets of the given levels.
pub open spec fn buckets_lines(items: Seq<model::ItemView>, ls: Seq<u32>) -> Seq<Seq<char>>
    decreases ls.len(),
{
    if ls.len() == 0 {
        Seq::empty()
    } else {
        bucket_lines(ls[0], model::bucket(items, ls[0], false)) + buckets_lines(items, ls.skip(1))
    }
}

/// Whether an empty line has to be added after the preamble, so that it ends
/// in two line feeds.
pub open spec fn needs_gap(preamble: Seq<Seq<char>>) -> bool {
    let s = unlines(preamble);
    !(s.len() >= 2 && s[s.len() - 1] == '\n' && s[s.len() - 2] == '\n')
}

/// The lines before the first bucket.
pub open spec fn preamble_lines(company: Seq<char>, preamble: Seq<Seq<char>>) -> Seq<Seq<char>> {
    if preamble.len() == 0 {
        seq!["# todos — "@ + company, Seq::<char>::empty()]
    } else if needs_gap(preamble) {
        preamble.push(Seq::empty())
    } else {
        preamble
    }
}

/// The lines of the canonical form.
pub open spec fn rendered_lines(t: model::TodosView) -> Seq<Seq<char>> {
    preamble_lines(t.company, t.preamble) + buckets_lines(t.items, levels(t.items))
}

/// The canonical form.
pub open spec fn rendered(t: model::TodosView) -> Seq<char> {
    unlines(rendered_lines(t))
}

// ---------------------------------------------------------------------------
// Facts about the parts
// ---------------------------------------------------------------------------

/// Lines joined in two steps.
pub proof fn lemma_unlines_concat(a: Seq<Seq<char>>, b: Seq<Seq<char>>)
    ensures
        unlines(a + b) == unlines(a) + unlines(b),
    decreases a.len(),
{
    if a.len() == 0 {
        assert(a + b =~= b);
        assert(unlines(a) + unlines(b) =~= unlines(b));
    } else {
        assert((a + b).skip(1) =~= a.skip(1) + b);
        lemma_unlines_concat(a.skip(1), b);
        assert((a[0] + seq!['\n']) + (unlines(a.skip(1)) + unlines(b)) =~= ((a[0] + seq!['\n'])
            + unlines(a.skip(1))) + unlines(b));
    }
}

/// One line more.
pub proof fn lemma_unlines_push(a: Seq<Seq<char>>, l: Seq<char>)
    ensures
        unlines(a.push(l)) == unlines(a) + l + seq!['\n'],
{
    assert(a.push(l) =~= a + seq![l]);
    lemma_unlines_concat(a, seq![l]);
    assert(seq![l].skip(1) =~= Seq::empty());
    assert(unlines(seq![l]) =~= l + seq!['\n']) by {
        reveal_with_fuel(unlines, 2);
    }
    assert(unlines(a) + (l + seq!['\n']) =~= unlines(a) + l + seq!['\n']);
}

/// Strictly ascending.
pub open spec fn ascending(ls: Seq<u32>) -> bool {
    forall|i: int, j: int| 0 <= i < j < ls.len() ==> #[trigger] ls[i] < #[trigger] ls[j]
}

/// Insertion keeps levels ascending and adds just the one.
pub proof fn lemma_insert_level(ls: Seq<u32>, p: u32)
    requires
        ascending(ls),
    ensures
        ascending(insert_level(ls, p)),
        forall|x: u32| #[trigger] insert_level(ls, p).contains(x) <==> (ls.contains(x) || x == p),
    decreases ls.len(),
{
    let r = insert_level(ls, p);
    if ls.len() == 0 || p < ls[0] {
        assert forall|x: u32| #[trigger] r.contains(x) <==> (ls.contains(x) || x == p) by {
            if ls.contains(x) {
                let k = choose|k: int| 0 <= k < ls.len() && ls[k] == x;
                assert(r[k + 1] == x);
            }
            assert(r[0] == p);
            if r.contains(x) {
                let k = choose|k: int| 0 <= k < r.len() && r[k] == x;
                if k > 0 {
                    assert(ls[k - 1] == x);
                }
            }
        }
        assert forall|i: int, j: int| 0 <= i < j < r.len() implies #[trigger] r[i]
            < #[trigger] r[j] by {
            assert(r[j] == ls[j - 1]);
            if i > 0 {
                assert(r[i] == ls[i - 1]);
            }
        }
    } else if p == ls[0] {
        assert forall|x: u32| #[trigger] r.contains(x) <==> (ls.contains(x) || x == p) by {
            assert(ls[0] == p);
        }
    } else {
        let t = ls.skip(1);
        assert(ascending(t)) by {
            assert forall|i: int, j: int| 0 <= i < j < t.len() implies #[trigger] t[i]
                < #[trigger] t[j] by {
                assert(t[i] == ls[i + 1] && t[j] == ls[j + 1]);
            }
        }
        lemma_insert_level(t, p);
        let u = insert_level(t, p);
        assert forall|x: u32| #[trigger] r.contains(x) <==> (ls.contains(x) || x == p) by {
            assert(u.contains(x) <==> (t.contains(x) || x == p));
            if r.contains(x) {
                let k = choose|k: int| 0 <= k < r.len() && r[k] == x;
                if k > 0 {
                    assert(u[k - 1] == x);
                    if t.contains(x) {
                        let m = choose|m: int| 0 <= m < t.len() && t[m] == x;
                        assert(ls[m + 1] == x);
                    }
                } else {
                    assert(ls[0] == x);
                }
            }
            if ls.contains(x) {
                let k = choose|k: int| 0 <= k < ls.len() && ls[k] == x;
                if k > 0 {
                    assert(t[k - 1] == x);
                } else {
                    assert(r[0] == x);
                }
            }
            if u.contains(x) {
                let k = choose|k: int| 0 <= k < u.len() && u[k] == x;
                assert(r[k + 1] == x);
            }
        }
        assert forall|i: int, j: int| 0 <= i < j < r.len() implies #[trigger] r[i]
            < #[trigger] r[j] by {
            assert(r[j] == u[j - 1]);
            if i > 0 {
                assert(r[i] == u[i - 1]);
            } else {
                assert(u.contains(u[j - 1]));
                if u[j - 1] != p {
                    assert(t.contains(u[j - 1]));
                    let m = choose|m: int| 0 <= m < t.len() && t[m] == u[j - 1];
                    assert(ls[m + 1] == u[j - 1]);
                    assert(ls[0] < ls[m + 1]);
                }
            }
        }
    }
}

/// The levels are ascending and are exactly those that occur.
pub proof fn lemma_levels(items: Seq<model::ItemView>)
    ensures
        ascending(levels(items)),
        forall|x: u32| #[trigger]
            levels(items).contains(x) <==> exists|i: int|
                0 <= i < items.len() && (#[trigger] items[i]).priority == x,
    decreases items.len(),
{
    let r = levels(items);
    if items.len() > 0 {
        let t = items.drop_last();
        lemma_levels(t);
        lemma_insert_level(levels(t), items.last().priority);
        assert forall|x: u32| #[trigger]
            r.contains(x) <==> exists|i: int|
                0 <= i < items.len() && (#[trigger] items[i]).priority == x by {
            if r.contains(x) {
                if x == items.last().priority {
                    assert(items[items.len() - 1].priority == x);
                } else {
                    assert(levels(t).contains(x));
                    let i = choose|i: int| 0 <= i < t.len() && (#[trigger] t[i]).priority == x;
                    assert(items[i].priority == x);
                }
            }
            if exists|i: int| 0 <= i < items.len() && (#[trigger] items[i]).priority == x {
                let i = choose|i: int| 0 <= i < items.len() && (#[trigger] items[i]).priority == x;
                if i < items.len() - 1 {
                    assert(t[i].priority == x);
                    assert(levels(t).contains(x));
                }
            }
        }
    }
}

/// Insertion at the place where the order asks for it.
proof fn lemma_insert_level_at(ls: Seq<u32>, p: u32, k: int)
    requires
        0 <= k <= ls.len(),
        forall|i: int| 0 <= i < k ==> #[trigger] ls[i] < p,
        k < ls.len() ==> p <= ls[k],
    ensures
        insert_level(ls, p) == if k < ls.len() && ls[k] == p {
            ls
        } else {
            ls.insert(k, p)
        },
    decreases k,
{
    if k == 0 {
        assert(seq![p] + ls =~= ls.insert(0, p));
    } else {
        let t = ls.skip(1);
        assert(ls[0] < p);
        lemma_insert_level_at(t, p, k - 1);
        assert(seq![ls[0]] + t =~= ls);
        assert(seq![ls[0]] + t.insert(k - 1, p) =~= ls.insert(k, p));
    }
}

// ---------------------------------------------------------------------------
// The writer
// ---------------------------------------------------------------------------

fn push_field(out: &mut String, opening: &str, arg: &str)
    ensures
        final(out)@ == old(out)@ + field_text(opening@, Some(arg@)),
{
    out.append(opening);
    out.append(arg);
    out.append("] ");
    assert(out@ =~= old(out)@ + (opening@ + arg@ + "] "@));
}

fn push_optional(out: &mut String, opening: &str, arg: &Option<String>)
    ensures
        final(out)@ == old(out)@ + field_text(opening@, model::opt_text(*arg)),
{
    match arg {
        Some(t) => {
            push_field(out, opening, t.as_str());
        },
        None => {
            assert(out@ + Seq::<char>::empty() =~= out@);
        },
    }
}

fn push_idle(out: &mut String, s: IdleOkState)
    ensures
        final(out)@ == old(out)@ + idle_text(s),
{
    match s {
        IdleOkState::Unset => {
            assert(out@ + Seq::<char>::empty() =~= out@);
        },
        IdleOkState::Suggest => {
            out.append("[idle-ok-suggest] ");
        },
        IdleOkState::Approved => {
            out.append("[idle-ok] ");
        },
    }
}

fn push_park(out: &mut String, s: ParkState)
    ensures
        final(out)@ == old(out)@ + park_text(s),
{
    match s {
        ParkState::Active => {
            assert(out@ + Seq::<char>::empty() =~= out@);
        },
        ParkState::Suggested => {
            out.append("[park-suggest] ");
        },
        ParkState::Parked => {
            out.append("[parked] ");
        },
    }
}

fn push_released(out: &mut String, released: bool, ts: &Option<String>)
    ensures
        final(out)@ == old(out)@ + released_text(released, model::opt_text(*ts)),
{
    if released {
        match ts {
            Some(t) => {
                push_field(out, "[released ", t.as_str());
            },
            None => {
                out.append("[released] ");
            },
        }
    } else {
        assert(out@ + Seq::<char>::empty() =~= out@);
    }
}

fn push_evidence(out: &mut String, refs: &Vec<String>)
    ensures
        final(out)@ == old(out)@ + evidence_text(model::texts(refs@)),
{
    let n: usize = refs.len();
    let ghost all = model::texts(refs@);
    let ghost start = out@;
    let mut i: usize = 0;
    assert(all.skip(0) =~= all);
    while i < n
        invariant
            0 <= i <= n,
            n == refs@.len(),
            all == model::texts(refs@),
            out@ + evidence_text(all.skip(i as int)) == start + evidence_text(all),
        decreases n - i,
    {
        let ghost before = out@;
        proof {
            assert(all.skip(i as int).skip(1) =~= all.skip(i as int + 1));
            assert(all.skip(i as int)[0] == refs@[i as int]@);
        }
        push_field(out, "[ev ", refs[i].as_str());
        assert(out@ + evidence_text(all.skip(i as int + 1)) =~= before + evidence_text(
            all.skip(i as int),
        ));
        i = i + 1;
    }
    assert(all.skip(n as int) =~= Seq::empty());
    assert(out@ + Seq::<char>::empty() =~= out@);
}

fn push_closed(out: &mut String, date: &Option<String>)
    ensures
        final(out)@ == old(out)@ + closed_text(model::opt_text(*date)),
{
    match date {
        Some(d) => {
            out.append(" (closed ");
            out.append(d.as_str());
            out.append(")");
            assert(out@ =~= old(out)@ + (" (closed "@ + d@ + ")"@));
        },
        None => {
            assert(out@ + Seq::<char>::empty() =~= out@);
        },
    }
}

/// Concatenation is associative.
proof fn lemma_assoc(a: Seq<char>, b: Seq<char>, c: Seq<char>)
    ensures
        a + b + c == a + (b + c),
{
    assert(a + b + c =~= a + (b + c));
}

/// The parts of an item, one appended after the other, make its line.
proof fn lemma_item_parts(start: Seq<char>, it: model::ItemView)
    ensures
        start + checkbox_text(it.open) + id_text(it.id) + idle_text(it.idle_ok) + park_text(it.park)
            + released_text(it.released, it.released_ts) + field_text("[created "@, it.created_ts)
            + field_text("[fseen "@, it.first_seen_open) + real_text(it.force_real) + evidence_text(
            it.evidence,
        ) + it.subject + closed_text(it.closed_on) == start + item_text(it),
{
    let p0 = start + checkbox_text(it.open);
    let p1 = p0 + id_text(it.id);
    let p2 = p1 + idle_text(it.idle_ok);
    let p3 = p2 + park_text(it.park);
    let p4 = p3 + released_text(it.released, it.released_ts);
    let p5 = p4 + field_text("[created "@, it.created_ts);
    let p6 = p5 + field_text("[fseen "@, it.first_seen_open);
    let p7 = p6 + real_text(it.force_real);
    let p8 = p7 + evidence_text(it.evidence);
    let s8 = tail_text(it);
    let s7 = evidence_text(it.evidence) + s8;
    let s6 = real_text(it.force_real) + s7;
    let s5 = field_text("[fseen "@, it.first_seen_open) + s6;
    let s4 = field_text("[created "@, it.created_ts) + s5;
    let s3 = released_text(it.released, it.released_ts) + s4;
    let s2 = park_text(it.park) + s3;
    let s1 = idle_text(it.idle_ok) + s2;
    lemma_assoc(p8, it.subject, closed_text(it.closed_on));
    lemma_assoc(p7, evidence_text(it.evidence), s8);
    lemma_assoc(p6, real_text(it.force_real), s7);
    lemma_assoc(p5, field_text("[fseen "@, it.first_seen_open), s6);
    lemma_assoc(p4, field_text("[created "@, it.created_ts), s5);
    lemma_assoc(p3, released_text(it.released, it.released_ts), s4);
    lemma_assoc(p2, park_text(it.park), s3);
    lemma_assoc(p1, idle_text(it.idle_ok), s2);
    lemma_assoc(p0, id_text(it.id), s1);
    lemma_assoc(start, checkbox_text(it.open), body_text(it));
}

fn push_checkbox(out: &mut String, open: bool)
    ensures
        final(out)@ == old(out)@ + checkbox_text(open),
{
    if open {
        out.append("- [ ] ");
    } else {
        out.append("- [x] ");
    }
}

fn push_id(out: &mut String, id: &str)
    ensures
        final(out)@ == old(out)@ + id_text(id@),
{
    if id.is_empty() {
        assert(out@ + Seq::<char>::empty() =~= out@);
    } else {
        push_field(out, "[#", id);
    }
}

fn push_real(out: &mut String, force_real: bool)
    ensures
        final(out)@ == old(out)@ + real_text(force_real),
{
    if force_real {
        out.append("[real] ");
    } else {
        assert(out@ + Seq::<char>::empty() =~= out@);
    }
}

/// Appends the line of an item, without its ending.
fn push_item(out: &mut String, item: &Item)
    ensures
        final(out)@ == old(out)@ + item_text(item@),
{
    proof {
        lemma_item_parts(out@, item@);
    }
    push_checkbox(out, item.open);
    push_id(out, item.id.as_str());
    push_idle(out, item.idle_ok);
    push_park(out, item.park);
    push_released(out, item.released, &item.released_ts);
    push_optional(out, "[created ", &item.created_ts);
    push_optional(out, "[fseen ", &item.first_seen_open);
    push_real(out, item.force_real);
    push_evidence(out, &item.evidence);
    out.append(item.subject.as_str());
    push_closed(out, &item.closed_on);
}

/// The levels that occur, ascending, each once.
fn levels_of(items: &Vec<Item>) -> (r: Vec<u32>)
    ensures
        r@ == levels(model::items_view(items@)),
{
    let n: usize = items.len();
    let ghost all = model::items_view(items@);
    let mut r: Vec<u32> = Vec::new();
    let mut i: usize = 0;
    assert(all.take(0) =~= Seq::empty());
    assert(r@ =~= levels(all.take(0)));
    while i < n
        invariant
            0 <= i <= n,
            n == items@.len(),
            all == model::items_view(items@),
            r@ == levels(all.take(i as int)),
        decreases n - i,
    {
        let p: u32 = items[i].priority.0;
        let mut k: usize = 0;
        while k < r.len() && r[k] < p
            invariant
                0 <= k <= r@.len(),
                forall|j: int| 0 <= j < k ==> #[trigger] r@[j] < p,
            decreases r@.len() - k,
        {
            k = k + 1;
        }
        proof {
            assert(all.take(i as int + 1).drop_last() =~= all.take(i as int));
            assert(all.take(i as int + 1).last() == items@[i as int]@);
            lemma_insert_level_at(r@, p, k as int);
        }
        if k < r.len() && r[k] == p {
        } else {
            r.insert(k, p);
        }
        i = i + 1;
    }
    assert(all.take(n as int) =~= all);
    r
}

/// Appends a bucket.
fn push_bucket(out: &mut String, level: u32, items: &Vec<&Item>)
    ensures
        final(out)@ == old(out)@ + unlines(bucket_lines(level, model::refs_view(items@))),
{
    let ghost start = out@;
    let ghost all = model::refs_view(items@);
    let ghost heading = "## "@ + model::priority_text(level);
    out.append("## ");
    out.append(Priority(level).as_str().as_str());
    out.append("\n");
    proof {
        reveal_strlit("\n");
        assert("\n"@ =~= seq!['\n']);
        lemma_unlines_push(Seq::empty(), heading);
        assert(Seq::empty().push(heading) =~= seq![heading] + item_lines(all.take(0)));
        assert(out@ =~= start + unlines(seq![heading] + item_lines(all.take(0))));
    }
    let n: usize = items.len();
    let mut i: usize = 0;
    while i < n
        invariant
            0 <= i <= n,
            n == items@.len(),
            all == model::refs_view(items@),
            out@ == start + unlines(seq![heading] + item_lines(all.take(i as int))),
        decreases n - i,
    {
        let ghost before = seq![heading] + item_lines(all.take(i as int));
        push_item(out, items[i]);
        out.append("\n");
        proof {
            reveal_strlit("\n");
            assert("\n"@ =~= seq!['\n']);
            let l = item_text(all[i as int]);
            lemma_unlines_push(before, l);
            assert(seq![heading] + item_lines(all.take(i as int + 1)) =~= before.push(l));
            assert(out@ =~= start + (unlines(before) + l + seq!['\n']));
        }
        i = i + 1;
    }
    out.append("\n");
    proof {
        reveal_strlit("\n");
        assert("\n"@ =~= seq!['\n']);
        assert(all.take(n as int) =~= all);
        let before = seq![heading] + item_lines(all);
        lemma_unlines_push(before, Seq::empty());
        assert(bucket_lines(level, all) =~= before.push(Seq::empty()));
        assert(out@ =~= start + (unlines(before) + Seq::<char>::empty() + seq!['\n']));
    }
}

/// Appends what comes before the first bucket.
fn push_preamble(out: &mut String, company: &str, preamble: &Vec<String>)
    requires
        old(out)@.len() == 0,
    ensures
        final(out)@ == unlines(preamble_lines(company@, model::texts(preamble@))),
{
    let n: usize = preamble.len();
    let ghost all = model::texts(preamble@);
    proof {
        reveal_strlit("\n");
        assert("\n"@ =~= seq!['\n']);
    }
    if n == 0 {
        out.append("# todos — ");
        out.append(company);
        out.append("\n");
        out.append("\n");
        proof {
            let title = "# todos — "@ + company@;
            lemma_unlines_push(Seq::empty(), title);
            lemma_unlines_push(Seq::empty().push(title), Seq::empty());
            assert(Seq::empty().push(title).push(Seq::<char>::empty()) =~= seq![
                title,
                Seq::<char>::empty(),
            ]);
            assert(out@ =~= unlines(seq![title, Seq::<char>::empty()]));
        }
        return ;
    }
    let mut i: usize = 0;
    assert(all.take(0) =~= Seq::empty());
    assert(out@ =~= unlines(all.take(0)));
    while i < n
        invariant
            0 <= i <= n,
            n == preamble@.len(),
            all == model::texts(preamble@),
            out@ == unlines(all.take(i as int)),
            "\n"@ == seq!['\n'],
        decreases n - i,
    {
        out.append(preamble[i].as_str());
        out.append("\n");
        proof {
            lemma_unlines_push(all.take(i as int), all[i as int]);
            assert(all.take(i as int + 1) =~= all.take(i as int).push(all[i as int]));
        }
        i = i + 1;
    }
    assert(all.take(n as int) =~= all);
    let cs: Vec<char> = text::chars_of(out.as_str());
    let len: usize = cs.len();
    if !(len >= 2 && cs[len - 1] == '\n' && cs[len - 2] == '\n') {
        out.append("\n");
        proof {
            lemma_unlines_push(all, Seq::empty());
            assert(out@ =~= unlines(all) + Seq::<char>::empty() + seq!['\n']);
        }
    }
}

/// The canonical form of a todo list.
pub fn render(todos: &Todos) -> (r: String)
    ensures
        r@ == rendered(todos@),
{
    let mut out: String = String::new();
    push_preamble(&mut out, todos.company.as_str(), &todos.preamble);
    let ghost head = preamble_lines(todos@.company, todos@.preamble);
    let ls: Vec<u32> = levels_of(&todos.items);
    let n: usize = ls.len();
    let mut i: usize = 0;
    assert(ls@.skip(0) =~= ls@);
    proof {
        lemma_unlines_concat(head, buckets_lines(todos@.items, ls@));
    }
    while i < n
        invariant
            0 <= i <= n,
            n == ls@.len(),
            out@ + unlines(buckets_lines(todos@.items, ls@.skip(i as int))) == rendered(todos@),
        decreases n - i,
    {
        let ghost before = out@;
        let items: Vec<&Item> = todos.by_priority(&Priority(ls[i]), false);
        push_bucket(&mut out, ls[i], &items);
        proof {
            let rest = buckets_lines(todos@.items, ls@.skip(i as int + 1));
            let this = bucket_lines(ls@[i as int], model::refs_view(items@));
            assert(ls@.skip(i as int).skip(1) =~= ls@.skip(i as int + 1));
            assert(buckets_lines(todos@.items, ls@.skip(i as int)) == this + rest);
            lemma_unlines_concat(this, rest);
            assert(before + (unlines(this) + unlines(rest)) =~= out@ + unlines(rest));
        }
        i = i + 1;
    }
    assert(ls@.skip(n as int) =~= Seq::empty());
    assert(out@ + Seq::<char>::empty() =~= out@);
    out
}

/// A preamble is written as it is, with at most an empty line added, and an
/// empty one is replaced by the title. Either way an empty line stands before
/// the first bucket.
pub proof fn law_preamble_is_kept(company: Seq<char>, preamble: Seq<Seq<char>>)
    ensures
        ({
            let pl = preamble_lines(company, preamble);
            &&& preamble.len() > 0 ==> preamble.len() <= pl.len() <= preamble.len() + 1
            &&& preamble.len() > 0 ==> pl.take(preamble.len() as int) == preamble
            &&& pl.len() == preamble.len() + 1 && preamble.len() > 0 ==> pl.last().len() == 0
            &&& preamble.len() == 0 ==> pl.len() == 2 && pl[0] == "# todos — "@ + company
                && pl[1].len() == 0
        }),
{
    let pl = preamble_lines(company, preamble);
    if preamble.len() > 0 {
        assert(pl.take(preamble.len() as int) =~= preamble);
    }
}

/// Nothing is left out of a file and nothing is put in: its lines are the
/// preamble and, for every bucket that has items, in ascending order, the
/// heading, one line for each item, and an empty line.
pub proof fn law_lines_of_buckets(items: Seq<model::ItemView>, ls: Seq<u32>, level: u32)
    ensures
        buckets_lines(items, seq![level] + ls) == seq!["## "@ + model::priority_text(level)]
            + items.filter(|it: model::ItemView| it.priority == level).map_values(
            |it: model::ItemView| item_text(it),
        ) + seq![Seq::<char>::empty()] + buckets_lines(items, ls),
        buckets_lines(items, Seq::empty()).len() == 0,
        ascending(levels(items)),
        levels(items).contains(level) <==> exists|i: int|
            0 <= i < items.len() && (#[trigger] items[i]).priority == level,
{
    lemma_levels(items);
    lemma_level_occurs(items, level);
    let more = seq![level] + ls;
    assert(more.skip(1) =~= ls);
    lemma_bucket_filter(items, level);
}

proof fn lemma_bucket_filter(items: Seq<model::ItemView>, level: u32)
    ensures
        model::bucket(items, level, false) == items.filter(
            |it: model::ItemView| it.priority == level,
        ),
    decreases items.len(),
{
    reveal(Seq::filter);
    if items.len() > 0 {
        lemma_bucket_filter(items.drop_last(), level);
    }
}

proof fn lemma_level_occurs(items: Seq<model::ItemView>, level: u32)
    ensures
        levels(items).contains(level) <==> exists|i: int|
            0 <= i < items.len() && (#[trigger] items[i]).priority == level,
    decreases items.len(),
{
    if items.len() > 0 {
        let t = items.drop_last();
        lemma_level_occurs(t, level);
        lemma_levels(t);
        lemma_insert_level(levels(t), items.last().priority);
        if levels(t).contains(level) {
            let i = choose|i: int| 0 <= i < t.len() && (#[trigger] t[i]).priority == level;
            assert(items[i].priority == level);
        }
        assert(items[items.len() - 1] == items.last());
        if exists|i: int| 0 <= i < items.len() && (#[trigger] items[i]).priority == level {
            let i = choose|i: int| 0 <= i < items.len() && (#[trigger] items[i]).priority == level;
            if i < t.len() {
                assert(t[i].priority == level);
            }
        }
    }
}

} // verus!
