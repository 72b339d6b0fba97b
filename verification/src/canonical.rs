//! Files that are in canonical form: what a rewrite leaves as it is.

use crate::ledger;
use crate::model;
use crate::parser;
use crate::roundtrip;
use crate::text;
use crate::writer;
use vstd::prelude::*;

verus! {

/// The text is in canonical form: read and written, it is the same.
pub open spec fn canonical(source: Seq<char>, company: Seq<char>) -> bool {
    writer::rendered(parser::parsed(source, company)) == source
}

/// The buckets ascend.
pub open spec fn in_order(items: Seq<model::ItemView>) -> bool {
    forall|i: int, j: int|
        0 <= i < j < items.len() ==> (#[trigger] items[i]).priority <= (
        #[trigger] items[j]).priority
}

// ---------------------------------------------------------------------------
// The order of the buckets
// ---------------------------------------------------------------------------

/// A list in order is fixed by its buckets.
proof fn lemma_in_order_unique(a: Seq<model::ItemView>, b: Seq<model::ItemView>)
    requires
        in_order(a),
        in_order(b),
        forall|p: u32| #[trigger] model::bucket(a, p, false) == model::bucket(b, p, false),
    ensures
        a == b,
    decreases a.len(),
{
    reveal(Seq::filter);
    if a.len() == 0 {
        if b.len() > 0 {
            let q = b.last().priority;
            assert(model::bucket(b, q, false).len() > 0);
            assert(model::bucket(a, q, false).len() == 0);
        }
    } else {
        let p = a.last().priority;
        assert(model::bucket(a, p, false).last() == a.last());
        ledger::lemma_bucket(b, p);
        assert(b.contains(model::bucket(b, p, false)[0]));
        let q = b.last().priority;
        assert(model::bucket(b, q, false).last() == b.last());
        assert(model::bucket(a, q, false) == model::bucket(b, q, false));
        ledger::lemma_bucket(a, q);
        assert(a.contains(model::bucket(a, q, false)[0]));
        assert(p == q) by {
            let k = choose|k: int| 0 <= k < a.len() && a[k] == model::bucket(a, q, false)[0];
            assert(a[k].priority <= a[a.len() - 1].priority);
            let m = choose|m: int| 0 <= m < b.len() && b[m] == model::bucket(b, p, false)[0];
            assert(b[m].priority <= b[b.len() - 1].priority);
        }
        assert(a.last() == b.last());
        let x = a.drop_last();
        let y = b.drop_last();
        assert forall|r: u32| #[trigger]
            model::bucket(x, r, false) == model::bucket(y, r, false) by {
            assert(model::bucket(a, r, false) == model::bucket(b, r, false));
            if r == p {
                let c = model::bucket(x, r, false);
                let d = model::bucket(y, r, false);
                assert(c.push(a.last()).drop_last() =~= c);
                assert(d.push(b.last()).drop_last() =~= d);
            }
        }
        lemma_in_order_unique(x, y);
        assert(a =~= x.push(a.last()));
        assert(b =~= y.push(b.last()));
    }
}

proof fn lemma_grouped_by_in_order(items: Seq<model::ItemView>, ls: Seq<u32>)
    requires
        writer::ascending(ls),
    ensures
        in_order(ledger::grouped_by(items, ls)),
        forall|i: int|
            0 <= i < ledger::grouped_by(items, ls).len() ==> ls.contains(
                (#[trigger] ledger::grouped_by(items, ls)[i]).priority,
            ),
    decreases ls.len(),
{
    if ls.len() > 0 {
        let rest = ls.skip(1);
        assert forall|m: int, n: int| 0 <= m < n < rest.len() implies #[trigger] rest[m]
            < #[trigger] rest[n] by {
            assert(rest[m] == ls[m + 1] && rest[n] == ls[n + 1]);
        }
        lemma_grouped_by_in_order(items, rest);
        ledger::lemma_bucket(items, ls[0]);
        let b = model::bucket(items, ls[0], false);
        let g = ledger::grouped_by(items, ls);
        let h = ledger::grouped_by(items, rest);
        assert forall|i: int| 0 <= i < g.len() implies ls.contains((#[trigger] g[i]).priority) && (
        if i < b.len() {
            g[i].priority == ls[0]
        } else {
            g[i].priority > ls[0]
        }) by {
            if i < b.len() {
                assert(g[i] == b[i]);
                assert(ls[0] == g[i].priority);
            } else {
                assert(g[i] == h[i - b.len()]);
                assert(rest.contains(h[i - b.len()].priority));
                let k = choose|k: int| 0 <= k < rest.len() && rest[k] == g[i].priority;
                assert(ls[k + 1] == g[i].priority);
            }
        }
        assert forall|i: int, j: int| 0 <= i < j < g.len() implies (#[trigger] g[i]).priority <= (
        #[trigger] g[j]).priority by {
            if i >= b.len() {
                assert(g[i] == h[i - b.len()]);
                assert(g[j] == h[j - b.len()]);
            }
        }
    }
}

/// A list in order is grouped as it is.
pub proof fn lemma_in_order_grouped(items: Seq<model::ItemView>)
    requires
        in_order(items),
    ensures
        ledger::grouped(items) == items,
{
    let ls = writer::levels(items);
    writer::lemma_levels(items);
    lemma_grouped_by_in_order(items, ls);
    let g = ledger::grouped(items);
    assert forall|p: u32| #[trigger]
        model::bucket(items, p, false) == model::bucket(g, p, false) by {
        ledger::lemma_bucket_grouped(items, ls, p);
        ledger::lemma_occurs(items, p);
        if !ls.contains(p) {
            assert(model::bucket(items, p, false) =~= Seq::empty());
        }
    }
    lemma_in_order_unique(items, g);
}

// ---------------------------------------------------------------------------
// Reading buckets of any items
// ---------------------------------------------------------------------------

/// `x` is what the line of `it` gives.
pub open spec fn came_from(x: model::ItemView, it: model::ItemView) -> bool {
    parser::read_item(text::trim_end(writer::item_text(it)), x.line, Some(it.priority)) == Some(x)
}

/// The list has grown by what the lines of `items` give: at most one item
/// for each, and if one for each, in their order.
spec fn grown(
    before: Seq<model::ItemView>,
    after: Seq<model::ItemView>,
    items: Seq<model::ItemView>,
) -> bool {
    &&& before.len() <= after.len() <= before.len() + items.len()
    &&& forall|k: int| 0 <= k < before.len() ==> #[trigger] after[k] == before[k]
    &&& after.len() == before.len() + items.len() ==> forall|k: int|
        before.len() <= k < after.len() ==> came_from(
            #[trigger] after[k],
            items[k - before.len()],
        )
}

/// None of the items is blank.
pub open spec fn no_blank(items: Seq<model::ItemView>) -> bool {
    forall|i: int| 0 <= i < items.len() ==> !roundtrip::blank(#[trigger] items[i])
}

proof fn lemma_grown_twice(
    a: Seq<model::ItemView>,
    b: Seq<model::ItemView>,
    c: Seq<model::ItemView>,
    x: Seq<model::ItemView>,
    y: Seq<model::ItemView>,
)
    requires
        grown(a, b, x),
        grown(b, c, y),
    ensures
        grown(a, c, x + y),
{
    assert forall|k: int| 0 <= k < a.len() implies #[trigger] c[k] == a[k] by {
        assert(b[k] == a[k]);
    }
    if c.len() == a.len() + (x + y).len() {
        assert forall|k: int| a.len() <= k < c.len() implies came_from(
            #[trigger] c[k],
            (x + y)[k - a.len()],
        ) by {
            if k < b.len() {
                assert(c[k] == b[k]);
                assert(came_from(b[k], x[k - a.len()]));
            } else {
                assert(came_from(c[k], y[k - b.len()]));
            }
        }
    }
}

proof fn lemma_lines_of_items(st: parser::Reading, items: Seq<model::ItemView>, level: u32)
    requires
        !st.in_preamble,
        st.level == Some(level),
        forall|i: int|
            0 <= i < items.len() ==> roundtrip::well_shaped(#[trigger] items[i])
                && items[i].priority == level,
    ensures
        ({
            let r = parser::read_lines(st, writer::item_lines(items));
            &&& !r.in_preamble
            &&& grown(st.items, r.items, items)
            &&& no_blank(items) ==> r.items.len() == st.items.len() + items.len()
            &&& forall|k: int|
                st.items.len() <= k < r.items.len() ==> (#[trigger] r.items[k]).priority == level
        }),
    decreases items.len(),
{
    let ls = writer::item_lines(items);
    if items.len() > 0 {
        let it = items[0];
        let rest = items.skip(1);
        assert(roundtrip::well_shaped(it));
        ledger::lemma_item_line(it);
        assert(ls[0] == writer::item_text(it));
        assert(!ledger::is_heading(ls[0])) by {
            reveal_strlit("## ");
            text::lemma_trim_end_prefix(ls[0]);
            let s = text::trim_end(ls[0]);
            if s.len() >= 3 {
                assert(s.take(3)[0] == '-');
            }
        }
        let next = parser::read_line(st, ls[0]);
        assert(ls.skip(1) =~= writer::item_lines(rest));
        assert(grown(st.items, next.items, seq![it]));
        assert forall|i: int| 0 <= i < rest.len() implies roundtrip::well_shaped(#[trigger] rest[i])
            && rest[i].priority == level by {
            assert(rest[i] == items[i + 1]);
        }
        if no_blank(items) {
            assert(!roundtrip::blank(items[0]));
            roundtrip::lemma_seen_stays_seen(it, st.line + 1);
            assert forall|i: int| 0 <= i < rest.len() implies !roundtrip::blank(
                #[trigger] rest[i],
            ) by {
                assert(rest[i] == items[i + 1]);
            }
        }
        lemma_lines_of_items(next, rest, level);
        let r = parser::read_lines(next, writer::item_lines(rest));
        lemma_grown_twice(st.items, next.items, r.items, seq![it], rest);
        assert(seq![it] + rest =~= items);
        assert forall|k: int| st.items.len() <= k < r.items.len() implies (
        #[trigger] r.items[k]).priority == level by {
            if k < next.items.len() {
                assert(r.items[k] == next.items[k]);
            }
        }
    }
}

proof fn lemma_lines_of_bucket(st: parser::Reading, items: Seq<model::ItemView>, level: u32)
    requires
        forall|i: int|
            0 <= i < items.len() ==> roundtrip::well_shaped(#[trigger] items[i])
                && items[i].priority == level,
    ensures
        ({
            let r = parser::read_lines(st, writer::bucket_lines(level, items));
            &&& grown(st.items, r.items, items)
            &&& no_blank(items) ==> r.items.len() == st.items.len() + items.len()
            &&& forall|k: int|
                st.items.len() <= k < r.items.len() ==> (#[trigger] r.items[k]).priority == level
        }),
{
    let h = seq!["## "@ + model::priority_text(level)];
    let m = writer::item_lines(items);
    let e = seq![Seq::<char>::empty()];
    ledger::lemma_read_lines_concat(st, h + m, e);
    ledger::lemma_read_lines_concat(st, h, m);
    ledger::lemma_read_heading(st, level);
    let s1 = parser::read_line(st, h[0]);
    assert(parser::read_lines(st, h) == s1) by {
        reveal_with_fuel(parser::read_lines, 2);
    }
    lemma_lines_of_items(s1, items, level);
    let s2 = parser::read_lines(s1, m);
    reveal_strlit("## ");
    reveal_strlit("- [ ] ");
    reveal_strlit("- [x] ");
    reveal_strlit("- [X] ");
    let s3 = parser::read_line(s2, e[0]);
    assert(text::trim_end(e[0]) =~= Seq::empty());
    assert(text::trim_start(Seq::<char>::empty()) =~= Seq::empty());
    assert(s3.items == s2.items);
    assert(parser::read_lines(s2, e) == s3) by {
        reveal_with_fuel(parser::read_lines, 2);
    }
}

/// The lines of buckets of any well-shaped items give items in order.
proof fn lemma_lines_of_buckets(st: parser::Reading, items: Seq<model::ItemView>, ls: Seq<u32>)
    requires
        writer::ascending(ls),
        in_order(st.items),
        forall|i: int, k: int|
            0 <= i < st.items.len() && 0 <= k < ls.len() ==> (#[trigger] st.items[i]).priority
                < #[trigger] ls[k],
        forall|i: int| 0 <= i < items.len() ==> roundtrip::well_shaped(#[trigger] items[i]),
    ensures
        ({
            let r = parser::read_lines(st, writer::buckets_lines(items, ls));
            &&& grown(st.items, r.items, ledger::grouped_by(items, ls))
            &&& no_blank(items) ==> r.items.len() == st.items.len() + ledger::grouped_by(
                items,
                ls,
            ).len()
            &&& in_order(r.items)
        }),
    decreases ls.len(),
{
    if ls.len() > 0 {
        let p = ls[0];
        let b = model::bucket(items, p, false);
        let rest = ls.skip(1);
        ledger::lemma_bucket(items, p);
        assert forall|i: int| 0 <= i < b.len() implies roundtrip::well_shaped(#[trigger] b[i])
            && b[i].priority == p by {
            assert(items.contains(b[i]));
            let k = choose|k: int| 0 <= k < items.len() && items[k] == b[i];
            assert(roundtrip::well_shaped(items[k]));
        }
        if no_blank(items) {
            assert forall|i: int| 0 <= i < b.len() implies !roundtrip::blank(#[trigger] b[i]) by {
                assert(items.contains(b[i]));
                let k = choose|k: int| 0 <= k < items.len() && items[k] == b[i];
                assert(!roundtrip::blank(items[k]));
            }
        }
        lemma_lines_of_bucket(st, b, p);
        let first = writer::bucket_lines(p, b);
        let more = writer::buckets_lines(items, rest);
        ledger::lemma_read_lines_concat(st, first, more);
        let mid = parser::read_lines(st, first);
        assert forall|m: int, n: int| 0 <= m < n < rest.len() implies #[trigger] rest[m]
            < #[trigger] rest[n] by {
            assert(rest[m] == ls[m + 1] && rest[n] == ls[n + 1]);
        }
        assert forall|i: int| 0 <= i < mid.items.len() implies (
        #[trigger] mid.items[i]).priority <= p by {
            if i < st.items.len() {
                assert(mid.items[i] == st.items[i]);
                assert(st.items[i].priority < ls[0]);
            }
        }
        assert forall|i: int, k: int| 0 <= i < mid.items.len() && 0 <= k < rest.len() implies (
        #[trigger] mid.items[i]).priority < #[trigger] rest[k] by {
            assert(ls[0] < ls[k + 1]);
        }
        assert forall|i: int, j: int| 0 <= i < j < mid.items.len() implies (
        #[trigger] mid.items[i]).priority <= (#[trigger] mid.items[j]).priority by {
            if j < st.items.len() {
                assert(mid.items[i] == st.items[i]);
                assert(mid.items[j] == st.items[j]);
            }
        }
        lemma_lines_of_buckets(mid, items, rest);
        let r = parser::read_lines(mid, more);
        lemma_grown_twice(st.items, mid.items, r.items, b, ledger::grouped_by(items, rest));
    }
}

/// A list of well-shaped items that are not blank, written and read again, has
/// one item for each, the one that its line gives, whether or not that line
/// is ambiguous.
pub proof fn law_every_item_is_read(t: model::TodosView)
    requires
        ledger::no_heading(text::lines(ledger::head(t))),
        forall|i: int| 0 <= i < t.items.len() ==> roundtrip::well_shaped(#[trigger] t.items[i]),
        no_blank(t.items),
    ensures
        ({
            let v = parser::parsed(writer::rendered(t), t.company);
            let g = ledger::grouped(t.items);
            &&& v.items.len() == g.len()
            &&& forall|k: int| 0 <= k < g.len() ==> came_from(#[trigger] v.items[k], g[k])
        }),
{
    let ls = writer::levels(t.items);
    let bl = writer::buckets_lines(t.items, ls);
    let hl = text::lines(ledger::head(t));
    ledger::lemma_lines_of_list(t);
    let st = parser::reading_start();
    ledger::lemma_read_lines_concat(st, hl, bl);
    ledger::lemma_read_preamble(st, hl);
    writer::lemma_levels(t.items);
    lemma_lines_of_buckets(parser::read_lines(st, hl), t.items, ls);
}

// ---------------------------------------------------------------------------
// What a file in canonical form holds
// ---------------------------------------------------------------------------

/// A line that begins like the title is no heading.
proof fn lemma_title_line(source: Seq<char>, rest: Seq<char>)
    requires
        source == "# todos — "@ + rest,
    ensures
        text::lines(source).len() > 0,
        !ledger::is_heading(text::lines(source)[0]),
{
    reveal_strlit("# todos — ");
    reveal_strlit("## ");
    text::lemma_find(source, '\n');
    let l = text::lines(source)[0];
    assert(l == text::split_line(source).0);
    assert(l.len() >= 2 && l[1] == ' ') by {
        assert(source[1] == ' ');
        if let Some(i) = text::find(source, '\n') {
            assert(i >= 10) by {
                if i < 10 {
                    assert(source[i] == "# todos — "@[i]);
                }
            }
        }
    }
    text::lemma_trim_end_prefix(l);
    let s = text::trim_end(l);
    if s.len() >= 3 {
        assert(s.take(3)[1] == l[1]);
    }
}

/// The head of a file in canonical form is its preamble, word for word.
proof fn lemma_canonical_head(source: Seq<char>, company: Seq<char>)
    requires
        canonical(source, company),
    ensures
        ({
            let t = parser::parsed(source, company);
            &&& text::lines(ledger::head(t)) == t.preamble
            &&& ledger::no_heading(t.preamble)
            &&& ledger::no_crlf(ledger::head(t))
            &&& text::lines(source) == t.preamble + writer::buckets_lines(
                t.items,
                writer::levels(t.items),
            )
        }),
{
    let t = parser::parsed(source, company);
    let n = t.preamble.len() as int;
    let pl = writer::preamble_lines(company, t.preamble);
    let bl = writer::buckets_lines(t.items, writer::levels(t.items));
    let all = text::lines(source);
    let hl = text::lines(ledger::head(t));
    let cut = |l: Seq<char>| text::chomp(l);
    ledger::law_preamble_is_the_top(source, company);
    ledger::law_items_are_well_shaped(source, company);
    ledger::lemma_lines_one_line(source);
    ledger::lemma_lines_of_list(t);
    writer::lemma_unlines_concat(pl, bl);
    assert(all == hl + bl);
    if n == 0 {
        let more = (company + seq!['\n']) + (writer::unlines(pl.skip(1)) + writer::unlines(bl));
        assert(source =~= "# todos — "@ + more);
        lemma_title_line(source, more);
        assert(false);
    }
    assert forall|i: int| 0 <= i < pl.len() implies roundtrip::one_line(#[trigger] pl[i]) by {
        if i < n {
            assert(pl[i] == t.preamble[i]);
            assert(t.preamble[i] == all[i]);
        }
    }
    ledger::lemma_lines_unlines(pl);
    assert(hl == pl.map_values(cut));
    assert(!writer::needs_gap(t.preamble)) by {
        if writer::needs_gap(t.preamble) {
            reveal_strlit("## ");
            assert(pl[n] == Seq::<char>::empty());
            assert(hl[n] =~= Seq::empty());
            assert(all[n] == hl[n]);
            assert(text::trim_end(hl[n]) =~= Seq::empty());
        }
    }
    assert forall|i: int| 0 <= i < n implies ledger::clean_line(#[trigger] pl[i]) && hl[i]
        == t.preamble[i] by {
        assert(t.preamble[i] == all[i]);
        assert(all[i] == hl[i]);
        assert(hl[i] == text::chomp(pl[i]));
    }
    assert(hl =~= t.preamble);
    ledger::lemma_clean_lines(pl);
}

/// What a file in canonical form holds is storable, its buckets ascend, and
/// its lines end in line feeds alone as far as the preamble goes.
pub proof fn law_canonical_files(source: Seq<char>, company: Seq<char>)
    requires
        canonical(source, company),
    ensures
        ({
            let t = parser::parsed(source, company);
            &&& ledger::storable(t)
            &&& in_order(t.items)
            &&& ledger::no_crlf(ledger::head(t))
        }),
{
    let t = parser::parsed(source, company);
    let ls = writer::levels(t.items);
    let bl = writer::buckets_lines(t.items, ls);
    lemma_canonical_head(source, company);
    ledger::law_items_are_well_shaped(source, company);
    let st = parser::reading_start();
    ledger::lemma_read_lines_concat(st, t.preamble, bl);
    ledger::lemma_read_preamble(st, t.preamble);
    let mid = parser::read_lines(st, t.preamble);
    writer::lemma_levels(t.items);
    lemma_lines_of_buckets(mid, t.items, ls);
    lemma_in_order_grouped(t.items);
    assert forall|i: int| 0 <= i < t.items.len() implies roundtrip::well_shaped(
        #[trigger] t.items[i],
    ) && roundtrip::unambiguous(t.items[i]) by {
        let it = t.items[i];
        assert(came_from(it, it));
        roundtrip::lemma_read_as_itself(it, it.line);
    }
}

} // verus!
