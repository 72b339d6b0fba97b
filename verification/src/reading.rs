//! What is read from a file that was edited by hand: which lines are items,
//! which bucket they are in, and what makes no difference.

use crate::calendar;
use crate::decimal;
use crate::ledger;
use crate::model;
use crate::model::{IdleOkState, ParkState};
use crate::parser;
use crate::roundtrip;
use crate::text;
use vstd::prelude::*;

verus! {

// ---------------------------------------------------------------------------
// Which lines are items
// ---------------------------------------------------------------------------

/// Whether a line has a checkbox, and if so whether that is open. White space
/// before the line and after it plays no part.
pub open spec fn ticked(l: Seq<char>) -> Option<bool> {
    let s = text::trim_start(text::trim_end(l));
    if s.len() < 6 {
        None
    } else if s.take(6) == "- [ ] "@ {
        Some(true)
    } else if s.take(6) == "- [x] "@ || s.take(6) == "- [X] "@ {
        Some(false)
    } else {
        None
    }
}

/// The `h`-th line is the last heading before the `k`-th, which is none.
pub open spec fn under(ls: Seq<Seq<char>>, h: int, k: int) -> bool {
    &&& 0 <= h < k < ls.len()
    &&& ledger::is_heading(ls[h])
    &&& forall|j: int| h < j <= k ==> !ledger::is_heading(#[trigger] ls[j])
}

/// What a heading says after its marks.
pub open spec fn heading_name(l: Seq<char>) -> Seq<char> {
    text::trim(text::trim_end(l).skip(3))
}

/// The same items, but for their line numbers.
pub open spec fn same_but_lines(a: Seq<model::ItemView>, b: Seq<model::ItemView>) -> bool {
    &&& a.len() == b.len()
    &&& forall|i: int|
        0 <= i < a.len() ==> #[trigger] a[i] == (model::ItemView { line: a[i].line, ..b[i] })
}

/// The bucket after `k` lines, by the headings alone.
spec fn level_after(ls: Seq<Seq<char>>, k: int) -> Option<u32>
    decreases k,
{
    if k <= 0 {
        None
    } else if ledger::is_heading(ls[k - 1]) {
        model::read_priority(heading_name(ls[k - 1]))
    } else {
        level_after(ls, k - 1)
    }
}

proof fn lemma_level_under(ls: Seq<Seq<char>>, h: int, k: int)
    requires
        0 <= h < k <= ls.len(),
        ledger::is_heading(ls[h]),
        forall|j: int| h < j < k ==> !ledger::is_heading(#[trigger] ls[j]),
    ensures
        level_after(ls, k) == model::read_priority(heading_name(ls[h])),
    decreases k,
{
    if k - 1 > h {
        assert(!ledger::is_heading(ls[k - 1]));
        lemma_level_under(ls, h, k - 1);
    }
}

/// How far the reading has come after `k` lines.
proof fn lemma_after(ls: Seq<Seq<char>>, k: int)
    requires
        0 <= k <= ls.len(),
    ensures
        ({
            let st = parser::read_lines(parser::reading_start(), ls.take(k));
            &&& st.line == k
            &&& st.level == level_after(ls, k)
            &&& st.in_preamble <==> forall|j: int| 0 <= j < k ==> !ledger::is_heading(#[trigger] ls[j])
            &&& forall|i: int| 0 <= i < st.items.len() ==> (#[trigger] st.items[i]).line <= k
        }),
    decreases k,
{
    if k == 0 {
        assert(ls.take(0) =~= Seq::empty());
    } else {
        lemma_after(ls, k - 1);
        lemma_one_further(ls, k - 1);
        let st = parser::read_lines(parser::reading_start(), ls.take(k - 1));
        let raw = ls[k - 1];
        reveal_strlit("## ");
        if ledger::is_heading(raw) {
            assert(!(forall|j: int| 0 <= j < k ==> !ledger::is_heading(#[trigger] ls[j])));
        } else {
            assert(st.in_preamble <==> forall|j: int|
                0 <= j < k ==> !ledger::is_heading(#[trigger] ls[j])) by {
                if st.in_preamble {
                    assert forall|j: int| 0 <= j < k implies !ledger::is_heading(
                        #[trigger] ls[j],
                    ) by {}
                }
            }
        }
    }
}

/// One line further.
proof fn lemma_one_further(ls: Seq<Seq<char>>, k: int)
    requires
        0 <= k < ls.len(),
    ensures
        parser::read_lines(parser::reading_start(), ls.take(k + 1)) == parser::read_line(
            parser::read_lines(parser::reading_start(), ls.take(k)),
            ls[k],
        ),
{
    let one = seq![ls[k]];
    assert(ls.take(k + 1) =~= ls.take(k) + one);
    ledger::lemma_read_lines_concat(parser::reading_start(), ls.take(k), one);
    let st = parser::read_lines(parser::reading_start(), ls.take(k));
    assert(one.skip(1) =~= Seq::empty());
    assert(parser::read_lines(st, one) == parser::read_line(st, ls[k])) by {
        reveal_with_fuel(parser::read_lines, 2);
    }
}

/// What was read stays, and what comes later stands further down.
proof fn lemma_later(st: parser::Reading, ls: Seq<Seq<char>>)
    ensures
        ({
            let r = parser::read_lines(st, ls);
            &&& st.items.len() <= r.items.len()
            &&& forall|i: int| 0 <= i < st.items.len() ==> #[trigger] r.items[i] == st.items[i]
            &&& forall|i: int|
                st.items.len() <= i < r.items.len() ==> (#[trigger] r.items[i]).line > st.line
        }),
    decreases ls.len(),
{
    if ls.len() > 0 {
        let next = parser::read_line(st, ls[0]);
        lemma_later(next, ls.skip(1));
        let r = parser::read_lines(st, ls);
        assert forall|i: int| 0 <= i < st.items.len() implies #[trigger] r.items[i]
            == st.items[i] by {
            assert(next.items[i] == st.items[i]);
        }
        assert forall|i: int| st.items.len() <= i < r.items.len() implies (
        #[trigger] r.items[i]).line > st.line by {
            if i < next.items.len() {
                assert(r.items[i] == next.items[i]);
            }
        }
    }
}

/// The three steps of reading a file: what is before a line, the line, and
/// what is after it.
proof fn lemma_around(source: Seq<char>, company: Seq<char>, k: int)
    requires
        0 <= k < text::lines(source).len(),
    ensures
        ({
            let ls = text::lines(source);
            let st = parser::read_lines(parser::reading_start(), ls.take(k));
            let next = parser::read_line(st, ls[k]);
            let items = parser::parsed(source, company).items;
            &&& next.items.len() <= items.len()
            &&& forall|i: int| 0 <= i < next.items.len() ==> #[trigger] items[i] == next.items[i]
            &&& forall|i: int|
                next.items.len() <= i < items.len() ==> (#[trigger] items[i]).line > k + 1
            &&& forall|i: int| 0 <= i < st.items.len() ==> (#[trigger] items[i]).line <= k
        }),
{
    let ls = text::lines(source);
    let st = parser::read_lines(parser::reading_start(), ls.take(k));
    let next = parser::read_line(st, ls[k]);
    lemma_after(ls, k);
    lemma_one_further(ls, k);
    assert(ls =~= ls.take(k + 1) + ls.skip(k + 1));
    ledger::lemma_read_lines_concat(parser::reading_start(), ls.take(k + 1), ls.skip(k + 1));
    lemma_later(next, ls.skip(k + 1));
    let items = parser::parsed(source, company).items;
    assert forall|i: int| 0 <= i < st.items.len() implies (#[trigger] items[i]).line <= k by {
        assert(items[i] == next.items[i]);
        assert(next.items[i] == st.items[i]);
    }
}

/// A line after a heading is an item exactly if it has a checkbox and the last
/// heading before it, whatever stands between, names a bucket. There is one
/// item on it then, in that bucket, open or closed as the checkbox is.
pub proof fn law_every_item_line_is_read(source: Seq<char>, company: Seq<char>, h: int, k: int)
    requires
        under(text::lines(source), h, k),
    ensures
        ({
            let ls = text::lines(source);
            let items = parser::parsed(source, company).items;
            match (model::read_priority(heading_name(ls[h])), ticked(ls[k])) {
                (Some(level), Some(open)) => exists|i: int|
                    #![trigger items[i]]
                    0 <= i < items.len() && items[i].line == k + 1 && items[i].priority == level
                        && items[i].open == open && forall|j: int|
                        0 <= j < items.len() && j != i ==> (#[trigger] items[j]).line != k + 1,
                _ => forall|j: int| 0 <= j < items.len() ==> (#[trigger] items[j]).line != k + 1,
            }
        }),
{
    let ls = text::lines(source);
    let items = parser::parsed(source, company).items;
    let st = parser::read_lines(parser::reading_start(), ls.take(k));
    let next = parser::read_line(st, ls[k]);
    lemma_after(ls, k);
    lemma_level_under(ls, h, k);
    lemma_around(source, company, k);
    assert(ledger::is_heading(ls[h]));
    assert(!ledger::is_heading(ls[k]));
    assert(!st.in_preamble);
    reveal_strlit("- [ ] ");
    reveal_strlit("- [x] ");
    reveal_strlit("- [X] ");
    match (model::read_priority(heading_name(ls[h])), ticked(ls[k])) {
        (Some(level), Some(open)) => {
            let i = st.items.len() as int;
            assert(next.items.len() == i + 1);
            assert(items[i] == next.items[i]);
            assert(items[i].line == k + 1 && items[i].priority == level && items[i].open == open);
            assert forall|j: int| 0 <= j < items.len() && j != i implies (#[trigger] items[j]).line
                != k + 1 by {}
        },
        _ => {
            assert(next.items == st.items);
            assert forall|j: int| 0 <= j < items.len() implies (#[trigger] items[j]).line != k
                + 1 by {}
        },
    }
}

/// No heading is an item, and no line before the first heading is.
pub proof fn law_no_item_before_a_heading(source: Seq<char>, company: Seq<char>, k: int, i: int)
    requires
        0 <= k < text::lines(source).len(),
        ledger::is_heading(text::lines(source)[k]) || forall|j: int|
            0 <= j <= k ==> !ledger::is_heading(#[trigger] text::lines(source)[j]),
        0 <= i < parser::parsed(source, company).items.len(),
    ensures
        parser::parsed(source, company).items[i].line != k + 1,
{
    let ls = text::lines(source);
    let st = parser::read_lines(parser::reading_start(), ls.take(k));
    lemma_after(ls, k);
    lemma_around(source, company, k);
    assert(parser::read_line(st, ls[k]).items == st.items);
}

// ---------------------------------------------------------------------------
// What makes no difference
// ---------------------------------------------------------------------------

/// Readings that differ in line numbers only.
spec fn alike(a: parser::Reading, b: parser::Reading) -> bool {
    &&& same_but_lines(a.items, b.items)
    &&& a.level == b.level
    &&& a.in_preamble == b.in_preamble
    &&& a.preamble == b.preamble
}

proof fn lemma_alike(a: parser::Reading, b: parser::Reading, ls: Seq<Seq<char>>)
    requires
        alike(a, b),
    ensures
        alike(parser::read_lines(a, ls), parser::read_lines(b, ls)),
    decreases ls.len(),
{
    if ls.len() > 0 {
        let x = parser::read_line(a, ls[0]);
        let y = parser::read_line(b, ls[0]);
        assert(alike(x, y)) by {
            assert forall|i: int| 0 <= i < x.items.len() implies #[trigger] x.items[i] == (
            model::ItemView { line: x.items[i].line, ..y.items[i] }) by {
                if i < a.items.len() {
                    assert(x.items[i] == a.items[i]);
                }
            }
        }
        lemma_alike(x, y, ls.skip(1));
    }
}

/// A line between items that is no heading and has no checkbox, such as an
/// empty one, makes no difference but to line numbers: neither to what comes
/// before it nor to what comes after, as long as a heading stands above.
pub proof fn law_notes_make_no_difference(
    above: Seq<char>,
    note: Seq<char>,
    below: Seq<char>,
    company: Seq<char>,
)
    requires
        above.len() > 0 && above.last() == '\n',
        !ledger::no_heading(text::lines(above)),
        ledger::clean_line(note),
        !ledger::is_heading(note),
        ticked(note) is None,
    ensures
        same_but_lines(
            parser::parsed(above + (note + seq!['\n']) + below, company).items,
            parser::parsed(above + below, company).items,
        ),
        parser::parsed(above + (note + seq!['\n']) + below, company).preamble == parser::parsed(
            above + below,
            company,
        ).preamble,
{
    let la = text::lines(above);
    let lb = text::lines(below);
    let mid = note + seq!['\n'];
    let one = seq![note];
    let st0 = parser::reading_start();
    assert(text::lines(mid) == one) by {
        text::lemma_find_at(mid, '\n', note.len() as int);
        assert(mid.take(note.len() as int) =~= note);
        assert(mid.skip(note.len() as int + 1) =~= Seq::empty());
        assert(text::lines(mid) =~= seq![note] + text::lines(Seq::<char>::empty()));
    }
    ledger::lemma_lines_concat(above, below);
    ledger::lemma_lines_concat(above, mid);
    assert((above + mid).last() == '\n');
    ledger::lemma_lines_concat(above + mid, below);
    ledger::lemma_read_lines_concat(st0, la, lb);
    ledger::lemma_read_lines_concat(st0, la + one, lb);
    ledger::lemma_read_lines_concat(st0, la, one);
    let st = parser::read_lines(st0, la);
    lemma_after(la, la.len() as int);
    assert(la.take(la.len() as int) =~= la);
    assert(!st.in_preamble) by {
        let i = choose|i: int| 0 <= i < la.len() && ledger::is_heading(#[trigger] la[i]);
        assert(ledger::is_heading(la[i]));
    }
    reveal_strlit("- [ ] ");
    reveal_strlit("- [x] ");
    reveal_strlit("- [X] ");
    let next = parser::read_line(st, note);
    assert(one.skip(1) =~= Seq::empty());
    assert(parser::read_lines(st, one) == next) by {
        reveal_with_fuel(parser::read_lines, 2);
    }
    assert(alike(next, st));
    lemma_alike(next, st, lb);
}

/// What stands under one heading is read without regard to what stands above
/// it: the items of two parts, the second of which begins with a heading, are
/// those of the one and those of the other.
pub proof fn law_sections_are_read_on_their_own(
    above: Seq<char>,
    below: Seq<char>,
    company: Seq<char>,
)
    requires
        above.len() > 0 && above.last() == '\n',
        text::lines(below).len() > 0,
        ledger::is_heading(text::lines(below)[0]),
    ensures
        same_but_lines(
            parser::parsed(above + below, company).items,
            parser::parsed(above, company).items + parser::parsed(below, company).items,
        ),
{
    let la = text::lines(above);
    let lb = text::lines(below);
    let st0 = parser::reading_start();
    ledger::lemma_lines_concat(above, below);
    ledger::lemma_read_lines_concat(st0, la, lb);
    let st = parser::read_lines(st0, la);
    let a = parser::read_line(st, lb[0]);
    let b = parser::read_line(st0, lb[0]);
    lemma_beside(a, b, lb.skip(1));
    let r = parser::read_lines(a, lb.skip(1)).items;
    let q = parser::read_lines(b, lb.skip(1)).items;
    assert(b.items =~= Seq::empty());
    assert(a.items == st.items);
    assert forall|i: int| 0 <= i < r.len() implies #[trigger] r[i] == (model::ItemView {
        line: r[i].line,
        ..(st.items + q)[i]
    }) by {
        if i >= st.items.len() {
            let j = i - st.items.len();
            assert(r[i] == (model::ItemView { line: r[i].line, ..q[j] }));
        }
    }
}

/// Two readings in the same bucket go on alike, whatever they had read.
proof fn lemma_beside(a: parser::Reading, b: parser::Reading, ls: Seq<Seq<char>>)
    requires
        a.level == b.level,
        !a.in_preamble,
        !b.in_preamble,
    ensures
        ({
            let x = parser::read_lines(a, ls).items;
            let y = parser::read_lines(b, ls).items;
            let n = a.items.len() as int;
            let m = b.items.len() as int;
            &&& n <= x.len()
            &&& m <= y.len()
            &&& x.len() - n == y.len() - m
            &&& forall|i: int| 0 <= i < n ==> #[trigger] x[i] == a.items[i]
            &&& forall|i: int|
                n <= i < x.len() ==> #[trigger] x[i] == (model::ItemView {
                    line: x[i].line,
                    ..y[i - n + m]
                })
        }),
    decreases ls.len(),
{
    if ls.len() > 0 {
        let p = parser::read_line(a, ls[0]);
        let q = parser::read_line(b, ls[0]);
        lemma_beside(p, q, ls.skip(1));
        lemma_later(p, ls.skip(1));
        lemma_later(q, ls.skip(1));
        let x = parser::read_lines(a, ls).items;
        let y = parser::read_lines(b, ls).items;
        let n = a.items.len() as int;
        let m = b.items.len() as int;
        assert forall|i: int| 0 <= i < n implies #[trigger] x[i] == a.items[i] by {
            assert(x[i] == p.items[i]);
        }
        assert forall|i: int| n <= i < x.len() implies #[trigger] x[i] == (model::ItemView {
            line: x[i].line,
            ..y[i - n + m]
        }) by {
            if i < p.items.len() {
                assert(x[i] == p.items[i]);
                assert(y[i - n + m] == q.items[i - n + m]);
            }
        }
    }
}

// ---------------------------------------------------------------------------
// What a line says
// ---------------------------------------------------------------------------

/// Blanks.
pub open spec fn blanks(n: nat) -> Seq<char> {
    Seq::new(n, |i: int| ' ')
}

proof fn lemma_blanks_before(n: nat, w: Seq<char>)
    ensures
        text::trim_start(blanks(n) + w) == text::trim_start(w),
    decreases n,
{
    let s = blanks(n) + w;
    if n == 0 {
        assert(s =~= w);
    } else {
        assert(s.skip(1) =~= blanks((n - 1) as nat) + w);
        assert(text::is_space(s[0]));
        lemma_blanks_before((n - 1) as nat, w);
    }
}

proof fn lemma_blanks_after(n: nat, w: Seq<char>)
    ensures
        text::trim_end(w + blanks(n)) == text::trim_end(w),
    decreases n,
{
    let s = w + blanks(n);
    if n == 0 {
        assert(s =~= w);
    } else {
        assert(s.drop_last() =~= w + blanks((n - 1) as nat));
        assert(text::is_space(s.last()));
        lemma_blanks_after((n - 1) as nat, w);
    }
}

/// A heading names a bucket if it is a `P` and digits, and no other; zeros
/// before the number make no difference.
pub proof fn law_bucket_names(s: Seq<char>, level: u32, n: nat)
    ensures
        model::read_priority(seq!['P'] + (decimal::zeros(n) + decimal::decimal(level as nat)))
            == Some(level),
        model::read_priority(s) matches Some(v) ==> s.len() >= 2 && s[0] == 'P'
            && decimal::all_digits(s.skip(1)) && decimal::digits_value(s.skip(1)) == v,
        model::read_priority(s) is None ==> s.len() < 2 || s[0] != 'P' || !decimal::all_digits(
            s.skip(1),
        ) || decimal::digits_value(s.skip(1)) > u32::MAX,
{
    let d = decimal::decimal(level as nat);
    decimal::lemma_decimal_reads_back(level as nat);
    decimal::lemma_zeros_value(n, d);
    let t = seq!['P'] + (decimal::zeros(n) + d);
    assert(t.skip(1) =~= decimal::zeros(n) + d);
}

/// White space around a heading, in front of an item and behind it, makes no
/// difference to which it is.
pub proof fn law_white_space_around_lines(l: Seq<char>, n: nat)
    ensures
        ledger::is_heading(l + blanks(n)) == ledger::is_heading(l),
        heading_name(l + blanks(n)) == heading_name(l),
        ticked(l + blanks(n)) == ticked(l),
        text::trim_end(l).len() > 0 ==> ticked(blanks(n) + l) == ticked(l),
{
    lemma_blanks_after(n, l);
    if text::trim_end(l).len() > 0 {
        let a = text::trim_end(l);
        text::lemma_trim_end_prefix(l);
        let k = a.len() as int;
        let tail = l.skip(k);
        assert(l =~= a + tail);
        assert(blanks(n) + l =~= (blanks(n) + a) + tail);
        text::lemma_trim_end_after(a, tail);
        text::lemma_trim_end_after(blanks(n) + a, tail);
        assert(text::trim_end(tail).len() == 0);
        assert(text::trim_end(blanks(n) + l) =~= blanks(n) + a);
        lemma_blanks_before(n, a);
    }
}

/// A line whose text does not begin with a bracket is an item without id,
/// state and lane: all of the text is its subject, but for a closing
/// annotation.
pub proof fn law_plain_lines(l: Seq<char>, line: nat, level: u32)
    requires
        ticked(l) is Some,
        text::trim_start(text::trim_end(l))[6] != '[',
    ensures
        ({
            let body = text::trim_start(text::trim_end(l)).skip(6);
            parser::read_item(text::trim_end(l), line, Some(level)) matches Some(it) && {
                &&& it.id.len() == 0
                &&& it.priority == level
                &&& Some(it.open) == ticked(l)
                &&& it.line == line
                &&& it.idle_ok == IdleOkState::Unset
                &&& it.park == ParkState::Active
                &&& !it.released
                &&& it.released_ts is None
                &&& it.created_ts is None
                &&& it.first_seen_open is None
                &&& !it.force_real
                &&& it.evidence.len() == 0
                &&& it.lane is None
                &&& it.subject == text::trim(parser::split_closed(body).0)
                &&& it.closed_on == parser::split_closed(body).1
            }
        }),
{
    reveal_strlit("- [ ] ");
    reveal_strlit("- [x] ");
    reveal_strlit("- [X] ");
    reveal_strlit("[lane:");
    let y = text::trim_start(text::trim_end(l));
    let body = y.skip(6);
    if body.len() > 0 {
        assert(body[0] == y[6]);
    }
    roundtrip::lemma_no_bracket(body, 0);
    roundtrip::lemma_no_bracket(body, 1);
    roundtrip::lemma_no_bracket(body, 2);
    roundtrip::lemma_no_bracket(body, 3);
    roundtrip::lemma_no_bracket(body, 4);
    roundtrip::lemma_no_bracket(body, 5);
    roundtrip::lemma_no_bracket(body, 6);
    roundtrip::lemma_no_bracket(body, 7);
    assert(parser::take_field(body, "[#"@) is None) by {
        reveal_strlit("[#");
        if body.len() >= 2 {
            assert(body.take(2)[0] == body[0]);
        }
    }
    assert(text::strip(body, "[lane:"@) is None) by {
        if body.len() >= 6 {
            assert(body.take(6)[0] == body[0]);
        }
    }
}

/// The id stands first; the rest of the line is read as if the id were not
/// there, whatever the white space between.
pub proof fn law_id_comes_first(
    id: Seq<char>,
    n: nat,
    rest: Seq<char>,
    open: bool,
    line: nat,
    level: u32,
)
    requires
        id.len() > 0,
        forall|i: int| 0 <= i < id.len() ==> !text::is_space(#[trigger] id[i]) && id[i] != ']',
        rest.len() > 0 ==> !text::is_space(rest[0]),
        parser::take_id(rest) is None,
    ensures
        parser::read_body("[#"@ + id + seq![']'] + (blanks(n) + rest), open, line, level) == (
        model::ItemView { id, ..parser::read_body(rest, open, line, level) }),
{
    lemma_field_blanks("[#"@, id, n, rest);
    assert(text::trim_start(rest) == rest);
}

/// Brackets that hold nothing, or more than one word, are no id: they stay in
/// the subject.
pub proof fn law_no_id(inner: Seq<char>, rest: Seq<char>, open: bool, line: nat, level: u32)
    requires
        inner.len() == 0 || exists|i: int| 0 <= i < inner.len() && text::is_space(#[trigger] inner[i]),
        roundtrip::free_of(inner, ']'),
    ensures
        ({
            let body = "[#"@ + inner + seq![']'] + rest;
            let it = parser::read_body(body, open, line, level);
            &&& it.id.len() == 0
            &&& it.subject == text::trim(parser::split_closed(body).0)
            &&& it.closed_on == parser::split_closed(body).1
        }),
{
    let body = "[#"@ + inner + seq![']'] + rest;
    lemma_field_blanks("[#"@, inner, 0, rest);
    assert(blanks(0) + rest =~= rest);
    assert(parser::take_id(body) is None);
    reveal_strlit("[#");
    roundtrip::lemma_hash_is_no_state(body);
}

/// A marker with an argument is taken with all the white space behind it.
pub proof fn lemma_field_blanks(opening: Seq<char>, arg: Seq<char>, n: nat, rest: Seq<char>)
    requires
        roundtrip::free_of(arg, ']'),
    ensures
        parser::take_field(opening + arg + seq![']'] + (blanks(n) + rest), opening) == Some(
            (arg, text::trim_start(rest)),
        ),
{
    let s = opening + arg + seq![']'] + (blanks(n) + rest);
    let m = opening.len() as int;
    assert(s.take(m) =~= opening);
    let r = s.skip(m);
    let k = arg.len() as int;
    assert(r =~= arg + seq![']'] + (blanks(n) + rest));
    assert forall|j: int| 0 <= j < k implies r[j] != ']' by {
        assert(r[j] == arg[j]);
    }
    text::lemma_find_at(r, ']', k);
    assert(r.take(k) =~= arg);
    assert(r.skip(k + 1) =~= blanks(n) + rest);
    lemma_blanks_before(n, rest);
}

/// How much white space follows a marker makes no difference.
pub proof fn law_white_space_behind_markers(
    marker: Seq<char>,
    opening: Seq<char>,
    arg: Seq<char>,
    n: nat,
    rest: Seq<char>,
)
    requires
        roundtrip::free_of(arg, ']'),
    ensures
        parser::take_flag(marker + (blanks(n) + rest), marker) == Some(text::trim_start(rest)),
        parser::take_field(opening + arg + seq![']'] + (blanks(n) + rest), opening) == Some(
            (arg, text::trim_start(rest)),
        ),
{
    lemma_field_blanks(opening, arg, n, rest);
    let s = marker + (blanks(n) + rest);
    let m = marker.len() as int;
    assert(s.take(m) =~= marker);
    assert(s.skip(m) =~= blanks(n) + rest);
    lemma_blanks_before(n, rest);
}

/// A closing annotation is `(closed YYYY-MM-DD)` at the very end. It is split
/// off with the white space before it; without one, all of the text stays.
pub proof fn law_closing_annotation(s: Seq<char>, before: Seq<char>, d: Seq<char>, n: nat)
    requires
        calendar::date_shape(d),
    ensures
        parser::split_closed(before + ("(closed "@ + d + ")"@) + blanks(n)) == (
            text::trim_end(before),
            Some(d),
        ),
        match parser::split_closed(s).1 {
            Some(day) => calendar::date_shape(day) && exists|x: Seq<char>| #[trigger]
                text::trim_end(x) == parser::split_closed(s).0 && text::trim_end(s) == x + (
                "(closed "@ + day + ")"@),
            None => parser::split_closed(s).0 == text::trim_end(s),
        },
{
    reveal_strlit("(closed ");
    reveal_strlit("closed ");
    reveal_strlit(")");
    let a = "(closed "@ + d + ")"@;
    let t = before + a;
    let p = before.len() as int;
    lemma_blanks_after(n, t);
    assert(t.last() == ')');
    assert(text::trim_end(t) == t);
    assert(text::rfind(t, '(') == Some(p)) by {
        text::lemma_rfind(t, '(');
        assert(t[p] == '(');
        assert forall|j: int| p < j < t.len() implies t[j] != '(' by {
            let k = j - p;
            assert(t[j] == a[k]);
            if 8 <= k < 18 {
                assert(a[k] == d[k - 8]);
                if k - 8 != 4 && k - 8 != 7 {
                    assert(decimal::is_digit(d[k - 8]));
                }
            }
        }
    }
    let inner = t.subrange(p + 1, t.len() - 1);
    assert(inner =~= "closed "@ + d);
    assert(inner.take(7) =~= "closed "@);
    assert(inner.skip(7) =~= d);
    assert(t.take(p) =~= before);
    if let Some(day) = parser::split_closed(s).1 {
        let u = text::trim_end(s);
        text::lemma_rfind(u, '(');
        let q = text::rfind(u, '(')->0;
        let x = u.take(q);
        let within = u.subrange(q + 1, u.len() - 1);
        assert(day == within.skip(7));
        assert(within =~= within.take(7) + day);
        assert(u =~= x + ("(closed "@ + day + ")"@)) by {
            assert(u =~= x + (seq!['('] + within + seq![')']));
            assert(seq!['('] + within + seq![')'] =~= "(closed "@ + day + ")"@) by {
                assert("(closed "@ =~= seq!['('] + "closed "@);
            }
        }
        assert(text::trim_end(x) == parser::split_closed(s).0);
    }
}

} // verus!
