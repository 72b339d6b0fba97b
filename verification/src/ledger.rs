//! Whole files: what is written is read back, and writing what was read
//! settles after one step.

use crate::calendar;
use crate::decimal;
use crate::model;
use crate::ops;
use crate::parser;
use crate::roundtrip;
use crate::text;
use crate::writer;
use vstd::prelude::*;

verus! {

// ---------------------------------------------------------------------------
// Lines and text
// ---------------------------------------------------------------------------

/// Lines of text that ends in a line feed, followed by more text.
pub proof fn lemma_lines_concat(a: Seq<char>, b: Seq<char>)
    requires
        a.len() == 0 || a.last() == '\n',
    ensures
        text::lines(a + b) == text::lines(a) + text::lines(b),
    decreases a.len(),
{
    if a.len() == 0 {
        assert(a + b =~= b);
        assert(text::lines(a) + text::lines(b) =~= text::lines(b));
    } else {
        text::lemma_find(a, '\n');
        let i = text::find(a, '\n')->0;
        assert(text::find(a, '\n') is Some);
        text::lemma_find_at(a + b, '\n', i);
        assert((a + b).take(i) =~= a.take(i));
        assert((a + b).skip(i + 1) =~= a.skip(i + 1) + b);
        let rest = a.skip(i + 1);
        lemma_lines_concat(rest, b);
        let l = text::chomp(a.take(i));
        assert(seq![l] + (text::lines(rest) + text::lines(b)) =~= (seq![l] + text::lines(rest))
            + text::lines(b));
    }
}

/// A line holds no line feed.
pub proof fn lemma_lines_one_line(s: Seq<char>)
    ensures
        forall|i: int| 0 <= i < text::lines(s).len() ==> roundtrip::one_line(#[trigger] text::lines(s)[i]),
    decreases s.len(),
{
    if s.len() > 0 {
        text::lemma_find(s, '\n');
        let (line, rest) = text::split_line(s);
        lemma_lines_one_line(rest);
        assert(roundtrip::one_line(line));
        assert forall|i: int| 0 <= i < text::lines(s).len() implies roundtrip::one_line(
            #[trigger] text::lines(s)[i],
        ) by {
            if i > 0 {
                assert(text::lines(s)[i] == text::lines(rest)[i - 1]);
            }
        }
    }
}

/// Written lines read back, but for a carriage return at their end.
pub proof fn lemma_lines_unlines(ls: Seq<Seq<char>>)
    requires
        forall|i: int| 0 <= i < ls.len() ==> roundtrip::one_line(#[trigger] ls[i]),
    ensures
        text::lines(writer::unlines(ls)) == ls.map_values(|l: Seq<char>| text::chomp(l)),
    decreases ls.len(),
{
    let cut = |l: Seq<char>| text::chomp(l);
    if ls.len() == 0 {
        assert(ls.map_values(cut) =~= Seq::empty());
    } else {
        let l = ls[0];
        let rest = ls.skip(1);
        assert forall|i: int| 0 <= i < rest.len() implies roundtrip::one_line(#[trigger] rest[i]) by {
            assert(rest[i] == ls[i + 1]);
        }
        lemma_lines_unlines(rest);
        let s = writer::unlines(ls);
        assert(s == (l + seq!['\n']) + writer::unlines(rest));
        text::lemma_find_at(s, '\n', l.len() as int);
        assert(s.take(l.len() as int) =~= l);
        assert(s.skip(l.len() as int + 1) =~= writer::unlines(rest));
        assert(ls.map_values(cut) =~= seq![text::chomp(l)] + rest.map_values(cut));
    }
}

/// No carriage return stands right before a line feed.
pub open spec fn no_crlf(s: Seq<char>) -> bool {
    forall|i: int| 0 <= i < s.len() - 1 ==> !(#[trigger] s[i] == '\r' && s[i + 1] == '\n')
}

/// Text that ends in a line feed, taken apart and put together.
pub proof fn lemma_unlines_lines(s: Seq<char>)
    requires
        s.len() == 0 || s.last() == '\n',
        no_crlf(s),
    ensures
        writer::unlines(text::lines(s)) == s,
    decreases s.len(),
{
    if s.len() > 0 {
        text::lemma_find(s, '\n');
        let i = text::find(s, '\n')->0;
        assert(text::find(s, '\n') is Some);
        let (line, rest) = text::split_line(s);
        assert forall|k: int| 0 <= k < rest.len() - 1 implies !(#[trigger] rest[k] == '\r' && rest[k
            + 1] == '\n') by {
            assert(rest[k] == s[i + 1 + k]);
        }
        lemma_unlines_lines(rest);
        if i > 0 {
            assert(s.take(i).last() == s[i - 1]);
        }
        assert(line =~= s.take(i));
        assert((seq![line] + text::lines(rest)).skip(1) =~= text::lines(rest));
        assert((line + seq!['\n']) + rest =~= s);
    }
}

/// Written lines end in a line feed.
pub(crate) proof fn lemma_unlines_last(ls: Seq<Seq<char>>)
    ensures
        ls.len() > 0 ==> writer::unlines(ls).len() > 0 && writer::unlines(ls).last() == '\n',
    decreases ls.len(),
{
    if ls.len() > 0 {
        lemma_unlines_last(ls.skip(1));
        if ls.len() == 1 {
            assert(writer::unlines(ls.skip(1)) =~= Seq::empty());
        }
    }
}

/// Reading goes on where it stopped.
pub(crate) proof fn lemma_read_lines_concat(st: parser::Reading, a: Seq<Seq<char>>, b: Seq<Seq<char>>)
    ensures
        parser::read_lines(st, a + b) == parser::read_lines(parser::read_lines(st, a), b),
    decreases a.len(),
{
    if a.len() == 0 {
        assert(a + b =~= b);
    } else {
        assert((a + b).skip(1) =~= a.skip(1) + b);
        lemma_read_lines_concat(parser::read_line(st, a[0]), a.skip(1), b);
    }
}

// ---------------------------------------------------------------------------
// Which lists read back
// ---------------------------------------------------------------------------

/// A line that ends the preamble.
pub open spec fn is_heading(l: Seq<char>) -> bool {
    text::strip(text::trim_end(l), "## "@) is Some
}

/// No line among them ends the preamble.
pub open spec fn no_heading(ls: Seq<Seq<char>>) -> bool {
    forall|i: int| 0 <= i < ls.len() ==> !is_heading(#[trigger] ls[i])
}

/// What is written before the first bucket.
pub open spec fn head(t: model::TodosView) -> Seq<char> {
    writer::unlines(writer::preamble_lines(t.company, t.preamble))
}

/// Every item reads back from its line and no line before the first bucket
/// is taken for a heading.
pub open spec fn storable(t: model::TodosView) -> bool {
    &&& no_heading(text::lines(head(t)))
    &&& forall|i: int|
        0 <= i < t.items.len() ==> roundtrip::well_shaped(#[trigger] t.items[i])
            && roundtrip::unambiguous(t.items[i])
}

/// The items of the given levels, bucket by bucket.
pub open spec fn grouped_by(items: Seq<model::ItemView>, ls: Seq<u32>) -> Seq<model::ItemView>
    decreases ls.len(),
{
    if ls.len() == 0 {
        Seq::empty()
    } else {
        model::bucket(items, ls[0], false) + grouped_by(items, ls.skip(1))
    }
}

/// The items bucket by bucket, the buckets ascending, each in the order of
/// the list.
pub open spec fn grouped(items: Seq<model::ItemView>) -> Seq<model::ItemView> {
    grouped_by(items, writer::levels(items))
}

/// The items `a` are the items `b` as their lines have them.
pub open spec fn read_as(a: Seq<model::ItemView>, b: Seq<model::ItemView>) -> bool {
    &&& a.len() == b.len()
    &&& forall|i: int|
        0 <= i < a.len() ==> #[trigger] a[i] == (model::ItemView {
            line: a[i].line,
            ..roundtrip::stored(b[i])
        })
}

// ---------------------------------------------------------------------------
// Reading what was written
// ---------------------------------------------------------------------------

pub(crate) proof fn lemma_read_preamble(st: parser::Reading, ls: Seq<Seq<char>>)
    requires
        st.in_preamble,
        no_heading(ls),
    ensures
        parser::read_lines(st, ls) == (parser::Reading {
            preamble: st.preamble + ls,
            line: st.line + ls.len(),
            ..st
        }),
    decreases ls.len(),
{
    if ls.len() == 0 {
        assert(st.preamble + ls =~= st.preamble);
    } else {
        let rest = ls.skip(1);
        assert(!is_heading(ls[0]));
        let next = parser::read_line(st, ls[0]);
        assert forall|i: int| 0 <= i < rest.len() implies !is_heading(#[trigger] rest[i]) by {
            assert(rest[i] == ls[i + 1]);
        }
        lemma_read_preamble(next, rest);
        assert(next.preamble + rest =~= st.preamble + ls);
    }
}

pub(crate) proof fn lemma_read_heading(st: parser::Reading, level: u32)
    ensures
        parser::read_line(st, "## "@ + model::priority_text(level)) == (parser::Reading {
            level: Some(level),
            in_preamble: false,
            line: st.line + 1,
            ..st
        }),
{
    reveal_strlit("## ");
    let p = model::priority_text(level);
    let l = "## "@ + p;
    model::lemma_priority_reads_back(level);
    lemma_decimal_last(level as nat);
    assert(p.last() == decimal::decimal(level as nat).last());
    assert(l.last() == p.last());
    assert(text::trim_end(l) == l);
    assert(l.take(3) =~= "## "@);
    assert(l.skip(3) =~= p);
    assert(text::trim_end(p) == p);
    assert(p[0] == 'P');
    assert(text::trim(p) == p);
}

/// A number ends in a digit.
proof fn lemma_decimal_last(n: nat)
    ensures
        decimal::decimal(n).len() > 0,
        !text::is_space(decimal::decimal(n).last()),
        roundtrip::one_line(decimal::decimal(n)),
    decreases n,
{
    if n >= 10 {
        lemma_decimal_last(n / 10);
    }
    let d = decimal::digit(n % 10);
    assert(decimal::decimal(n).last() == d);
    assert(d as u32 >= 0x30 && d as u32 <= 0x39);
}

/// The line of an item fits on one line and ends in no carriage return.
pub(crate) proof fn lemma_item_line(it: model::ItemView)
    requires
        roundtrip::well_shaped(it),
    ensures
        roundtrip::one_line(writer::item_text(it)),
        text::chomp(writer::item_text(it)) == writer::item_text(it),
        writer::item_text(it).len() > 0,
        writer::item_text(it)[0] == '-',
{
    reveal_strlit("- [ ] ");
    reveal_strlit("- [x] ");
    reveal_strlit("] ");
    reveal_strlit("[#");
    reveal_strlit("[idle-ok-suggest] ");
    reveal_strlit("[idle-ok] ");
    reveal_strlit("[park-suggest] ");
    reveal_strlit("[parked] ");
    reveal_strlit("[released ");
    reveal_strlit("[created ");
    reveal_strlit("[fseen ");
    reveal_strlit("[real] ");
    reveal_strlit(" (closed ");
    reveal_strlit(")");
    lemma_evidence_line(it.evidence);
    let tail = writer::tail_text(it);
    let closed = writer::closed_text(it.closed_on);
    if let Some(d) = it.closed_on {
        calendar::lemma_date_shape(d);
    }
    assert(clean_line(closed));
    assert(clean_line(tail)) by {
        if closed.len() > 0 {
            assert(tail.last() == closed.last());
        } else {
            assert(tail =~= it.subject);
            text::lemma_trim_end_prefix(it.subject);
            text::lemma_trim(it.subject);
        }
    }
    let t7 = writer::evidence_text(it.evidence) + tail;
    lemma_clean_concat(writer::evidence_text(it.evidence), tail);
    let t6 = writer::real_text(it.force_real) + t7;
    lemma_clean_concat(writer::real_text(it.force_real), t7);
    let s5 = writer::field_text("[fseen "@, it.first_seen_open);
    assert(clean_line(s5));
    let t5 = s5 + t6;
    lemma_clean_concat(s5, t6);
    let s4 = writer::field_text("[created "@, it.created_ts);
    assert(clean_line(s4));
    let t4 = s4 + t5;
    lemma_clean_concat(s4, t5);
    let s3 = writer::released_text(it.released, it.released_ts);
    assert(clean_line(s3));
    let t3 = s3 + t4;
    lemma_clean_concat(s3, t4);
    let t2 = writer::park_text(it.park) + t3;
    lemma_clean_concat(writer::park_text(it.park), t3);
    let t1 = writer::idle_text(it.idle_ok) + t2;
    lemma_clean_concat(writer::idle_text(it.idle_ok), t2);
    let t0 = writer::id_text(it.id) + t1;
    lemma_clean_concat(writer::id_text(it.id), t1);
    lemma_clean_concat(writer::checkbox_text(it.open), t0);
}

/// Text on one line that does not end in a carriage return.
pub open spec fn clean_line(s: Seq<char>) -> bool {
    &&& roundtrip::one_line(s)
    &&& s.len() > 0 ==> s.last() != '\r'
}

proof fn lemma_clean_concat(a: Seq<char>, b: Seq<char>)
    requires
        clean_line(a),
        clean_line(b),
    ensures
        clean_line(a + b),
{
    if b.len() > 0 {
        assert((a + b).last() == b.last());
    } else {
        assert(a + b =~= a);
    }
}

proof fn lemma_evidence_line(refs: Seq<Seq<char>>)
    requires
        forall|i: int| 0 <= i < refs.len() ==> roundtrip::marker_arg(#[trigger] refs[i]),
    ensures
        clean_line(writer::evidence_text(refs)),
    decreases refs.len(),
{
    reveal_strlit("[ev ");
    reveal_strlit("] ");
    if refs.len() > 0 {
        let rest = refs.skip(1);
        assert forall|i: int| 0 <= i < rest.len() implies roundtrip::marker_arg(
            #[trigger] rest[i],
        ) by {
            assert(rest[i] == refs[i + 1]);
        }
        lemma_evidence_line(rest);
        assert(roundtrip::marker_arg(refs[0]));
        lemma_clean_concat(writer::field_text("[ev "@, Some(refs[0])), writer::evidence_text(rest));
    }
}

/// The lines of a bucket's items give them back.
#[verifier::rlimit(30)]
proof fn lemma_read_items(
    st: parser::Reading,
    items: Seq<model::ItemView>,
    level: u32,
    before: Seq<model::ItemView>,
)
    requires
        !st.in_preamble,
        st.level == Some(level),
        read_as(st.items, before),
        forall|i: int|
            0 <= i < items.len() ==> roundtrip::well_shaped(#[trigger] items[i])
                && roundtrip::unambiguous(items[i]) && items[i].priority == level,
    ensures
        ({
            let r = parser::read_lines(st, writer::item_lines(items));
            &&& r.preamble == st.preamble
            &&& !r.in_preamble
            &&& r.level == st.level
            &&& read_as(r.items, before + items)
        }),
    decreases items.len(),
{
    let ls = writer::item_lines(items);
    if items.len() == 0 {
        assert(before + items =~= before);
    } else {
        let it = items[0];
        let rest = items.skip(1);
        assert(roundtrip::well_shaped(it));
        lemma_item_line(it);
        roundtrip::law_item_reads_back(it, st.line + 1);
        reveal_strlit("## ");
        text::lemma_trim_end_prefix(ls[0]);
        assert(ls[0] == writer::item_text(it));
        assert(!is_heading(ls[0])) by {
            let s = text::trim_end(ls[0]);
            if s.len() >= 3 {
                assert(s.take(3)[0] == '-');
            }
        }
        let next = parser::read_line(st, ls[0]);
        let got = model::ItemView { line: st.line + 1, ..roundtrip::stored(it) };
        assert(next.items == st.items.push(got));
        assert(ls.skip(1) =~= writer::item_lines(rest));
        assert(read_as(next.items, before.push(it)));
        assert forall|i: int| 0 <= i < rest.len() implies roundtrip::well_shaped(#[trigger] rest[i])
            && roundtrip::unambiguous(rest[i]) && rest[i].priority == level by {
            assert(rest[i] == items[i + 1]);
        }
        lemma_read_items(next, rest, level, before.push(it));
        assert(before.push(it) + rest =~= before + items);
    }
}

/// The lines of one bucket.
proof fn lemma_read_bucket(
    st: parser::Reading,
    items: Seq<model::ItemView>,
    level: u32,
    before: Seq<model::ItemView>,
)
    requires
        read_as(st.items, before),
        forall|i: int|
            0 <= i < items.len() ==> roundtrip::well_shaped(#[trigger] items[i])
                && roundtrip::unambiguous(items[i]) && items[i].priority == level,
    ensures
        ({
            let r = parser::read_lines(st, writer::bucket_lines(level, items));
            &&& r.preamble == st.preamble
            &&& read_as(r.items, before + items)
        }),
{
    let h = seq!["## "@ + model::priority_text(level)];
    let m = writer::item_lines(items);
    let e = seq![Seq::<char>::empty()];
    lemma_read_lines_concat(st, h + m, e);
    lemma_read_lines_concat(st, h, m);
    lemma_read_heading(st, level);
    assert(h.skip(1) =~= Seq::empty());
    let s1 = parser::read_line(st, h[0]);
    assert(parser::read_lines(st, h) == s1) by {
        reveal_with_fuel(parser::read_lines, 2);
    }
    lemma_read_items(s1, items, level, before);
    let s2 = parser::read_lines(s1, m);
    assert(e.skip(1) =~= Seq::empty());
    reveal_strlit("## ");
    reveal_strlit("- [ ] ");
    reveal_strlit("- [x] ");
    reveal_strlit("- [X] ");
    let s3 = parser::read_line(s2, e[0]);
    assert(text::trim_end(e[0]) =~= Seq::empty());
    assert(text::trim_start(Seq::<char>::empty()) =~= Seq::empty());
    assert(s3.items == s2.items);
    assert(parser::read_lines(s2, e) == s3) by {
        reveal_with_fuel(parser::read_lines, 2);
    }
}

/// A bucket holds items of its level that are in the list.
pub(crate) proof fn lemma_bucket(items: Seq<model::ItemView>, level: u32)
    ensures
        forall|i: int|
            #![trigger model::bucket(items, level, false)[i]]
            0 <= i < model::bucket(items, level, false).len() ==> {
                &&& model::bucket(items, level, false)[i].priority == level
                &&& items.contains(model::bucket(items, level, false)[i])
            },
    decreases items.len(),
{
    reveal(Seq::filter);
    let b = model::bucket(items, level, false);
    if items.len() > 0 {
        let t = items.drop_last();
        lemma_bucket(t, level);
        let bt = model::bucket(t, level, false);
        assert forall|i: int| 0 <= i < b.len() implies (#[trigger] b[i]).priority == level
            && items.contains(b[i]) by {
            if i < bt.len() {
                assert(b[i] == bt[i]);
                let k = choose|k: int| 0 <= k < t.len() && t[k] == bt[i];
                assert(items[k] == b[i]);
            } else {
                assert(b[i] == items[items.len() - 1]);
            }
        }
    }
}

/// The lines of all buckets.
proof fn lemma_read_buckets(
    st: parser::Reading,
    items: Seq<model::ItemView>,
    ls: Seq<u32>,
    before: Seq<model::ItemView>,
)
    requires
        read_as(st.items, before),
        forall|i: int|
            0 <= i < items.len() ==> roundtrip::well_shaped(#[trigger] items[i])
                && roundtrip::unambiguous(items[i]),
    ensures
        ({
            let r = parser::read_lines(st, writer::buckets_lines(items, ls));
            &&& r.preamble == st.preamble
            &&& read_as(r.items, before + grouped_by(items, ls))
        }),
    decreases ls.len(),
{
    if ls.len() == 0 {
        assert(before + grouped_by(items, ls) =~= before);
    } else {
        let b = model::bucket(items, ls[0], false);
        lemma_bucket(items, ls[0]);
        assert forall|i: int| 0 <= i < b.len() implies roundtrip::well_shaped(#[trigger] b[i])
            && roundtrip::unambiguous(b[i]) && b[i].priority == ls[0] by {
            let k = choose|k: int| 0 <= k < items.len() && items[k] == b[i];
            assert(roundtrip::well_shaped(items[k]));
        }
        lemma_read_bucket(st, b, ls[0], before);
        let first = writer::bucket_lines(ls[0], b);
        let more = writer::buckets_lines(items, ls.skip(1));
        lemma_read_lines_concat(st, first, more);
        lemma_read_buckets(parser::read_lines(st, first), items, ls.skip(1), before + b);
        assert((before + b) + grouped_by(items, ls.skip(1)) =~= before + grouped_by(items, ls));
    }
}

/// The lines of the buckets read back as lines.
pub(crate) proof fn lemma_buckets_lines(items: Seq<model::ItemView>, ls: Seq<u32>)
    requires
        forall|i: int| 0 <= i < items.len() ==> roundtrip::well_shaped(#[trigger] items[i]),
    ensures
        forall|i: int|
            0 <= i < writer::buckets_lines(items, ls).len() ==> clean_line(
                #[trigger] writer::buckets_lines(items, ls)[i],
            ),
    decreases ls.len(),
{
    if ls.len() > 0 {
        let b = model::bucket(items, ls[0], false);
        lemma_bucket(items, ls[0]);
        lemma_buckets_lines(items, ls.skip(1));
        let first = writer::bucket_lines(ls[0], b);
        let more = writer::buckets_lines(items, ls.skip(1));
        let h = "## "@ + model::priority_text(ls[0]);
        assert(clean_line(h)) by {
            reveal_strlit("## ");
            lemma_decimal_last(ls[0] as nat);
            let d = decimal::decimal(ls[0] as nat);
            assert(h.last() == d.last());
            assert(h =~= "## P"@ + d) by {
                reveal_strlit("## P");
            }
            reveal_strlit("## P");
        }
        assert forall|i: int| 0 <= i < first.len() implies clean_line(#[trigger] first[i]) by {
            if 0 < i <= b.len() {
                let it = b[i - 1];
                assert(first[i] == writer::item_text(it));
                let k = choose|k: int| 0 <= k < items.len() && items[k] == it;
                assert(roundtrip::well_shaped(items[k]));
                lemma_item_line(it);
            }
        }
    }
}

/// The lines of a list of well-shaped items: those of the head and those of
/// the buckets.
pub(crate) proof fn lemma_lines_of_list(t: model::TodosView)
    requires
        forall|i: int| 0 <= i < t.items.len() ==> roundtrip::well_shaped(#[trigger] t.items[i]),
    ensures
        text::lines(writer::rendered(t)) == text::lines(head(t)) + writer::buckets_lines(
            t.items,
            writer::levels(t.items),
        ),
{
    let pl = writer::preamble_lines(t.company, t.preamble);
    let bl = writer::buckets_lines(t.items, writer::levels(t.items));
    writer::lemma_unlines_concat(pl, bl);
    lemma_unlines_last(pl);
    lemma_lines_concat(head(t), writer::unlines(bl));
    lemma_buckets_lines(t.items, writer::levels(t.items));
    lemma_lines_unlines(bl);
    assert(bl.map_values(|l: Seq<char>| text::chomp(l)) =~= bl) by {
        assert forall|i: int| 0 <= i < bl.len() implies text::chomp(#[trigger] bl[i]) == bl[i] by {
            assert(clean_line(bl[i]));
        }
    }
}

/// A storable list, written and read again, has the same items, bucket by
/// bucket in ascending order, and the preamble that was written.
pub proof fn law_file_reads_back(t: model::TodosView)
    requires
        storable(t),
    ensures
        ({
            let u = parser::parsed(writer::rendered(t), t.company);
            &&& read_as(u.items, grouped(t.items))
            &&& u.preamble == text::lines(head(t))
            &&& u.company == t.company
        }),
{
    let ls = writer::levels(t.items);
    let bl = writer::buckets_lines(t.items, ls);
    lemma_lines_of_list(t);
    let st = parser::reading_start();
    let hl = text::lines(head(t));
    lemma_read_lines_concat(st, hl, bl);
    lemma_read_preamble(st, hl);
    let mid = parser::read_lines(st, hl);
    assert(mid.preamble =~= hl);
    lemma_read_buckets(mid, t.items, ls, Seq::empty());
    assert(Seq::<model::ItemView>::empty() + grouped(t.items) =~= grouped(t.items));
}

// ---------------------------------------------------------------------------
// Writing what was read
// ---------------------------------------------------------------------------

/// The same items, but for what is not written: their line numbers and parsed
/// lanes.
pub open spec fn same_written(a: Seq<model::ItemView>, b: Seq<model::ItemView>) -> bool {
    &&& a.len() == b.len()
    &&& forall|i: int|
        0 <= i < a.len() ==> #[trigger] a[i] == (model::ItemView {
            line: a[i].line,
            lane: a[i].lane,
            ..b[i]
        })
}

/// Line numbers and parsed lanes play no part in what is written.
pub(crate) proof fn lemma_same_written(a: Seq<model::ItemView>, b: Seq<model::ItemView>)
    requires
        same_written(a, b),
    ensures
        writer::levels(a) == writer::levels(b),
        writer::item_lines(a) == writer::item_lines(b),
        forall|p: u32| #[trigger]
            same_written(model::bucket(a, p, false), model::bucket(b, p, false)),
    decreases a.len(),
{
    reveal(Seq::filter);
    assert forall|i: int| 0 <= i < a.len() implies writer::item_text(#[trigger] a[i])
        == writer::item_text(b[i]) by {
        assert(a[i] == (model::ItemView { line: a[i].line, lane: a[i].lane, ..b[i] }));
    }
    assert(writer::item_lines(a) =~= writer::item_lines(b));
    if a.len() > 0 {
        let n = a.len() - 1;
        let x = a.drop_last();
        let y = b.drop_last();
        assert forall|i: int| 0 <= i < x.len() implies #[trigger] x[i] == (model::ItemView {
            line: x[i].line,
            lane: x[i].lane,
            ..y[i]
        }) by {
            assert(a[i] == (model::ItemView { line: a[i].line, lane: a[i].lane, ..b[i] }));
        }
        lemma_same_written(x, y);
        assert(a[n] == (model::ItemView { line: a[n].line, lane: a[n].lane, ..b[n] }));
        assert forall|p: u32| #[trigger]
            same_written(model::bucket(a, p, false), model::bucket(b, p, false)) by {
            assert(same_written(model::bucket(x, p, false), model::bucket(y, p, false)));
            if b[n].priority == p {
                assert(model::bucket(a, p, false) == model::bucket(x, p, false).push(a[n]));
                assert(model::bucket(b, p, false) == model::bucket(y, p, false).push(b[n]));
            } else {
                assert(model::bucket(a, p, false) == model::bucket(x, p, false));
                assert(model::bucket(b, p, false) == model::bucket(y, p, false));
            }
        }
    }
}

pub(crate) proof fn lemma_same_buckets_lines(
    a: Seq<model::ItemView>,
    b: Seq<model::ItemView>,
    ls: Seq<u32>,
)
    requires
        forall|i: int|
            0 <= i < ls.len() ==> same_written(
                model::bucket(a, #[trigger] ls[i], false),
                model::bucket(b, ls[i], false),
            ),
    ensures
        writer::buckets_lines(a, ls) == writer::buckets_lines(b, ls),
    decreases ls.len(),
{
    if ls.len() > 0 {
        let p = ls[0];
        lemma_same_written(model::bucket(a, p, false), model::bucket(b, p, false));
        let rest = ls.skip(1);
        assert forall|i: int| 0 <= i < rest.len() implies same_written(
            model::bucket(a, #[trigger] rest[i], false),
            model::bucket(b, rest[i], false),
        ) by {
            assert(rest[i] == ls[i + 1]);
        }
        lemma_same_buckets_lines(a, b, rest);
    }
}

/// A bucket of a bucket.
proof fn lemma_bucket_twice(items: Seq<model::ItemView>, p: u32, q: u32)
    ensures
        model::bucket(model::bucket(items, p, false), q, false) == if p == q {
            model::bucket(items, p, false)
        } else {
            Seq::empty()
        },
    decreases items.len(),
{
    reveal(Seq::filter);
    if items.len() > 0 {
        let t = items.drop_last();
        lemma_bucket_twice(t, p, q);
        let x = items.last();
        let b = model::bucket(t, p, false);
        if x.priority == p {
            assert(model::bucket(items, p, false) == b.push(x));
            assert(b.push(x).drop_last() =~= b);
        }
    }
}

/// Two lists in a row, bucket by bucket.
proof fn lemma_bucket_concat(a: Seq<model::ItemView>, b: Seq<model::ItemView>, p: u32)
    ensures
        model::bucket(a + b, p, false) == model::bucket(a, p, false) + model::bucket(b, p, false),
{
    Seq::filter_distributes_over_add(
        a,
        b,
        |i: model::ItemView| i.priority == p && (!false || i.open),
    );
}

/// Grouping keeps every bucket as it was.
pub(crate) proof fn lemma_bucket_grouped(items: Seq<model::ItemView>, ls: Seq<u32>, p: u32)
    requires
        writer::ascending(ls),
    ensures
        model::bucket(grouped_by(items, ls), p, false) == if ls.contains(p) {
            model::bucket(items, p, false)
        } else {
            Seq::empty()
        },
    decreases ls.len(),
{
    if ls.len() == 0 {
        reveal(Seq::filter);
    } else {
        let rest = ls.skip(1);
        assert forall|i: int, j: int| 0 <= i < j < rest.len() implies #[trigger] rest[i]
            < #[trigger] rest[j] by {
            assert(rest[i] == ls[i + 1] && rest[j] == ls[j + 1]);
        }
        let b = model::bucket(items, ls[0], false);
        let g = grouped_by(items, rest);
        lemma_bucket_concat(b, g, p);
        lemma_bucket_twice(items, ls[0], p);
        lemma_bucket_grouped(items, rest, p);
        if p == ls[0] {
            assert(!rest.contains(p)) by {
                if rest.contains(p) {
                    let k = choose|k: int| 0 <= k < rest.len() && rest[k] == p;
                    assert(ls[k + 1] == p);
                    assert(ls[0] < ls[k + 1]);
                }
            }
            assert(b + Seq::empty() =~= b);
        } else {
            assert(ls.contains(p) == rest.contains(p)) by {
                if ls.contains(p) {
                    let k = choose|k: int| 0 <= k < ls.len() && ls[k] == p;
                    assert(rest[k - 1] == p);
                }
                if rest.contains(p) {
                    let k = choose|k: int| 0 <= k < rest.len() && rest[k] == p;
                    assert(ls[k + 1] == p);
                }
            }
            let r = model::bucket(g, p, false);
            assert(Seq::<model::ItemView>::empty() + r =~= r);
        }
    }
}

/// A level occurs exactly if its bucket is not empty.
pub(crate) proof fn lemma_occurs(items: Seq<model::ItemView>, p: u32)
    ensures
        writer::levels(items).contains(p) <==> model::bucket(items, p, false).len() > 0,
    decreases items.len(),
{
    reveal(Seq::filter);
    if items.len() > 0 {
        let t = items.drop_last();
        lemma_occurs(t, p);
        writer::lemma_levels(t);
        writer::lemma_insert_level(writer::levels(t), items.last().priority);
        let r = writer::levels(items);
        assert(r.contains(p) <==> (writer::levels(t).contains(p) || p == items.last().priority));
    }
}

/// Ascending levels are fixed by which they are.
proof fn lemma_ascending_unique(a: Seq<u32>, b: Seq<u32>)
    requires
        writer::ascending(a),
        writer::ascending(b),
        forall|x: u32| #[trigger] a.contains(x) <==> b.contains(x),
    ensures
        a == b,
    decreases a.len(),
{
    if a.len() == 0 {
        if b.len() > 0 {
            assert(b.contains(b[0]));
            assert(a.contains(b[0]));
        }
        assert(a =~= b);
    } else {
        assert(a.contains(a[0]));
        let i = choose|i: int| 0 <= i < b.len() && b[i] == a[0];
        assert(b.contains(b[0]));
        assert(a.contains(b[0]));
        let j = choose|j: int| 0 <= j < a.len() && a[j] == b[0];
        assert(a[0] == b[0]) by {
            if i > 0 && j > 0 {
                assert(b[0] < b[i]);
                assert(a[0] < a[j]);
            }
        }
        let x = a.skip(1);
        let y = b.skip(1);
        assert forall|m: int, n: int| 0 <= m < n < x.len() implies #[trigger] x[m]
            < #[trigger] x[n] by {
            assert(x[m] == a[m + 1] && x[n] == a[n + 1]);
        }
        assert forall|m: int, n: int| 0 <= m < n < y.len() implies #[trigger] y[m]
            < #[trigger] y[n] by {
            assert(y[m] == b[m + 1] && y[n] == b[n + 1]);
        }
        assert forall|z: u32| #[trigger] x.contains(z) <==> y.contains(z) by {
            lemma_tail_contains(a, z);
            lemma_tail_contains(b, z);
            assert(a.contains(z) <==> b.contains(z));
        }
        lemma_ascending_unique(x, y);
        assert(a =~= seq![a[0]] + x);
        assert(b =~= seq![b[0]] + y);
    }
}

proof fn lemma_tail_contains(a: Seq<u32>, z: u32)
    requires
        writer::ascending(a),
        a.len() > 0,
    ensures
        a.skip(1).contains(z) <==> a.contains(z) && z != a[0],
{
    let x = a.skip(1);
    if x.contains(z) {
        let k = choose|k: int| 0 <= k < x.len() && x[k] == z;
        assert(a[k + 1] == z);
        assert(a[0] < a[k + 1]);
    }
    if a.contains(z) && z != a[0] {
        let k = choose|k: int| 0 <= k < a.len() && a[k] == z;
        assert(x[k - 1] == z);
    }
}

/// Grouping changes nothing about what is written.
proof fn lemma_grouped_written(items: Seq<model::ItemView>)
    ensures
        writer::levels(grouped(items)) == writer::levels(items),
        writer::buckets_lines(grouped(items), writer::levels(items)) == writer::buckets_lines(
            items,
            writer::levels(items),
        ),
{
    let ls = writer::levels(items);
    let g = grouped(items);
    writer::lemma_levels(items);
    writer::lemma_levels(g);
    assert forall|p: u32| #[trigger] writer::levels(g).contains(p) <==> ls.contains(p) by {
        lemma_bucket_grouped(items, ls, p);
        lemma_occurs(items, p);
        lemma_occurs(g, p);
        if !ls.contains(p) {
            assert(model::bucket(g, p, false).len() == 0);
        }
    }
    lemma_ascending_unique(writer::levels(g), ls);
    assert forall|i: int| 0 <= i < ls.len() implies same_written(
        model::bucket(g, #[trigger] ls[i], false),
        model::bucket(items, ls[i], false),
    ) by {
        lemma_bucket_grouped(items, ls, ls[i]);
        assert(ls.contains(ls[i]));
    }
    lemma_same_buckets_lines(g, items, ls);
}

/// Grouping drops no item: returns the place of the `i`-th.
pub proof fn lemma_grouped_contains(items: Seq<model::ItemView>, i: int) -> (k: int)
    requires
        0 <= i < items.len(),
    ensures
        0 <= k < grouped(items).len(),
        grouped(items)[k] == items[i],
{
    let p = items[i].priority;
    let ls = writer::levels(items);
    writer::lemma_levels(items);
    assert(ls.contains(p));
    let b = model::bucket(items, p, false);
    let keep = |i: model::ItemView| i.priority == p && (!false || i.open);
    assert(keep(items[i]));
    items.lemma_filter_contains(keep, i);
    assert(b.contains(items[i]));
    let m = choose|m: int| 0 <= m < b.len() && b[m] == items[i];
    lemma_grouped_place(items, ls, p, m)
}

proof fn lemma_grouped_place(items: Seq<model::ItemView>, ls: Seq<u32>, p: u32, m: int) -> (k: int)
    requires
        ls.contains(p),
        0 <= m < model::bucket(items, p, false).len(),
    ensures
        0 <= k < grouped_by(items, ls).len(),
        grouped_by(items, ls)[k] == model::bucket(items, p, false)[m],
    decreases ls.len(),
{
    let b = model::bucket(items, ls[0], false);
    if ls[0] == p {
        m
    } else {
        let i = choose|i: int| 0 <= i < ls.len() && ls[i] == p;
        assert(ls.skip(1)[i - 1] == p);
        let k = lemma_grouped_place(items, ls.skip(1), p, m);
        b.len() + k
    }
}

/// Grouping invents no item: returns the place that the `k`-th came from.
pub proof fn lemma_grouped_from(items: Seq<model::ItemView>, k: int) -> (i: int)
    requires
        0 <= k < grouped(items).len(),
    ensures
        0 <= i < items.len(),
        items[i] == grouped(items)[k],
{
    lemma_grouped_source(items, writer::levels(items), k)
}

proof fn lemma_grouped_source(items: Seq<model::ItemView>, ls: Seq<u32>, k: int) -> (i: int)
    requires
        0 <= k < grouped_by(items, ls).len(),
    ensures
        0 <= i < items.len(),
        items[i] == grouped_by(items, ls)[k],
    decreases ls.len(),
{
    let b = model::bucket(items, ls[0], false);
    lemma_bucket(items, ls[0]);
    if k < b.len() {
        assert(items.contains(b[k]));
        choose|i: int| 0 <= i < items.len() && items[i] == b[k]
    } else {
        lemma_grouped_source(items, ls.skip(1), k - b.len())
    }
}

/// Grouping keeps the number of items.
pub proof fn lemma_grouped_len(items: Seq<model::ItemView>)
    ensures
        grouped(items).len() == items.len(),
{
    lemma_grouped_count(items, |it: model::ItemView| true);
    lemma_count_all(items);
    lemma_count_all(grouped(items));
}

proof fn lemma_count_all(items: Seq<model::ItemView>)
    ensures
        ops::count(items, |it: model::ItemView| true) == items.len(),
    decreases items.len(),
{
    reveal(Seq::filter);
    if items.len() > 0 {
        lemma_count_all(items.drop_last());
    }
}

/// Grouping keeps the number of items with a property.
pub proof fn lemma_grouped_count(
    items: Seq<model::ItemView>,
    p: spec_fn(model::ItemView) -> bool,
)
    ensures
        ops::count(grouped(items), p) == ops::count(items, p),
{
    writer::lemma_levels(items);
    assert forall|i: int| 0 <= i < items.len() implies writer::levels(items).contains(
        (#[trigger] items[i]).priority,
    ) by {}
    lemma_grouped_by_count(items, writer::levels(items), p);
}

proof fn lemma_grouped_by_count(
    items: Seq<model::ItemView>,
    ls: Seq<u32>,
    p: spec_fn(model::ItemView) -> bool,
)
    requires
        writer::ascending(ls),
        forall|i: int| 0 <= i < items.len() ==> ls.contains((#[trigger] items[i]).priority),
    ensures
        ops::count(grouped_by(items, ls), p) == ops::count(items, p),
    decreases items.len(),
{
    reveal(Seq::filter);
    if items.len() == 0 {
        lemma_grouped_none(items, ls);
    } else {
        let t = items.drop_last();
        assert forall|i: int| 0 <= i < t.len() implies ls.contains((#[trigger] t[i]).priority) by {
            assert(t[i] == items[i]);
        }
        lemma_grouped_by_count(t, ls, p);
        assert(ls.contains(items[items.len() - 1].priority));
        lemma_grouped_one_more(items, ls, p);
    }
}

proof fn lemma_grouped_none(items: Seq<model::ItemView>, ls: Seq<u32>)
    requires
        items.len() == 0,
    ensures
        grouped_by(items, ls).len() == 0,
    decreases ls.len(),
{
    if ls.len() > 0 {
        lemma_bucket(items, ls[0]);
        if model::bucket(items, ls[0], false).len() > 0 {
            assert(items.contains(model::bucket(items, ls[0], false)[0]));
        }
        lemma_grouped_none(items, ls.skip(1));
    }
}

proof fn lemma_grouped_one_more(
    items: Seq<model::ItemView>,
    ls: Seq<u32>,
    p: spec_fn(model::ItemView) -> bool,
)
    requires
        items.len() > 0,
        writer::ascending(ls),
    ensures
        ops::count(grouped_by(items, ls), p) == ops::count(grouped_by(items.drop_last(), ls), p)
            + if ls.contains(items.last().priority) && p(items.last()) {
            1int
        } else {
            0
        },
    decreases ls.len(),
{
    if ls.len() > 0 {
        let t = items.drop_last();
        let x = items.last();
        let rest = ls.skip(1);
        assert forall|m: int, n: int| 0 <= m < n < rest.len() implies #[trigger] rest[m]
            < #[trigger] rest[n] by {
            assert(rest[m] == ls[m + 1] && rest[n] == ls[n + 1]);
        }
        lemma_grouped_one_more(items, rest, p);
        lemma_tail_contains(ls, x.priority);
        assert(ls.contains(ls[0]));
        let b = model::bucket(t, ls[0], false);
        let c = model::bucket(items, ls[0], false);
        Seq::filter_distributes_over_add(b, grouped_by(t, rest), p);
        Seq::filter_distributes_over_add(c, grouped_by(items, rest), p);
        reveal(Seq::filter);
        if x.priority == ls[0] {
            assert(c == b.push(x));
            assert(c.drop_last() =~= b);
        } else {
            assert(c == b);
        }
    }
}

/// What stands before the first bucket ends in two line feeds.
pub(crate) proof fn lemma_head_ends(t: model::TodosView)
    ensures
        head(t).len() >= 2,
        head(t)[head(t).len() - 1] == '\n',
        head(t)[head(t).len() - 2] == '\n',
{
    let e = Seq::<char>::empty();
    if t.preamble.len() == 0 {
        let l = "# todos — "@ + t.company;
        assert(seq![l, e] =~= seq![l].push(e));
        writer::lemma_unlines_push(seq![l], e);
        lemma_unlines_last(seq![l]);
    } else if writer::needs_gap(t.preamble) {
        writer::lemma_unlines_push(t.preamble, e);
        lemma_unlines_last(t.preamble);
    }
}

/// Lists with the same items, but for what is not written, and a preamble that
/// was read from the other's head are written alike.
pub(crate) proof fn lemma_written_alike(w: model::TodosView, t: model::TodosView)
    requires
        same_written(w.items, t.items),
        w.preamble == text::lines(head(t)),
        no_crlf(head(t)),
    ensures
        writer::rendered(w) == writer::rendered(t),
{
    lemma_head_ends(t);
    lemma_unlines_lines(head(t));
    let hl = text::lines(head(t));
    assert(writer::preamble_lines(w.company, hl) == hl);
    lemma_same_written(w.items, t.items);
    let ls = writer::levels(t.items);
    lemma_same_buckets_lines(w.items, t.items, ls);
    let bl = writer::buckets_lines(t.items, ls);
    assert(writer::rendered_lines(w) == hl + bl);
    writer::lemma_unlines_concat(hl, bl);
    writer::lemma_unlines_concat(writer::preamble_lines(t.company, t.preamble), bl);
}

/// Writing is settled after one step: a storable list whose head holds no
/// carriage return before a line feed, written, read and written again, gives
/// the same text; and what was read reads back the same, line numbers
/// included.
pub proof fn law_writing_settles(t: model::TodosView)
    requires
        storable(t),
        no_crlf(head(t)),
    ensures
        ({
            let u = parser::parsed(writer::rendered(t), t.company);
            &&& writer::rendered(u) == writer::rendered(t)
            &&& parser::parsed(writer::rendered(u), u.company) == u
        }),
{
    let u = parser::parsed(writer::rendered(t), t.company);
    law_file_reads_back(t);
    let g = model::TodosView { items: grouped(t.items), ..t };
    assert(head(g) == head(t));
    lemma_written_alike(u, g);
    lemma_grouped_written(t.items);
}

// ---------------------------------------------------------------------------
// What is read
// ---------------------------------------------------------------------------

/// Where an item of a file stands: its line number is the place of its line,
/// counted from one, and the line, its end trimmed, reads as the item in the
/// item's bucket.
pub open spec fn stands_at(it: model::ItemView, ls: Seq<Seq<char>>) -> bool {
    &&& 1 <= it.line <= ls.len()
    &&& parser::read_item(
        text::trim_end(ls[it.line - 1]),
        it.line,
        Some(it.priority),
    ) == Some(it)
}

/// What holds of a reading of the first `n` of `ls`.
spec fn reading_of(st: parser::Reading, ls: Seq<Seq<char>>, n: int) -> bool {
    &&& st.line == n
    &&& forall|i: int| 0 <= i < st.items.len() ==> stands_at(#[trigger] st.items[i], ls.take(n))
    &&& forall|i: int, j: int|
        0 <= i < j < st.items.len() ==> (#[trigger] st.items[i]).line < (#[trigger] st.items[j]).line
    &&& st.preamble.len() <= n
    &&& st.in_preamble ==> st.preamble.len() == n
    &&& !st.in_preamble ==> st.preamble.len() < n && is_heading(ls[st.preamble.len() as int])
    &&& st.preamble == ls.take(st.preamble.len() as int)
    &&& no_heading(st.preamble)
}

proof fn lemma_reading(st: parser::Reading, ls: Seq<Seq<char>>, n: int)
    requires
        0 <= n <= ls.len(),
        reading_of(st, ls, n),
    ensures
        reading_of(parser::read_lines(st, ls.skip(n)), ls, ls.len() as int),
    decreases ls.len() - n,
{
    if n < ls.len() {
        let raw = ls[n];
        let rest = ls.skip(n);
        let next = parser::read_line(st, raw);
        assert(rest[0] == raw);
        assert(rest.skip(1) =~= ls.skip(n + 1));
        assert forall|i: int| 0 <= i < next.items.len() implies stands_at(
            #[trigger] next.items[i],
            ls.take(n + 1),
        ) by {
            if i < st.items.len() {
                assert(next.items[i] == st.items[i]);
                assert(stands_at(st.items[i], ls.take(n)));
            } else {
                assert(ls.take(n + 1)[n] == raw);
            }
        }
        assert forall|i: int, j: int| 0 <= i < j < next.items.len() implies (
        #[trigger] next.items[i]).line < (#[trigger] next.items[j]).line by {
            assert(next.items[i] == st.items[i]);
            assert(stands_at(st.items[i], ls.take(n)));
        }
        assert(next.preamble =~= ls.take(next.preamble.len() as int));
        assert forall|i: int| 0 <= i < next.preamble.len() implies !is_heading(
            #[trigger] next.preamble[i],
        ) by {
            if i < st.preamble.len() {
                assert(next.preamble[i] == st.preamble[i]);
            }
        }
        lemma_reading(next, ls, n + 1);
    } else {
        assert(ls.skip(n) =~= Seq::empty());
    }
}

/// Every item that is read stands on the line that it names, and the items
/// come in the order of their lines.
pub proof fn law_items_stand_on_their_lines(source: Seq<char>, company: Seq<char>)
    ensures
        ({
            let t = parser::parsed(source, company);
            &&& forall|i: int|
                0 <= i < t.items.len() ==> stands_at(#[trigger] t.items[i], text::lines(source))
            &&& forall|i: int, j: int|
                0 <= i < j < t.items.len() ==> (#[trigger] t.items[i]).line < (
                #[trigger] t.items[j]).line
        }),
{
    let ls = text::lines(source);
    assert(ls.take(0) =~= Seq::empty());
    lemma_reading(parser::reading_start(), ls, 0);
    assert(ls.skip(0) =~= ls);
    assert(ls.take(ls.len() as int) =~= ls);
}

/// The preamble that is read is the longest run of lines from the top of which
/// none is a heading: it ends with the text, or a heading follows it.
pub proof fn law_preamble_is_the_top(source: Seq<char>, company: Seq<char>)
    ensures
        ({
            let t = parser::parsed(source, company);
            let ls = text::lines(source);
            &&& t.preamble.len() <= ls.len()
            &&& t.preamble == ls.take(t.preamble.len() as int)
            &&& no_heading(t.preamble)
            &&& t.preamble.len() < ls.len() ==> is_heading(ls[t.preamble.len() as int])
        }),
{
    let ls = text::lines(source);
    assert(ls.take(0) =~= Seq::empty());
    lemma_reading(parser::reading_start(), ls, 0);
    assert(ls.skip(0) =~= ls);
}

/// A marker and what follows it, on one line.
proof fn lemma_field_shape(s: Seq<char>, opening: Seq<char>)
    requires
        roundtrip::one_line(s),
    ensures
        parser::take_field(s, opening) matches Some((arg, rest)) ==> roundtrip::marker_arg(arg)
            && roundtrip::one_line(rest),
{
    if let Some(rest) = text::strip(s, opening) {
        text::lemma_find(rest, ']');
        if let Some(end) = text::find(rest, ']') {
            text::lemma_trim_start_suffix(rest.skip(end + 1));
        }
    }
}

proof fn lemma_flag_shape(s: Seq<char>, marker: Seq<char>)
    requires
        roundtrip::one_line(s),
    ensures
        parser::take_flag(s, marker) matches Some(rest) ==> roundtrip::one_line(rest),
{
    if let Some(rest) = text::strip(s, marker) {
        text::lemma_trim_start_suffix(rest);
    }
}

proof fn lemma_evidence_shape(s: Seq<char>)
    requires
        roundtrip::one_line(s),
    ensures
        ({
            let (refs, rest) = parser::read_evidence(s);
            &&& roundtrip::one_line(rest)
            &&& forall|i: int| 0 <= i < refs.len() ==> roundtrip::marker_arg(#[trigger] refs[i])
        }),
    decreases s.len(),
{
    lemma_field_shape(s, "[ev "@);
    parser::lemma_take_field_shrinks(s, "[ev "@);
    if let Some((arg, rest)) = parser::take_field(s, "[ev "@) {
        lemma_evidence_shape(rest);
    }
}

/// The closing annotation is split off as far as there is one.
proof fn lemma_split_shape(s: Seq<char>)
    requires
        roundtrip::one_line(s),
    ensures
        ({
            let (subject, closed) = parser::split_closed(s);
            &&& roundtrip::one_line(text::trim(subject))
            &&& match closed {
                Some(d) => calendar::date_shape(d),
                None => parser::split_closed(text::trim(subject)).1 is None,
            }
        }),
{
    let t = text::trim_end(s);
    text::lemma_trim_end_prefix(s);
    text::lemma_rfind(t, '(');
    let (subject, closed) = parser::split_closed(s);
    if let Some(open) = text::rfind(t, '(') {
        text::lemma_trim_end_prefix(t.take(open));
    }
    text::lemma_trim_end_prefix(subject);
    text::lemma_trim_start_suffix(text::trim_end(subject));
    text::lemma_trim(subject);
    if closed is None {
        text::lemma_trim_end_twice(s);
        let u = text::trim(t);
        assert(u == text::trim_start(t));
        let off = t.len() - u.len();
        text::lemma_rfind(u, '(');
        if u.len() > 0 && u.last() == ')' {
            assert(t.last() == ')');
            if let Some(k) = text::rfind(u, '(') {
                assert(t[k + off] == '(');
                assert(text::rfind(t, '(') == Some(k + off)) by {
                    let o = text::rfind(t, '(')->0;
                    if o > k + off {
                        assert(u[o - off] == '(');
                    }
                }
                assert(u.subrange(k + 1, u.len() - 1) =~= t.subrange(k + off + 1, t.len() - 1));
            }
        }
    }
}

proof fn lemma_body_shape(body: Seq<char>, open: bool, line: nat, level: u32)
    requires
        roundtrip::one_line(body),
    ensures
        roundtrip::well_shaped(parser::read_body(body, open, line, level)),
{
    lemma_field_shape(body, "[#"@);
    let (id, r1) = parser::read_id(body);
    lemma_flag_shape(r1, "[idle-ok-suggest]"@);
    lemma_flag_shape(r1, "[idle-ok]"@);
    let (idle_ok, r2) = parser::read_idle(r1);
    lemma_flag_shape(r2, "[park-suggest]"@);
    lemma_flag_shape(r2, "[parked]"@);
    let (park, r3) = parser::read_park(r2);
    lemma_field_shape(r3, "[released "@);
    let (released_ts, r4) = parser::read_optional(r3, "[released "@);
    lemma_field_shape(r4, "[created "@);
    let (created_ts, r5) = parser::read_optional(r4, "[created "@);
    lemma_field_shape(r5, "[fseen "@);
    let (first_seen_open, r6) = parser::read_optional(r5, "[fseen "@);
    lemma_flag_shape(r6, "[real]"@);
    let (force_real, r7) = parser::read_flag(r6, "[real]"@);
    lemma_evidence_shape(r7);
    let (evidence, r8) = parser::read_evidence(r7);
    lemma_split_shape(r8);
    text::lemma_trim(parser::split_closed(r8).0);
}

/// Every item that is read has the shape that the grammar gives it.
pub proof fn law_items_are_well_shaped(source: Seq<char>, company: Seq<char>)
    ensures
        forall|i: int|
            0 <= i < parser::parsed(source, company).items.len() ==> roundtrip::well_shaped(
                #[trigger] parser::parsed(source, company).items[i],
            ),
{
    let t = parser::parsed(source, company);
    let ls = text::lines(source);
    law_items_stand_on_their_lines(source, company);
    lemma_lines_one_line(source);
    assert forall|i: int| 0 <= i < t.items.len() implies roundtrip::well_shaped(
        #[trigger] t.items[i],
    ) by {
        let it = t.items[i];
        assert(stands_at(it, ls));
        let raw = ls[it.line - 1];
        assert(roundtrip::one_line(raw));
        let s = text::trim_end(raw);
        text::lemma_trim_end_prefix(raw);
        text::lemma_trim_start_suffix(s);
        let (open, body) = parser::read_checkbox(text::trim_start(s))->0;
        assert(roundtrip::one_line(body));
        lemma_body_shape(body, open, it.line, it.priority);
    }
}

/// No item that is read is blank.
pub proof fn law_items_are_not_blank(source: Seq<char>, company: Seq<char>)
    ensures
        forall|i: int|
            0 <= i < parser::parsed(source, company).items.len() ==> !roundtrip::blank(
                #[trigger] parser::parsed(source, company).items[i],
            ),
{
    let t = parser::parsed(source, company);
    let ls = text::lines(source);
    law_items_stand_on_their_lines(source, company);
    assert forall|i: int| 0 <= i < t.items.len() implies !roundtrip::blank(#[trigger] t.items[i]) by {
        let it = t.items[i];
        assert(stands_at(it, ls));
        roundtrip::lemma_read_not_blank(ls[it.line - 1], it.line, it.priority);
    }
}

/// Cutting a carriage return off does not make a heading of a line.
proof fn lemma_chomp_heading(l: Seq<char>)
    ensures
        is_heading(text::chomp(l)) == is_heading(l),
{
    if l.len() > 0 && l.last() == '\r' {
        assert(text::is_space(l.last()));
    }
}

/// Neither the preamble that is read nor the title that stands for an empty
/// one holds a heading.
pub proof fn law_no_heading_before_the_buckets(source: Seq<char>, company: Seq<char>)
    requires
        roundtrip::one_line(company),
    ensures
        no_heading(text::lines(head(parser::parsed(source, company)))),
        text::lines(head(parser::parsed(source, company))) == writer::preamble_lines(
            company,
            parser::parsed(source, company).preamble,
        ).map_values(|l: Seq<char>| text::chomp(l)),
{
    let t = parser::parsed(source, company);
    law_preamble_is_the_top(source, company);
    lemma_lines_one_line(source);
    let pl = writer::preamble_lines(company, t.preamble);
    reveal_strlit("# todos — ");
    reveal_strlit("## ");
    let title = "# todos — "@ + company;
    assert(!is_heading(title)) by {
        text::lemma_trim_end_prefix(title);
        let s = text::trim_end(title);
        if s.len() >= 3 {
            assert(s.take(3)[1] == title[1]);
        }
    }
    assert(text::trim_end(Seq::<char>::empty()) =~= Seq::empty());
    assert forall|i: int| 0 <= i < pl.len() implies roundtrip::one_line(#[trigger] pl[i])
        && !is_heading(pl[i]) by {
        if t.preamble.len() > 0 && i < t.preamble.len() {
            assert(pl[i] == t.preamble[i]);
            assert(t.preamble[i] == text::lines(source)[i]);
        }
    }
    lemma_lines_unlines(pl);
    let hl = text::lines(head(t));
    assert forall|i: int| 0 <= i < hl.len() implies !is_heading(#[trigger] hl[i]) by {
        assert(hl[i] == text::chomp(pl[i]));
        lemma_chomp_heading(pl[i]);
    }
}

/// What is read can be stored: if every item is unambiguous on its line and
/// the company fits on one line, the list read from any file is storable.
pub proof fn law_read_lists_are_storable(source: Seq<char>, company: Seq<char>)
    requires
        roundtrip::one_line(company),
        forall|i: int|
            0 <= i < parser::parsed(source, company).items.len() ==> roundtrip::unambiguous(
                #[trigger] parser::parsed(source, company).items[i],
            ),
    ensures
        storable(parser::parsed(source, company)),
{
    law_items_are_well_shaped(source, company);
    law_no_heading_before_the_buckets(source, company);
}

pub(crate) proof fn lemma_clean_lines(ls: Seq<Seq<char>>)
    requires
        forall|i: int| 0 <= i < ls.len() ==> clean_line(#[trigger] ls[i]),
    ensures
        no_crlf(writer::unlines(ls)),
    decreases ls.len(),
{
    if ls.len() > 0 {
        let rest = ls.skip(1);
        assert forall|i: int| 0 <= i < rest.len() implies clean_line(#[trigger] rest[i]) by {
            assert(rest[i] == ls[i + 1]);
        }
        lemma_clean_lines(rest);
        let l = ls[0];
        assert(clean_line(l));
        let s = writer::unlines(ls);
        let r = writer::unlines(rest);
        assert(s == (l + seq!['\n']) + r);
        assert forall|i: int| 0 <= i < s.len() - 1 implies !(#[trigger] s[i] == '\r' && s[i + 1]
            == '\n') by {
            if i < l.len() {
                assert(s[i] == l[i]);
                if i + 1 < l.len() {
                    assert(s[i + 1] == l[i + 1]);
                }
            } else if i > l.len() {
                assert(s[i] == r[i - l.len() - 1]);
                assert(s[i + 1] == r[i - l.len()]);
            }
        }
    }
}

/// A file whose items are unambiguous and whose preamble ends no line in a
/// stray carriage return settles after one rewrite: the rewritten file holds
/// the same items, bucket by bucket, and the same preamble with at most a gap
/// added, and rewriting it again changes nothing.
pub proof fn law_file_settles(source: Seq<char>, company: Seq<char>)
    requires
        clean_line(company),
        forall|i: int|
            0 <= i < parser::parsed(source, company).preamble.len() ==> clean_line(
                #[trigger] parser::parsed(source, company).preamble[i],
            ),
        forall|i: int|
            0 <= i < parser::parsed(source, company).items.len() ==> roundtrip::unambiguous(
                #[trigger] parser::parsed(source, company).items[i],
            ),
    ensures
        ({
            let t = parser::parsed(source, company);
            let u = parser::parsed(writer::rendered(t), company);
            &&& read_as(u.items, grouped(t.items))
            &&& u.preamble == writer::preamble_lines(company, t.preamble)
            &&& writer::rendered(u) == writer::rendered(t)
            &&& parser::parsed(writer::rendered(u), company) == u
        }),
{
    let t = parser::parsed(source, company);
    law_read_lists_are_storable(source, company);
    law_no_heading_before_the_buckets(source, company);
    let pl = writer::preamble_lines(company, t.preamble);
    reveal_strlit("# todos — ");
    assert forall|i: int| 0 <= i < pl.len() implies clean_line(#[trigger] pl[i]) by {
        if t.preamble.len() == 0 {
            if i == 0 && company.len() > 0 {
                assert(pl[0].last() == company.last());
            }
        } else if i < t.preamble.len() {
            assert(pl[i] == t.preamble[i]);
        }
    }
    lemma_clean_lines(pl);
    assert(pl.map_values(|l: Seq<char>| text::chomp(l)) =~= pl) by {
        assert forall|i: int| 0 <= i < pl.len() implies text::chomp(#[trigger] pl[i]) == pl[i] by {
            assert(clean_line(pl[i]));
        }
    }
    law_file_reads_back(t);
    law_writing_settles(t);
}

} // verus!
