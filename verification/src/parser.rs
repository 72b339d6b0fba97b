//! Reads the Markdown form of a todo list.
//!
//! ```text
//! # todos - <company>
//! <!-- preamble, kept verbatim -->
//!
//! ## P0
//! - [ ] [#abc1] subject text
//! - [x] [#def2] closed item (closed 2026-06-22)
//!
//! ## P1
//! - [ ] subject without an id
//! ```
//!
//! `## P<N>` headings open buckets. A checkbox line in a bucket is an item: the
//! checkbox, an optional id `[#<token>]`, optional state markers in a fixed
//! order, the subject, an optional `(closed YYYY-MM-DD)` annotation. Everything
//! before the first `## ` heading is preamble; other lines are dropped.

use crate::calendar;
use crate::model;
use crate::model::{IdleOkState, Item, Lane, ParkState, Priority, Todos};
use crate::text;
use vstd::prelude::*;
use vstd::slice::*;

verus! {

// ---------------------------------------------------------------------------
// The grammar
// ---------------------------------------------------------------------------

/// What follows a marker without an argument, if `s` begins with it.
pub open spec fn take_flag(s: Seq<char>, marker: Seq<char>) -> Option<Seq<char>> {
    match text::strip(s, marker) {
        Some(rest) => Some(text::trim_start(rest)),
        None => None,
    }
}

/// The argument of a marker that begins with `opening` and runs to the next
/// `]`, and what follows the marker.
pub open spec fn take_field(s: Seq<char>, opening: Seq<char>) -> Option<(Seq<char>, Seq<char>)> {
    match text::strip(s, opening) {
        Some(rest) => match text::find(rest, ']') {
            Some(end) => Some((rest.take(end), text::trim_start(rest.skip(end + 1)))),
            None => None,
        },
        None => None,
    }
}

/// The checkbox (`true` if open) and what follows it.
pub open spec fn read_checkbox(s: Seq<char>) -> Option<(bool, Seq<char>)> {
    match text::strip(s, "- [ ] "@) {
        Some(rest) => Some((true, rest)),
        None => match text::strip(s, "- [x] "@) {
            Some(rest) => Some((false, rest)),
            None => match text::strip(s, "- [X] "@) {
                Some(rest) => Some((false, rest)),
                None => None,
            },
        },
    }
}

/// A token: not empty and without white space.
pub open spec fn is_token(s: Seq<char>) -> bool {
    &&& s.len() > 0
    &&& forall|i: int| 0 <= i < s.len() ==> !text::is_space(#[trigger] s[i])
}

/// The id in a marker `[#<token>]`, and what follows the marker.
pub open spec fn take_id(s: Seq<char>) -> Option<(Seq<char>, Seq<char>)> {
    match take_field(s, "[#"@) {
        Some((id, rest)) => if is_token(id) {
            Some((id, rest))
        } else {
            None
        },
        None => None,
    }
}

/// The id, empty if there is none, and what follows.
pub open spec fn read_id(s: Seq<char>) -> (Seq<char>, Seq<char>) {
    match take_id(s) {
        Some((id, rest)) => (id, rest),
        None => (Seq::empty(), s),
    }
}

/// The idle-ok state and what follows its marker.
pub open spec fn read_idle(s: Seq<char>) -> (IdleOkState, Seq<char>) {
    match take_flag(s, "[idle-ok-suggest]"@) {
        Some(rest) => (IdleOkState::Suggest, rest),
        None => match take_flag(s, "[idle-ok]"@) {
            Some(rest) => (IdleOkState::Approved, rest),
            None => (IdleOkState::Unset, s),
        },
    }
}

/// The park state and what follows its marker.
pub open spec fn read_park(s: Seq<char>) -> (ParkState, Seq<char>) {
    match take_flag(s, "[park-suggest]"@) {
        Some(rest) => (ParkState::Suggested, rest),
        None => match take_flag(s, "[parked]"@) {
            Some(rest) => (ParkState::Parked, rest),
            None => (ParkState::Active, s),
        },
    }
}

/// The argument of an optional marker and what follows it.
pub open spec fn read_optional(s: Seq<char>, opening: Seq<char>) -> (Option<Seq<char>>, Seq<char>) {
    match take_field(s, opening) {
        Some((arg, rest)) => (Some(arg), rest),
        None => (None, s),
    }
}

/// Whether an optional marker without argument is there, and what follows.
pub open spec fn read_flag(s: Seq<char>, marker: Seq<char>) -> (bool, Seq<char>) {
    match take_flag(s, marker) {
        Some(rest) => (true, rest),
        None => (false, s),
    }
}

/// The arguments of all `[ev ...]` markers in a row, and what follows.
pub open spec fn read_evidence(s: Seq<char>) -> (Seq<Seq<char>>, Seq<char>)
    decreases s.len(),
    via read_evidence_decreases
{
    match take_field(s, "[ev "@) {
        Some((arg, rest)) => {
            let (more, end) = read_evidence(rest);
            (seq![arg] + more, end)
        },
        None => (Seq::empty(), s),
    }
}

#[via_fn]
proof fn read_evidence_decreases(s: Seq<char>) {
    lemma_take_field_shrinks(s, "[ev "@);
}

/// What follows a marker is shorter than what it was taken from.
pub proof fn lemma_take_field_shrinks(s: Seq<char>, opening: Seq<char>)
    ensures
        take_field(s, opening) matches Some((arg, rest)) ==> rest.len() < s.len(),
{
    if let Some(rest) = text::strip(s, opening) {
        text::lemma_find(rest, ']');
        if let Some(end) = text::find(rest, ']') {
            text::lemma_trim_start_suffix(rest.skip(end + 1));
        }
    }
}

/// The lane tag at the start of `s`: exactly three segments up to the next
/// `]`, the first two not empty. A third segment of `_` means none.
pub open spec fn read_lane(s: Seq<char>) -> Option<model::LaneView> {
    match text::strip(s, "[lane:"@) {
        Some(rest) => match text::find(rest, ']') {
            Some(end) => lane_within(rest.take(end)),
            None => None,
        },
        None => None,
    }
}

/// The lane whose three segments make up `s`.
pub open spec fn lane_within(s: Seq<char>) -> Option<model::LaneView> {
    match text::find(s, '/') {
        Some(i) => {
            let tail = s.skip(i + 1);
            match text::find(tail, '/') {
                Some(j) => {
                    let thread = tail.skip(j + 1);
                    if i > 0 && j > 0 && text::find(thread, '/') is None {
                        Some(
                            model::LaneView {
                                company: s.take(i),
                                project: tail.take(j),
                                component: if thread == seq!['_'] {
                                    None
                                } else {
                                    Some(thread)
                                },
                            },
                        )
                    } else {
                        None
                    }
                },
                None => None,
            }
        },
        None => None,
    }
}

/// Splits off an annotation `(closed YYYY-MM-DD)` at the very end.
pub open spec fn split_closed(s: Seq<char>) -> (Seq<char>, Option<Seq<char>>) {
    let t = text::trim_end(s);
    if t.len() > 0 && t.last() == ')' {
        match text::rfind(t, '(') {
            Some(open) => match text::strip(t.subrange(open + 1, t.len() - 1), "closed "@) {
                Some(date) => if calendar::date_shape(date) {
                    (text::trim_end(t.take(open)), Some(date))
                } else {
                    (t, None)
                },
                None => (t, None),
            },
            None => (t, None),
        }
    } else {
        (t, None)
    }
}

/// The item written after a checkbox.
pub open spec fn read_body(body: Seq<char>, open: bool, line: nat, level: u32) -> model::ItemView {
    let (id, r1) = read_id(body);
    let (idle_ok, r2) = read_idle(r1);
    let (park, r3) = read_park(r2);
    let (released_ts, r4) = read_optional(r3, "[released "@);
    let (created_ts, r5) = read_optional(r4, "[created "@);
    let (first_seen_open, r6) = read_optional(r5, "[fseen "@);
    let (force_real, r7) = read_flag(r6, "[real]"@);
    let (evidence, r8) = read_evidence(r7);
    let (subject, closed_on) = split_closed(r8);
    model::ItemView {
        id,
        priority: level,
        subject: text::trim(subject),
        open,
        line,
        closed_on,
        idle_ok,
        park,
        released: released_ts is Some,
        released_ts,
        created_ts,
        lane: read_lane(r8),
        first_seen_open,
        force_real,
        evidence,
    }
}

/// The item on a line, if the line is in a bucket and has a checkbox.
pub open spec fn read_item(s: Seq<char>, line: nat, level: Option<u32>) -> Option<model::ItemView> {
    match level {
        Some(p) => match read_checkbox(text::trim_start(s)) {
            Some((open, body)) => Some(read_body(body, open, line, p)),
            None => None,
        },
        None => None,
    }
}

/// How far the reading of a file has come.
pub struct Reading {
    pub preamble: Seq<Seq<char>>,
    pub items: Seq<model::ItemView>,
    /// The open bucket.
    pub level: Option<u32>,
    pub in_preamble: bool,
    /// The number of lines read.
    pub line: nat,
}

/// Before the first line.
pub open spec fn reading_start() -> Reading {
    Reading {
        preamble: Seq::empty(),
        items: Seq::empty(),
        level: None,
        in_preamble: true,
        line: 0,
    }
}

/// One line further.
pub open spec fn read_line(st: Reading, raw: Seq<char>) -> Reading {
    let s = text::trim_end(raw);
    let line = st.line + 1;
    match text::strip(s, "## "@) {
        Some(rest) => Reading {
            level: model::read_priority(text::trim(rest)),
            in_preamble: false,
            line,
            ..st
        },
        None => if st.in_preamble {
            Reading { preamble: st.preamble.push(raw), line, ..st }
        } else {
            match read_item(s, line, st.level) {
                Some(it) => Reading { items: st.items.push(it), line, ..st },
                None => Reading { line, ..st },
            }
        },
    }
}

/// All lines further.
pub open spec fn read_lines(st: Reading, ls: Seq<Seq<char>>) -> Reading
    decreases ls.len(),
{
    if ls.len() == 0 {
        st
    } else {
        read_lines(read_line(st, ls[0]), ls.skip(1))
    }
}

/// The todo list that a file holds.
pub open spec fn parsed(source: Seq<char>, company: Seq<char>) -> model::TodosView {
    let st = read_lines(reading_start(), text::lines(source));
    model::TodosView { version: 1, company, items: st.items, preamble: st.preamble }
}

// ---------------------------------------------------------------------------
// The reader
// ---------------------------------------------------------------------------

fn flag<'a>(s: &'a [char], marker: &str) -> (r: Option<&'a [char]>)
    ensures
        match r {
            Some(rest) => take_flag(s@, marker@) == Some(rest@),
            None => take_flag(s@, marker@) is None,
        },
{
    match text::strip_prefix(s, marker) {
        Some(rest) => Some(text::trimmed_start(rest)),
        None => None,
    }
}

fn field<'a>(s: &'a [char], opening: &str) -> (r: Option<(&'a [char], &'a [char])>)
    ensures
        match r {
            Some((arg, rest)) => take_field(s@, opening@) == Some((arg@, rest@)),
            None => take_field(s@, opening@) is None,
        },
{
    match text::strip_prefix(s, opening) {
        Some(rest) => {
            let n: usize = rest.len();
            match text::find_char(rest, ']') {
                Some(end) => {
                    let arg: &[char] = slice_subrange(rest, 0, end);
                    assert(arg@ =~= rest@.take(end as int));
                    let after: &[char] = slice_subrange(rest, end + 1, n);
                    assert(after@ =~= rest@.skip(end as int + 1));
                    Some((arg, text::trimmed_start(after)))
                },
                None => None,
            }
        },
        None => None,
    }
}

fn optional<'a>(s: &'a [char], opening: &str) -> (r: (Option<String>, &'a [char]))
    ensures
        read_optional(s@, opening@) == (model::opt_text(r.0), r.1@),
{
    match field(s, opening) {
        Some((arg, rest)) => (Some(text::string_of(arg)), rest),
        None => (None, s),
    }
}

fn checkbox<'a>(s: &'a [char]) -> (r: Option<(bool, &'a [char])>)
    ensures
        match r {
            Some((open, rest)) => read_checkbox(s@) == Some((open, rest@)),
            None => read_checkbox(s@) is None,
        },
{
    if let Some(rest) = text::strip_prefix(s, "- [ ] ") {
        Some((true, rest))
    } else if let Some(rest) = text::strip_prefix(s, "- [x] ") {
        Some((false, rest))
    } else if let Some(rest) = text::strip_prefix(s, "- [X] ") {
        Some((false, rest))
    } else {
        None
    }
}

fn token(s: &[char]) -> (r: bool)
    ensures
        r == is_token(s@),
{
    let n: usize = s.len();
    let mut i: usize = 0;
    while i < n
        invariant
            n == s@.len(),
            0 <= i <= n,
            forall|j: int| 0 <= j < i ==> !text::is_space(#[trigger] s@[j]),
        decreases n - i,
    {
        if text::char_is_space(s[i]) {
            return false;
        }
        i = i + 1;
    }
    n > 0
}

fn id_marker<'a>(s: &'a [char]) -> (r: (String, &'a [char]))
    ensures
        read_id(s@) == (r.0@, r.1@),
{
    match field(s, "[#") {
        Some((id, rest)) => {
            if token(id) {
                (text::string_of(id), rest)
            } else {
                (String::new(), s)
            }
        },
        None => (String::new(), s),
    }
}

fn idle_marker<'a>(s: &'a [char]) -> (r: (IdleOkState, &'a [char]))
    ensures
        read_idle(s@) == (r.0, r.1@),
{
    if let Some(rest) = flag(s, "[idle-ok-suggest]") {
        (IdleOkState::Suggest, rest)
    } else if let Some(rest) = flag(s, "[idle-ok]") {
        (IdleOkState::Approved, rest)
    } else {
        (IdleOkState::Unset, s)
    }
}

fn park_marker<'a>(s: &'a [char]) -> (r: (ParkState, &'a [char]))
    ensures
        read_park(s@) == (r.0, r.1@),
{
    if let Some(rest) = flag(s, "[park-suggest]") {
        (ParkState::Suggested, rest)
    } else if let Some(rest) = flag(s, "[parked]") {
        (ParkState::Parked, rest)
    } else {
        (ParkState::Active, s)
    }
}

fn evidence_markers<'a>(s: &'a [char]) -> (r: (Vec<String>, &'a [char]))
    ensures
        read_evidence(s@) == (model::texts(r.0@), r.1@),
{
    let mut refs: Vec<String> = Vec::new();
    let mut rest: &'a [char] = s;
    assert(model::texts(refs@) =~= Seq::empty());
    assert(Seq::<Seq<char>>::empty() + read_evidence(rest@).0 =~= read_evidence(rest@).0);
    loop
        invariant
            read_evidence(s@) == (
                model::texts(refs@) + read_evidence(rest@).0,
                read_evidence(rest@).1,
            ),
        ensures
            take_field(rest@, "[ev "@) is None,
        decreases rest@.len(),
    {
        match field(rest, "[ev ") {
            Some((arg, after)) => {
                proof {
                    lemma_take_field_shrinks(rest@, "[ev "@);
                }
                let ghost old_refs = refs@;
                let ghost more = read_evidence(after@).0;
                refs.push(text::string_of(arg));
                assert(model::texts(refs@) =~= model::texts(old_refs).push(arg@));
                assert(model::texts(old_refs) + (seq![arg@] + more) =~= model::texts(refs@) + more);
                rest = after;
            },
            None => {
                break;
            },
        }
    }
    assert(model::texts(refs@) + Seq::<Seq<char>>::empty() =~= model::texts(refs@));
    (refs, rest)
}

fn lane_of(s: &[char]) -> (r: Option<Lane>)
    ensures
        model::opt_lane(r) == read_lane(s@),
{
    let rest: &[char] = match text::strip_prefix(s, "[lane:") {
        Some(t) => t,
        None => {
            return None;
        },
    };
    match text::find_char(rest, ']') {
        Some(end) => {
            let inner: &[char] = slice_subrange(rest, 0, end);
            assert(inner@ =~= rest@.take(end as int));
            lane_segments(inner)
        },
        None => None,
    }
}

fn lane_segments(s: &[char]) -> (r: Option<Lane>)
    ensures
        model::opt_lane(r) == lane_within(s@),
{
    let n: usize = s.len();
    let i: usize = match text::find_char(s, '/') {
        Some(i) => i,
        None => {
            return None;
        },
    };
    let tail: &[char] = slice_subrange(s, i + 1, n);
    assert(tail@ =~= s@.skip(i as int + 1));
    let m: usize = tail.len();
    let j: usize = match text::find_char(tail, '/') {
        Some(j) => j,
        None => {
            return None;
        },
    };
    let thread: &[char] = slice_subrange(tail, j + 1, m);
    assert(thread@ =~= tail@.skip(j as int + 1));
    if i == 0 || j == 0 || text::find_char(thread, '/').is_some() {
        return None;
    }
    let company: &[char] = slice_subrange(s, 0, i);
    assert(company@ =~= s@.take(i as int));
    let project: &[char] = slice_subrange(tail, 0, j);
    assert(project@ =~= tail@.take(j as int));
    let component: Option<String> = if thread.len() == 1 && thread[0] == '_' {
        assert(thread@ =~= seq!['_']);
        None
    } else {
        assert(thread@ != seq!['_']) by {
            if thread@ == seq!['_'] {
                assert(thread@.len() == 1 && thread@[0] == '_');
            }
        }
        Some(text::string_of(thread))
    };
    Some(Lane { company: text::string_of(company), project: text::string_of(project), component })
}

/// The lane tag at the start of `s`, if there is one. The tag is only looked
/// at: it stays part of the subject.
pub fn peek_lane(s: &str) -> (r: Option<Lane>)
    ensures
        model::opt_lane(r) == read_lane(s@),
{
    let cs: Vec<char> = text::chars_of(s);
    lane_of(cs.as_slice())
}

/// Splits the subject from the `(closed YYYY-MM-DD)` annotation.
fn split_closed_annotation<'a>(s: &'a [char]) -> (r: (&'a [char], Option<String>))
    ensures
        split_closed(s@) == (r.0@, model::opt_text(r.1)),
{
    let t: &'a [char] = text::trimmed_end(s);
    let n: usize = t.len();
    if n == 0 || t[n - 1] != ')' {
        return (t, None);
    }
    match text::rfind_char(t, '(') {
        Some(open) => {
            proof {
                text::lemma_rfind(t@, '(');
            }
            let inner: &'a [char] = slice_subrange(t, open + 1, n - 1);
            match text::strip_prefix(inner, "closed ") {
                Some(date) => {
                    if !calendar::has_date_shape(date) {
                        return (t, None);
                    }
                    let head: &'a [char] = slice_subrange(t, 0, open);
                    assert(head@ =~= t@.take(open as int));
                    (text::trimmed_end(head), Some(text::string_of(date)))
                },
                None => (t, None),
            }
        },
        None => (t, None),
    }
}

/// Reads one line of a bucket. `None` if it is no item.
fn parse_item_line(line: &[char], line_no: usize, priority: Option<&Priority>) -> (r: Option<Item>)
    ensures
        ({
            let level = match priority {
                Some(p) => Some(p.0),
                None => None,
            };
            match r {
                Some(it) => read_item(line@, line_no as nat, level) == Some(it@),
                None => read_item(line@, line_no as nat, level) is None,
            }
        }),
{
    let level: u32 = match priority {
        Some(p) => p.0,
        None => {
            return None;
        },
    };
    let (open, body) = match checkbox(text::trimmed_start(line)) {
        Some(x) => x,
        None => {
            return None;
        },
    };
    let (id, r1) = id_marker(body);
    let (idle_ok, r2) = idle_marker(r1);
    let (park, r3) = park_marker(r2);
    let (released_ts, r4) = optional(r3, "[released ");
    let (created_ts, r5) = optional(r4, "[created ");
    let (first_seen_open, r6) = optional(r5, "[fseen ");
    let (force_real, r7): (bool, &[char]) = match flag(r6, "[real]") {
        Some(rest) => (true, rest),
        None => (false, r6),
    };
    let (evidence, r8) = evidence_markers(r7);
    let lane: Option<Lane> = lane_of(r8);
    let (subject, closed_on) = split_closed_annotation(r8);
    let it = Item {
        id,
        priority: Priority(level),
        subject: text::string_of(text::trimmed(subject)),
        open,
        line: line_no,
        closed_on,
        idle_ok,
        park,
        released: released_ts.is_some(),
        released_ts,
        created_ts,
        lane,
        first_seen_open,
        force_real,
        evidence,
    };
    assert(it@ == read_body(body@, open, line_no as nat, level));
    Some(it)
}

/// Reads a whole file.
pub fn parse(source: &str, company: &str) -> (r: Todos)
    ensures
        r@ == parsed(source@, company@),
{
    let cs: Vec<char> = text::chars_of(source);
    let n: usize = cs.len();
    let mut rest: &[char] = cs.as_slice();
    let mut todos: Todos = Todos::empty(company);
    let mut current: Option<Priority> = None;
    let mut in_preamble: bool = true;
    let mut line_no: usize = 0;
    let ghost mut st = reading_start();
    while rest.len() > 0
        invariant
            n == source@.len(),
            line_no + rest@.len() <= n,
            read_lines(reading_start(), text::lines(source@)) == read_lines(st, text::lines(rest@)),
            todos.version == 1,
            todos.company@ == company@,
            model::items_view(todos.items@) == st.items,
            model::texts(todos.preamble@) == st.preamble,
            st.in_preamble == in_preamble,
            st.line == line_no,
            match current {
                Some(p) => st.level == Some(p.0),
                None => st.level is None,
            },
        decreases rest@.len(),
    {
        let (raw, after) = text::next_line(rest);
        proof {
            let ls = text::lines(rest@);
            assert(ls[0] == raw@);
            assert(ls.skip(1) =~= text::lines(after@));
            st = read_line(st, raw@);
        }
        line_no = line_no + 1;
        rest = after;
        let line: &[char] = text::trimmed_end(raw);
        match text::strip_prefix(line, "## ") {
            Some(title) => {
                in_preamble = false;
                current = Priority::parse_chars(text::trimmed(title));
            },
            None => {
                if in_preamble {
                    let ghost old_preamble = todos.preamble@;
                    todos.preamble.push(text::string_of(raw));
                    assert(model::texts(todos.preamble@) =~= model::texts(old_preamble).push(raw@));
                } else {
                    match parse_item_line(line, line_no, current.as_ref()) {
                        Some(item) => {
                            let ghost old_items = todos.items@;
                            todos.items.push(item);
                            assert(model::items_view(todos.items@) =~= model::items_view(
                                old_items,
                            ).push(item@));
                        },
                        None => {},
                    }
                }
            },
        }
    }
    todos
}

} // verus!
