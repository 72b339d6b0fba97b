//! Reading and writing together: what is written reads back, and writing what
//! was read changes nothing more.

use crate::calendar;
use crate::decimal;
use crate::model;
use crate::model::{IdleOkState, ParkState};
use crate::parser;
use crate::text;
use crate::writer;
use vstd::prelude::*;

verus! {

// ---------------------------------------------------------------------------
// Which items read back
// ---------------------------------------------------------------------------

/// `c` does not occur in `s`.
pub open spec fn free_of(s: Seq<char>, c: char) -> bool {
    forall|i: int| 0 <= i < s.len() ==> s[i] != c
}

/// Text that fits on one line.
pub open spec fn one_line(s: Seq<char>) -> bool {
    free_of(s, '\n')
}

/// Text that can stand as the argument of a marker.
pub open spec fn marker_arg(s: Seq<char>) -> bool {
    free_of(s, ']') && one_line(s)
}

/// Optional text that can stand as the argument of a marker.
pub open spec fn marker_opt(s: Option<Seq<char>>) -> bool {
    match s {
        Some(t) => marker_arg(t),
        None => true,
    }
}

/// The parts of an item have the shape that the grammar gives them.
pub open spec fn well_shaped(it: model::ItemView) -> bool {
    &&& it.id.len() > 0 ==> parser::is_token(it.id) && marker_arg(it.id)
    &&& it.released == (it.released_ts is Some)
    &&& marker_opt(it.released_ts)
    &&& marker_opt(it.created_ts)
    &&& marker_opt(it.first_seen_open)
    &&& forall|i: int| 0 <= i < it.evidence.len() ==> marker_arg(#[trigger] it.evidence[i])
    &&& one_line(it.subject)
    &&& text::trim(it.subject) == it.subject
    &&& match it.closed_on {
        Some(d) => calendar::date_shape(d),
        None => parser::split_closed(it.subject).1 is None,
    }
}

/// The markers, in the order of the line: the id (0), idle-ok (1), park (2),
/// released (3), created (4), first seen (5), real (6), evidence (7).
pub open spec fn present(it: model::ItemView, k: int) -> bool {
    if k == 0 {
        it.id.len() > 0
    } else if k == 1 {
        it.idle_ok != IdleOkState::Unset
    } else if k == 2 {
        it.park != ParkState::Active
    } else if k == 3 {
        it.released
    } else if k == 4 {
        it.created_ts is Some
    } else if k == 5 {
        it.first_seen_open is Some
    } else if k == 6 {
        it.force_real
    } else {
        k == 7 && it.evidence.len() > 0
    }
}

/// No marker from the `k`-th on.
pub open spec fn bare_from(it: model::ItemView, k: int) -> bool {
    forall|j: int| k <= j < 8 ==> !#[trigger] present(it, j)
}

/// Whether `s` begins like the `k`-th marker.
pub open spec fn begins_marker(s: Seq<char>, k: int) -> bool {
    if k == 0 {
        parser::take_id(s) is Some
    } else if k == 1 {
        parser::take_flag(s, "[idle-ok-suggest]"@) is Some || parser::take_flag(s, "[idle-ok]"@) is Some
    } else if k == 2 {
        parser::take_flag(s, "[park-suggest]"@) is Some || parser::take_flag(s, "[parked]"@) is Some
    } else if k == 3 {
        parser::take_field(s, "[released "@) is Some
    } else if k == 4 {
        parser::take_field(s, "[created "@) is Some
    } else if k == 5 {
        parser::take_field(s, "[fseen "@) is Some
    } else if k == 6 {
        parser::take_flag(s, "[real]"@) is Some
    } else {
        k == 7 && parser::take_field(s, "[ev "@) is Some
    }
}

/// The subject cannot be taken for a marker that the item lacks: where the
/// item has no marker from the `k`-th on, what follows the markers does not
/// begin like the `k`-th. (The last kind may come more than once.)
pub open spec fn subject_is_no_marker(it: model::ItemView) -> bool {
    &&& forall|k: int|
        0 <= k < 8 && bare_from(it, k) ==> !#[trigger] begins_marker(writer::tail_text(it), k)
    &&& !begins_marker(writer::tail_text(it), 7)
}

/// Nothing is written after the checkbox.
pub open spec fn blank(it: model::ItemView) -> bool {
    bare_from(it, 0) && writer::tail_text(it).len() == 0
}

/// Nothing about the item is ambiguous on its line.
pub open spec fn unambiguous(it: model::ItemView) -> bool {
    &&& !blank(it)
    &&& subject_is_no_marker(it)
}

/// The item as its line has it: the lane is the one that the subject is tagged
/// with.
pub open spec fn stored(it: model::ItemView) -> model::ItemView {
    model::ItemView { lane: parser::read_lane(writer::tail_text(it)), ..it }
}

/// The line of the item, read as line number `line`, gives back the item.
pub open spec fn reads_back(it: model::ItemView, line: nat) -> bool {
    parser::read_item(text::trim_end(writer::item_text(it)), line, Some(it.priority)) == Some(
        model::ItemView { line, ..stored(it) },
    )
}

// ---------------------------------------------------------------------------
// Marker by marker
// ---------------------------------------------------------------------------

/// The text of the `k`-th marker.
spec fn part(it: model::ItemView, k: int) -> Seq<char> {
    if k == 0 {
        writer::id_text(it.id)
    } else if k == 1 {
        writer::idle_text(it.idle_ok)
    } else if k == 2 {
        writer::park_text(it.park)
    } else if k == 3 {
        writer::released_text(it.released, it.released_ts)
    } else if k == 4 {
        writer::field_text("[created "@, it.created_ts)
    } else if k == 5 {
        writer::field_text("[fseen "@, it.first_seen_open)
    } else if k == 6 {
        writer::real_text(it.force_real)
    } else {
        writer::evidence_text(it.evidence)
    }
}

/// The text from the `k`-th marker on.
spec fn rest(it: model::ItemView, k: int) -> Seq<char>
    decreases 8 - k,
{
    if k >= 8 {
        writer::tail_text(it)
    } else {
        part(it, k) + rest(it, k + 1)
    }
}

/// What the reader may see of a written text: its end trimmed, perhaps its
/// front too.
spec fn seen(x: Seq<char>, written: Seq<char>) -> bool {
    x == text::trim_end(written) || x == text::trim(written)
}

proof fn lemma_body_is_rest(it: model::ItemView)
    ensures
        writer::body_text(it) == rest(it, 0),
{
    reveal_with_fuel(rest, 9);
}

/// Text that differs from a prefix at one place does not begin with it.
proof fn lemma_no_prefix(s: Seq<char>, prefix: Seq<char>, k: int)
    requires
        0 <= k < prefix.len(),
        k < s.len() ==> s[k] != prefix[k],
    ensures
        text::strip(s, prefix) is None,
{
    if prefix.len() <= s.len() {
        assert(s.take(prefix.len() as int)[k] == s[k]);
    }
}

/// Text begins with its prefix.
proof fn lemma_prefix(prefix: Seq<char>, s: Seq<char>)
    ensures
        text::strip(prefix + s, prefix) == Some(s),
{
    assert((prefix + s).take(prefix.len() as int) =~= prefix);
    assert((prefix + s).skip(prefix.len() as int) =~= s);
}

/// A written marker with an argument, followed by `w`.
proof fn lemma_field(opening: Seq<char>, arg: Seq<char>, w: Seq<char>)
    requires
        free_of(arg, ']'),
    ensures
        parser::take_field(opening + arg + seq![']'] + w, opening) == Some(
            (arg, text::trim_start(w)),
        ),
{
    let s = arg + seq![']'] + w;
    assert(opening + arg + seq![']'] + w =~= opening + s);
    lemma_prefix(opening, s);
    text::lemma_find_at(s, ']', arg.len() as int);
    assert(s.take(arg.len() as int) =~= arg);
    assert(s.skip(arg.len() as int + 1) =~= w);
}

/// What the reader sees of a marker `m + "] "` followed by `w`.
proof fn lemma_seen_marker(x: Seq<char>, m: Seq<char>, w: Seq<char>)
    requires
        m.len() > 0,
        m[0] == '[',
        seen(x, m + "] "@ + w),
    ensures
        x == m + seq![']'] + text::trim_end(seq![' '] + w),
        text::trim_start(text::trim_end(seq![' '] + w)) == text::trim(w),
        seen(text::trim_start(text::trim_end(seq![' '] + w)), w),
{
    reveal_strlit("] ");
    let a = m + seq![']'];
    let b = seq![' '] + w;
    assert(m + "] "@ + w =~= a + b);
    text::lemma_trim_end_after(a, b);
    text::lemma_trim_leading_space(w);
    assert((a + text::trim_end(b))[0] == '[');
}

/// The second character of the `k`-th marker.
spec fn second_char(k: int) -> char {
    if k == 0 {
        '#'
    } else if k == 1 {
        'i'
    } else if k == 2 {
        'p'
    } else if k == 3 {
        'r'
    } else if k == 4 {
        'c'
    } else if k == 5 {
        'f'
    } else if k == 6 {
        'r'
    } else {
        'e'
    }
}

/// `x` begins with enough of the `k`-th marker to tell it from the others.
spec fn leads(x: Seq<char>, k: int) -> bool {
    &&& x.len() > 3
    &&& x[0] == '['
    &&& x[1] == second_char(k)
    &&& k == 3 ==> x[3] == 'l'
    &&& k == 6 ==> x[3] == 'a'
}

proof fn reveal_openings()
    ensures
        "[#"@ =~= seq!['[', '#'],
        "[idle-ok-suggest"@.len() == 16,
        "[idle-ok-suggest"@[0] == '[',
        "[idle-ok-suggest"@[1] == 'i',
        "[idle-ok-suggest]"@ == "[idle-ok-suggest"@ + seq![']'],
        "[idle-ok-suggest] "@ == "[idle-ok-suggest"@ + "] "@,
        "[idle-ok-suggest"@[8] == '-',
        "[idle-ok"@.len() == 8,
        "[idle-ok"@[0] == '[',
        "[idle-ok"@[1] == 'i',
        "[idle-ok]"@ == "[idle-ok"@ + seq![']'],
        "[idle-ok] "@ == "[idle-ok"@ + "] "@,
        "[park-suggest"@.len() == 13,
        "[park-suggest"@[0] == '[',
        "[park-suggest"@[1] == 'p',
        "[park-suggest"@[5] == '-',
        "[park-suggest]"@ == "[park-suggest"@ + seq![']'],
        "[park-suggest] "@ == "[park-suggest"@ + "] "@,
        "[parked"@.len() == 7,
        "[parked"@[0] == '[',
        "[parked"@[1] == 'p',
        "[parked"@[5] == 'e',
        "[parked]"@ == "[parked"@ + seq![']'],
        "[parked] "@ == "[parked"@ + "] "@,
        "[released "@.len() == 10,
        "[released "@[0] == '[',
        "[released "@[1] == 'r',
        "[released "@[3] == 'l',
        "[created "@.len() == 9,
        "[created "@[0] == '[',
        "[created "@[1] == 'c',
        "[fseen "@.len() == 7,
        "[fseen "@[0] == '[',
        "[fseen "@[1] == 'f',
        "[real"@.len() == 5,
        "[real"@[0] == '[',
        "[real"@[1] == 'r',
        "[real"@[3] == 'a',
        "[real]"@ == "[real"@ + seq![']'],
        "[real] "@ == "[real"@ + "] "@,
        "[ev "@.len() == 4,
        "[ev "@[0] == '[',
        "[ev "@[1] == 'e',
{
    reveal_strlit("[#");
    reveal_strlit("] ");
    reveal_strlit("[idle-ok-suggest");
    reveal_strlit("[idle-ok-suggest]");
    reveal_strlit("[idle-ok-suggest] ");
    reveal_strlit("[idle-ok");
    reveal_strlit("[idle-ok]");
    reveal_strlit("[idle-ok] ");
    reveal_strlit("[park-suggest");
    reveal_strlit("[park-suggest]");
    reveal_strlit("[park-suggest] ");
    reveal_strlit("[parked");
    reveal_strlit("[parked]");
    reveal_strlit("[parked] ");
    reveal_strlit("[released ");
    reveal_strlit("[created ");
    reveal_strlit("[fseen ");
    reveal_strlit("[real");
    reveal_strlit("[real]");
    reveal_strlit("[real] ");
    reveal_strlit("[ev ");
    assert("[idle-ok-suggest]"@ =~= "[idle-ok-suggest"@ + seq![']']);
    assert("[idle-ok-suggest] "@ =~= "[idle-ok-suggest"@ + "] "@);
    assert("[idle-ok]"@ =~= "[idle-ok"@ + seq![']']);
    assert("[idle-ok] "@ =~= "[idle-ok"@ + "] "@);
    assert("[park-suggest]"@ =~= "[park-suggest"@ + seq![']']);
    assert("[park-suggest] "@ =~= "[park-suggest"@ + "] "@);
    assert("[parked]"@ =~= "[parked"@ + seq![']']);
    assert("[parked] "@ =~= "[parked"@ + "] "@);
    assert("[real]"@ =~= "[real"@ + seq![']']);
    assert("[real] "@ =~= "[real"@ + "] "@);
}

/// The `k`-th marker of an item up to its closing bracket.
spec fn core_text(it: model::ItemView, k: int) -> Seq<char> {
    if k == 0 {
        "[#"@ + it.id
    } else if k == 1 {
        if it.idle_ok == IdleOkState::Suggest {
            "[idle-ok-suggest"@
        } else {
            "[idle-ok"@
        }
    } else if k == 2 {
        if it.park == ParkState::Suggested {
            "[park-suggest"@
        } else {
            "[parked"@
        }
    } else if k == 3 {
        "[released "@ + it.released_ts->0
    } else if k == 4 {
        "[created "@ + it.created_ts->0
    } else if k == 5 {
        "[fseen "@ + it.first_seen_open->0
    } else if k == 6 {
        "[real"@
    } else {
        "[ev "@ + it.evidence[0]
    }
}

/// What is written after the `k`-th marker.
spec fn after_text(it: model::ItemView, k: int) -> Seq<char> {
    if k == 7 {
        writer::evidence_text(it.evidence.skip(1)) + writer::tail_text(it)
    } else {
        rest(it, k + 1)
    }
}

/// Where a marker is present, the reader sees it first.
proof fn lemma_present(it: model::ItemView, k: int, x: Seq<char>)
    requires
        well_shaped(it),
        0 <= k < 8,
        present(it, k),
        seen(x, rest(it, k)),
    ensures
        x == core_text(it, k) + seq![']'] + text::trim_end(seq![' '] + after_text(it, k)),
        text::trim_start(text::trim_end(seq![' '] + after_text(it, k))) == text::trim(
            after_text(it, k),
        ),
        leads(x, k),
{
    reveal_openings();
    let m = core_text(it, k);
    let w = after_text(it, k);
    assert(m.len() > 2 && m[0] == '[' && m[1] == second_char(k));
    if k == 7 {
        assert(rest(it, 8) == writer::tail_text(it));
        assert(rest(it, 7) =~= m + "] "@ + w);
    } else {
        assert(part(it, k) == m + "] "@);
        assert(rest(it, k) == m + "] "@ + w);
    }
    lemma_seen_marker(x, m, w);
}

/// Where a marker is absent, nothing is written for it.
proof fn lemma_absent_rest(it: model::ItemView, k: int)
    requires
        0 <= k < 8,
        !present(it, k),
    ensures
        rest(it, k) == rest(it, k + 1),
{
    assert(part(it, k).len() == 0);
    assert(part(it, k) + rest(it, k + 1) =~= rest(it, k + 1));
}

/// Where no marker is left, the subject follows.
proof fn lemma_bare_rest(it: model::ItemView, k: int)
    requires
        0 <= k <= 8,
        bare_from(it, k),
    ensures
        rest(it, k) == writer::tail_text(it),
    decreases 8 - k,
{
    if k < 8 {
        assert(!present(it, k));
        lemma_absent_rest(it, k);
        lemma_bare_rest(it, k + 1);
    }
}

/// If some marker is left, the reader sees a later marker first.
proof fn lemma_later_leads(it: model::ItemView, k: int, x: Seq<char>) -> (m: int)
    requires
        well_shaped(it),
        0 <= k <= 8,
        !bare_from(it, k),
        seen(x, rest(it, k)),
    ensures
        k <= m < 8,
        leads(x, m),
    decreases 8 - k,
{
    if k < 8 && present(it, k) {
        lemma_present(it, k, x);
        k
    } else {
        assert(k < 8);
        lemma_absent_rest(it, k);
        assert(!bare_from(it, k + 1)) by {
            if bare_from(it, k + 1) {
                assert forall|j: int| k <= j < 8 implies !#[trigger] present(it, j) by {}
            }
        }
        lemma_later_leads(it, k + 1, x)
    }
}

/// Text that begins like a later marker does not begin like an earlier one.
proof fn lemma_leads_exclude(x: Seq<char>, m: int, k: int)
    requires
        0 <= k < m < 8,
        leads(x, m),
    ensures
        !begins_marker(x, k),
{
    reveal_openings();
    if k == 0 {
        lemma_no_prefix(x, "[#"@, 1);
    } else if k == 1 {
        lemma_no_prefix(x, "[idle-ok-suggest]"@, 1);
        lemma_no_prefix(x, "[idle-ok]"@, 1);
    } else if k == 2 {
        lemma_no_prefix(x, "[park-suggest]"@, 1);
        lemma_no_prefix(x, "[parked]"@, 1);
    } else if k == 3 {
        if m == 6 {
            lemma_no_prefix(x, "[released "@, 3);
        } else {
            lemma_no_prefix(x, "[released "@, 1);
        }
    } else if k == 4 {
        lemma_no_prefix(x, "[created "@, 1);
    } else if k == 5 {
        lemma_no_prefix(x, "[fseen "@, 1);
    } else {
        lemma_no_prefix(x, "[real]"@, 1);
    }
}

/// Text that does not begin with a bracket begins no marker.
pub(crate) proof fn lemma_no_bracket(x: Seq<char>, k: int)
    requires
        0 <= k < 8,
        x.len() > 0 ==> x[0] != '[',
    ensures
        !begins_marker(x, k),
{
    reveal_openings();
    lemma_no_prefix(x, "[#"@, 0);
    lemma_no_prefix(x, "[idle-ok-suggest]"@, 0);
    lemma_no_prefix(x, "[idle-ok]"@, 0);
    lemma_no_prefix(x, "[park-suggest]"@, 0);
    lemma_no_prefix(x, "[parked]"@, 0);
    lemma_no_prefix(x, "[released "@, 0);
    lemma_no_prefix(x, "[created "@, 0);
    lemma_no_prefix(x, "[fseen "@, 0);
    lemma_no_prefix(x, "[real]"@, 0);
    lemma_no_prefix(x, "[ev "@, 0);
}

/// Text that begins like an id begins no other marker.
pub(crate) proof fn lemma_hash_is_no_state(x: Seq<char>)
    requires
        x.len() > 1,
        text::strip(x, "[#"@) is Some,
    ensures
        forall|k: int| 1 <= k < 8 ==> !#[trigger] begins_marker(x, k),
        parser::read_idle(x) == (IdleOkState::Unset, x),
        parser::read_park(x) == (ParkState::Active, x),
        parser::read_optional(x, "[released "@) == (None::<Seq<char>>, x),
        parser::read_optional(x, "[created "@) == (None::<Seq<char>>, x),
        parser::read_optional(x, "[fseen "@) == (None::<Seq<char>>, x),
        parser::read_flag(x, "[real]"@) == (false, x),
        parser::read_evidence(x) == (Seq::<Seq<char>>::empty(), x),
{
    reveal_openings();
    assert(x.take(2)[1] == x[1]);
    assert(x[1] == '#');
    lemma_no_prefix(x, "[idle-ok-suggest]"@, 1);
    lemma_no_prefix(x, "[idle-ok]"@, 1);
    lemma_no_prefix(x, "[park-suggest]"@, 1);
    lemma_no_prefix(x, "[parked]"@, 1);
    lemma_no_prefix(x, "[released "@, 1);
    lemma_no_prefix(x, "[created "@, 1);
    lemma_no_prefix(x, "[fseen "@, 1);
    lemma_no_prefix(x, "[real]"@, 1);
    lemma_no_prefix(x, "[ev "@, 1);
}

/// What the reader sees of subject and annotation: all of it, unless the
/// subject is empty and only the blank before the annotation is gone.
proof fn lemma_seen_tail(it: model::ItemView, x: Seq<char>)
    requires
        well_shaped(it),
        seen(x, writer::tail_text(it)),
    ensures
        x == writer::tail_text(it) || (it.subject.len() == 0 && it.closed_on is Some && x
            == "(closed "@ + it.closed_on->0 + ")"@),
        it.subject.len() == 0 && x.len() > 0 ==> x[0] != '[',
        text::trim_end(x) == x,
{
    let t = writer::tail_text(it);
    reveal_strlit(" (closed ");
    reveal_strlit("(closed ");
    reveal_strlit(")");
    text::lemma_trim(it.subject);
    match it.closed_on {
        Some(d) => {
            assert(t.last() == ')');
            assert(text::trim_end(t) == t);
            if it.subject.len() > 0 {
                assert(t[0] == it.subject[0]);
                assert(!text::is_space(it.subject[0])) by {
                    text::lemma_trim_start_suffix(it.subject);
                }
                assert(text::trim_start(t) == t);
            } else {
                let u = "(closed "@ + d + ")"@;
                assert(t =~= seq![' '] + u);
                assert(t.skip(1) =~= u);
                assert(u[0] == '(');
                assert(text::trim_start(u) == u);
                assert(text::is_space(t[0]));
                assert(text::trim_start(t) == u);
                assert(u.last() == ')');
            }
        },
        None => {
            assert(t =~= it.subject);
        },
    }
}

/// Where a marker is absent, the reader sees none, unless the subject begins
/// like one.
proof fn lemma_absent(it: model::ItemView, k: int, x: Seq<char>)
    requires
        well_shaped(it),
        0 <= k < 8,
        !present(it, k),
        seen(x, rest(it, k)),
    ensures
        begins_marker(x, k) ==> bare_from(it, k) && x == writer::tail_text(it),
        seen(x, rest(it, k + 1)),
{
    lemma_absent_rest(it, k);
    if bare_from(it, k) {
        lemma_bare_rest(it, k);
        lemma_seen_tail(it, x);
        if it.subject.len() == 0 {
            lemma_no_bracket(x, k);
        }
    } else {
        let m = lemma_later_leads_strict(it, k, x);
        lemma_leads_exclude(x, m, k);
    }
}

/// As above, with the marker itself absent.
proof fn lemma_later_leads_strict(it: model::ItemView, k: int, x: Seq<char>) -> (m: int)
    requires
        well_shaped(it),
        0 <= k < 8,
        !present(it, k),
        !bare_from(it, k),
        seen(x, rest(it, k)),
    ensures
        k < m < 8,
        leads(x, m),
{
    lemma_absent_rest(it, k);
    assert(!bare_from(it, k + 1)) by {
        if bare_from(it, k + 1) {
            assert forall|j: int| k <= j < 8 implies !#[trigger] present(it, j) by {}
        }
    }
    lemma_later_leads(it, k + 1, x)
}

/// What the reader has left after the `k`-th marker.
spec fn left_after(x: Seq<char>, k: int) -> Seq<char> {
    if k == 0 {
        parser::read_id(x).1
    } else if k == 1 {
        parser::read_idle(x).1
    } else if k == 2 {
        parser::read_park(x).1
    } else if k == 3 {
        parser::read_optional(x, "[released "@).1
    } else if k == 4 {
        parser::read_optional(x, "[created "@).1
    } else if k == 5 {
        parser::read_optional(x, "[fseen "@).1
    } else if k == 6 {
        parser::read_flag(x, "[real]"@).1
    } else {
        parser::read_evidence(x).1
    }
}

/// The reader takes the `k`-th marker for what the item has there.
spec fn agrees(it: model::ItemView, x: Seq<char>, k: int) -> bool {
    if k == 0 {
        parser::read_id(x).0 == it.id
    } else if k == 1 {
        parser::read_idle(x).0 == it.idle_ok
    } else if k == 2 {
        parser::read_park(x).0 == it.park
    } else if k == 3 {
        parser::read_optional(x, "[released "@).0 == it.released_ts
    } else if k == 4 {
        parser::read_optional(x, "[created "@).0 == it.created_ts
    } else if k == 5 {
        parser::read_optional(x, "[fseen "@).0 == it.first_seen_open
    } else if k == 6 {
        parser::read_flag(x, "[real]"@).0 == it.force_real
    } else {
        parser::read_evidence(x).0 == it.evidence
    }
}

/// Reading a flag, followed by `w`.
proof fn lemma_flag(marker: Seq<char>, w: Seq<char>)
    ensures
        parser::take_flag(marker + w, marker) == Some(text::trim_start(w)),
{
    lemma_prefix(marker, w);
}

/// A marker that is present is read for what it is.
proof fn lemma_read_present(it: model::ItemView, k: int, x: Seq<char>)
    requires
        well_shaped(it),
        0 <= k < 7,
        present(it, k),
        seen(x, rest(it, k)),
    ensures
        agrees(it, x, k),
        seen(left_after(x, k), rest(it, k + 1)),
{
    lemma_present(it, k, x);
    reveal_openings();
    let w = text::trim_end(seq![' '] + rest(it, k + 1));
    if k == 0 {
        lemma_field("[#"@, it.id, w);
    } else if k == 1 {
        if it.idle_ok == IdleOkState::Suggest {
            lemma_flag("[idle-ok-suggest]"@, w);
        } else {
            lemma_no_prefix(x, "[idle-ok-suggest]"@, 8);
            lemma_flag("[idle-ok]"@, w);
        }
    } else if k == 2 {
        if it.park == ParkState::Suggested {
            lemma_flag("[park-suggest]"@, w);
        } else {
            lemma_no_prefix(x, "[park-suggest]"@, 5);
            lemma_flag("[parked]"@, w);
        }
    } else if k == 3 {
        lemma_field("[released "@, it.released_ts->0, w);
    } else if k == 4 {
        lemma_field("[created "@, it.created_ts->0, w);
    } else if k == 5 {
        lemma_field("[fseen "@, it.first_seen_open->0, w);
    } else {
        lemma_flag("[real]"@, w);
    }
}

/// A marker that is absent is read as absent, unless the subject begins like
/// it.
proof fn lemma_read_absent(it: model::ItemView, k: int, x: Seq<char>)
    requires
        well_shaped(it),
        0 <= k < 7,
        !present(it, k),
        seen(x, rest(it, k)),
    ensures
        !begins_marker(x, k) ==> agrees(it, x, k) && left_after(x, k) == x && seen(
            x,
            rest(it, k + 1),
        ),
        begins_marker(x, k) ==> bare_from(it, k) && x == writer::tail_text(it),
{
    lemma_absent(it, k, x);
    if !begins_marker(x, k) {
        if k == 0 {
            assert(it.id =~= Seq::empty());
        }
    }
}

/// All evidence markers are read, and whatever the subject begins with.
proof fn lemma_read_evidence(refs: Seq<Seq<char>>, tail: Seq<char>, x: Seq<char>) -> (y: Seq<char>)
    requires
        forall|i: int| 0 <= i < refs.len() ==> marker_arg(#[trigger] refs[i]),
        seen(x, writer::evidence_text(refs) + tail),
    ensures
        seen(y, tail),
        parser::read_evidence(x) == (
            refs + parser::read_evidence(y).0,
            parser::read_evidence(y).1,
        ),
    decreases refs.len(),
{
    if refs.len() == 0 {
        assert(writer::evidence_text(refs) + tail =~= tail);
        assert(refs + parser::read_evidence(x).0 =~= parser::read_evidence(x).0);
        x
    } else {
        reveal_openings();
        let more = refs.skip(1);
        let m = "[ev "@ + refs[0];
        let w = writer::evidence_text(more) + tail;
        assert(writer::evidence_text(refs) + tail =~= m + "] "@ + w);
        lemma_seen_marker(x, m, w);
        let v = text::trim_end(seq![' '] + w);
        assert(marker_arg(refs[0]));
        lemma_field("[ev "@, refs[0], v);
        let z = text::trim_start(v);
        assert forall|i: int| 0 <= i < more.len() implies marker_arg(#[trigger] more[i]) by {
            assert(more[i] == refs[i + 1]);
        }
        let y = lemma_read_evidence(more, tail, z);
        assert(seq![refs[0]] + (more + parser::read_evidence(y).0) =~= refs + parser::read_evidence(
            y,
        ).0);
        y
    }
}

/// Reading a marker leaves less text: at least three characters less, if
/// there was one.
proof fn lemma_left_len(x: Seq<char>, k: int)
    requires
        0 <= k < 8,
    ensures
        left_after(x, k).len() <= x.len(),
        begins_marker(x, k) ==> left_after(x, k).len() + 3 <= x.len(),
    decreases x.len(),
{
    reveal_openings();
    if k == 0 {
        lemma_take_field_len(x, "[#"@);
    } else if k == 1 {
        lemma_take_flag_len(x, "[idle-ok-suggest]"@);
        lemma_take_flag_len(x, "[idle-ok]"@);
    } else if k == 2 {
        lemma_take_flag_len(x, "[park-suggest]"@);
        lemma_take_flag_len(x, "[parked]"@);
    } else if k == 3 {
        lemma_take_field_len(x, "[released "@);
    } else if k == 4 {
        lemma_take_field_len(x, "[created "@);
    } else if k == 5 {
        lemma_take_field_len(x, "[fseen "@);
    } else if k == 6 {
        lemma_take_flag_len(x, "[real]"@);
    } else {
        lemma_take_field_len(x, "[ev "@);
        if let Some((arg, r)) = parser::take_field(x, "[ev "@) {
            lemma_left_len(r, 7);
        }
    }
}

proof fn lemma_take_field_len(x: Seq<char>, opening: Seq<char>)
    ensures
        parser::take_field(x, opening) matches Some((arg, r)) ==> r.len() + opening.len() + 1
            <= x.len(),
{
    if let Some(r) = text::strip(x, opening) {
        text::lemma_find(r, ']');
        if let Some(end) = text::find(r, ']') {
            text::lemma_trim_start_suffix(r.skip(end + 1));
        }
    }
}

proof fn lemma_take_flag_len(x: Seq<char>, marker: Seq<char>)
    ensures
        parser::take_flag(x, marker) matches Some(r) ==> r.len() + marker.len() <= x.len(),
{
    if let Some(r) = text::strip(x, marker) {
        text::lemma_trim_start_suffix(r);
    }
}

/// The subject and the annotation are told apart again.
proof fn lemma_split_tail(it: model::ItemView, x: Seq<char>)
    requires
        well_shaped(it),
        seen(x, writer::tail_text(it)),
    ensures
        parser::split_closed(x) == (it.subject, it.closed_on),
{
    lemma_seen_tail(it, x);
    reveal_strlit(" (closed ");
    reveal_strlit("(closed ");
    reveal_strlit("closed ");
    reveal_strlit(")");
    text::lemma_trim(it.subject);
    match it.closed_on {
        Some(d) => {
            let head = if x == writer::tail_text(it) {
                it.subject + seq![' ']
            } else {
                Seq::empty()
            };
            let ann = "(closed "@ + d + ")"@;
            assert(x =~= head + ann);
            calendar::lemma_date_shape(d);
            let o = head.len() as int;
            text::lemma_rfind(x, '(');
            assert(x[o] == '(');
            assert forall|j: int| o < j < x.len() implies x[j] != '(' by {
                if j < o + 8 {
                    assert(x[j] == "(closed "@[j - o]);
                } else if j < x.len() - 1 {
                    assert(x[j] == d[j - o - 8]);
                }
            }
            assert(text::rfind(x, '(') == Some(o));
            let inner = x.subrange(o + 1, x.len() - 1);
            assert(inner =~= "closed "@ + d);
            lemma_prefix("closed "@, d);
            assert(x.take(o) =~= head);
            assert(text::trim_end(head) == it.subject) by {
                if head.len() > 0 {
                    assert(head.drop_last() =~= it.subject);
                    assert(text::is_space(head.last()));
                } else {
                    assert(head =~= it.subject);
                }
            }
        },
        None => {
            assert(writer::tail_text(it) =~= it.subject);
        },
    }
}

/// The checkbox is read for what it is.
proof fn lemma_read_checkbox(open: bool, body: Seq<char>)
    ensures
        parser::read_checkbox(writer::checkbox_text(open) + body) == Some((open, body)),
{
    reveal_strlit("- [ ] ");
    reveal_strlit("- [x] ");
    lemma_prefix(writer::checkbox_text(open), body);
    if !open {
        lemma_no_prefix(writer::checkbox_text(open) + body, "- [ ] "@, 3);
    }
}

/// A line, its end trimmed, up to the checkbox and after it.
proof fn lemma_trimmed_line(it: model::ItemView)
    requires
        well_shaped(it),
    ensures
        blank(it) ==> parser::read_checkbox(
            text::trim_start(text::trim_end(writer::item_text(it))),
        ) is None,
        !blank(it) ==> parser::read_checkbox(
            text::trim_start(text::trim_end(writer::item_text(it))),
        ) == Some((it.open, text::trim_end(rest(it, 0)))),
{
    reveal_strlit("- [ ] ");
    reveal_strlit("- [x] ");
    reveal_strlit("- [X] ");
    lemma_body_is_rest(it);
    let cb = writer::checkbox_text(it.open);
    let a = cb.drop_last();
    let body = rest(it, 0);
    let b = seq![' '] + body;
    let x = text::trim_end(body);
    assert(writer::item_text(it) =~= a + b);
    text::lemma_trim_end_after(a, b);
    let line = text::trim_end(writer::item_text(it));
    assert(line == a + text::trim_end(b));
    assert(line[0] == '-');
    assert(text::trim_start(line) == line);
    if blank(it) {
        lemma_bare_rest(it, 0);
        assert(body =~= Seq::empty());
        assert(b.drop_last() =~= Seq::empty());
        assert(text::is_space(b.last()));
        assert(text::trim_end(b) =~= Seq::empty()) by {
            reveal_with_fuel(text::trim_end, 2);
        }
        assert(line.len() == 5);
    } else {
        if bare_from(it, 0) {
            lemma_bare_rest(it, 0);
            lemma_seen_tail(it, text::trim_end(body));
            assert(x.len() > 0) by {
                text::lemma_trim(it.subject);
                reveal_strlit(" (closed ");
                reveal_strlit(")");
                if x.len() == 0 && it.closed_on is Some {
                    assert(writer::tail_text(it).last() == ')');
                }
            }
        } else {
            let m = lemma_later_leads(it, 0, x);
        }
        lemma_trim_end_keeps(seq![' '], body);
        assert(text::trim_end(b) == seq![' '] + x);
        assert(line =~= cb + x);
        lemma_read_checkbox(it.open, x);
    }
}

/// Trimming the end does not reach what stands before text that is more than
/// white space.
proof fn lemma_trim_end_keeps(a: Seq<char>, b: Seq<char>)
    requires
        text::trim_end(b).len() > 0,
    ensures
        text::trim_end(a + b) == a + text::trim_end(b),
    decreases b.len(),
{
    assert((a + b).last() == b.last());
    if text::is_space(b.last()) {
        assert((a + b).drop_last() =~= a + b.drop_last());
        lemma_trim_end_keeps(a, b.drop_last());
    }
}

/// Marker by marker, the reader agrees with the item, unless the subject
/// begins like a marker that the item lacks.
proof fn lemma_step(it: model::ItemView, k: int, x: Seq<char>)
    requires
        well_shaped(it),
        0 <= k < 7,
        seen(x, rest(it, k)),
    ensures
        ({
            ||| {
                &&& agrees(it, x, k)
                &&& seen(left_after(x, k), rest(it, k + 1))
                &&& bare_from(it, k) ==> !begins_marker(writer::tail_text(it), k)
            }
            ||| {
                &&& bare_from(it, k)
                &&& begins_marker(writer::tail_text(it), k)
                &&& left_after(x, k).len() + 3 <= writer::tail_text(it).len()
            }
        }),
{
    if present(it, k) {
        lemma_read_present(it, k, x);
    } else {
        lemma_read_absent(it, k, x);
        if begins_marker(x, k) {
            lemma_left_len(x, k);
        } else if bare_from(it, k) {
            lemma_bare_rest(it, k);
            lemma_tail_no_marker(it, k, x);
        }
    }
}

/// If the reader sees no marker in the subject, there is none.
proof fn lemma_tail_no_marker(it: model::ItemView, k: int, x: Seq<char>)
    requires
        well_shaped(it),
        0 <= k < 8,
        seen(x, writer::tail_text(it)),
        !begins_marker(x, k),
    ensures
        !begins_marker(writer::tail_text(it), k),
{
    lemma_seen_tail(it, x);
    if x != writer::tail_text(it) {
        reveal_strlit(" (closed ");
        let t = writer::tail_text(it);
        assert(t[0] == ' ');
        lemma_no_bracket(t, k);
    }
}

/// The evidence and the subject.
proof fn lemma_last_step(it: model::ItemView, x: Seq<char>)
    requires
        well_shaped(it),
        seen(x, rest(it, 7)),
    ensures
        ({
            ||| {
                &&& agrees(it, x, 7)
                &&& seen(left_after(x, 7), writer::tail_text(it))
                &&& !begins_marker(writer::tail_text(it), 7)
            }
            ||| {
                &&& begins_marker(writer::tail_text(it), 7)
                &&& left_after(x, 7).len() + 3 <= writer::tail_text(it).len()
            }
        }),
{
    let tail = writer::tail_text(it);
    assert(rest(it, 7) == part(it, 7) + rest(it, 8));
    let y = lemma_read_evidence(it.evidence, tail, x);
    lemma_seen_tail(it, y);
    lemma_left_len(y, 7);
    if begins_marker(y, 7) {
        if y != tail {
            lemma_no_bracket(y, 7);
        }
    } else {
        assert(it.evidence + Seq::<Seq<char>>::empty() =~= it.evidence);
        lemma_tail_no_marker(it, 7, y);
    }
}

/// The lane is read from the tag at the start of the subject.
proof fn lemma_lane_seen(it: model::ItemView, x: Seq<char>)
    requires
        well_shaped(it),
        seen(x, writer::tail_text(it)),
    ensures
        parser::read_lane(x) == parser::read_lane(writer::tail_text(it)),
{
    lemma_seen_tail(it, x);
    if x != writer::tail_text(it) {
        reveal_strlit("[lane:");
        reveal_strlit(" (closed ");
        assert(writer::tail_text(it)[0] == ' ');
        lemma_no_prefix(x, "[lane:"@, 0);
        lemma_no_prefix(writer::tail_text(it), "[lane:"@, 0);
    }
}

/// Splitting off the annotation leaves no more than there was.
proof fn lemma_split_len(s: Seq<char>)
    ensures
        ({
            let (subject, closed) = parser::split_closed(s);
            text::trim(subject).len() + writer::closed_text(closed).len() <= s.len() + 1
        }),
{
    reveal_strlit(" (closed ");
    reveal_strlit("closed ");
    reveal_strlit(")");
    let t = text::trim_end(s);
    text::lemma_trim_end_prefix(s);
    let (subject, closed) = parser::split_closed(s);
    text::lemma_trim_end_prefix(subject);
    text::lemma_trim_start_suffix(text::trim_end(subject));
    text::lemma_rfind(t, '(');
    if closed is Some {
        let o = text::rfind(t, '(')->0;
        text::lemma_trim_end_prefix(t.take(o));
    }
}

/// The eight readings, one after the other.
spec fn left(x: Seq<char>, k: int) -> Seq<char>
    decreases k,
{
    if k <= 0 {
        x
    } else {
        left_after(left(x, k - 1), k - 1)
    }
}

/// The reading of a body, marker by marker.
proof fn lemma_body_agrees(it: model::ItemView, x: Seq<char>, line: nat)
    requires
        well_shaped(it),
    ensures
        parser::read_body(x, it.open, line, it.priority) == (model::ItemView { line, ..it }) <==> {
            &&& forall|k: int| 0 <= k < 8 ==> #[trigger] agrees(it, left(x, k), k)
            &&& text::trim(parser::split_closed(left(x, 8)).0) == it.subject
            &&& parser::split_closed(left(x, 8)).1 == it.closed_on
            &&& parser::read_lane(left(x, 8)) == it.lane
        },
{
    reveal_with_fuel(left, 9);
    let r = parser::read_body(x, it.open, line, it.priority);
    let all = forall|k: int| 0 <= k < 8 ==> #[trigger] agrees(it, left(x, k), k);
    if all {
        assert(agrees(it, left(x, 0), 0));
        assert(agrees(it, left(x, 1), 1));
        assert(agrees(it, left(x, 2), 2));
        assert(agrees(it, left(x, 3), 3));
        assert(agrees(it, left(x, 4), 4));
        assert(agrees(it, left(x, 5), 5));
        assert(agrees(it, left(x, 6), 6));
        assert(agrees(it, left(x, 7), 7));
    }
    if r == (model::ItemView { line, ..it }) {
        assert forall|k: int| 0 <= k < 8 implies #[trigger] agrees(it, left(x, k), k) by {
            if k == 0 {
            } else if k == 1 {
            } else if k == 2 {
            } else if k == 3 {
            } else if k == 4 {
            } else if k == 5 {
            } else if k == 6 {
            } else {
            }
        }
    }
}

/// As far as the subject is not mistaken for a marker, the reader follows the
/// writer.
proof fn lemma_follow(it: model::ItemView, x: Seq<char>, k: int)
    requires
        well_shaped(it),
        0 <= k <= 7,
        seen(x, rest(it, 0)),
        forall|j: int|
            0 <= j < k && bare_from(it, j) ==> !#[trigger] begins_marker(writer::tail_text(it), j),
    ensures
        seen(left(x, k), rest(it, k)),
        forall|j: int| 0 <= j < k ==> #[trigger] agrees(it, left(x, j), j),
    decreases k,
{
    if k > 0 {
        lemma_follow(it, x, k - 1);
        lemma_step(it, k - 1, left(x, k - 1));
    }
}

/// Less is left at every step.
proof fn lemma_left_shrinks(x: Seq<char>, i: int, k: int)
    requires
        0 <= i <= k <= 8,
    ensures
        left(x, k).len() <= left(x, i).len(),
    decreases k - i,
{
    if i < k {
        lemma_left_shrinks(x, i, k - 1);
        lemma_left_len(left(x, k - 1), k - 1);
    }
}

/// A well-shaped item is read back from its line, with every part as it was,
/// exactly if nothing about it is ambiguous there.
pub proof fn law_item_reads_back(it: model::ItemView, line: nat)
    requires
        well_shaped(it),
    ensures
        reads_back(it, line) <==> unambiguous(it),
{
    let jt = stored(it);
    assert forall|k: int| #[trigger] present(jt, k) == present(it, k) by {}
    assert forall|k: int| #[trigger] bare_from(jt, k) == bare_from(it, k) by {
        if bare_from(it, k) {
            assert forall|j: int| k <= j < 8 implies !#[trigger] present(jt, j) by {
                assert(!present(it, j));
            }
        }
        if bare_from(jt, k) {
            assert forall|j: int| k <= j < 8 implies !#[trigger] present(it, j) by {
                assert(!present(jt, j));
            }
        }
    }
    assert(subject_is_no_marker(jt) == subject_is_no_marker(it));
    lemma_stored_reads_back(jt, line);
}

proof fn lemma_stored_reads_back(it: model::ItemView, line: nat)
    requires
        well_shaped(it),
        it.lane == parser::read_lane(writer::tail_text(it)),
    ensures
        reads_back(it, line) <==> unambiguous(it),
{
    lemma_trimmed_line(it);
    let tail = writer::tail_text(it);
    if !blank(it) {
        let x = text::trim_end(rest(it, 0));
        lemma_body_agrees(it, x, line);
        if subject_is_no_marker(it) {
            lemma_follow(it, x, 7);
            lemma_last_step(it, left(x, 7));
            let y = left(x, 8);
            assert(y == left_after(left(x, 7), 7));
            assert(seen(y, tail));
            lemma_split_tail(it, y);
            lemma_lane_seen(it, y);
        } else {
            // The marker taken from the subject is missing at its end.
            lemma_split_len(left(x, 8));
            lemma_mistaken(it, x, 0);
            if reads_back(it, line) {
                assert(text::trim(parser::split_closed(left(x, 8)).0) == it.subject);
                assert(false);
            }
        }
    }
}

/// An item whose line gives its subject and its closing date is unambiguous.
pub proof fn lemma_read_as_itself(it: model::ItemView, line: nat)
    requires
        well_shaped(it),
        parser::read_item(text::trim_end(writer::item_text(it)), line, Some(it.priority)) matches Some(
            got,
        ) && got.subject == it.subject && got.closed_on == it.closed_on,
    ensures
        unambiguous(it),
{
    lemma_trimmed_line(it);
    let x = text::trim_end(rest(it, 0));
    assert(text::trim(parser::split_closed(left(x, 8)).0) == it.subject
        && parser::split_closed(left(x, 8)).1 == it.closed_on) by {
        reveal_with_fuel(left, 9);
    }
    if !subject_is_no_marker(it) {
        lemma_split_len(left(x, 8));
        lemma_mistaken(it, x, 0);
    }
}

/// What is read is not blank.
pub proof fn lemma_read_not_blank(raw: Seq<char>, line: nat, level: u32)
    ensures
        parser::read_item(text::trim_end(raw), line, Some(level)) matches Some(it) ==> !blank(it),
{
    let s = text::trim_end(raw);
    let y = text::trim_start(s);
    if let Some((open, body)) = parser::read_checkbox(y) {
        let it = parser::read_body(body, open, line, level);
        reveal_strlit("- [ ] ");
        reveal_strlit("- [x] ");
        reveal_strlit("- [X] ");
        text::lemma_trim_end_prefix(raw);
        text::lemma_trim_start_suffix(s);
        assert(y.last() == s.last());
        assert(y.len() >= 6 && body == y.skip(6));
        assert(body.len() > 0 && !text::is_space(body.last())) by {
            if body.len() == 0 {
                assert(y.take(6) =~= y);
            }
        }
        if bare_from(it, 0) {
            assert(!present(it, 0) && !present(it, 1) && !present(it, 2) && !present(it, 3)
                && !present(it, 4) && !present(it, 5) && !present(it, 6) && !present(it, 7));
            assert(text::trim_end(body) == body);
            text::lemma_trim_start_suffix(body);
            if it.closed_on is None {
                assert(it.subject == text::trim(body));
                if it.subject.len() == 0 {
                    lemma_all_space(body);
                }
            } else {
                reveal_strlit(" (closed ");
            }
        }
    }
}

/// Text that trimming leaves nothing of ends in white space.
proof fn lemma_all_space(s: Seq<char>)
    requires
        s.len() > 0,
        text::trim_start(s).len() == 0,
    ensures
        text::is_space(s.last()),
    decreases s.len(),
{
    if s.len() > 1 {
        lemma_all_space(s.skip(1));
    }
}

/// The line of an item that is not blank is read as an item, open or closed
/// as it was, and if it was seen by a sweep, as of then.
pub proof fn lemma_seen_stays_seen(it: model::ItemView, line: nat)
    requires
        well_shaped(it),
        !blank(it),
    ensures
        parser::read_item(text::trim_end(writer::item_text(it)), line, Some(it.priority)) matches Some(
            got,
        ) && got.open == it.open && (it.first_seen_open is Some ==> got.first_seen_open
            == it.first_seen_open),
{
    lemma_trimmed_line(it);
    if it.first_seen_open is Some {
        let x = text::trim_end(rest(it, 0));
        assert(present(it, 5));
        lemma_follow(it, x, 6);
        assert(agrees(it, left(x, 5), 5));
        reveal_with_fuel(left, 6);
    }
}

/// The markers of `it` are all on `jt` too.
pub open spec fn marked_as(it: model::ItemView, jt: model::ItemView) -> bool {
    forall|k: int| 0 <= k < 8 && present(it, k) ==> #[trigger] present(jt, k)
}

/// Markers that come before a subject make it no more ambiguous, nor does a
/// closing annotation that comes after it.
pub proof fn lemma_stays_unambiguous(it: model::ItemView, jt: model::ItemView)
    requires
        unambiguous(it),
        marked_as(it, jt),
        jt.subject == it.subject,
        jt.closed_on == it.closed_on || (it.closed_on is None && (jt.closed_on matches Some(d)
            && calendar::date_shape(d))),
    ensures
        unambiguous(jt),
{
    let tail = writer::tail_text(it);
    assert forall|k: int| #[trigger] bare_from(jt, k) && 0 <= k implies bare_from(it, k) by {
        assert forall|j: int| k <= j < 8 implies !#[trigger] present(it, j) by {
            assert(!present(jt, j));
        }
    }
    assert forall|k: int| 0 <= k < 8 && #[trigger] begins_marker(
        writer::tail_text(jt),
        k,
    ) implies begins_marker(tail, k) by {
        if let Some(d) = jt.closed_on {
            if it.closed_on is None {
                assert(tail =~= it.subject);
                lemma_annotation_begins_nothing(it.subject, d, k);
            }
        }
    }
}

proof fn lemma_annotation_begins_nothing(s: Seq<char>, d: Seq<char>, k: int)
    requires
        calendar::date_shape(d),
        0 <= k < 8,
        begins_marker(s + writer::closed_text(Some(d)), k),
    ensures
        begins_marker(s, k),
{
    if k == 0 {
        lemma_field_ends_before(s, d, "[#"@);
    } else if k == 1 {
        reveal_strlit("[idle-ok-suggest]");
        reveal_strlit("[idle-ok]");
        lemma_flag_ends_before(s, d, "[idle-ok-suggest]"@);
        lemma_flag_ends_before(s, d, "[idle-ok]"@);
    } else if k == 2 {
        reveal_strlit("[park-suggest]");
        reveal_strlit("[parked]");
        lemma_flag_ends_before(s, d, "[park-suggest]"@);
        lemma_flag_ends_before(s, d, "[parked]"@);
    } else if k == 3 {
        lemma_field_ends_before(s, d, "[released "@);
    } else if k == 4 {
        lemma_field_ends_before(s, d, "[created "@);
    } else if k == 5 {
        lemma_field_ends_before(s, d, "[fseen "@);
    } else if k == 6 {
        reveal_strlit("[real]");
        lemma_flag_ends_before(s, d, "[real]"@);
    } else {
        lemma_field_ends_before(s, d, "[ev "@);
    }
}

/// A marker without blanks does not reach into the annotation.
proof fn lemma_flag_ends_before(s: Seq<char>, d: Seq<char>, marker: Seq<char>)
    requires
        free_of(marker, ' '),
    ensures
        parser::take_flag(s + writer::closed_text(Some(d)), marker) is Some ==> parser::take_flag(
            s,
            marker,
        ) is Some,
{
    reveal_strlit(" (closed ");
    let t = s + writer::closed_text(Some(d));
    let n = s.len() as int;
    if parser::take_flag(t, marker) is Some {
        if n < marker.len() {
            assert(t[n] == ' ');
            assert(t.take(marker.len() as int)[n] == marker[n]);
        }
        assert(s.take(marker.len() as int) =~= t.take(marker.len() as int));
    }
}

/// A marker with an argument does not reach into the annotation.
proof fn lemma_field_ends_before(s: Seq<char>, d: Seq<char>, opening: Seq<char>)
    requires
        calendar::date_shape(d),
    ensures
        parser::take_field(s + writer::closed_text(Some(d)), opening) matches Some((arg, rest))
            ==> parser::take_field(s, opening) matches Some((same, after)) && same == arg,
{
    reveal_strlit(" (closed ");
    reveal_strlit(")");
    let a = writer::closed_text(Some(d));
    let t = s + a;
    if let Some((arg, rest)) = parser::take_field(t, opening) {
        let m = opening.len() as int;
        let body = t.skip(m);
        text::lemma_find(body, ']');
        let end = text::find(body, ']')->0;
        assert(m + end < s.len()) by {
            if m + end >= s.len() {
                let j = m + end - s.len();
                assert(a[j] == ']');
                assert(a == " (closed "@ + d + ")"@);
                if 9 <= j < 19 {
                    assert(a[j] == d[j - 9]);
                    if j - 9 != 4 && j - 9 != 7 {
                        assert(decimal::is_digit(d[j - 9]));
                    }
                }
            }
        }
        assert(s.take(m) =~= t.take(m));
        let own = s.skip(m);
        assert forall|j: int| 0 <= j <= end implies own[j] == body[j] by {}
        text::lemma_find_at(own, ']', end);
        assert(own.take(end) =~= body.take(end));
    }
}

/// If the subject begins like a marker that is absent, the reader takes it.
proof fn lemma_mistaken(it: model::ItemView, x: Seq<char>, k: int)
    requires
        well_shaped(it),
        0 <= k <= 7,
        seen(x, rest(it, 0)),
        !subject_is_no_marker(it),
        forall|j: int|
            0 <= j < k && bare_from(it, j) ==> !#[trigger] begins_marker(writer::tail_text(it), j),
    ensures
        left(x, 8).len() + 3 <= writer::tail_text(it).len(),
    decreases 7 - k,
{
    let tail = writer::tail_text(it);
    lemma_follow(it, x, k);
    if k < 7 {
        lemma_step(it, k, left(x, k));
        if bare_from(it, k) && begins_marker(tail, k) {
            assert(left(x, k + 1) == left_after(left(x, k), k));
            lemma_left_shrinks(x, k + 1, 8);
        } else {
            lemma_mistaken(it, x, k + 1);
        }
    } else {
        lemma_last_step(it, left(x, 7));
        assert(left(x, 8) == left_after(left(x, 7), 7));
        assert(begins_marker(tail, 7)) by {
            if !begins_marker(tail, 7) {
                assert forall|j: int| 0 <= j < 8 && bare_from(it, j) implies !#[trigger] begins_marker(
                    tail,
                    j,
                ) by {}
            }
        }
    }
}

/// State that an item does not have leaves no mark: an item without any is
/// its checkbox, its subject and its closing annotation.
pub proof fn law_absent_state_leaves_no_mark(it: model::ItemView)
    ensures
        bare_from(it, 0) ==> writer::item_text(it) == writer::checkbox_text(it.open)
            + writer::tail_text(it),
        it.id.len() == 0 ==> writer::id_text(it.id).len() == 0,
        it.idle_ok == IdleOkState::Unset ==> writer::idle_text(it.idle_ok).len() == 0,
        it.park == ParkState::Active ==> writer::park_text(it.park).len() == 0,
        !it.released ==> writer::released_text(it.released, it.released_ts).len() == 0,
        it.created_ts is None ==> writer::field_text("[created "@, it.created_ts).len() == 0,
        it.first_seen_open is None ==> writer::field_text("[fseen "@, it.first_seen_open).len()
            == 0,
        !it.force_real ==> writer::real_text(it.force_real).len() == 0,
        it.evidence.len() == 0 ==> writer::evidence_text(it.evidence).len() == 0,
        it.closed_on is None ==> writer::closed_text(it.closed_on).len() == 0,
{
    lemma_body_is_rest(it);
    if bare_from(it, 0) {
        lemma_bare_rest(it, 0);
    }
}

/// The line of an item that has an id and no other state: its checkbox, the
/// id, the subject, and the day if it was closed.
pub proof fn law_lines_of_items(it: model::ItemView)
    requires
        it.id.len() > 0,
        bare_from(it, 1),
    ensures
        it.open && it.closed_on is None ==> writer::item_text(it) == "- [ ] [#"@ + it.id + "] "@
            + it.subject,
        !it.open && it.closed_on is Some ==> writer::item_text(it) == "- [x] [#"@ + it.id + "] "@
            + it.subject + " (closed "@ + it.closed_on->0 + ")"@,
{
    assert(!present(it, 1) && !present(it, 2) && !present(it, 3) && !present(it, 4) && !present(
        it,
        5,
    ) && !present(it, 6) && !present(it, 7));
    reveal_strlit("- [ ] ");
    reveal_strlit("- [x] ");
    reveal_strlit("- [ ] [#");
    reveal_strlit("- [x] [#");
    reveal_strlit("[#");
    assert("- [ ] [#"@ =~= "- [ ] "@ + "[#"@);
    assert("- [x] [#"@ =~= "- [x] "@ + "[#"@);
    let tail = writer::tail_text(it);
    let none = Seq::<char>::empty();
    assert(writer::evidence_text(it.evidence) =~= none);
    assert(writer::body_text(it) =~= writer::id_text(it.id) + tail);
    if it.open && it.closed_on is None {
        assert(writer::item_text(it) =~= "- [ ] [#"@ + it.id + "] "@ + it.subject);
    }
    if !it.open && it.closed_on is Some {
        assert(writer::item_text(it) =~= "- [x] [#"@ + it.id + "] "@ + it.subject + " (closed "@
            + it.closed_on->0 + ")"@);
    }
}

} // verus!
