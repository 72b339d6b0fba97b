//! The data model: one company's todo list and its items.
//!
//! Each type that holds text has a view over `Seq<char>`; the contracts speak
//! of the views.

use crate::decimal;
use crate::text;
use vstd::prelude::*;
use vstd::slice::*;

verus! {

/// Priority bucket, written `P0`, `P1`, ... in headings and in output.
#[derive(Debug, Clone, PartialEq, Eq, PartialOrd, Ord)]
pub struct Priority(pub u32);

/// The text of a priority bucket.
pub open spec fn priority_text(level: u32) -> Seq<char> {
    seq!['P'] + decimal::decimal(level as nat)
}

/// The bucket that a heading names.
pub open spec fn read_priority(s: Seq<char>) -> Option<u32> {
    if s.len() > 0 && s[0] == 'P' {
        decimal::read_u32(s.skip(1))
    } else {
        None
    }
}

impl Priority {
    /// The text form, `P` and the level.
    pub fn as_str(&self) -> (r: String)
        ensures
            r@ == priority_text(self.0),
    {
        let mut r: String = String::new();
        r.push('P');
        text::push_str(&mut r, decimal::decimal_of(self.0 as u64).as_str());
        assert(r@ =~= priority_text(self.0));
        r
    }

    /// Reads the text form; `None` unless it is `P` and a number.
    pub fn parse(s: &str) -> (r: Option<Self>)
        ensures
            match r {
                Some(p) => read_priority(s@) == Some(p.0),
                None => read_priority(s@) is None,
            },
    {
        let cs: Vec<char> = text::chars_of(s);
        Self::parse_chars(cs.as_slice())
    }

    /// Reads the text form from characters.
    pub fn parse_chars(s: &[char]) -> (r: Option<Self>)
        ensures
            match r {
                Some(p) => read_priority(s@) == Some(p.0),
                None => read_priority(s@) is None,
            },
    {
        let n: usize = s.len();
        if n == 0 || s[0] != 'P' {
            return None;
        }
        let rest: &[char] = slice_subrange(s, 1, n);
        assert(rest@ =~= s@.skip(1));
        match decimal::parse_u32(rest) {
            Some(level) => Some(Priority(level)),
            None => None,
        }
    }
}

/// Every bucket reads back from its text.
pub proof fn lemma_priority_reads_back(level: u32)
    ensures
        read_priority(priority_text(level)) == Some(level),
{
    decimal::lemma_decimal_reads_back(level as nat);
    assert(priority_text(level).skip(1) =~= decimal::decimal(level as nat));
}

/// Whether an item may be picked up without explicit authorization.
/// - `Unset`: it may not (the default); `none` on the wire.
/// - `Suggest`: suggested, not yet blessed.
/// - `Approved`: it may.
#[derive(Debug, Clone, Copy, PartialEq, Eq, Structural)]
pub enum IdleOkState {
    Unset,
    Suggest,
    Approved,
}

/// The wire name of an idle-ok state.
pub open spec fn idle_ok_name(s: IdleOkState) -> Seq<char> {
    match s {
        IdleOkState::Unset => "none"@,
        IdleOkState::Suggest => "suggest"@,
        IdleOkState::Approved => "approved"@,
    }
}

impl Default for IdleOkState {
    fn default() -> (r: Self)
        ensures
            r == IdleOkState::Unset,
    {
        IdleOkState::Unset
    }
}

impl IdleOkState {
    /// The wire name.
    pub fn as_str(&self) -> (r: &'static str)
        ensures
            r@ == idle_ok_name(*self),
            *self == IdleOkState::Unset ==> r@ == "none"@,
            *self == IdleOkState::Suggest ==> r@ == "suggest"@,
            *self == IdleOkState::Approved ==> r@ == "approved"@,
    {
        match self {
            IdleOkState::Unset => "none",
            IdleOkState::Suggest => "suggest",
            IdleOkState::Approved => "approved",
        }
    }

    /// Reads a wire name; an unknown one is answered with an error text.
    pub fn parse(s: &str) -> (r: Result<Self, String>)
        ensures
            match r {
                Ok(st) => s@ == idle_ok_name(st),
                Err(e) => {
                    &&& forall|st: IdleOkState| s@ != #[trigger] idle_ok_name(st)
                    &&& e@ == "unknown idle_ok state `"@ + s@ + "`"@
                },
            },
    {
        if text::same_text(s, "none") {
            Ok(IdleOkState::Unset)
        } else if text::same_text(s, "suggest") {
            Ok(IdleOkState::Suggest)
        } else if text::same_text(s, "approved") {
            Ok(IdleOkState::Approved)
        } else {
            Err(text::concat3("unknown idle_ok state `", s, "`"))
        }
    }
}

/// Whether an item is in the active list or in the backlog.
/// - `Active`: a live item (the default).
/// - `Suggested`: flagged as a park candidate; stays visible.
/// - `Parked`: in the backlog, hidden from the default list, not deleted.
#[derive(Debug, Clone, Copy, PartialEq, Eq, Structural)]
pub enum ParkState {
    Active,
    Suggested,
    Parked,
}

/// The wire name of a park state.
pub open spec fn park_name(s: ParkState) -> Seq<char> {
    match s {
        ParkState::Active => "active"@,
        ParkState::Suggested => "suggested"@,
        ParkState::Parked => "parked"@,
    }
}

impl Default for ParkState {
    fn default() -> (r: Self)
        ensures
            r == ParkState::Active,
    {
        ParkState::Active
    }
}

impl ParkState {
    /// The wire name.
    pub fn as_str(&self) -> (r: &'static str)
        ensures
            r@ == park_name(*self),
            *self == ParkState::Active ==> r@ == "active"@,
            *self == ParkState::Suggested ==> r@ == "suggested"@,
            *self == ParkState::Parked ==> r@ == "parked"@,
    {
        match self {
            ParkState::Active => "active",
            ParkState::Suggested => "suggested",
            ParkState::Parked => "parked",
        }
    }

    /// Reads a wire name; an unknown one is answered with an error text.
    pub fn parse(s: &str) -> (r: Result<Self, String>)
        ensures
            match r {
                Ok(st) => s@ == park_name(st),
                Err(e) => {
                    &&& forall|st: ParkState| s@ != #[trigger] park_name(st)
                    &&& e@ == "unknown park state `"@ + s@ + "`"@
                },
            },
    {
        if text::same_text(s, "active") {
            Ok(ParkState::Active)
        } else if text::same_text(s, "suggested") {
            Ok(ParkState::Suggested)
        } else if text::same_text(s, "parked") {
            Ok(ParkState::Parked)
        } else {
            Err(text::concat3("unknown park state `", s, "`"))
        }
    }
}

/// The states are told apart by their wire names.
pub proof fn law_wire_names(a: IdleOkState, b: IdleOkState, p: ParkState, q: ParkState)
    ensures
        idle_ok_name(a) == idle_ok_name(b) ==> a == b,
        park_name(p) == park_name(q) ==> p == q,
{
    reveal_strlit("none");
    reveal_strlit("suggest");
    reveal_strlit("approved");
    reveal_strlit("active");
    reveal_strlit("suggested");
    reveal_strlit("parked");
    assert("none"@.len() == 4 && "suggest"@.len() == 7 && "approved"@.len() == 8);
    assert("active"@.len() == 6 && "suggested"@.len() == 9 && "parked"@.len() == 6);
    assert("active"@[0] == 'a' && "parked"@[0] == 'p');
}

/// The parts of a `[lane:company/project/thread]` tag. The tag itself stays in
/// the subject; this is a parsed copy for counting and filtering.
#[derive(Debug, Clone, PartialEq, Eq)]
pub struct Lane {
    /// First path segment.
    pub company: String,
    /// Second path segment.
    pub project: String,
    /// Third path segment; `_` in the tag becomes `None`.
    pub component: Option<String>,
}

/// View of a [`Lane`].
pub struct LaneView {
    pub company: Seq<char>,
    pub project: Seq<char>,
    pub component: Option<Seq<char>>,
}

/// View of optional text.
pub open spec fn opt_text(s: Option<String>) -> Option<Seq<char>> {
    match s {
        Some(t) => Some(t@),
        None => None,
    }
}

/// View of a list of texts.
pub open spec fn texts(v: Seq<String>) -> Seq<Seq<char>> {
    v.map_values(|s: String| s@)
}

impl View for Lane {
    type V = LaneView;

    open spec fn view(&self) -> LaneView {
        LaneView {
            company: self.company@,
            project: self.project@,
            component: opt_text(self.component),
        }
    }
}

/// View of an optional lane.
pub open spec fn opt_lane(l: Option<Lane>) -> Option<LaneView> {
    match l {
        Some(x) => Some(x@),
        None => None,
    }
}

/// One todo item.
#[derive(Debug, Clone)]
pub struct Item {
    /// Opaque id, stable across reprioritization. Empty until back-filled.
    pub id: String,
    pub priority: Priority,
    pub subject: String,
    /// Whether the checkbox is `[ ]` rather than `[x]`.
    pub open: bool,
    /// 1-indexed source line. Not authoritative across edits.
    pub line: usize,
    /// The date of the `(closed YYYY-MM-DD)` annotation.
    pub closed_on: Option<String>,
    pub idle_ok: IdleOkState,
    pub park: ParkState,
    /// Whether the item was delivered externally; independent of `open`.
    pub released: bool,
    /// When it was released.
    pub released_ts: Option<String>,
    /// When it was created; `None` if unknown.
    pub created_ts: Option<String>,
    /// Parsed copy of the lane tag in `subject`.
    pub lane: Option<Lane>,
    /// When a sweep first saw the item open.
    pub first_seen_open: Option<String>,
    /// Never to be counted as churn.
    pub force_real: bool,
    /// Evidence references.
    pub evidence: Vec<String>,
}

/// View of an [`Item`].
pub struct ItemView {
    pub id: Seq<char>,
    pub priority: u32,
    pub subject: Seq<char>,
    pub open: bool,
    pub line: nat,
    pub closed_on: Option<Seq<char>>,
    pub idle_ok: IdleOkState,
    pub park: ParkState,
    pub released: bool,
    pub released_ts: Option<Seq<char>>,
    pub created_ts: Option<Seq<char>>,
    pub lane: Option<LaneView>,
    pub first_seen_open: Option<Seq<char>>,
    pub force_real: bool,
    pub evidence: Seq<Seq<char>>,
}

impl View for Item {
    type V = ItemView;

    open spec fn view(&self) -> ItemView {
        ItemView {
            id: self.id@,
            priority: self.priority.0,
            subject: self.subject@,
            open: self.open,
            line: self.line as nat,
            closed_on: opt_text(self.closed_on),
            idle_ok: self.idle_ok,
            park: self.park,
            released: self.released,
            released_ts: opt_text(self.released_ts),
            created_ts: opt_text(self.created_ts),
            lane: opt_lane(self.lane),
            first_seen_open: opt_text(self.first_seen_open),
            force_real: self.force_real,
            evidence: texts(self.evidence@),
        }
    }
}

/// View of a list of items.
pub open spec fn items_view(v: Seq<Item>) -> Seq<ItemView> {
    v.map_values(|i: Item| i@)
}

/// One scored item of a salience ranking.
#[derive(Debug, Clone, PartialEq, Eq)]
pub struct WeightedItem {
    pub id: String,
    pub subject: String,
    pub priority: String,
    pub created_ts: String,
    /// Age in seconds.
    pub age_secs: u64,
    /// Salience weight in hundredths.
    pub weight: u64,
}

/// View of a [`WeightedItem`].
pub struct WeightedView {
    pub id: Seq<char>,
    pub subject: Seq<char>,
    pub priority: Seq<char>,
    pub created_ts: Seq<char>,
    pub age_secs: u64,
    pub weight: u64,
}

impl View for WeightedItem {
    type V = WeightedView;

    open spec fn view(&self) -> WeightedView {
        WeightedView {
            id: self.id@,
            subject: self.subject@,
            priority: self.priority@,
            created_ts: self.created_ts@,
            age_secs: self.age_secs,
            weight: self.weight,
        }
    }
}

/// View of a list of scored items.
pub open spec fn weighted_view(v: Seq<WeightedItem>) -> Seq<WeightedView> {
    v.map_values(|w: WeightedItem| w@)
}

/// A salience ranking.
#[derive(Debug, Clone)]
pub struct WeightOutput {
    /// The time of the ranking.
    pub ts: String,
    pub company: String,
    /// How many items were asked for.
    pub top_n: usize,
    /// Open items with a creation time.
    pub scored_count: usize,
    /// Open items without one; they are not scored.
    pub unscored_count: usize,
    pub items: Vec<WeightedItem>,
}

/// Open items of one project, by bucket.
#[derive(Debug, Clone, Copy, PartialEq, Eq)]
pub struct ProjectCount {
    pub p0: usize,
    pub p1: usize,
    pub p2: usize,
    pub other: usize,
    pub total: usize,
}

/// Open items by project.
#[derive(Debug, Clone)]
pub struct CountByProjectOutput {
    pub company: String,
    /// The projects in ascending order of their keys: `company/project`, or
    /// `untagged` for items without a lane.
    pub projects: Vec<(String, ProjectCount)>,
}

/// Closes since a given time.
#[derive(Debug, Clone)]
pub struct StatsOutput {
    pub company: String,
    /// The time asked for.
    pub since: String,
    /// Closes that count.
    pub closed_real: usize,
    /// Closes that are churn.
    pub excluded_churn: usize,
    /// Closes that count because they were forced to.
    pub forced_real: usize,
    /// A line for the user.
    pub summary: String,
}

/// One company's complete todo list.
#[derive(Debug, Clone)]
pub struct Todos {
    pub version: u32,
    pub company: String,
    pub items: Vec<Item>,
    /// The lines before the first heading, kept verbatim.
    pub preamble: Vec<String>,
}

/// View of a [`Todos`].
pub struct TodosView {
    pub version: u32,
    pub company: Seq<char>,
    pub items: Seq<ItemView>,
    pub preamble: Seq<Seq<char>>,
}

impl View for Todos {
    type V = TodosView;

    open spec fn view(&self) -> TodosView {
        TodosView {
            version: self.version,
            company: self.company@,
            items: items_view(self.items@),
            preamble: texts(self.preamble@),
        }
    }
}

/// The place of the first item with the given id.
pub open spec fn position(items: Seq<ItemView>, id: Seq<char>) -> Option<int>
    decreases items.len(),
{
    if items.len() == 0 {
        None
    } else if items[0].id == id {
        Some(0)
    } else {
        match position(items.skip(1), id) {
            Some(i) => Some(i + 1),
            None => None,
        }
    }
}

/// The found place holds the id and no earlier one does.
pub proof fn lemma_position(items: Seq<ItemView>, id: Seq<char>)
    ensures
        match position(items, id) {
            Some(i) => 0 <= i < items.len() && items[i].id == id && forall|j: int|
                0 <= j < i ==> (#[trigger] items[j]).id != id,
            None => forall|j: int| 0 <= j < items.len() ==> (#[trigger] items[j]).id != id,
        },
    decreases items.len(),
{
    if items.len() > 0 && items[0].id != id {
        let t = items.skip(1);
        lemma_position(t, id);
        assert forall|j: int|
            0 <= j < items.len() && (position(t, id) matches Some(i) ==> j < i + 1) implies (
        #[trigger] items[j]).id != id by {
            if j > 0 {
                assert(items[j] == t[j - 1]);
            }
        }
    }
}

/// The items of one bucket, in order; only the open ones if asked.
pub open spec fn bucket(items: Seq<ItemView>, level: u32, open_only: bool) -> Seq<ItemView> {
    items.filter(|i: ItemView| i.priority == level && (!open_only || i.open))
}

/// View of a list of borrowed items.
pub open spec fn refs_view(v: Seq<&Item>) -> Seq<ItemView> {
    v.map_values(|i: &Item| i@)
}

impl Todos {
    /// A list without items or preamble.
    pub fn empty(company: &str) -> (r: Self)
        ensures
            r@ == (TodosView {
                version: 1,
                company: company@,
                items: Seq::empty(),
                preamble: Seq::empty(),
            }),
    {
        let r = Todos {
            version: 1,
            company: text::owned(company),
            items: Vec::new(),
            preamble: Vec::new(),
        };
        assert(r@.items =~= Seq::empty());
        assert(r@.preamble =~= Seq::empty());
        r
    }

    /// The index of the first item with the given id.
    pub fn index_of(&self, id: &str) -> (r: Option<usize>)
        ensures
            match r {
                Some(i) => i < self.items@.len() && position(self@.items, id@) == Some(i as int),
                None => position(self@.items, id@) is None,
            },
    {
        let n: usize = self.items.len();
        let mut i: usize = 0;
        while i < n
            invariant
                0 <= i <= n,
                n == self.items@.len(),
                forall|j: int| 0 <= j < i ==> (#[trigger] self@.items[j]).id != id@,
            decreases n - i,
        {
            assert(self@.items[i as int] == self.items@[i as int]@);
            if text::same_text(self.items[i].id.as_str(), id) {
                proof {
                    lemma_position(self@.items, id@);
                }
                return Some(i);
            }
            i = i + 1;
        }
        proof {
            lemma_position(self@.items, id@);
        }
        None
    }

    /// The first item with the given id.
    pub fn find(&self, id: &str) -> (r: Option<&Item>)
        ensures
            match position(self@.items, id@) {
                Some(i) => r matches Some(it) && *it == self.items@[i],
                None => r is None,
            },
    {
        proof {
            lemma_position(self@.items, id@);
        }
        match self.index_of(id) {
            Some(i) => Some(&self.items[i]),
            None => None,
        }
    }

    /// The first item with the given id, for change. Whatever becomes of it,
    /// the rest of the list stays.
    pub fn find_mut(&mut self, id: &str) -> (r: Option<&mut Item>)
        ensures
            match position(old(self)@.items, id@) {
                Some(i) => {
                    &&& r matches Some(it)
                    &&& *it == old(self).items@[i]
                    &&& final(self).items@ == old(self).items@.update(i, *final(it))
                    &&& final(self).version == old(self).version
                    &&& final(self).company == old(self).company
                    &&& final(self).preamble == old(self).preamble
                },
                None => r is None && *final(self) == *old(self),
            },
    {
        proof {
            lemma_position(self@.items, id@);
        }
        match self.index_of(id) {
            Some(i) => Some(&mut self.items[i]),
            None => None,
        }
    }

    /// All items of one bucket, in order. Closed items are left out if
    /// `open_only`.
    pub fn by_priority(&self, priority: &Priority, open_only: bool) -> (r: Vec<&Item>)
        ensures
            refs_view(r@) == bucket(self@.items, priority.0, open_only),
    {
        let n: usize = self.items.len();
        let mut r: Vec<&Item> = Vec::new();
        let mut i: usize = 0;
        let ghost keep = |i: ItemView| i.priority == priority.0 && (!open_only || i.open);
        let ghost all = self@.items;
        assert(refs_view(r@) =~= all.take(0).filter(keep)) by {
            assert(all.take(0) =~= Seq::empty());
            reveal(Seq::filter);
        }
        while i < n
            invariant
                0 <= i <= n,
                n == self.items@.len(),
                all == self@.items,
                keep == (|i: ItemView| i.priority == priority.0 && (!open_only || i.open)),
                refs_view(r@) == all.take(i as int).filter(keep),
            decreases n - i,
        {
            let it: &Item = &self.items[i];
            assert(all[i as int] == it@);
            proof {
                assert(all.take(i as int + 1).drop_last() =~= all.take(i as int));
                reveal(Seq::filter);
            }
            if it.priority.0 == priority.0 && (!open_only || it.open) {
                let ghost before = r@;
                r.push(it);
                assert(refs_view(r@) =~= refs_view(before).push(it@));
            }
            i = i + 1;
        }
        assert(all.take(n as int) =~= all);
        r
    }

    /// Whether some item has the given id.
    pub fn has_id(&self, id: &str) -> (r: bool)
        ensures
            r == (exists|j: int| 0 <= j < self@.items.len() && (#[trigger] self@.items[j]).id == id@),
    {
        proof {
            lemma_position(self@.items, id@);
        }
        self.index_of(id).is_some()
    }
}

} // verus!
