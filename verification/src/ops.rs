//! The operations on a todo list.
//!
//! Each takes the list in memory, changes it, and returns the audit entry of
//! the change, if one is due. Locking, loading, saving and the clock belong to
//! the caller.

use crate::calendar;
use crate::decimal;
use crate::model;
use crate::model::{IdleOkState, Item, ParkState, Priority, Todos};
use crate::paths;
use crate::text;
use crate::writer;
use vstd::prelude::*;

pub use crate::calendar::parse_iso8601_secs;
pub use crate::reports::{count_by_project, is_churn, stats, weight, PHASE_2A_EPOCH};

verus! {

// ---------------------------------------------------------------------------
// Errors and audit entries
// ---------------------------------------------------------------------------

/// Why an operation was refused.
#[derive(Debug, Clone, PartialEq, Eq)]
pub enum OpError {
    /// No item has the id.
    NotFound(String),
    /// An argument cannot be stored.
    InvalidInput(String),
}

/// View of an [`OpError`].
pub enum OpErrorView {
    NotFound(Seq<char>),
    InvalidInput(Seq<char>),
}

impl View for OpError {
    type V = OpErrorView;

    open spec fn view(&self) -> OpErrorView {
        match self {
            OpError::NotFound(m) => OpErrorView::NotFound(m@),
            OpError::InvalidInput(m) => OpErrorView::InvalidInput(m@),
        }
    }
}

impl OpError {
    /// The message for the user.
    pub fn message(&self) -> (r: String)
        ensures
            match self@ {
                OpErrorView::NotFound(m) => r@ == m,
                OpErrorView::InvalidInput(m) => r@ == m,
            },
    {
        match self {
            OpError::NotFound(m) => text::owned(m.as_str()),
            OpError::InvalidInput(m) => text::owned(m.as_str()),
        }
    }
}

/// What the audit log records of a change, but for who, when and whose list.
#[derive(Debug, Clone, PartialEq, Eq)]
pub struct AuditEntry {
    pub op: &'static str,
    pub id: String,
    pub from: Option<String>,
    pub to: Option<String>,
    pub subject: Option<String>,
}

/// View of an [`AuditEntry`].
pub struct AuditView {
    pub op: Seq<char>,
    pub id: Seq<char>,
    pub from: Option<Seq<char>>,
    pub to: Option<Seq<char>>,
    pub subject: Option<Seq<char>>,
}

impl View for AuditEntry {
    type V = AuditView;

    open spec fn view(&self) -> AuditView {
        AuditView {
            op: self.op@,
            id: self.id@,
            from: model::opt_text(self.from),
            to: model::opt_text(self.to),
            subject: model::opt_text(self.subject),
        }
    }
}

/// An entry that names the operation and the item only.
pub open spec fn plain_entry(op: Seq<char>, id: Seq<char>) -> AuditView {
    AuditView { op, id, from: None, to: None, subject: None }
}

fn entry(op: &'static str, id: &str) -> (r: AuditEntry)
    ensures
        r@ == plain_entry(op@, id@),
        r.op@ == op@,
        r.id@ == id@,
        r.from is None,
        r.to is None,
        r.subject is None,
{
    AuditEntry { op, id: text::owned(id), from: None, to: None, subject: None }
}

/// The refusal of most operations on an id that no item has.
pub open spec fn named_not_found(id: Seq<char>) -> OpErrorView {
    OpErrorView::NotFound("id `"@ + id + "` not found"@)
}

/// The refusal of `reprioritize`, `done` and `reopen` on such an id.
pub open spec fn not_found() -> OpErrorView {
    OpErrorView::NotFound("id not found"@)
}

fn named_missing(id: &str) -> (r: OpError)
    ensures
        r@ == named_not_found(id@),
{
    OpError::NotFound(text::concat3("id `", id, "` not found"))
}

fn missing() -> (r: OpError)
    ensures
        r@ == not_found(),
{
    OpError::NotFound(text::owned("id not found"))
}

// ---------------------------------------------------------------------------
// Changes to one item
// ---------------------------------------------------------------------------

/// The list with `f` applied to the first item that has the id.
pub open spec fn edit(
    t: model::TodosView,
    id: Seq<char>,
    f: spec_fn(model::ItemView) -> model::ItemView,
) -> Option<model::TodosView> {
    match model::position(t.items, id) {
        Some(i) => Some(model::TodosView { items: t.items.update(i, f(t.items[i])), ..t }),
        None => None,
    }
}

/// What an operation on one item comes to: the list is changed by `f` and the
/// audit entry is `done`, or there is no such item, the list is unchanged and
/// the error is `refused`.
pub open spec fn edits(
    before: model::TodosView,
    after: model::TodosView,
    id: Seq<char>,
    f: spec_fn(model::ItemView) -> model::ItemView,
    r: Result<AuditEntry, OpError>,
    done: AuditView,
    refused: OpErrorView,
) -> bool {
    match edit(before, id, f) {
        Some(t) => after == t && (r matches Ok(e) && e@ == done),
        None => after == before && (r matches Err(e) && e@ == refused),
    }
}

/// The views after one item was replaced.
proof fn lemma_replaced(before: Todos, after: Todos, i: int, it: Item)
    requires
        0 <= i < before.items@.len(),
        after.items@ == before.items@.update(i, it),
        after.version == before.version,
        after.company == before.company,
        after.preamble == before.preamble,
    ensures
        after@ == (model::TodosView { items: before@.items.update(i, it@), ..before@ }),
{
    assert(model::items_view(after.items@) =~= model::items_view(before.items@).update(i, it@));
}

/// The item may be picked up.
pub open spec fn blessed(it: model::ItemView) -> model::ItemView {
    model::ItemView { idle_ok: IdleOkState::Approved, ..it }
}

/// Blesses an item: it may be picked up without explicit authorization.
pub fn bless(todos: &mut Todos, id: &str) -> (r: Result<AuditEntry, OpError>)
    ensures
        edits(
            old(todos)@,
            final(todos)@,
            id@,
            |it: model::ItemView| blessed(it),
            r,
            plain_entry("bless"@, id@),
            named_not_found(id@),
        ),
        r is Ok ==> {
            let i = model::position(old(todos)@.items, id@)->0;
            let it = final(todos)@.items[i];
            &&& it.id == id@
            &&& it.idle_ok == IdleOkState::Approved
        },
{
    let ghost before = *todos;
    proof {
        model::lemma_position(todos@.items, id@);
    }
    match todos.find_mut(id) {
        Some(item) => {
            item.idle_ok = IdleOkState::Approved;
        },
        None => {
            return Err(named_missing(id));
        },
    }
    proof {
        let i = model::position(before@.items, id@)->0;
        lemma_replaced(before, *todos, i, todos.items@[i]);
    }
    Ok(entry("bless", id))
}

/// The item is delivered, at the given time.
pub open spec fn released_at(it: model::ItemView, ts: Seq<char>) -> model::ItemView {
    model::ItemView { released: true, released_ts: Some(ts), ..it }
}

/// The item is not delivered.
pub open spec fn unreleased(it: model::ItemView) -> model::ItemView {
    model::ItemView { released: false, released_ts: None, ..it }
}

/// Marks an item released now (seconds since the start of 1970).
pub fn release(todos: &mut Todos, id: &str, now: u64) -> (r: Result<AuditEntry, OpError>)
    ensures
        edits(
            old(todos)@,
            final(todos)@,
            id@,
            |it: model::ItemView| released_at(it, calendar::iso_text(now as nat)),
            r,
            (AuditView {
                subject: Some(calendar::iso_text(now as nat)),
                ..plain_entry("release"@, id@)
            }),
            named_not_found(id@),
        ),
        r is Ok ==> {
            let i = model::position(old(todos)@.items, id@)->0;
            let it = final(todos)@.items[i];
            &&& it.id == id@
            &&& it.released
            &&& it.released_ts == Some(calendar::iso_text(now as nat))
        },
{
    let ghost before = *todos;
    proof {
        model::lemma_position(todos@.items, id@);
    }
    let ts: String = calendar::current_iso8601(now);
    match todos.find_mut(id) {
        Some(item) => {
            item.released = true;
            item.released_ts = Some(text::owned(ts.as_str()));
        },
        None => {
            return Err(named_missing(id));
        },
    }
    proof {
        let i = model::position(before@.items, id@)->0;
        lemma_replaced(before, *todos, i, todos.items@[i]);
    }
    let mut e: AuditEntry = entry("release", id);
    e.subject = Some(ts);
    Ok(e)
}

/// Takes a release back.
pub fn unrelease(todos: &mut Todos, id: &str) -> (r: Result<AuditEntry, OpError>)
    ensures
        edits(
            old(todos)@,
            final(todos)@,
            id@,
            |it: model::ItemView| unreleased(it),
            r,
            plain_entry("unrelease"@, id@),
            named_not_found(id@),
        ),
        r is Ok ==> {
            let i = model::position(old(todos)@.items, id@)->0;
            let it = final(todos)@.items[i];
            &&& it.id == id@
            &&& !it.released
            &&& it.released_ts is None
        },
{
    let ghost before = *todos;
    proof {
        model::lemma_position(todos@.items, id@);
    }
    match todos.find_mut(id) {
        Some(item) => {
            item.released = false;
            item.released_ts = None;
        },
        None => {
            return Err(named_missing(id));
        },
    }
    proof {
        let i = model::position(before@.items, id@)->0;
        lemma_replaced(before, *todos, i, todos.items@[i]);
    }
    Ok(entry("unrelease", id))
}

/// The item in the given park state.
pub open spec fn park_set(it: model::ItemView, park: ParkState) -> model::ItemView {
    model::ItemView { park, ..it }
}

/// Moves an item to the backlog: it is hidden from the default list, not
/// deleted.
pub fn park(todos: &mut Todos, id: &str) -> (r: Result<AuditEntry, OpError>)
    ensures
        edits(
            old(todos)@,
            final(todos)@,
            id@,
            |it: model::ItemView| park_set(it, ParkState::Parked),
            r,
            plain_entry("park"@, id@),
            named_not_found(id@),
        ),
        r is Ok ==> {
            let i = model::position(old(todos)@.items, id@)->0;
            let it = final(todos)@.items[i];
            &&& it.id == id@
            &&& it.park == ParkState::Parked
        },
{
    let ghost before = *todos;
    proof {
        model::lemma_position(todos@.items, id@);
    }
    match todos.find_mut(id) {
        Some(item) => {
            item.park = ParkState::Parked;
        },
        None => {
            return Err(named_missing(id));
        },
    }
    proof {
        let i = model::position(before@.items, id@)->0;
        lemma_replaced(before, *todos, i, todos.items@[i]);
    }
    Ok(entry("park", id))
}

/// Moves an item back from the backlog.
pub fn unpark(todos: &mut Todos, id: &str) -> (r: Result<AuditEntry, OpError>)
    ensures
        edits(
            old(todos)@,
            final(todos)@,
            id@,
            |it: model::ItemView| park_set(it, ParkState::Active),
            r,
            plain_entry("unpark"@, id@),
            named_not_found(id@),
        ),
        r is Ok ==> {
            let i = model::position(old(todos)@.items, id@)->0;
            let it = final(todos)@.items[i];
            &&& it.id == id@
            &&& it.park == ParkState::Active
        },
{
    let ghost before = *todos;
    proof {
        model::lemma_position(todos@.items, id@);
    }
    match todos.find_mut(id) {
        Some(item) => {
            item.park = ParkState::Active;
        },
        None => {
            return Err(named_missing(id));
        },
    }
    proof {
        let i = model::position(before@.items, id@)->0;
        lemma_replaced(before, *todos, i, todos.items@[i]);
    }
    Ok(entry("unpark", id))
}

/// Flags an item as a candidate for the backlog. It stays visible.
pub fn park_suggest(todos: &mut Todos, id: &str) -> (r: Result<AuditEntry, OpError>)
    ensures
        edits(
            old(todos)@,
            final(todos)@,
            id@,
            |it: model::ItemView| park_set(it, ParkState::Suggested),
            r,
            plain_entry("park-suggest"@, id@),
            named_not_found(id@),
        ),
        r is Ok ==> {
            let i = model::position(old(todos)@.items, id@)->0;
            let it = final(todos)@.items[i];
            &&& it.id == id@
            &&& it.park == ParkState::Suggested
        },
{
    let ghost before = *todos;
    proof {
        model::lemma_position(todos@.items, id@);
    }
    match todos.find_mut(id) {
        Some(item) => {
            item.park = ParkState::Suggested;
        },
        None => {
            return Err(named_missing(id));
        },
    }
    proof {
        let i = model::position(before@.items, id@)->0;
        lemma_replaced(before, *todos, i, todos.items@[i]);
    }
    Ok(entry("park-suggest", id))
}

/// The item with one more evidence reference.
pub open spec fn with_evidence(it: model::ItemView, reference: Seq<char>) -> model::ItemView {
    model::ItemView { evidence: it.evidence.push(reference), ..it }
}

/// The item without evidence.
pub open spec fn without_evidence(it: model::ItemView) -> model::ItemView {
    model::ItemView { evidence: Seq::empty(), ..it }
}

/// The refusal of a reference that would end its marker early.
pub open spec fn bad_reference() -> OpErrorView {
    OpErrorView::InvalidInput("evidence ref must not contain ']'"@)
}

/// Appends an evidence reference. It must not contain `]`, which would end its
/// marker; such a reference is refused whether or not the item is there.
pub fn evidence_add(todos: &mut Todos, id: &str, reference: &str) -> (r: Result<AuditEntry, OpError>)
    ensures
        reference@.contains(']') ==> final(todos)@ == old(todos)@ && (r matches Err(e) && e@
            == bad_reference()),
        !reference@.contains(']') ==> edits(
            old(todos)@,
            final(todos)@,
            id@,
            |it: model::ItemView| with_evidence(it, reference@),
            r,
            (AuditView {
                subject: Some(reference@),
                ..plain_entry("evidence_add"@, id@)
            }),
            named_not_found(id@),
        ),
        r is Ok ==> {
            let i = model::position(old(todos)@.items, id@)->0;
            let it = final(todos)@.items[i];
            &&& it.id == id@
            &&& it.evidence.len() > 0
            &&& it.evidence.last() == reference@
        },
{
    let ghost before = *todos;
    proof {
        model::lemma_position(todos@.items, id@);
    }
    let cs: Vec<char> = text::chars_of(reference);
    proof {
        text::lemma_find(reference@, ']');
    }
    if text::find_char(cs.as_slice(), ']').is_some() {
        return Err(OpError::InvalidInput(text::owned("evidence ref must not contain ']'")));
    }
    match todos.find_mut(id) {
        Some(item) => {
            item.evidence.push(text::owned(reference));
        },
        None => {
            return Err(named_missing(id));
        },
    }
    proof {
        let i = model::position(before@.items, id@)->0;
        assert(todos.items@[i]@ == with_evidence(before.items@[i]@, reference@)) by {
            assert(model::texts(todos.items@[i].evidence@) =~= model::texts(
                before.items@[i].evidence@,
            ).push(reference@));
        }
        lemma_replaced(before, *todos, i, todos.items@[i]);
    }
    let mut e: AuditEntry = entry("evidence_add", id);
    e.subject = Some(text::owned(reference));
    Ok(e)
}

/// Drops all evidence references of an item.
pub fn evidence_clear(todos: &mut Todos, id: &str) -> (r: Result<AuditEntry, OpError>)
    ensures
        edits(
            old(todos)@,
            final(todos)@,
            id@,
            |it: model::ItemView| without_evidence(it),
            r,
            plain_entry("evidence_clear"@, id@),
            named_not_found(id@),
        ),
        r is Ok ==> {
            let i = model::position(old(todos)@.items, id@)->0;
            let it = final(todos)@.items[i];
            &&& it.id == id@
            &&& it.evidence.len() == 0
        },
{
    let ghost before = *todos;
    proof {
        model::lemma_position(todos@.items, id@);
    }
    match todos.find_mut(id) {
        Some(item) => {
            item.evidence.clear();
        },
        None => {
            return Err(named_missing(id));
        },
    }
    proof {
        let i = model::position(before@.items, id@)->0;
        assert(model::texts(todos.items@[i].evidence@) =~= Seq::empty());
        lemma_replaced(before, *todos, i, todos.items@[i]);
    }
    Ok(entry("evidence_clear", id))
}

/// The item in another bucket.
pub open spec fn moved(it: model::ItemView, level: u32) -> model::ItemView {
    model::ItemView { priority: level, ..it }
}

/// The text of the bucket that the item with the id is in.
pub open spec fn bucket_of(t: model::TodosView, id: Seq<char>) -> Seq<char> {
    match model::position(t.items, id) {
        Some(i) => model::priority_text(t.items[i].priority),
        None => Seq::empty(),
    }
}

/// Moves an item to another bucket.
pub fn reprioritize(todos: &mut Todos, id: &str, target: Priority) -> (r: Result<AuditEntry, OpError>)
    ensures
        edits(
            old(todos)@,
            final(todos)@,
            id@,
            |it: model::ItemView| moved(it, target.0),
            r,
            (AuditView {
                from: Some(bucket_of(old(todos)@, id@)),
                to: Some(model::priority_text(target.0)),
                ..plain_entry("reprioritize"@, id@)
            }),
            not_found(),
        ),
        r is Ok ==> {
            let i = model::position(old(todos)@.items, id@)->0;
            let it = final(todos)@.items[i];
            &&& it.id == id@
            &&& it.priority == target.0
        },
{
    let ghost before = *todos;
    proof {
        model::lemma_position(todos@.items, id@);
    }
    let from: String;
    match todos.find_mut(id) {
        Some(item) => {
            from = item.priority.as_str();
            item.priority = Priority(target.0);
        },
        None => {
            return Err(missing());
        },
    }
    proof {
        let i = model::position(before@.items, id@)->0;
        lemma_replaced(before, *todos, i, todos.items@[i]);
    }
    let mut e: AuditEntry = entry("reprioritize", id);
    e.from = Some(from);
    e.to = Some(target.as_str());
    Ok(e)
}

/// The item closed on the given day.
pub open spec fn closed(it: model::ItemView, day: Seq<char>, force_real: bool) -> model::ItemView {
    model::ItemView {
        open: false,
        closed_on: Some(day),
        force_real: it.force_real || force_real,
        ..it
    }
}

/// The item opened again.
pub open spec fn reopened(it: model::ItemView) -> model::ItemView {
    model::ItemView { open: true, closed_on: None, ..it }
}

/// Closes an item today; with `force_real` it never counts as churn.
pub fn done(todos: &mut Todos, id: &str, force_real: bool, now: u64) -> (r: Result<AuditEntry, OpError>)
    ensures
        edits(
            old(todos)@,
            final(todos)@,
            id@,
            |it: model::ItemView| closed(it, calendar::day_text(now as nat), force_real),
            r,
            plain_entry("done"@, id@),
            not_found(),
        ),
        r is Ok ==> {
            let i = model::position(old(todos)@.items, id@)->0;
            let it = final(todos)@.items[i];
            &&& it.id == id@
            &&& !it.open
            &&& it.closed_on == Some(calendar::day_text(now as nat))
            &&& force_real ==> it.force_real
        },
{
    let ghost before = *todos;
    proof {
        model::lemma_position(todos@.items, id@);
    }
    let today: String = calendar::current_day(now);
    match todos.find_mut(id) {
        Some(item) => {
            item.open = false;
            item.closed_on = Some(today);
            if force_real {
                item.force_real = true;
            }
        },
        None => {
            return Err(missing());
        },
    }
    proof {
        let i = model::position(before@.items, id@)->0;
        lemma_replaced(before, *todos, i, todos.items@[i]);
    }
    Ok(entry("done", id))
}

/// Opens a closed item again.
pub fn reopen(todos: &mut Todos, id: &str) -> (r: Result<AuditEntry, OpError>)
    ensures
        edits(
            old(todos)@,
            final(todos)@,
            id@,
            |it: model::ItemView| reopened(it),
            r,
            plain_entry("reopen"@, id@),
            not_found(),
        ),
        r is Ok ==> {
            let i = model::position(old(todos)@.items, id@)->0;
            let it = final(todos)@.items[i];
            &&& it.id == id@
            &&& it.open
            &&& it.closed_on is None
        },
{
    let ghost before = *todos;
    proof {
        model::lemma_position(todos@.items, id@);
    }
    match todos.find_mut(id) {
        Some(item) => {
            item.open = true;
            item.closed_on = None;
        },
        None => {
            return Err(missing());
        },
    }
    proof {
        let i = model::position(before@.items, id@)->0;
        lemma_replaced(before, *todos, i, todos.items@[i]);
    }
    Ok(entry("reopen", id))
}

// ---------------------------------------------------------------------------
// Ids
// ---------------------------------------------------------------------------

/// The multiplier of the id generator.
pub const MULTIPLIER: u64 = 2_654_435_769;

/// One step of the id generator, modulo 2^64.
pub open spec fn mixed(n: u64) -> u64 {
    ((n * MULTIPLIER + 1) % 0x1_0000_0000_0000_0000) as u64
}

/// The digit of a number in base 36, `0`-`9` and `a`-`z`.
pub open spec fn base36(n: u64) -> char {
    let d = n % 36;
    if d < 10 {
        (48 + d) as char
    } else {
        (87 + d) as char
    }
}

/// `k` digits, each after one more step.
pub open spec fn id_digits(n: u64, k: nat) -> Seq<char>
    decreases k,
{
    if k == 0 {
        Seq::empty()
    } else {
        seq![base36(mixed(n))] + id_digits(mixed(n), (k - 1) as nat)
    }
}

/// The id that a clock reading (the nanoseconds within the second) and a
/// process id give.
pub open spec fn drawn_id(nanos: u32, pid: u32) -> Seq<char> {
    id_digits(mixed((nanos as u64) ^ (pid as u64)), 4)
}

/// One more after a number is cut to 64 bits, or before: the same in 64 bits.
proof fn lemma_one_more(x: int)
    ensures
        (x % 0x1_0000_0000_0000_0000 + 1) % 0x1_0000_0000_0000_0000 == (x + 1)
            % 0x1_0000_0000_0000_0000,
{
    vstd::arithmetic::div_mod::lemma_add_mod_noop(x, 1, 0x1_0000_0000_0000_0000);
}

fn mix(n: u64) -> (r: u64)
    ensures
        r == mixed(n),
{
    let p: u64 = n.wrapping_mul(MULTIPLIER);
    assert(p == (n * MULTIPLIER) % 0x1_0000_0000_0000_0000);
    let r: u64 = p.wrapping_add(1);
    assert(r == (p + 1) % 0x1_0000_0000_0000_0000);
    proof {
        lemma_one_more(n * MULTIPLIER);
    }
    r
}

fn base36_of(n: u64) -> (c: char)
    ensures
        c == base36(n),
{
    let d: u8 = (n % 36) as u8;
    if d < 10 {
        (48 + d) as char
    } else {
        (87 + d) as char
    }
}

/// An opaque id of four characters.
pub fn generate_id(nanos: u32, pid: u32) -> (r: String)
    ensures
        r@ == drawn_id(nanos, pid),
{
    let seed: u64 = (nanos as u64) ^ (pid as u64);
    let mut n: u64 = mix(seed);
    let mut s: String = String::new();
    let mut i: usize = 0;
    assert(s@ + id_digits(n, 4) =~= id_digits(n, 4));
    while i < 4
        invariant
            0 <= i <= 4,
            s@ + id_digits(n, (4 - i) as nat) == drawn_id(nanos, pid),
        decreases 4 - i,
    {
        let ghost before = s@;
        let ghost rest = id_digits(mixed(n), (3 - i) as nat);
        assert(before + (seq![base36(mixed(n))] + rest) =~= before.push(base36(mixed(n))) + rest);
        n = mix(n);
        s.push(base36_of(n));
        i = i + 1;
    }
    assert(s@ + id_digits(n, 0) =~= s@);
    s
}

/// Ids have four characters, digits and small letters.
pub proof fn law_id_shape(nanos: u32, pid: u32)
    ensures
        drawn_id(nanos, pid).len() == 4,
        forall|i: int|
            0 <= i < 4 ==> {
                let c = #[trigger] drawn_id(nanos, pid)[i];
                '0' <= c <= '9' || 'a' <= c <= 'z'
            },
{
    reveal_with_fuel(id_digits, 5);
}

/// Whether an item has the id.
pub open spec fn taken(items: Seq<model::ItemView>, id: Seq<char>) -> bool {
    exists|j: int| 0 <= j < items.len() && (#[trigger] items[j]).id == id
}

/// The first id drawn that no item has, and the draws that are left.
pub open spec fn fresh_id(items: Seq<model::ItemView>, draws: Seq<u32>, pid: u32) -> Option<
    (Seq<char>, Seq<u32>),
>
    decreases draws.len(),
{
    if draws.len() == 0 {
        None
    } else if !taken(items, drawn_id(draws[0], pid)) {
        Some((drawn_id(draws[0], pid), draws.skip(1)))
    } else {
        fresh_id(items, draws.skip(1), pid)
    }
}

// ---------------------------------------------------------------------------
// New items
// ---------------------------------------------------------------------------

/// A new open item.
pub open spec fn new_item(
    id: Seq<char>,
    subject: Seq<char>,
    level: u32,
    idle_ok: IdleOkState,
    force_real: bool,
    ts: Seq<char>,
) -> model::ItemView {
    model::ItemView {
        id,
        priority: level,
        subject,
        open: true,
        line: 0,
        closed_on: None,
        idle_ok,
        park: ParkState::Active,
        released: false,
        released_ts: None,
        created_ts: Some(ts),
        lane: None,
        first_seen_open: None,
        force_real,
        evidence: Seq::empty(),
    }
}

/// The list with one more item at its end.
pub open spec fn with_item(t: model::TodosView, it: model::ItemView) -> model::TodosView {
    model::TodosView { items: t.items.push(it), ..t }
}

fn draw_id(todos: &Todos, draws: &[u32], pid: u32) -> (r: Option<String>)
    ensures
        match fresh_id(todos@.items, draws@, pid) {
            Some((id, rest)) => r matches Some(t) && t@ == id,
            None => r is None,
        },
{
    let n: usize = draws.len();
    let mut k: usize = 0;
    assert(draws@.skip(0) =~= draws@);
    while k < n
        invariant
            n == draws@.len(),
            0 <= k <= n,
            fresh_id(todos@.items, draws@, pid) == fresh_id(
                todos@.items,
                draws@.skip(k as int),
                pid,
            ),
        decreases n - k,
    {
        assert(draws@.skip(k as int).skip(1) =~= draws@.skip(k as int + 1));
        let id: String = generate_id(draws[k], pid);
        if !todos.has_id(id.as_str()) {
            return Some(id);
        }
        k = k + 1;
    }
    None
}

fn make_item(
    id: &str,
    subject: &str,
    priority: &Priority,
    idle_ok: IdleOkState,
    force_real: bool,
    now: u64,
) -> (r: Item)
    ensures
        r@ == new_item(
            id@,
            subject@,
            priority.0,
            idle_ok,
            force_real,
            calendar::iso_text(now as nat),
        ),
{
    let r = Item {
        id: text::owned(id),
        priority: Priority(priority.0),
        subject: text::owned(subject),
        open: true,
        line: 0,
        closed_on: None,
        idle_ok,
        park: ParkState::Active,
        released: false,
        released_ts: None,
        created_ts: Some(calendar::current_iso8601(now)),
        lane: None,
        first_seen_open: None,
        force_real,
        evidence: Vec::new(),
    };
    assert(r@.evidence =~= Seq::empty());
    r
}

/// Adds a new open item and returns its id. `now` is in seconds since the
/// start of 1970; `draws` are clock readings to draw the id from. The first
/// one that gives an id not in use is taken; if none does, nothing is added.
pub fn add(
    todos: &mut Todos,
    subject: &str,
    priority: Priority,
    idle_ok: IdleOkState,
    force_real: bool,
    now: u64,
    draws: &[u32],
    pid: u32,
) -> (r: Option<(String, AuditEntry)>)
    ensures
        match fresh_id(old(todos)@.items, draws@, pid) {
            Some((id, rest)) => {
                &&& final(todos)@ == with_item(
                    old(todos)@,
                    new_item(
                        id,
                        subject@,
                        priority.0,
                        idle_ok,
                        force_real,
                        calendar::iso_text(now as nat),
                    ),
                )
                &&& r matches Some((text, e))
                &&& text@ == id
                &&& e@ == (AuditView {
                    to: Some(model::priority_text(priority.0)),
                    subject: Some(subject@),
                    ..plain_entry("add"@, id)
                })
            },
            None => r is None && final(todos)@ == old(todos)@,
        },
        r matches Some((text, e)) ==> {
            let it = final(todos)@.items.last();
            &&& final(todos)@.items.len() == old(todos)@.items.len() + 1
            &&& it.id == text@
            &&& it.subject == subject@
            &&& it.priority == priority.0
            &&& it.idle_ok == idle_ok
            &&& it.force_real == force_real
            &&& it.created_ts == Some(calendar::iso_text(now as nat))
            &&& it.open
            &&& it.park == ParkState::Active
            &&& !it.released
            &&& it.evidence.len() == 0
        },
{
    let ghost before = *todos;
    let id: String = match draw_id(todos, draws, pid) {
        Some(id) => id,
        None => return None,
    };
    let item: Item = make_item(id.as_str(), subject, &priority, idle_ok, force_real, now);
    let ghost it = item@;
    todos.items.push(item);
    assert(todos@.items =~= before@.items.push(it));
    let mut e: AuditEntry = entry("add", id.as_str());
    e.to = Some(priority.as_str());
    e.subject = Some(text::owned(subject));
    Some((id, e))
}

// ---------------------------------------------------------------------------
// Missing ids
// ---------------------------------------------------------------------------

/// The items, those from the `i`-th on that lack an id given the first fresh
/// one that is drawn, one after the other; `None` if the draws do not
/// suffice.
pub open spec fn filled(
    items: Seq<model::ItemView>,
    i: nat,
    draws: Seq<u32>,
    pid: u32,
) -> Option<Seq<model::ItemView>>
    decreases items.len() - i,
{
    if i >= items.len() {
        Some(items)
    } else if items[i as int].id.len() > 0 {
        filled(items, i + 1, draws, pid)
    } else {
        match fresh_id(items, draws, pid) {
            Some((id, rest)) => filled(
                items.update(i as int, (model::ItemView { id, ..items[i as int] })),
                i + 1,
                rest,
                pid,
            ),
            None => None,
        }
    }
}

/// The number of items without an id.
pub open spec fn without_id(items: Seq<model::ItemView>) -> nat {
    count(items, |it: model::ItemView| it.id.len() == 0)
}

/// Ids for the first items, where they lack one.
spec fn named(items: Seq<model::ItemView>, ids: Seq<Option<String>>) -> Seq<model::ItemView> {
    Seq::new(
        items.len(),
        |j: int|
            if j < ids.len() {
                match ids[j] {
                    Some(id) => model::ItemView { id: id@, ..items[j] },
                    None => items[j],
                }
            } else {
                items[j]
            },
    )
}

/// Ids are given only where there is none.
spec fn only_missing(items: Seq<model::ItemView>, ids: Seq<Option<String>>) -> bool {
    &&& ids.len() <= items.len()
    &&& forall|j: int| 0 <= j < ids.len() && ids[j] is Some ==> (#[trigger] items[j]).id.len() == 0
}

/// An id is in use if an item has it or was given it.
proof fn lemma_taken_named(items: Seq<model::ItemView>, ids: Seq<Option<String>>, id: Seq<char>)
    requires
        only_missing(items, ids),
        id.len() > 0,
    ensures
        taken(named(items, ids), id) <==> taken(items, id) || exists|j: int|
            0 <= j < ids.len() && (#[trigger] ids[j] matches Some(x) && x@ == id),
{
    let cur = named(items, ids);
    if taken(cur, id) {
        let j = choose|j: int| 0 <= j < cur.len() && (#[trigger] cur[j]).id == id;
        if j < ids.len() && ids[j] is Some {
        } else {
            assert(items[j].id == id);
        }
    }
    if taken(items, id) {
        let j = choose|j: int| 0 <= j < items.len() && (#[trigger] items[j]).id == id;
        assert(cur[j].id == id);
    }
    if exists|j: int| 0 <= j < ids.len() && (#[trigger] ids[j] matches Some(x) && x@ == id) {
        let j = choose|j: int| 0 <= j < ids.len() && (#[trigger] ids[j] matches Some(x) && x@ == id);
        assert(cur[j].id == id);
    }
}

/// Whether an id was given already.
fn given(ids: &Vec<Option<String>>, id: &str) -> (r: bool)
    ensures
        r == exists|j: int|
            0 <= j < ids@.len() && (#[trigger] ids@[j] matches Some(x) && x@ == id@),
{
    let n: usize = ids.len();
    let mut j: usize = 0;
    while j < n
        invariant
            n == ids@.len(),
            0 <= j <= n,
            forall|i: int|
                0 <= i < j ==> !(#[trigger] ids@[i] matches Some(x) && x@ == id@),
        decreases n - j,
    {
        match &ids[j] {
            Some(x) => {
                if text::same_text(x.as_str(), id) {
                    assert(ids@[j as int] matches Some(x) && x@ == id@);
                    return true;
                }
            },
            None => {},
        }
        j = j + 1;
    }
    false
}

/// Draws a fresh id from the `k`-th draw on; returns it with the place of the
/// next draw.
fn draw_next(
    todos: &Todos,
    ids: &Vec<Option<String>>,
    draws: &[u32],
    k: usize,
    pid: u32,
) -> (r: Option<(String, usize)>)
    requires
        k <= draws@.len(),
        only_missing(todos@.items, ids@),
    ensures
        match fresh_id(named(todos@.items, ids@), draws@.skip(k as int), pid) {
            Some((id, rest)) => {
                &&& r matches Some((t, next))
                &&& t@ == id
                &&& next <= draws@.len()
                &&& rest == draws@.skip(next as int)
            },
            None => r is None,
        },
{
    let n: usize = draws.len();
    let mut m: usize = k;
    let ghost cur = named(todos@.items, ids@);
    while m < n
        invariant
            n == draws@.len(),
            k <= m <= n,
            only_missing(todos@.items, ids@),
            cur == named(todos@.items, ids@),
            fresh_id(cur, draws@.skip(k as int), pid) == fresh_id(
                cur,
                draws@.skip(m as int),
                pid,
            ),
        decreases n - m,
    {
        assert(draws@.skip(m as int).skip(1) =~= draws@.skip(m as int + 1));
        let id: String = generate_id(draws[m], pid);
        proof {
            law_id_shape(draws@[m as int], pid);
            lemma_taken_named(todos@.items, ids@, id@);
        }
        if !todos.has_id(id.as_str()) && !given(ids, id.as_str()) {
            return Some((id, m + 1));
        }
        m = m + 1;
    }
    None
}

/// The ids that the items will be given.
fn plan_ids(todos: &Todos, draws: &[u32], pid: u32) -> (r: Option<(Vec<Option<String>>, usize)>)
    ensures
        match filled(todos@.items, 0, draws@, pid) {
            Some(items) => {
                &&& r matches Some((ids, count))
                &&& ids@.len() == todos@.items.len()
                &&& only_missing(todos@.items, ids@)
                &&& named(todos@.items, ids@) == items
                &&& count == without_id(todos@.items)
            },
            None => r is None,
        },
{
    let n: usize = todos.items.len();
    let mut ids: Vec<Option<String>> = Vec::new();
    let mut count: usize = 0;
    let mut i: usize = 0;
    let mut k: usize = 0;
    let ghost items = todos@.items;
    let ghost lacks = |it: model::ItemView| it.id.len() == 0;
    assert(named(items, ids@) =~= items);
    assert(draws@.skip(0) =~= draws@);
    assert(items.take(0) =~= Seq::empty());
    assert(items.take(0).filter(lacks).len() == 0) by {
        reveal(Seq::filter);
    }
    while i < n
        invariant
            n == items.len(),
            items == todos@.items,
            n == todos.items@.len(),
            0 <= i <= n,
            ids@.len() == i,
            k <= draws@.len(),
            only_missing(items, ids@),
            lacks == (|it: model::ItemView| it.id.len() == 0),
            count == items.take(i as int).filter(lacks).len(),
            count <= i,
            filled(items, 0, draws@, pid) == filled(
                named(items, ids@),
                i as nat,
                draws@.skip(k as int),
                pid,
            ),
        decreases n - i,
    {
        let ghost cur = named(items, ids@);
        assert(cur[i as int] == items[i as int]);
        assert(items[i as int] == todos.items@[i as int]@);
        assert(items.take(i as int + 1).drop_last() =~= items.take(i as int));
        assert(items.take(i as int + 1).last() == items[i as int]);
        proof {
            reveal(Seq::filter);
        }
        let ghost before = ids@;
        if text::chars_of(todos.items[i].id.as_str()).len() == 0 {
            match draw_next(todos, &ids, draws, k, pid) {
                Some((id, next)) => {
                    let ghost new_id = id@;
                    ids.push(Some(id));
                    k = next;
                    count = count + 1;
                    assert(named(items, ids@) =~= cur.update(
                        i as int,
                        (model::ItemView { id: new_id, ..cur[i as int] }),
                    ));
                },
                None => {
                    return None;
                },
            }
        } else {
            ids.push(None);
            assert(named(items, ids@) =~= cur);
        }
        i = i + 1;
    }
    assert(items.take(n as int) =~= items);
    Some((ids, count))
}

/// What `touch` did.
#[derive(Debug, Clone, PartialEq, Eq)]
pub struct TouchOutcome {
    /// How many items were given an id.
    pub backfilled: usize,
    /// The audit entry, if any was.
    pub entry: Option<AuditEntry>,
}

/// An entry about several items: the count stands in place of an id.
pub open spec fn count_entry(op: Seq<char>, label: Seq<char>, count: nat) -> AuditView {
    plain_entry(op, label + decimal::decimal(count))
}

/// View of an optional entry.
pub open spec fn opt_entry(e: Option<AuditEntry>) -> Option<AuditView> {
    match e {
        Some(x) => Some(x@),
        None => None,
    }
}

fn labelled(label: &str, count: usize) -> (r: String)
    ensures
        r@ == label@ + decimal::decimal(count as nat),
{
    let mut r: String = text::owned(label);
    text::push_str(&mut r, decimal::decimal_of(count as u64).as_str());
    r
}

/// Gives every item that lacks an id a fresh one, and counts them.
fn fill_ids(todos: &mut Todos, draws: &[u32], pid: u32) -> (r: Option<usize>)
    ensures
        match filled(old(todos)@.items, 0, draws@, pid) {
            Some(items) => {
                &&& final(todos)@ == (model::TodosView { items, ..old(todos)@ })
                &&& r matches Some(n)
                &&& n == without_id(old(todos)@.items)
            },
            None => r is None && final(todos)@ == old(todos)@,
        },
{
    let ghost before = *todos;
    let (ids, count) = match plan_ids(todos, draws, pid) {
        Some(p) => p,
        None => return None,
    };
    let n: usize = todos.items.len();
    let mut i: usize = 0;
    assert(named(before@.items, ids@.take(0)) =~= before@.items);
    while i < n
        invariant
            n == todos.items@.len(),
            n == before.items@.len(),
            n == ids@.len(),
            0 <= i <= n,
            todos.version == before.version,
            todos.company == before.company,
            todos.preamble == before.preamble,
            todos@.items == named(before@.items, ids@.take(i as int)),
        decreases n - i,
    {
        let ghost mid = *todos;
        assert(mid@.items[i as int] == before@.items[i as int]);
        assert(mid@.items[i as int] == mid.items@[i as int]@);
        match &ids[i] {
            Some(id) => {
                let item: &mut Item = &mut todos.items[i];
                item.id = text::owned(id.as_str());
                proof {
                    lemma_replaced(mid, *todos, i as int, todos.items@[i as int]);
                }
            },
            None => {},
        }
        assert(todos@.items =~= named(before@.items, ids@.take(i as int + 1)));
        i = i + 1;
    }
    assert(ids@.take(n as int) =~= ids@);
    Some(count)
}

/// Gives every item that lacks an id a fresh one. `draws` are clock readings
/// to draw the ids from; if they do not suffice, nothing is changed.
pub fn touch(todos: &mut Todos, draws: &[u32], pid: u32) -> (r: Option<TouchOutcome>)
    ensures
        match filled(old(todos)@.items, 0, draws@, pid) {
            Some(items) => {
                &&& final(todos)@ == (model::TodosView { items, ..old(todos)@ })
                &&& r matches Some(out)
                &&& out.backfilled == without_id(old(todos)@.items)
                &&& opt_entry(out.entry) == if out.backfilled > 0 {
                    Some(count_entry("touch"@, "backfilled-"@, out.backfilled as nat))
                } else {
                    None
                }
            },
            None => r is None && final(todos)@ == old(todos)@,
        },
        r is Some ==> forall|i: int|
            0 <= i < final(todos)@.items.len() ==> (#[trigger] final(todos)@.items[i]).id.len() > 0,
{
    let ghost items = todos@.items;
    let count: usize = match fill_ids(todos, draws, pid) {
        Some(n) => n,
        None => return None,
    };
    proof {
        crate::laws::law_touch(items, draws@, draws@, pid);
    }
    let e: Option<AuditEntry> = if count > 0 {
        Some(entry("touch", labelled("backfilled-", count).as_str()))
    } else {
        None
    };
    Some(TouchOutcome { backfilled: count, entry: e })
}

/// The text that a write puts in the file: the canonical form, with an id for
/// every item. Ids that are missing are drawn from `draws`; if those do not
/// suffice, there is no text and nothing is changed.
pub fn written(todos: &mut Todos, draws: &[u32], pid: u32) -> (r: Option<String>)
    ensures
        match filled(old(todos)@.items, 0, draws@, pid) {
            Some(items) => {
                &&& final(todos)@ == (model::TodosView { items, ..old(todos)@ })
                &&& r matches Some(t)
                &&& t@ == writer::rendered(model::TodosView { items, ..old(todos)@ })
            },
            None => r is None && final(todos)@ == old(todos)@,
        },
{
    match fill_ids(todos, draws, pid) {
        Some(_) => Some(writer::render(todos)),
        None => None,
    }
}

/// Where the list of a company is.
pub fn path_for(home: &str, company: &str) -> (r: String)
    ensures
        r@ == paths::todos_file(home@, company@),
{
    paths::todos_path(home, company)
}

// ---------------------------------------------------------------------------
// Sweeps over the list
// ---------------------------------------------------------------------------

/// The number of items with a property.
pub open spec fn count(items: Seq<model::ItemView>, p: spec_fn(model::ItemView) -> bool) -> nat {
    items.filter(p).len()
}

/// One item more to count.
pub proof fn lemma_count_step(
    items: Seq<model::ItemView>,
    p: spec_fn(model::ItemView) -> bool,
    i: int,
)
    requires
        0 <= i < items.len(),
    ensures
        count(items.take(i + 1), p) == count(items.take(i), p) + if p(items[i]) {
            1nat
        } else {
            0
        },
        count(items.take(i), p) <= i,
{
    reveal(Seq::filter);
    assert(items.take(i + 1).drop_last() =~= items.take(i));
    assert(items.take(i + 1).last() == items[i]);
    items.take(i).lemma_filter_len(p);
}

/// Of no items, none counts.
pub proof fn lemma_count_none(items: Seq<model::ItemView>, p: spec_fn(model::ItemView) -> bool)
    ensures
        count(items.take(0), p) == 0,
{
    items.take(0).lemma_filter_len(p);
}

/// What has a property and what has not are all there is.
proof fn lemma_count_split(
    items: Seq<model::ItemView>,
    p: spec_fn(model::ItemView) -> bool,
    q: spec_fn(model::ItemView) -> bool,
)
    requires
        forall|it: model::ItemView| #[trigger] p(it) <==> !q(it),
    ensures
        count(items, p) + count(items, q) == items.len(),
    decreases items.len(),
{
    reveal(Seq::filter);
    if items.len() > 0 {
        lemma_count_split(items.drop_last(), p, q);
        assert(p(items.last()) <==> !q(items.last()));
    }
}

/// Two properties that exclude each other and together make up a third.
pub(crate) proof fn lemma_count_sum(
    items: Seq<model::ItemView>,
    p: spec_fn(model::ItemView) -> bool,
    q: spec_fn(model::ItemView) -> bool,
    r: spec_fn(model::ItemView) -> bool,
)
    requires
        forall|it: model::ItemView| #[trigger] r(it) <==> p(it) || q(it),
        forall|it: model::ItemView| #[trigger] p(it) ==> !q(it),
    ensures
        count(items, p) + count(items, q) == count(items, r),
    decreases items.len(),
{
    reveal(Seq::filter);
    if items.len() > 0 {
        lemma_count_sum(items.drop_last(), p, q, r);
        let x = items.last();
        assert(r(x) <==> p(x) || q(x));
        assert(p(x) ==> !q(x));
    }
}

/// Two properties that exclude each other and are both narrower than a third.
proof fn lemma_count_within(
    items: Seq<model::ItemView>,
    p: spec_fn(model::ItemView) -> bool,
    q: spec_fn(model::ItemView) -> bool,
    r: spec_fn(model::ItemView) -> bool,
)
    requires
        forall|it: model::ItemView| #[trigger] p(it) ==> r(it) && !q(it),
        forall|it: model::ItemView| #[trigger] q(it) ==> r(it),
    ensures
        count(items, p) + count(items, q) <= count(items, r),
    decreases items.len(),
{
    reveal(Seq::filter);
    if items.len() > 0 {
        lemma_count_within(items.drop_last(), p, q, r);
        let x = items.last();
        assert(p(x) ==> r(x) && !q(x));
        assert(q(x) ==> r(x));
    }
}

/// Every item changed by `f`.
pub open spec fn each(
    items: Seq<model::ItemView>,
    f: spec_fn(model::ItemView) -> model::ItemView,
) -> Seq<model::ItemView> {
    items.map_values(f)
}

/// The item is open and no sweep has seen it.
pub open spec fn unseen(it: model::ItemView) -> bool {
    it.open && it.first_seen_open is None
}

/// The item after a sweep.
pub open spec fn swept(it: model::ItemView, ts: Seq<char>) -> model::ItemView {
    if unseen(it) {
        model::ItemView { first_seen_open: Some(ts), ..it }
    } else {
        it
    }
}

/// What a sweep did.
#[derive(Debug, Clone, PartialEq, Eq)]
pub struct SweepOutcome {
    /// How many items are open.
    pub scanned: usize,
    /// How many were stamped.
    pub stamped: usize,
    /// The audit entry, if any was.
    pub entry: Option<AuditEntry>,
}

/// Stamps every open item that has no stamp as first seen now. The list needs
/// to be saved only if there is an audit entry.
pub fn sweep(todos: &mut Todos, now: u64) -> (r: SweepOutcome)
    ensures
        final(todos)@ == (model::TodosView {
            items: each(
                old(todos)@.items,
                |it: model::ItemView| swept(it, calendar::iso_text(now as nat)),
            ),
            ..old(todos)@
        }),
        r.scanned == count(old(todos)@.items, |it: model::ItemView| it.open),
        r.stamped == count(old(todos)@.items, |it: model::ItemView| unseen(it)),
        opt_entry(r.entry) == if r.stamped > 0 {
            Some(
                AuditView {
                    subject: Some("scanned="@ + decimal::decimal(r.scanned as nat)),
                    ..count_entry("sweep"@, "stamped-"@, r.stamped as nat)
                },
            )
        } else {
            None
        },
        r.scanned + count(old(todos)@.items, |it: model::ItemView| !it.open)
            == old(todos)@.items.len(),
        r.stamped <= r.scanned,
        forall|i: int|
            0 <= i < final(todos)@.items.len() && (#[trigger] final(todos)@.items[i]).open
                ==> final(todos)@.items[i].first_seen_open is Some,
{
    let ghost before = *todos;
    let ghost items = todos@.items;
    let ghost is_open = |it: model::ItemView| it.open;
    let ghost is_unseen = |it: model::ItemView| unseen(it);
    let ghost f = |it: model::ItemView| swept(it, calendar::iso_text(now as nat));
    let ts: String = calendar::current_iso8601(now);
    let n: usize = todos.items.len();
    let mut scanned: usize = 0;
    let mut stamped: usize = 0;
    let mut i: usize = 0;
    proof {
        lemma_count_none(items, is_open);
        lemma_count_none(items, is_unseen);
    }
    while i < n
        invariant
            n == todos.items@.len(),
            n == items.len(),
            items == before@.items,
            0 <= i <= n,
            ts@ == calendar::iso_text(now as nat),
            todos.version == before.version,
            todos.company == before.company,
            todos.preamble == before.preamble,
            is_open == (|it: model::ItemView| it.open),
            is_unseen == (|it: model::ItemView| unseen(it)),
            f == (|it: model::ItemView| swept(it, calendar::iso_text(now as nat))),
            scanned == count(items.take(i as int), is_open),
            stamped == count(items.take(i as int), is_unseen),
            scanned <= i,
            stamped <= i,
            forall|j: int| 0 <= j < i ==> #[trigger] todos@.items[j] == f(items[j]),
            forall|j: int| i <= j < n ==> #[trigger] todos@.items[j] == items[j],
        decreases n - i,
    {
        let ghost mid = *todos;
        assert(mid@.items[i as int] == items[i as int]);
        assert(mid@.items[i as int] == mid.items@[i as int]@);
        proof {
            lemma_count_step(items, is_open, i as int);
            lemma_count_step(items, is_unseen, i as int);
        }
        let item: &mut Item = &mut todos.items[i];
        if item.open {
            scanned = scanned + 1;
            if item.first_seen_open.is_none() {
                item.first_seen_open = Some(text::owned(ts.as_str()));
                stamped = stamped + 1;
            }
        }
        proof {
            lemma_replaced(mid, *todos, i as int, todos.items@[i as int]);
            assert(todos.items@[i as int]@ == f(items[i as int]));
        }
        i = i + 1;
    }
    assert(items.take(n as int) =~= items);
    assert(todos@.items =~= each(items, f));
    proof {
        lemma_count_split(items, is_open, |it: model::ItemView| !it.open);
        lemma_count_within(
            items,
            is_unseen,
            |it: model::ItemView| it.open && it.first_seen_open is Some,
            is_open,
        );
    }
    let e: Option<AuditEntry> = if stamped > 0 {
        let mut e: AuditEntry = entry("sweep", labelled("stamped-", stamped).as_str());
        e.subject = Some(labelled("scanned=", scanned));
        Some(e)
    } else {
        None
    };
    SweepOutcome { scanned, stamped, entry: e }
}

/// The filing date that a subject leads with, for an item without creation
/// time.
pub open spec fn filing_date(it: model::ItemView) -> Option<Seq<char>> {
    if it.created_ts is None {
        calendar::leading_date(it.subject)
    } else {
        None
    }
}

/// The filing date lies in the future.
pub open spec fn future_dated(it: model::ItemView, today: Seq<char>) -> bool {
    filing_date(it) matches Some(d) && text::before(today, d)
}

/// The filing date can be taken.
pub open spec fn datable(it: model::ItemView, today: Seq<char>) -> bool {
    filing_date(it) matches Some(d) && !text::before(today, d)
}

/// The item created at its filing date, if that can be taken.
pub open spec fn dated(it: model::ItemView, today: Seq<char>) -> model::ItemView {
    if datable(it, today) {
        model::ItemView { created_ts: Some(filing_date(it)->0 + "T00:00:00Z"@), ..it }
    } else {
        it
    }
}

/// What a back-fill of creation times did.
#[derive(Debug, Clone, PartialEq, Eq)]
pub struct BackfillOutcome {
    /// How many items had no creation time.
    pub scanned: usize,
    /// How many were given one, or would be.
    pub stamped: usize,
    /// How many lead with a date in the future.
    pub rejected_future: usize,
    /// The audit entry, if any item was changed.
    pub entry: Option<AuditEntry>,
}

/// Gives every item without creation time the date that its subject leads
/// with, unless that is after today. A dry run counts and changes nothing. The
/// list needs to be saved only if there is an audit entry.
pub fn backfill_created(todos: &mut Todos, dry_run: bool, now: u64) -> (r: BackfillOutcome)
    ensures
        final(todos)@ == if dry_run {
            old(todos)@
        } else {
            model::TodosView {
                items: each(
                    old(todos)@.items,
                    |it: model::ItemView| dated(it, calendar::day_text(now as nat)),
                ),
                ..old(todos)@
            }
        },
        r.scanned == count(old(todos)@.items, |it: model::ItemView| it.created_ts is None),
        r.stamped == count(
            old(todos)@.items,
            |it: model::ItemView| datable(it, calendar::day_text(now as nat)),
        ),
        r.rejected_future == count(
            old(todos)@.items,
            |it: model::ItemView| future_dated(it, calendar::day_text(now as nat)),
        ),
        opt_entry(r.entry) == if !dry_run && r.stamped > 0 {
            Some(
                AuditView {
                    subject: Some(
                        "scanned="@ + decimal::decimal(r.scanned as nat) + ",rejected_future="@
                            + decimal::decimal(r.rejected_future as nat),
                    ),
                    ..count_entry("backfill-created"@, "stamped-"@, r.stamped as nat)
                },
            )
        } else {
            None
        },
        r.scanned + count(old(todos)@.items, |it: model::ItemView| it.created_ts is Some)
            == old(todos)@.items.len(),
        r.stamped + r.rejected_future <= r.scanned,
        dry_run ==> final(todos)@ == old(todos)@ && r.entry is None,
{
    let ghost before = *todos;
    let ghost items = todos@.items;
    let ghost day = calendar::day_text(now as nat);
    let ghost is_scanned = |it: model::ItemView| it.created_ts is None;
    let ghost is_datable = |it: model::ItemView| datable(it, calendar::day_text(now as nat));
    let ghost is_future = |it: model::ItemView| future_dated(it, calendar::day_text(now as nat));
    let ghost f = |it: model::ItemView| dated(it, calendar::day_text(now as nat));
    let today: String = calendar::current_day(now);
    let n: usize = todos.items.len();
    let mut scanned: usize = 0;
    let mut stamped: usize = 0;
    let mut rejected_future: usize = 0;
    let mut i: usize = 0;
    proof {
        lemma_count_none(items, is_scanned);
        lemma_count_none(items, is_datable);
        lemma_count_none(items, is_future);
    }
    while i < n
        invariant
            n == todos.items@.len(),
            n == items.len(),
            items == before@.items,
            0 <= i <= n,
            day == calendar::day_text(now as nat),
            today@ == day,
            todos.version == before.version,
            todos.company == before.company,
            todos.preamble == before.preamble,
            is_scanned == (|it: model::ItemView| it.created_ts is None),
            is_datable == (|it: model::ItemView| datable(it, calendar::day_text(now as nat))),
            is_future == (|it: model::ItemView| future_dated(it, calendar::day_text(now as nat))),
            f == (|it: model::ItemView| dated(it, calendar::day_text(now as nat))),
            scanned == count(items.take(i as int), is_scanned),
            stamped == count(items.take(i as int), is_datable),
            rejected_future == count(items.take(i as int), is_future),
            scanned <= i,
            stamped <= i,
            rejected_future <= i,
            forall|j: int|
                0 <= j < i ==> #[trigger] todos@.items[j] == if dry_run {
                    items[j]
                } else {
                    f(items[j])
                },
            forall|j: int| i <= j < n ==> #[trigger] todos@.items[j] == items[j],
        decreases n - i,
    {
        let ghost mid = *todos;
        assert(mid@.items[i as int] == items[i as int]);
        assert(mid@.items[i as int] == mid.items@[i as int]@);
        proof {
            lemma_count_step(items, is_scanned, i as int);
            lemma_count_step(items, is_datable, i as int);
            lemma_count_step(items, is_future, i as int);
        }
        let item: &mut Item = &mut todos.items[i];
        if item.created_ts.is_none() {
            scanned = scanned + 1;
            match calendar::extract_leading_iso_date(item.subject.as_str()) {
                Some(date) => {
                    if text::str_before(today.as_str(), date.as_str()) {
                        rejected_future = rejected_future + 1;
                    } else {
                        stamped = stamped + 1;
                        if !dry_run {
                            let mut ts: String = date;
                            text::push_str(&mut ts, "T00:00:00Z");
                            item.created_ts = Some(ts);
                        }
                    }
                },
                None => {},
            }
        }
        proof {
            lemma_replaced(mid, *todos, i as int, todos.items@[i as int]);
        }
        i = i + 1;
    }
    assert(items.take(n as int) =~= items);
    proof {
        if dry_run {
            assert(todos@.items =~= items);
        } else {
            assert(todos@.items =~= each(items, f));
        }
        lemma_count_split(items, is_scanned, |it: model::ItemView| it.created_ts is Some);
        lemma_count_within(items, is_datable, is_future, is_scanned);
    }
    let e: Option<AuditEntry> = if !dry_run && stamped > 0 {
        let mut e: AuditEntry = entry("backfill-created", labelled("stamped-", stamped).as_str());
        let mut note: String = labelled("scanned=", scanned);
        text::push_str(&mut note, ",rejected_future=");
        text::push_str(&mut note, decimal::decimal_of(rejected_future as u64).as_str());
        e.subject = Some(note);
        Some(e)
    } else {
        None
    };
    BackfillOutcome { scanned, stamped, rejected_future, entry: e }
}

} // verus!
