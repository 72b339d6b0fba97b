//! Which items a listing shows, and how it looks as a table.

use crate::model;
use crate::model::{IdleOkState, Item, ParkState, Priority, Todos};
use crate::parser;
use crate::roundtrip;
use crate::text;
use vstd::prelude::*;
use vstd::slice::*;

verus! {

// ---------------------------------------------------------------------------
// Selection
// ---------------------------------------------------------------------------

/// What a listing asks for. The default asks for open items that are not
/// parked.
#[derive(Debug, Clone)]
pub struct ListFilter {
    pub priority: Option<Priority>,
    pub include_done: bool,
    pub idle_ok: Option<IdleOkState>,
    pub released: Option<bool>,
    /// The company of the lane.
    pub lane_company: Option<String>,
    /// The project of the lane.
    pub lane_project: Option<String>,
    pub include_parked: bool,
}

/// View of a [`ListFilter`].
pub struct FilterView {
    pub priority: Option<u32>,
    pub include_done: bool,
    pub idle_ok: Option<IdleOkState>,
    pub released: Option<bool>,
    pub lane_company: Option<Seq<char>>,
    pub lane_project: Option<Seq<char>>,
    pub include_parked: bool,
}

impl View for ListFilter {
    type V = FilterView;

    open spec fn view(&self) -> FilterView {
        FilterView {
            priority: match self.priority {
                Some(p) => Some(p.0),
                None => None,
            },
            include_done: self.include_done,
            idle_ok: self.idle_ok,
            released: self.released,
            lane_company: model::opt_text(self.lane_company),
            lane_project: model::opt_text(self.lane_project),
            include_parked: self.include_parked,
        }
    }
}

/// The filter of a listing without flags.
pub open spec fn default_filter() -> FilterView {
    FilterView {
        priority: None,
        include_done: false,
        idle_ok: None,
        released: None,
        lane_company: None,
        lane_project: None,
        include_parked: false,
    }
}

impl Default for ListFilter {
    fn default() -> (r: Self)
        ensures
            r@ == default_filter(),
    {
        ListFilter {
            priority: None,
            include_done: false,
            idle_ok: None,
            released: None,
            lane_company: None,
            lane_project: None,
            include_parked: false,
        }
    }
}

/// Whether a listing shows an item.
pub open spec fn shown(f: FilterView, it: model::ItemView) -> bool {
    &&& f.include_done || it.open
    &&& f.include_parked || it.park != ParkState::Parked
    &&& f.priority matches Some(p) ==> it.priority == p
    &&& f.idle_ok matches Some(s) ==> it.idle_ok == s
    &&& f.released matches Some(b) ==> it.released == b
    &&& f.lane_company matches Some(c) ==> (it.lane matches Some(l) && l.company == c)
    &&& f.lane_project matches Some(p) ==> (it.lane matches Some(l) && l.project == p)
}

fn in_lane_company(item: &Item, company: &Option<String>) -> (r: bool)
    ensures
        r == (model::opt_text(*company) matches Some(c) ==> (item@.lane matches Some(l)
            && l.company == c)),
{
    match company {
        Some(c) => match &item.lane {
            Some(l) => text::same_text(l.company.as_str(), c.as_str()),
            None => false,
        },
        None => true,
    }
}

fn in_lane_project(item: &Item, project: &Option<String>) -> (r: bool)
    ensures
        r == (model::opt_text(*project) matches Some(p) ==> (item@.lane matches Some(l)
            && l.project == p)),
{
    match project {
        Some(p) => match &item.lane {
            Some(l) => text::same_text(l.project.as_str(), p.as_str()),
            None => false,
        },
        None => true,
    }
}

/// Whether a listing shows an item.
pub fn is_shown(filter: &ListFilter, item: &Item) -> (r: bool)
    ensures
        r == shown(filter@, item@),
{
    let in_bucket: bool = match &filter.priority {
        Some(p) => item.priority.0 == p.0,
        None => true,
    };
    let in_state: bool = match filter.idle_ok {
        Some(s) => item.idle_ok == s,
        None => true,
    };
    let delivered: bool = match filter.released {
        Some(b) => item.released == b,
        None => true,
    };
    (filter.include_done || item.open) && (filter.include_parked || item.park != ParkState::Parked)
        && in_bucket && in_state && delivered && in_lane_company(item, &filter.lane_company)
        && in_lane_project(item, &filter.lane_project)
}

/// The items that a listing shows, in the order of the list.
pub fn select<'a>(todos: &'a Todos, filter: &ListFilter) -> (r: Vec<&'a Item>)
    ensures
        model::refs_view(r@) == todos@.items.filter(|it: model::ItemView| shown(filter@, it)),
        forall|k: int|
            0 <= k < r@.len() ==> {
                let it = (#[trigger] r@[k])@;
                &&& todos@.items.contains(it)
                &&& filter.include_done || it.open
                &&& filter.include_parked || it.park != ParkState::Parked
                &&& filter.priority matches Some(p) ==> it.priority == p.0
                &&& filter.idle_ok matches Some(s) ==> it.idle_ok == s
                &&& filter.released matches Some(b) ==> it.released == b
            },
{
    let n: usize = todos.items.len();
    let mut r: Vec<&'a Item> = Vec::new();
    let mut i: usize = 0;
    let ghost all = todos@.items;
    let ghost keep = |it: model::ItemView| shown(filter@, it);
    assert(model::refs_view(r@) =~= all.take(0).filter(keep)) by {
        all.take(0).lemma_filter_len(keep);
    }
    while i < n
        invariant
            0 <= i <= n,
            n == todos.items@.len(),
            all == todos@.items,
            keep == (|it: model::ItemView| shown(filter@, it)),
            model::refs_view(r@) == all.take(i as int).filter(keep),
        decreases n - i,
    {
        let item: &Item = &todos.items[i];
        assert(all[i as int] == item@);
        proof {
            assert(all.take(i as int + 1).drop_last() =~= all.take(i as int));
            reveal(Seq::filter);
        }
        if is_shown(filter, item) {
            let ghost before = r@;
            r.push(item);
            assert(model::refs_view(r@) =~= model::refs_view(before).push(item@));
        }
        i = i + 1;
    }
    assert(all.take(n as int) =~= all);
    proof {
        assert forall|k: int| 0 <= k < r@.len() implies shown(filter@, (#[trigger] r@[k])@)
            && all.contains(r@[k]@) by {
            let v = model::refs_view(r@);
            assert(v[k] == r@[k]@);
            all.lemma_filter_pred(keep, k);
            lemma_kept(all, keep, k);
        }
    }
    r
}

/// What is kept was there.
proof fn lemma_kept(
    items: Seq<model::ItemView>,
    p: spec_fn(model::ItemView) -> bool,
    k: int,
)
    requires
        0 <= k < items.filter(p).len(),
    ensures
        items.contains(items.filter(p)[k]),
    decreases items.len(),
{
    reveal(Seq::filter);
    if items.len() > 0 {
        let t = items.drop_last();
        if k < t.filter(p).len() {
            lemma_kept(t, p, k);
            let i = choose|i: int| 0 <= i < t.len() && t[i] == t.filter(p)[k];
            assert(items[i] == t.filter(p)[k]);
        } else {
            assert(items[items.len() - 1] == items.filter(p)[k]);
        }
    }
}

/// A parked item is hidden from every listing that does not ask for parked
/// ones, and the park state makes no other difference: an item that is active
/// or suggested is shown exactly if it would be when parked and asked for.
pub proof fn law_parking_hides(f: FilterView, it: model::ItemView)
    ensures
        !f.include_parked && it.park == ParkState::Parked ==> !shown(f, it),
        it.park != ParkState::Parked ==> (shown(f, it) <==> shown(
            FilterView { include_parked: true, ..f },
            model::ItemView { park: ParkState::Parked, ..it },
        )),
{
}

/// A listing without flags shows the open items that are not parked.
pub proof fn law_default_listing(it: model::ItemView)
    ensures
        shown(default_filter(), it) <==> it.open && it.park != ParkState::Parked,
{
}

/// Each filter narrows a listing to the items that have what it asks for, by
/// itself and whatever the others are; where none asks for anything, every
/// item is shown.
pub proof fn law_each_filter_narrows(
    f: FilterView,
    it: model::ItemView,
    level: u32,
    state: IdleOkState,
    delivered: bool,
    name: Seq<char>,
)
    ensures
        shown(FilterView { priority: Some(level), ..f }, it) <==> shown(
            FilterView { priority: None, ..f },
            it,
        ) && it.priority == level,
        shown(FilterView { idle_ok: Some(state), ..f }, it) <==> shown(
            FilterView { idle_ok: None, ..f },
            it,
        ) && it.idle_ok == state,
        shown(FilterView { released: Some(delivered), ..f }, it) <==> shown(
            FilterView { released: None, ..f },
            it,
        ) && it.released == delivered,
        shown(FilterView { lane_company: Some(name), ..f }, it) <==> shown(
            FilterView { lane_company: None, ..f },
            it,
        ) && it.lane is Some && it.lane->0.company == name,
        shown(FilterView { lane_project: Some(name), ..f }, it) <==> shown(
            FilterView { lane_project: None, ..f },
            it,
        ) && it.lane is Some && it.lane->0.project == name,
        shown(FilterView { include_done: false, ..f }, it) <==> shown(
            FilterView { include_done: true, ..f },
            it,
        ) && it.open,
        shown(FilterView { include_parked: false, ..f }, it) <==> shown(
            FilterView { include_parked: true, ..f },
            it,
        ) && it.park != ParkState::Parked,
        shown(
            FilterView {
                priority: None,
                include_done: true,
                idle_ok: None,
                released: None,
                lane_company: None,
                lane_project: None,
                include_parked: true,
            },
            it,
        ),
{
}

/// Filtering by two properties is filtering by one and then by the other.
proof fn lemma_filter_twice(
    items: Seq<model::ItemView>,
    both: spec_fn(model::ItemView) -> bool,
    p: spec_fn(model::ItemView) -> bool,
    q: spec_fn(model::ItemView) -> bool,
)
    requires
        forall|it: model::ItemView| #[trigger] both(it) <==> p(it) && q(it),
    ensures
        items.filter(both) == items.filter(p).filter(q),
    decreases items.len(),
{
    reveal(Seq::filter);
    if items.len() > 0 {
        lemma_filter_twice(items.drop_last(), both, p, q);
        let x = items.last();
        let kept = items.drop_last().filter(p);
        assert(kept.push(x).drop_last() =~= kept);
    }
}

/// A listing of one bucket is what the listing of all buckets shows of it, in
/// the same order, and so for the idle-ok state, for what is delivered and for
/// the lane.
pub proof fn law_filtered_listings(
    items: Seq<model::ItemView>,
    f: FilterView,
    level: u32,
    state: IdleOkState,
    delivered: bool,
    name: Seq<char>,
)
    ensures
        items.filter(|it: model::ItemView| shown(FilterView { priority: Some(level), ..f }, it))
            == items.filter(
            |it: model::ItemView| shown(FilterView { priority: None, ..f }, it),
        ).filter(|it: model::ItemView| it.priority == level),
        items.filter(|it: model::ItemView| shown(FilterView { idle_ok: Some(state), ..f }, it))
            == items.filter(
            |it: model::ItemView| shown(FilterView { idle_ok: None, ..f }, it),
        ).filter(|it: model::ItemView| it.idle_ok == state),
        items.filter(|it: model::ItemView| shown(FilterView { released: Some(delivered), ..f }, it))
            == items.filter(
            |it: model::ItemView| shown(FilterView { released: None, ..f }, it),
        ).filter(|it: model::ItemView| it.released == delivered),
        items.filter(|it: model::ItemView| shown(FilterView { lane_company: Some(name), ..f }, it))
            == items.filter(
            |it: model::ItemView| shown(FilterView { lane_company: None, ..f }, it),
        ).filter(|it: model::ItemView| it.lane is Some && it.lane->0.company == name),
        items.filter(|it: model::ItemView| shown(FilterView { lane_project: Some(name), ..f }, it))
            == items.filter(
            |it: model::ItemView| shown(FilterView { lane_project: None, ..f }, it),
        ).filter(|it: model::ItemView| it.lane is Some && it.lane->0.project == name),
{
    lemma_filter_twice(
        items,
        |it: model::ItemView| shown(FilterView { priority: Some(level), ..f }, it),
        |it: model::ItemView| shown(FilterView { priority: None, ..f }, it),
        |it: model::ItemView| it.priority == level,
    );
    lemma_filter_twice(
        items,
        |it: model::ItemView| shown(FilterView { idle_ok: Some(state), ..f }, it),
        |it: model::ItemView| shown(FilterView { idle_ok: None, ..f }, it),
        |it: model::ItemView| it.idle_ok == state,
    );
    lemma_filter_twice(
        items,
        |it: model::ItemView| shown(FilterView { released: Some(delivered), ..f }, it),
        |it: model::ItemView| shown(FilterView { released: None, ..f }, it),
        |it: model::ItemView| it.released == delivered,
    );
    lemma_filter_twice(
        items,
        |it: model::ItemView| shown(FilterView { lane_company: Some(name), ..f }, it),
        |it: model::ItemView| shown(FilterView { lane_company: None, ..f }, it),
        |it: model::ItemView| it.lane is Some && it.lane->0.company == name,
    );
    lemma_filter_twice(
        items,
        |it: model::ItemView| shown(FilterView { lane_project: Some(name), ..f }, it),
        |it: model::ItemView| shown(FilterView { lane_project: None, ..f }, it),
        |it: model::ItemView| it.lane is Some && it.lane->0.project == name,
    );
}

// ---------------------------------------------------------------------------
// Lane tags
// ---------------------------------------------------------------------------

/// The segments of `company/project[/component]`; the component is `_` if it
/// is missing or empty.
pub open spec fn lane_segments(s: Seq<char>) -> Option<(Seq<char>, Seq<char>, Seq<char>)> {
    match text::find(s, '/') {
        Some(i) => {
            let rest = s.skip(i + 1);
            let (project, component) = match text::find(rest, '/') {
                Some(j) => (rest.take(j), rest.skip(j + 1)),
                None => (rest, Seq::empty()),
            };
            if i == 0 || project.len() == 0 || text::find(component, '/') is Some {
                None
            } else if component.len() == 0 {
                Some((s.take(i), project, "_"@))
            } else {
                Some((s.take(i), project, component))
            }
        },
        None => None,
    }
}

/// The lane tag of a subject.
pub open spec fn lane_tag(company: Seq<char>, project: Seq<char>, component: Seq<char>) -> Seq<
    char,
> {
    "[lane:"@ + company + "/"@ + project + "/"@ + component + "]"@
}

fn tag_of(company: &str, project: &str, component: &str) -> (r: String)
    ensures
        r@ == lane_tag(company@, project@, component@),
{
    let mut r: String = text::owned("[lane:");
    text::push_str(&mut r, company);
    text::push_str(&mut r, "/");
    text::push_str(&mut r, project);
    text::push_str(&mut r, "/");
    text::push_str(&mut r, component);
    text::push_str(&mut r, "]");
    r
}

/// The lane tag for `company/project[/component]`; anything else is answered
/// with an error text.
pub fn parse_lane_arg(s: &str) -> (r: Result<String, String>)
    ensures
        match lane_segments(s@) {
            Some((company, project, component)) => r matches Ok(t) && t@ == lane_tag(
                company,
                project,
                component,
            ),
            None => r matches Err(e) && e@ == "lane `"@ + s@
                + "` must be company/project[/component]"@,
        },
{
    let cs: Vec<char> = text::chars_of(s);
    let c: &[char] = cs.as_slice();
    let n: usize = c.len();
    if let Some(i) = text::find_char(c, '/') {
        proof {
            text::lemma_find(s@, '/');
        }
        let company: &[char] = slice_subrange(c, 0, i);
        assert(company@ =~= s@.take(i as int));
        let rest: &[char] = slice_subrange(c, i + 1, n);
        assert(rest@ =~= s@.skip(i as int + 1));
        let m: usize = rest.len();
        let (project, component): (&[char], &[char]) = match text::find_char(rest, '/') {
            Some(j) => {
                proof {
                    text::lemma_find(rest@, '/');
                }
                (slice_subrange(rest, 0, j), slice_subrange(rest, j + 1, m))
            },
            None => (rest, slice_subrange(rest, m, m)),
        };
        proof {
            match text::find(rest@, '/') {
                Some(j) => {
                    assert(project@ =~= rest@.take(j));
                    assert(component@ =~= rest@.skip(j + 1));
                },
                None => {
                    assert(component@ =~= Seq::empty());
                },
            }
        }
        if i > 0 && project.len() > 0 && text::find_char(component, '/').is_none() {
            let a: String = text::string_of(company);
            let b: String = text::string_of(project);
            if component.len() == 0 {
                return Ok(tag_of(a.as_str(), b.as_str(), "_"));
            }
            let d: String = text::string_of(component);
            return Ok(tag_of(a.as_str(), b.as_str(), d.as_str()));
        }
    }
    Err(text::concat3("lane `", s, "` must be company/project[/component]"))
}

/// A subject that a tag is put in front of has the lane of the tag, unless the
/// argument holds a `]`.
pub proof fn law_lane_tag_reads_back(s: Seq<char>, subject: Seq<char>)
    requires
        lane_segments(s) is Some,
        roundtrip::free_of(s, ']'),
    ensures
        lane_segments(s) matches Some((company, project, component)) && parser::read_lane(
            lane_tag(company, project, component) + subject,
        ) == Some(
            model::LaneView {
                company,
                project,
                component: if component == seq!['_'] {
                    None
                } else {
                    Some(component)
                },
            },
        ),
{
    reveal_strlit("[lane:");
    reveal_strlit("/");
    reveal_strlit("]");
    reveal_strlit("_");
    let (company, project, component) = lane_segments(s)->0;
    text::lemma_find(s, '/');
    let i = text::find(s, '/')->0;
    let r = s.skip(i + 1);
    text::lemma_find(r, '/');
    assert(clean(company));
    assert forall|k: int| 0 <= k < project.len() implies #[trigger] project[k] != '/' && project[k]
        != ']' by {
        assert(project[k] == r[k] && r[k] == s[i + 1 + k]);
    }
    assert(clean(component)) by {
        match text::find(r, '/') {
            Some(j) => {
                let c = r.skip(j + 1);
                text::lemma_find(c, '/');
                assert forall|k: int| 0 <= k < c.len() implies #[trigger] c[k] != '/' && c[k]
                    != ']' by {
                    assert(c[k] == s[i + 1 + j + 1 + k]);
                }
                assert(component == c || component =~= seq!['_']);
            },
            None => {
                assert(component =~= seq!['_']);
            },
        }
    }
    let inner = company + seq!['/'] + project + seq!['/'] + component;
    lemma_segments(company, project, component);
    let line = lane_tag(company, project, component) + subject;
    let rest = line.skip(6);
    assert(line.take(6) =~= "[lane:"@);
    let end = inner.len() as int;
    assert(rest.take(end) =~= inner);
    assert(rest[end] == ']');
    assert forall|k: int| 0 <= k < end implies rest[k] != ']' by {
        assert(rest[k] == inner[k]);
    }
    text::lemma_find_at(rest, ']', end);
}

/// A lane tag is `[lane:company/project/thread]` at the very front, the first
/// two segments not empty and none of them with a separator or a bracket in
/// it; a thread of `_` stands for none.
pub proof fn law_lane_tags(
    company: Seq<char>,
    project: Seq<char>,
    thread: Seq<char>,
    rest: Seq<char>,
    s: Seq<char>,
)
    requires
        company.len() > 0,
        project.len() > 0,
        clean(company),
        clean(project),
        clean(thread),
    ensures
        parser::read_lane("[lane:"@ + (company + seq!['/'] + project + seq!['/'] + thread) + seq![
            ']',
        ] + rest) matches Some(l) && l.company == company && l.project == project && l.component
            == if thread == seq!['_'] {
            None
        } else {
            Some(thread)
        },
        parser::read_lane(s) matches Some(l) ==> {
            let own = match l.component {
                Some(c) => c,
                None => seq!['_'],
            };
            let tag = "[lane:"@ + (l.company + seq!['/'] + l.project + seq!['/'] + own) + seq![']'];
            &&& l.company.len() > 0 && l.project.len() > 0
            &&& clean(l.company) && clean(l.project) && clean(own)
            &&& l.component != Some(seq!['_'])
            &&& s.len() >= tag.len() && s.take(tag.len() as int) == tag
        },
{
    reveal_strlit("[lane:");
    let inner = company + seq!['/'] + project + seq!['/'] + thread;
    lemma_segments(company, project, thread);
    let line = "[lane:"@ + inner + seq![']'] + rest;
    assert(line.take(6) =~= "[lane:"@);
    let r = line.skip(6);
    let end = inner.len() as int;
    assert(r.take(end) =~= inner);
    assert(r[end] == ']');
    assert forall|k: int| 0 <= k < end implies r[k] != ']' by {
        assert(r[k] == inner[k]);
    }
    text::lemma_find_at(r, ']', end);
    if let Some(l) = parser::read_lane(s) {
        let t = s.skip(6);
        text::lemma_find(t, ']');
        let e = text::find(t, ']')->0;
        let w = t.take(e);
        text::lemma_find(w, '/');
        let i = text::find(w, '/')->0;
        let tail = w.skip(i + 1);
        text::lemma_find(tail, '/');
        let j = text::find(tail, '/')->0;
        let third = tail.skip(j + 1);
        text::lemma_find(third, '/');
        let own = match l.component {
            Some(c) => c,
            None => seq!['_'],
        };
        assert(own == third);
        assert forall|k: int| 0 <= k < w.len() implies w[k] != ']' by {
            assert(w[k] == t[k]);
        }
        assert forall|k: int| 0 <= k < l.company.len() implies #[trigger] l.company[k] != '/'
            && l.company[k] != ']' by {
            assert(l.company[k] == w[k]);
        }
        assert forall|k: int| 0 <= k < l.project.len() implies #[trigger] l.project[k] != '/'
            && l.project[k] != ']' by {
            assert(l.project[k] == tail[k] && tail[k] == w[i + 1 + k]);
        }
        assert forall|k: int| 0 <= k < own.len() implies #[trigger] own[k] != '/' && own[k]
            != ']' by {
            assert(own[k] == tail[j + 1 + k] && tail[j + 1 + k] == w[i + 1 + j + 1 + k]);
        }
        assert(w =~= l.company + seq!['/'] + l.project + seq!['/'] + own);
        let tag = "[lane:"@ + (l.company + seq!['/'] + l.project + seq!['/'] + own) + seq![']'];
        assert(s.take(tag.len() as int) =~= tag) by {
            assert(s.take(6) == "[lane:"@);
            assert forall|k: int| 0 <= k < tag.len() implies s[k] == tag[k] by {
                if k < 6 {
                    assert(s[k] == s.take(6)[k]);
                } else {
                    assert(s[k] == t[k - 6]);
                    if k - 6 < e {
                        assert(t[k - 6] == w[k - 6]);
                    }
                }
            }
        }
    }
}

/// A lane argument is two segments that are not empty, or three of which the
/// third may be; a missing or empty third one is written `_`. Anything else is
/// none.
pub proof fn law_lane_arguments(a: Seq<char>, b: Seq<char>, c: Seq<char>, s: Seq<char>)
    requires
        a.len() > 0 && text::find(a, '/') is None,
        b.len() > 0 && text::find(b, '/') is None,
        c.len() > 0 && text::find(c, '/') is None,
    ensures
        lane_segments(a + seq!['/'] + b) == Some((a, b, seq!['_'])),
        lane_segments(a + seq!['/'] + b + seq!['/']) == Some((a, b, seq!['_'])),
        lane_segments(a + seq!['/'] + b + seq!['/'] + c) == Some((a, b, c)),
        lane_segments(a + seq!['/'] + b + seq!['/'] + c + seq!['/'] + s) is None,
        lane_segments(seq!['/'] + s) is None,
        lane_segments(a + seq!['/']) is None,
        lane_segments(a) is None,
{
    reveal_strlit("_");
    assert("_"@ =~= seq!['_']);
    let none = Seq::<char>::empty();
    let bs = b + seq!['/'];
    let bc = b + seq!['/'] + c;
    let bcs = b + seq!['/'] + (c + seq!['/'] + s);
    lemma_cut(a, b);
    lemma_cut(a, bs);
    lemma_cut(a, bc);
    lemma_cut(a, bcs);
    lemma_cut(a, none);
    lemma_cut(none, s);
    lemma_cut(b, none);
    lemma_cut(b, c);
    lemma_cut(b, c + seq!['/'] + s);
    lemma_cut(c, s);
    assert(a + seq!['/'] + b + seq!['/'] =~= a + seq!['/'] + bs);
    assert(bs =~= b + seq!['/'] + none);
    assert(a + seq!['/'] + b + seq!['/'] + c =~= a + seq!['/'] + bc);
    assert(a + seq!['/'] + b + seq!['/'] + c + seq!['/'] + s =~= a + seq!['/'] + bcs);
    assert(a + seq!['/'] =~= a + seq!['/'] + none);
    assert(seq!['/'] + s =~= none + seq!['/'] + s);
    text::lemma_find(none, '/');
}

proof fn lemma_cut(a: Seq<char>, r: Seq<char>)
    requires
        text::find(a, '/') is None,
    ensures
        text::find(a + seq!['/'] + r, '/') == Some(a.len() as int),
        (a + seq!['/'] + r).take(a.len() as int) == a,
        (a + seq!['/'] + r).skip(a.len() as int + 1) == r,
{
    let s = a + seq!['/'] + r;
    text::lemma_find(a, '/');
    assert forall|j: int| 0 <= j < a.len() implies s[j] != '/' by {
        assert(s[j] == a[j]);
    }
    text::lemma_find_at(s, '/', a.len() as int);
    assert(s.take(a.len() as int) =~= a);
    assert(s.skip(a.len() as int + 1) =~= r);
}

/// Text without separators and brackets.
pub open spec fn clean(s: Seq<char>) -> bool {
    forall|k: int| 0 <= k < s.len() ==> #[trigger] s[k] != '/' && s[k] != ']'
}

/// Three segments put together are taken apart again.
proof fn lemma_segments(company: Seq<char>, project: Seq<char>, component: Seq<char>)
    requires
        company.len() > 0,
        project.len() > 0,
        clean(company),
        clean(project),
        clean(component),
    ensures
        parser::lane_within(company + seq!['/'] + project + seq!['/'] + component) == Some(
            model::LaneView {
                company,
                project,
                component: if component == seq!['_'] {
                    None
                } else {
                    Some(component)
                },
            },
        ),
        roundtrip::free_of(company + seq!['/'] + project + seq!['/'] + component, ']'),
{
    let s = company + seq!['/'] + project + seq!['/'] + component;
    let n = company.len() as int;
    assert forall|k: int| 0 <= k < n implies s[k] != '/' by {
        assert(s[k] == company[k]);
    }
    text::lemma_find_at(s, '/', n);
    let tail = s.skip(n + 1);
    let m = project.len() as int;
    assert forall|k: int| 0 <= k < m implies tail[k] != '/' by {
        assert(tail[k] == project[k]);
    }
    text::lemma_find_at(tail, '/', m);
    let thread = tail.skip(m + 1);
    assert(thread =~= component);
    assert(s.take(n) =~= company);
    assert(tail.take(m) =~= project);
    text::lemma_find(component, '/');
    assert forall|k: int| 0 <= k < s.len() implies s[k] != ']' by {
        if k < n {
            assert(s[k] == company[k]);
        } else if n < k < n + 1 + m {
            assert(s[k] == project[k - n - 1]);
        } else if k > n + 1 + m {
            assert(s[k] == component[k - n - m - 2]);
        }
    }
}

// ---------------------------------------------------------------------------
// The table
// ---------------------------------------------------------------------------

/// Text filled up with spaces to at least `width` characters.
pub open spec fn pad(s: Seq<char>, width: nat) -> Seq<char> {
    if s.len() < width {
        s + Seq::new((width - s.len()) as nat, |i: int| ' ')
    } else {
        s
    }
}

/// A subject as the table shows it: more than 60 bytes are cut to 57 and three
/// dots.
pub open spec fn clipped(subject: Seq<char>) -> Seq<char> {
    if text::byte_width(subject) > 60 {
        text::byte_prefix(subject, 57)->0 + "..."@
    } else {
        subject
    }
}

/// The cut does not fall inside a character.
pub open spec fn clippable(subject: Seq<char>) -> bool {
    text::byte_width(subject) > 60 ==> text::byte_prefix(subject, 57) is Some
}

/// One row: three columns and the rest.
pub open spec fn row(a: Seq<char>, b: Seq<char>, c: Seq<char>, d: Seq<char>) -> Seq<char> {
    pad(a, 8) + "  "@ + pad(b, 5) + "  "@ + pad(c, 6) + "  "@ + d
}

/// The row of an item.
pub open spec fn item_row(it: model::ItemView) -> Seq<char> {
    row(
        it.id,
        model::priority_text(it.priority),
        if it.open {
            "open"@
        } else {
            "done"@
        },
        clipped(it.subject),
    )
}

/// The line under the column heads.
pub open spec fn rule() -> Seq<char> {
    Seq::new(80, |i: int| '─')
}

/// The lines of the table.
pub open spec fn table(items: Seq<model::ItemView>) -> Seq<Seq<char>> {
    if items.len() == 0 {
        seq!["(no items)"@]
    } else {
        seq![row("id"@, "prio"@, "open"@, "subject"@), rule()] + items.map_values(
            |it: model::ItemView| item_row(it),
        )
    }
}

fn push_padded(out: &mut String, s: &str, width: usize)
    ensures
        final(out)@ == old(out)@ + pad(s@, width as nat),
{
    let len: usize = text::chars_of(s).len();
    text::push_str(out, s);
    let mut i: usize = len;
    let ghost start = out@;
    assert(start + Seq::new(0, |i: int| ' ') =~= start);
    while i < width
        invariant
            len == s@.len(),
            len <= i,
            i <= width || i == len,
            start == old(out)@ + s@,
            out@ == start + Seq::new((i - len) as nat, |i: int| ' '),
        decreases width - i,
    {
        out.push(' ');
        i = i + 1;
        assert(out@ =~= start + Seq::new((i - len) as nat, |i: int| ' '));
    }
    assert(out@ =~= old(out)@ + pad(s@, width as nat));
}

fn row_of(a: &str, b: &str, c: &str, d: &str) -> (r: String)
    ensures
        r@ == row(a@, b@, c@, d@),
{
    let mut r: String = String::new();
    push_padded(&mut r, a, 8);
    text::push_str(&mut r, "  ");
    push_padded(&mut r, b, 5);
    text::push_str(&mut r, "  ");
    push_padded(&mut r, c, 6);
    text::push_str(&mut r, "  ");
    text::push_str(&mut r, d);
    assert(r@ =~= row(a@, b@, c@, d@));
    r
}

/// A subject as the table shows it; `None` if the cut falls inside a
/// character.
pub fn clip(subject: &str) -> (r: Option<String>)
    ensures
        match r {
            Some(t) => clippable(subject@) && t@ == clipped(subject@),
            None => !clippable(subject@),
        },
{
    if text::at_most_bytes(subject, 60) {
        return Some(text::owned(subject));
    }
    match text::first_bytes(subject, 57) {
        Some(cut) => {
            let mut t: String = cut;
            text::push_str(&mut t, "...");
            Some(t)
        },
        None => None,
    }
}

fn rule_line() -> (r: String)
    ensures
        r@ == rule(),
{
    let mut r: String = String::new();
    let mut i: usize = 0;
    while i < 80
        invariant
            0 <= i <= 80,
            r@ == Seq::new(i as nat, |i: int| '─'),
        decreases 80 - i,
    {
        r.push('─');
        i = i + 1;
        assert(r@ =~= Seq::new(i as nat, |i: int| '─'));
    }
    r
}

/// The lines of the table. The subjects must not be cut inside a character.
pub fn pretty_lines(items: &[&Item]) -> (r: Vec<String>)
    requires
        forall|i: int| 0 <= i < items@.len() ==> clippable((#[trigger] items@[i])@.subject),
    ensures
        model::texts(r@) == table(model::refs_view(items@)),
{
    let n: usize = items.len();
    let mut r: Vec<String> = Vec::new();
    if n == 0 {
        r.push(text::owned("(no items)"));
        assert(model::texts(r@) =~= table(model::refs_view(items@)));
        return r;
    }
    r.push(row_of("id", "prio", "open", "subject"));
    r.push(rule_line());
    let ghost head = seq![row("id"@, "prio"@, "open"@, "subject"@), rule()];
    let ghost all = model::refs_view(items@);
    let ghost f = |it: model::ItemView| item_row(it);
    assert(model::texts(r@) =~= head + all.take(0).map_values(f));
    let mut i: usize = 0;
    while i < n
        invariant
            n == items@.len(),
            0 <= i <= n,
            all == model::refs_view(items@),
            f == (|it: model::ItemView| item_row(it)),
            forall|i: int| 0 <= i < items@.len() ==> clippable((#[trigger] items@[i])@.subject),
            model::texts(r@) == head + all.take(i as int).map_values(f),
        decreases n - i,
    {
        let item: &Item = items[i];
        assert(all[i as int] == item@);
        assert(clippable(items@[i as int]@.subject));
        let subject: String = match clip(item.subject.as_str()) {
            Some(t) => t,
            None => String::new(),
        };
        let open: &str = if item.open {
            "open"
        } else {
            "done"
        };
        let ghost before = r@;
        let line: String = row_of(
            item.id.as_str(),
            item.priority.as_str().as_str(),
            open,
            subject.as_str(),
        );
        let ghost l = line@;
        assert(l == item_row(item@));
        r.push(line);
        assert(model::texts(r@) =~= model::texts(before).push(l));
        assert(all.take(i as int + 1).map_values(f) =~= all.take(i as int).map_values(f).push(l));
        i = i + 1;
        assert(model::texts(r@) =~= head + all.take(i as int).map_values(f));
    }
    assert(all.take(n as int) =~= all);
    r
}

/// Padding adds blanks behind the text, up to the width and no further.
pub proof fn law_padding(s: Seq<char>, width: nat)
    ensures
        pad(s, width).len() == if s.len() < width {
            width
        } else {
            s.len()
        },
        pad(s, width).take(s.len() as int) == s,
        forall|i: int| s.len() <= i < pad(s, width).len() ==> #[trigger] pad(s, width)[i] == ' ',
{
    assert(pad(s, width).take(s.len() as int) =~= s);
}

/// The table shows subjects of up to 60 bytes as they are; of longer ones it
/// shows the first 57 bytes and three dots, 60 bytes in all.
pub proof fn law_clipping(subject: Seq<char>)
    requires
        clippable(subject),
    ensures
        text::byte_width(subject) <= 60 ==> clipped(subject) == subject,
        text::byte_width(subject) > 60 ==> {
            let n = clipped(subject).len() - 3;
            &&& 0 <= n <= subject.len()
            &&& clipped(subject).take(n) == subject.take(n)
            &&& text::byte_width(subject.take(n)) == 57
            &&& clipped(subject).skip(n) == seq!['.', '.', '.']
        },
{
    reveal_strlit("...");
    text::law_first_bytes(subject, 57);
    if text::byte_width(subject) > 60 {
        let p = text::byte_prefix(subject, 57)->0;
        let c = clipped(subject);
        assert(c.take(p.len() as int) =~= p);
        assert(c.skip(p.len() as int) =~= seq!['.', '.', '.']);
    }
}

/// A row of the table shows the id, the bucket, whether the item is open, and
/// the subject, in columns that line up as long as the entries fit.
pub proof fn law_rows(it: model::ItemView)
    requires
        it.id.len() <= 8,
        model::priority_text(it.priority).len() <= 5,
    ensures
        ({
            let r = item_row(it);
            let p = model::priority_text(it.priority);
            &&& r.len() >= 25
            &&& r.take(it.id.len() as int) == it.id
            &&& r.subrange(10, 10 + p.len() as int) == p
            &&& r.subrange(17, 21) == if it.open {
                seq!['o', 'p', 'e', 'n']
            } else {
                seq!['d', 'o', 'n', 'e']
            }
            &&& r.skip(25) == clipped(it.subject)
            &&& forall|i: int|
                it.id.len() <= i < 10 || 10 + p.len() <= i < 17 || 21 <= i < 25 ==> #[trigger] r[i]
                    == ' '
        }),
{
    reveal_strlit("  ");
    reveal_strlit("open");
    reveal_strlit("done");
    let r = item_row(it);
    let p = model::priority_text(it.priority);
    let o = if it.open {
        "open"@
    } else {
        "done"@
    };
    law_padding(it.id, 8);
    law_padding(p, 5);
    law_padding(o, 6);
    let a = pad(it.id, 8);
    let b = pad(p, 5);
    let c = pad(o, 6);
    assert(a.len() == 8 && b.len() == 5 && c.len() == 6);
    assert(r =~= a + "  "@ + b + "  "@ + c + "  "@ + clipped(it.subject));
    assert forall|i: int| 0 <= i < it.id.len() implies r[i] == it.id[i] by {
        assert(r[i] == a[i]);
        assert(a.take(it.id.len() as int)[i] == a[i]);
    }
    assert(r.take(it.id.len() as int) =~= it.id);
    assert forall|i: int| 0 <= i < p.len() implies r[10 + i] == p[i] by {
        assert(r[10 + i] == b[i]);
        assert(b.take(p.len() as int)[i] == b[i]);
    }
    assert(r.subrange(10, 10 + p.len() as int) =~= p);
    assert forall|i: int| 0 <= i < 4 implies r[17 + i] == o[i] by {
        assert(r[17 + i] == c[i]);
        assert(c.take(4)[i] == c[i]);
    }
    assert(r.subrange(17, 21) =~= o);
    assert(o =~= if it.open {
        seq!['o', 'p', 'e', 'n']
    } else {
        seq!['d', 'o', 'n', 'e']
    });
    assert(r.skip(25) =~= clipped(it.subject));
    assert forall|i: int|
        it.id.len() <= i < 10 || 10 + p.len() <= i < 17 || 21 <= i < 25 implies #[trigger] r[i]
        == ' ' by {
        if i < 8 {
            assert(r[i] == a[i]);
        } else if 10 <= i < 15 {
            assert(r[i] == b[i - 10]);
        } else if 21 <= i < 23 {
            assert(r[i] == c[i - 17]);
        }
    }
}

/// The table has one row for each item, in their order, below the column heads
/// and a rule; without items it says so.
pub proof fn law_table(items: Seq<model::ItemView>)
    ensures
        items.len() == 0 ==> table(items) == seq!["(no items)"@],
        items.len() > 0 ==> table(items).len() == items.len() + 2,
        items.len() > 0 ==> forall|i: int|
            0 <= i < items.len() ==> #[trigger] table(items)[i + 2] == item_row(items[i]),
{
}

} // verus!
