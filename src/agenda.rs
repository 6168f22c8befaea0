//! Classifying headings against an instant, and picking the most relevant
//! heading of a category.
use vstd::prelude::*;
use crate::entry::{Heading, State};
use crate::stamp::{TimeRange, Timestamp};
use crate::text::opt_index;

verus! {

/// The four categories a heading can fall into at a given instant.
#[derive(Clone, Copy, Debug, PartialEq, Eq, Structural)]
pub enum Category {
    Clocked,
    ActiveAction,
    ActiveEvent,
    Overdue,
}

pub open spec fn spec_is_action(h: Heading) -> bool {
    h.state == State::Todo
}

pub open spec fn spec_during(t: TimeRange, now: Timestamp) -> bool {
    t.start.secs < now.secs && now.secs < t.end.secs
}

pub open spec fn spec_before(t: TimeRange, now: Timestamp) -> bool {
    t.start.secs < now.secs && t.end.secs < now.secs
}

/// An open clock entry that began before `now`.
pub open spec fn spec_clocked(h: Heading, now: Timestamp) -> bool {
    h.logged_active matches Some(a) && a.secs < now.secs
}

/// An action whose scheduled span holds `now` strictly inside.
pub open spec fn spec_action_now(h: Heading, now: Timestamp) -> bool {
    spec_is_action(h) && match h.scheduled {
        Some(s) => spec_during(s, now),
        None => false,
    }
}

/// A non-action whose scheduled span holds `now` strictly inside.
pub open spec fn spec_event_now(h: Heading, now: Timestamp) -> bool {
    !spec_is_action(h) && match h.scheduled {
        Some(s) => spec_during(s, now),
        None => false,
    }
}

/// An action whose scheduled span (or, with none, its deadline) lies
/// wholly before `now`.
pub open spec fn spec_overdue(h: Heading, now: Timestamp) -> bool {
    spec_is_action(h) && match h.scheduled {
        Some(s) => spec_before(s, now),
        None => match h.deadline {
            Some(d) => spec_before(d, now),
            None => false,
        },
    }
}

/// The category of `h` at `now`: the first of the four tests that holds.
pub open spec fn category_of(h: Heading, now: Timestamp) -> Option<Category> {
    if spec_clocked(h, now) {
        Some(Category::Clocked)
    } else if spec_action_now(h, now) {
        Some(Category::ActiveAction)
    } else if spec_event_now(h, now) {
        Some(Category::ActiveEvent)
    } else if spec_overdue(h, now) {
        Some(Category::Overdue)
    } else {
        None
    }
}

/// Of the loose stamps begun at or before `now`, the index of the one begun
/// last (the first such on a tie).
pub open spec fn latest_begun(ts: Seq<TimeRange>, now: int) -> Option<int>
    decreases ts.len(),
{
    if ts.len() == 0 {
        None
    } else {
        let b = latest_begun(ts.drop_last(), now);
        let k = ts.len() - 1;
        if ts[k].start.secs <= now && (b is None || ts[b->0].start.secs < ts[k].start.secs) {
            Some(k)
        } else {
            b
        }
    }
}

/// The span a heading is ranked by: its scheduled span, or else its loose
/// stamp begun most recently at or before `now`.
pub open spec fn anchor_of(h: Heading, now: Timestamp) -> Option<TimeRange> {
    if h.scheduled is Some {
        h.scheduled
    } else {
        match latest_begun(h.timestamps@, now.secs as int) {
            Some(k) => Some(h.timestamps@[k]),
            None => None,
        }
    }
}

/// A heading of category `cat` at `now` that has an anchor.
pub open spec fn is_candidate(h: Heading, now: Timestamp, cat: Category) -> bool {
    category_of(h, now) == Some(cat) && anchor_of(h, now) is Some
}

/// Among the candidates, the index of the one anchored earliest (the first
/// such on a tie).
pub open spec fn earliest_anchored(hs: Seq<Heading>, now: Timestamp, cat: Category) -> Option<int>
    decreases hs.len(),
{
    if hs.len() == 0 {
        None
    } else {
        let b = earliest_anchored(hs.drop_last(), now, cat);
        let k = hs.len() - 1;
        if is_candidate(hs[k], now, cat) && (b is None || anchor_of(hs[k], now)->0.start.secs
            < anchor_of(hs[b->0], now)->0.start.secs) {
            Some(k)
        } else {
            b
        }
    }
}

impl Heading {
    /// Whether the state keyword marks actionable work.
    pub fn is_action(&self) -> (r: bool)
        ensures
            r == spec_is_action(*self),
    {
        self.state == State::Todo
    }

    pub fn is_clocked_now(&self, now: Timestamp) -> (r: bool)
        ensures
            r == spec_clocked(*self, now),
    {
        match self.logged_active {
            Some(a) => a.secs < now.secs,
            None => false,
        }
    }

    pub fn is_action_now(&self, now: Timestamp) -> (r: bool)
        ensures
            r == spec_action_now(*self, now),
    {
        if !self.is_action() {
            return false;
        }
        match self.scheduled {
            Some(s) => s.is_during(now),
            None => false,
        }
    }

    pub fn is_event_now(&self, now: Timestamp) -> (r: bool)
        ensures
            r == spec_event_now(*self, now),
    {
        if self.is_action() {
            return false;
        }
        match self.scheduled {
            Some(s) => s.is_during(now),
            None => false,
        }
    }

    pub fn is_overdue_now(&self, now: Timestamp) -> (r: bool)
        ensures
            r == spec_overdue(*self, now),
    {
        if !self.is_action() {
            return false;
        }
        match self.scheduled {
            Some(s) => s.is_before(now),
            None => match self.deadline {
                Some(d) => d.is_before(now),
                None => false,
            },
        }
    }

    /// The category of the heading at `now`, the tests taken in order.
    pub fn classify(&self, now: Timestamp) -> (r: Option<Category>)
        ensures
            r == category_of(*self, now),
    {
        if self.is_clocked_now(now) {
            Some(Category::Clocked)
        } else if self.is_action_now(now) {
            Some(Category::ActiveAction)
        } else if self.is_event_now(now) {
            Some(Category::ActiveEvent)
        } else if self.is_overdue_now(now) {
            Some(Category::Overdue)
        } else {
            None
        }
    }

    /// The span the heading is ranked by at `now`; `None` where it has no
    /// scheduled span and no loose stamp begun at or before `now`.
    pub fn most_recently_started(&self, now: Timestamp) -> (r: Option<TimeRange>)
        ensures
            r == anchor_of(*self, now),
            self.scheduled is None ==> match r {
                Some(t) => t.start.secs <= now.secs && exists|k: int|
                    0 <= k < self.timestamps@.len() && self.timestamps@[k] == t,
                None => forall|j: int|
                    0 <= j < self.timestamps@.len() ==> now.secs
                        < #[trigger] self.timestamps@[j].start.secs,
            },
            self.scheduled is None ==> forall|j: int|
                0 <= j < self.timestamps@.len() && #[trigger] self.timestamps@[j].start.secs
                    <= now.secs ==> (r matches Some(t) && self.timestamps@[j].start.secs
                    <= t.start.secs),
    {
        if self.scheduled.is_some() {
            return self.scheduled;
        }
        let ts = &self.timestamps;
        let mut best: Option<usize> = None;
        let mut i: usize = 0;
        assert(ts@.subrange(0, 0) =~= Seq::<TimeRange>::empty());
        while i < ts.len()
            invariant
                i <= ts@.len(),
                best matches Some(b) ==> b < i,
                latest_begun(ts@.subrange(0, i as int), now.secs as int) == match best {
                    Some(b) => Some(b as int),
                    None => None::<int>,
                },
            decreases ts@.len() - i,
        {
            let ghost sub = ts@.subrange(0, i + 1);
            assert(sub.drop_last() =~= ts@.subrange(0, i as int));
            assert(sub[i as int] == ts@[i as int]);
            let t = ts[i];
            if t.start.secs <= now.secs {
                let better = match best {
                    None => true,
                    Some(b) => ts[b].start.secs < t.start.secs,
                };
                proof {
                    if let Some(b) = best {
                        assert(sub[b as int] == ts@[b as int]);
                    }
                }
                if better {
                    best = Some(i);
                }
            }
            i += 1;
        }
        assert(ts@.subrange(0, ts@.len() as int) =~= ts@);
        proof {
            latest_begun_is_latest(ts@, now.secs as int);
        }
        match best {
            Some(b) => Some(ts[b]),
            None => None,
        }
    }

    /// How long the open clock entry has been running at `now`, in seconds.
    pub fn clocked_seconds(&self, now: Timestamp) -> (r: Option<i128>)
        ensures
            r == match self.logged_active {
                Some(a) => Some((now.secs - a.secs) as i128),
                None => None::<i128>,
            },
    {
        match self.logged_active {
            Some(a) => Some(now.secs as i128 - a.secs as i128),
            None => None,
        }
    }
}

/// The loose stamp chosen by `latest_begun` has begun at or before `now`,
/// no stamp begun at or before `now` began later, and none begun at or
/// before `now` stands before it with the same start.
pub proof fn latest_begun_is_latest(ts: Seq<TimeRange>, now: int)
    ensures
        match latest_begun(ts, now) {
            Some(k) => 0 <= k < ts.len() && ts[k].start.secs <= now && (forall|j: int|
                0 <= j < ts.len() && ts[j].start.secs <= now ==> ts[j].start.secs
                    <= ts[k].start.secs) && (forall|j: int|
                0 <= j < k && ts[j].start.secs <= now ==> ts[j].start.secs < ts[k].start.secs),
            None => forall|j: int| 0 <= j < ts.len() ==> now < ts[j].start.secs,
        },
    decreases ts.len(),
{
    if ts.len() > 0 {
        let p = ts.drop_last();
        latest_begun_is_latest(p, now);
        assert forall|j: int| 0 <= j < p.len() implies p[j] == ts[j] by {}
    }
}

/// The heading picked for category `cat` at `now`: among those of that
/// category with an anchor, the one anchored earliest.
pub fn most_recent(hs: &Vec<Heading>, now: Timestamp, cat: Category) -> (r: Option<usize>)
    ensures
        match r {
            Some(k) => earliest_anchored(hs@, now, cat) == Some(k as int),
            None => earliest_anchored(hs@, now, cat) is None,
        },
{
    let mut best: Option<usize> = None;
    let mut best_start: i64 = 0;
    let mut i: usize = 0;
    assert(hs@.subrange(0, 0) =~= Seq::<Heading>::empty());
    while i < hs.len()
        invariant
            i <= hs@.len(),
            earliest_anchored(hs@.subrange(0, i as int), now, cat) == match best {
                Some(b) => Some(b as int),
                None => None::<int>,
            },
            best matches Some(b) ==> b < i && (anchor_of(hs@[b as int], now) matches Some(t)
                && t.start.secs == best_start),
        decreases hs@.len() - i,
    {
        let ghost pre = hs@.subrange(0, i as int);
        assert(hs@.subrange(0, i + 1).drop_last() =~= pre);
        assert(hs@.subrange(0, i + 1)[i as int] == hs@[i as int]);
        let h = &hs[i];
        if h.classify(now) == Some(cat) {
            match h.most_recently_started(now) {
                Some(t) => {
                    let better = match best {
                        None => true,
                        Some(_) => t.start.secs < best_start,
                    };
                    if better {
                        best = Some(i);
                        best_start = t.start.secs;
                    }
                },
                None => {},
            }
        }
        i += 1;
    }
    assert(hs@.subrange(0, hs@.len() as int) =~= hs@);
    best
}

/// How many headings fall in category `cat` at `now`.
pub open spec fn count_in(hs: Seq<Heading>, now: Timestamp, cat: Category) -> nat
    decreases hs.len(),
{
    if hs.len() == 0 {
        0
    } else {
        count_in(hs.drop_last(), now, cat) + if category_of(hs.last(), now) == Some(cat) {
            1nat
        } else {
            0nat
        }
    }
}

/// The index of the last heading in category `cat` at `now`.
pub open spec fn last_in(hs: Seq<Heading>, now: Timestamp, cat: Category) -> Option<int>
    decreases hs.len(),
{
    if hs.len() == 0 {
        None
    } else if category_of(hs.last(), now) == Some(cat) {
        Some(hs.len() - 1)
    } else {
        last_in(hs.drop_last(), now, cat)
    }
}

/// The heading for the headline: the one clocked heading, if exactly one is
/// clocked; else the pick among the active actions, if any; else the pick
/// among the overdue ones, if any.
pub open spec fn headline_of(hs: Seq<Heading>, now: Timestamp) -> Option<(Category, int)> {
    if count_in(hs, now, Category::Clocked) == 1 {
        Some((Category::Clocked, last_in(hs, now, Category::Clocked)->0))
    } else if count_in(hs, now, Category::ActiveAction) > 0 {
        match earliest_anchored(hs, now, Category::ActiveAction) {
            Some(k) => Some((Category::ActiveAction, k)),
            None => None,
        }
    } else if count_in(hs, now, Category::Overdue) > 0 {
        match earliest_anchored(hs, now, Category::Overdue) {
            Some(k) => Some((Category::Overdue, k)),
            None => None,
        }
    } else {
        None
    }
}

pub open spec fn opt_pick(o: Option<(Category, usize)>) -> Option<(Category, int)> {
    match o {
        Some((c, k)) => Some((c, k as int)),
        None => None,
    }
}

/// The headings for the two slots of the status line at `now`: the
/// headline, with its category, and the active event.
pub fn choose_status(hs: &Vec<Heading>, now: Timestamp) -> (r: (
    Option<(Category, usize)>,
    Option<usize>,
))
    ensures
        opt_pick(r.0) == headline_of(hs@, now),
        opt_index(r.1) == earliest_anchored(hs@, now, Category::ActiveEvent),
{
    let mut clocked: usize = 0;
    let mut last_clocked: usize = 0;
    let mut actions: usize = 0;
    let mut overdue: usize = 0;
    let mut i: usize = 0;
    assert(hs@.subrange(0, 0) =~= Seq::<Heading>::empty());
    while i < hs.len()
        invariant
            i <= hs@.len(),
            clocked == count_in(hs@.subrange(0, i as int), now, Category::Clocked),
            actions == count_in(hs@.subrange(0, i as int), now, Category::ActiveAction),
            overdue == count_in(hs@.subrange(0, i as int), now, Category::Overdue),
            clocked <= i && actions <= i && overdue <= i,
            clocked > 0 ==> last_in(hs@.subrange(0, i as int), now, Category::Clocked) == Some(
                last_clocked as int,
            ),
        decreases hs@.len() - i,
    {
        let ghost sub = hs@.subrange(0, i + 1);
        assert(sub.drop_last() =~= hs@.subrange(0, i as int));
        assert(sub.last() == hs@[i as int]);
        let c = hs[i].classify(now);
        match c {
            Some(Category::Clocked) => {
                clocked += 1;
                last_clocked = i;
            },
            Some(Category::ActiveAction) => {
                actions += 1;
            },
            Some(Category::Overdue) => {
                overdue += 1;
            },
            _ => {},
        }
        i += 1;
    }
    assert(hs@.subrange(0, hs@.len() as int) =~= hs@);
    let headline = if clocked == 1 {
        Some((Category::Clocked, last_clocked))
    } else if actions > 0 {
        match most_recent(hs, now, Category::ActiveAction) {
            Some(k) => Some((Category::ActiveAction, k)),
            None => None,
        }
    } else if overdue > 0 {
        match most_recent(hs, now, Category::Overdue) {
            Some(k) => Some((Category::Overdue, k)),
            None => None,
        }
    } else {
        None
    };
    let event = most_recent(hs, now, Category::ActiveEvent);
    (headline, event)
}

/// A heading falls in at most one category at an instant: of the action,
/// event and overdue tests at most one holds, an open clock begun before
/// `now` puts the heading in the clocked category whatever else holds, and
/// the category given is one whose test holds.
pub proof fn classification_exclusive(h: Heading, now: Timestamp)
    ensures
        !(spec_action_now(h, now) && spec_event_now(h, now)),
        !(spec_action_now(h, now) && spec_overdue(h, now)),
        !(spec_event_now(h, now) && spec_overdue(h, now)),
        spec_clocked(h, now) ==> category_of(h, now) == Some(Category::Clocked),
        category_of(h, now) == Some(Category::ActiveAction) ==> spec_action_now(h, now)
            && !spec_clocked(h, now),
        category_of(h, now) == Some(Category::ActiveEvent) ==> spec_event_now(h, now)
            && !spec_clocked(h, now),
        category_of(h, now) == Some(Category::Overdue) ==> spec_overdue(h, now) && !spec_clocked(
            h,
            now,
        ),
{
}

/// The selector picks, among the headings of a category that have an
/// anchor, one whose anchor starts earliest, and the first such; it picks
/// none only where no heading qualifies.
pub proof fn selector_picks_earliest(hs: Seq<Heading>, now: Timestamp, cat: Category)
    ensures
        match earliest_anchored(hs, now, cat) {
            Some(k) => 0 <= k < hs.len() && is_candidate(hs[k], now, cat) && (forall|j: int|
                0 <= j < hs.len() && is_candidate(#[trigger] hs[j], now, cat) ==> anchor_of(
                    hs[k],
                    now,
                )->0.start.secs <= anchor_of(hs[j], now)->0.start.secs) && (forall|j: int|
                0 <= j < k && is_candidate(#[trigger] hs[j], now, cat) ==> anchor_of(
                    hs[k],
                    now,
                )->0.start.secs < anchor_of(hs[j], now)->0.start.secs),
            None => forall|j: int| 0 <= j < hs.len() ==> !is_candidate(#[trigger] hs[j], now, cat),
        },
    decreases hs.len(),
{
    if hs.len() > 0 {
        let p = hs.drop_last();
        selector_picks_earliest(p, now, cat);
        assert forall|j: int| 0 <= j < p.len() implies p[j] == hs[j] by {}
    }
}

} // verus!
