//! Calendar events: the meeting in progress and the upcoming meetings.

use vstd::prelude::*;

use crate::time::Moment;

verus! {

/// A calendar event: its title and when it starts and ends.
#[derive(Debug, PartialEq)]
pub struct Event {
    pub summary: String,
    pub start: Moment,
    pub end: Moment,
}

impl Clone for Event {
    fn clone(&self) -> (r: Event)
        ensures
            r == *self,
    {
        Event { summary: self.summary.clone(), start: self.start, end: self.end }
    }
}

/// The event runs at `now`: it has started (start included) and not ended
/// (end excluded).
pub open spec fn in_progress(e: Event, now: Moment) -> bool {
    !now.before(e.start) && now.before(e.end)
}

/// The event starts after `now`.
pub open spec fn is_future(e: Event, now: Moment) -> bool {
    now.before(e.start)
}

/// The future events of `events`, in their order.
pub open spec fn future_events(events: Seq<Event>, now: Moment) -> Seq<Event>
    decreases events.len(),
{
    if events.len() == 0 {
        Seq::empty()
    } else {
        let p = future_events(events.drop_last(), now);
        if is_future(events.last(), now) {
            p.push(events.last())
        } else {
            p
        }
    }
}

/// Inserts `e` into `sorted` after every event that starts no later than it.
pub open spec fn insert_by_start(sorted: Seq<Event>, e: Event) -> Seq<Event>
    decreases sorted.len(),
{
    if sorted.len() == 0 {
        seq![e]
    } else if e.start.before(sorted.last().start) {
        insert_by_start(sorted.drop_last(), e).push(sorted.last())
    } else {
        sorted.push(e)
    }
}

/// `events` sorted by start; events that start together keep their order.
pub open spec fn sorted_by_start(events: Seq<Event>) -> Seq<Event>
    decreases events.len(),
{
    if events.len() == 0 {
        Seq::empty()
    } else {
        insert_by_start(sorted_by_start(events.drop_last()), events.last())
    }
}

/// At most `n` future events, earliest start first.
pub open spec fn upcoming_events(events: Seq<Event>, now: Moment, n: nat) -> Seq<Event> {
    let s = sorted_by_start(future_events(events, now));
    if n < s.len() {
        s.take(n as int)
    } else {
        s
    }
}

/// Whether a meeting runs at `now`.
pub fn meeting_in_progress(events: &[Event], now: Moment) -> (r: bool)
    ensures
        r == exists|i: int| 0 <= i < events@.len() && in_progress(#[trigger] events@[i], now),
{
    let mut i: usize = 0;
    while i < events.len()
        invariant
            i <= events@.len(),
            forall|j: int| 0 <= j < i ==> !in_progress(#[trigger] events@[j], now),
        decreases events@.len() - i,
    {
        let e = &events[i];
        if !now.is_before(&e.start) && now.is_before(&e.end) {
            assert(in_progress(events@[i as int], now));
            return true;
        }
        i = i + 1;
    }
    false
}

proof fn lemma_insert_at(s: Seq<Event>, e: Event, j: int)
    requires
        0 <= j <= s.len(),
        forall|k: int| j <= k < s.len() ==> e.start.before(#[trigger] s[k].start),
        j == 0 || !e.start.before(s[j - 1].start),
    ensures
        insert_by_start(s, e) == s.insert(j, e),
    decreases s.len(),
{
    if s.len() == j {
        assert(s.insert(j, e) =~= s.push(e));
    } else {
        let t = s.drop_last();
        lemma_insert_at(t, e, j);
        assert(s.insert(j, e) =~= t.insert(j, e).push(s.last()));
    }
}

/// At most `n` of the events that start after `now`, sorted by start; events
/// that start together keep their order.
pub fn upcoming(events: &[Event], now: Moment, n: usize) -> (r: Vec<Event>)
    ensures
        r@ == upcoming_events(events@, now, n as nat),
{
    let mut sorted: Vec<Event> = Vec::new();
    let mut i: usize = 0;
    while i < events.len()
        invariant
            i <= events@.len(),
            sorted@ == sorted_by_start(future_events(events@.take(i as int), now)),
        decreases events@.len() - i,
    {
        let ghost prev = events@.take(i as int);
        assert(events@.take(i + 1).drop_last() =~= prev);
        let e = &events[i];
        if now.is_before(&e.start) {
            let mut j: usize = sorted.len();
            while j > 0 && e.start.is_before(&sorted[j - 1].start)
                invariant
                    j <= sorted@.len(),
                    forall|k: int| j <= k < sorted@.len() ==> e.start.before(#[trigger] sorted@[k].start),
                decreases j,
            {
                j = j - 1;
            }
            proof {
                lemma_insert_at(sorted@, *e, j as int);
                let fp = future_events(prev, now);
                assert(future_events(events@.take(i + 1), now) == fp.push(*e));
                assert(fp.push(*e).drop_last() =~= fp);
                assert(fp.push(*e).last() == *e);
            }
            sorted.insert(j, e.clone());
        } else {
            assert(future_events(events@.take(i + 1), now) == future_events(prev, now));
        }
        i = i + 1;
    }
    assert(events@.take(i as int) =~= events@);
    sorted.truncate(n);
    sorted
}

/// The earliest future event (the first of those that start together).
pub fn next_up(events: &[Event], now: Moment) -> (r: Option<Event>)
    ensures
        r == (if upcoming_events(events@, now, 1).len() > 0 {
            Some(upcoming_events(events@, now, 1)[0])
        } else {
            None::<Event>
        }),
{
    let mut v = upcoming(events, now, 1);
    if v.len() > 0 {
        Some(v.remove(0))
    } else {
        None
    }
}

// ---------------------------------------------------------------------------
// Laws of the upcoming list
// ---------------------------------------------------------------------------

/// Two moments denote the same instant.
pub open spec fn same_instant(a: Moment, b: Moment) -> bool {
    a.secs == b.secs && a.nanos == b.nanos
}

/// The events of `s` that start at the instant `t`, in their order.
pub open spec fn starting_at(s: Seq<Event>, t: Moment) -> Seq<Event>
    decreases s.len(),
{
    if s.len() == 0 {
        Seq::empty()
    } else {
        let p = starting_at(s.drop_last(), t);
        if same_instant(s.last().start, t) {
            p.push(s.last())
        } else {
            p
        }
    }
}

/// No event of `s` starts before an earlier one.
pub open spec fn is_sorted_by_start(s: Seq<Event>) -> bool {
    forall|i: int, j: int| 0 <= i < j < s.len() ==> !(#[trigger] s[j].start).before(#[trigger] s[i].start)
}

proof fn lemma_insert_bounded(t: Seq<Event>, e: Event, b: Moment)
    requires
        forall|k: int| 0 <= k < t.len() ==> !b.before(#[trigger] t[k].start),
        !b.before(e.start),
    ensures
        forall|k: int|
            0 <= k < insert_by_start(t, e).len() ==> !b.before(#[trigger] insert_by_start(t, e)[k].start),
        insert_by_start(t, e).len() == t.len() + 1,
    decreases t.len(),
{
    if t.len() > 0 && e.start.before(t.last().start) {
        lemma_insert_bounded(t.drop_last(), e, b);
        let u = insert_by_start(t.drop_last(), e);
        assert forall|k: int| 0 <= k < u.push(t.last()).len() implies !b.before(
            #[trigger] u.push(t.last())[k].start,
        ) by {
            if k < u.len() {
                assert(u.push(t.last())[k] == u[k]);
            }
        }
    }
}

proof fn lemma_insert_sorted(t: Seq<Event>, e: Event)
    requires
        is_sorted_by_start(t),
    ensures
        is_sorted_by_start(insert_by_start(t, e)),
        insert_by_start(t, e).len() == t.len() + 1,
    decreases t.len(),
{
    if t.len() == 0 {
    } else if e.start.before(t.last().start) {
        let d = t.drop_last();
        assert(is_sorted_by_start(d));
        lemma_insert_sorted(d, e);
        let u = insert_by_start(d, e);
        let last = t.last();
        assert forall|k: int| 0 <= k < d.len() implies !last.start.before(#[trigger] d[k].start) by {
            assert(d[k] == t[k]);
        }
        lemma_insert_bounded(d, e, last.start);
        let w = u.push(last);
        assert forall|i: int, j: int| 0 <= i < j < w.len() implies !(#[trigger] w[j].start).before(
            #[trigger] w[i].start,
        ) by {
            if j < u.len() {
                assert(w[j] == u[j]);
                assert(w[i] == u[i]);
            } else {
                assert(w[i] == u[i]);
            }
        }
    } else {
        let w = t.push(e);
        assert forall|i: int, j: int| 0 <= i < j < w.len() implies !(#[trigger] w[j].start).before(
            #[trigger] w[i].start,
        ) by {
            if j < t.len() {
                assert(w[j] == t[j]);
                assert(w[i] == t[i]);
            } else {
                assert(w[i] == t[i]);
                assert(i == t.len() - 1 || !t.last().start.before(t[i].start));
            }
        }
    }
}

/// Sorting by start orders the events: none starts before an earlier one,
/// and none is gained or lost.
pub proof fn law_sorted_by_start_sorts(s: Seq<Event>)
    ensures
        is_sorted_by_start(sorted_by_start(s)),
        sorted_by_start(s).to_multiset() == s.to_multiset(),
    decreases s.len(),
{
    broadcast use vstd::seq_lib::group_to_multiset_ensures;

    if s.len() > 0 {
        law_sorted_by_start_sorts(s.drop_last());
        lemma_insert_sorted(sorted_by_start(s.drop_last()), s.last());
        lemma_insert_multiset(sorted_by_start(s.drop_last()), s.last());
        assert(s.drop_last().push(s.last()) =~= s);
    }
}

proof fn lemma_insert_multiset(t: Seq<Event>, e: Event)
    ensures
        insert_by_start(t, e).to_multiset() == t.to_multiset().insert(e),
    decreases t.len(),
{
    broadcast use vstd::seq_lib::group_to_multiset_ensures;

    if t.len() == 0 {
        assert(seq![e] =~= Seq::<Event>::empty().push(e));
    } else if e.start.before(t.last().start) {
        lemma_insert_multiset(t.drop_last(), e);
        assert(t.drop_last().push(t.last()) =~= t);
        assert(t.to_multiset() =~= t.drop_last().to_multiset().insert(t.last()));
        assert(insert_by_start(t, e).to_multiset() =~= t.to_multiset().insert(e));
    }
}

proof fn lemma_insert_stable(t: Seq<Event>, e: Event, x: Moment)
    ensures
        starting_at(insert_by_start(t, e), x) == if same_instant(e.start, x) {
            starting_at(t, x).push(e)
        } else {
            starting_at(t, x)
        },
    decreases t.len(),
{
    if t.len() == 0 {
        assert(seq![e].drop_last() =~= Seq::<Event>::empty());
        assert(seq![e].last() == e);
        assert(Seq::<Event>::empty().push(e) =~= seq![e]);
        assert(starting_at(Seq::<Event>::empty(), x) =~= Seq::<Event>::empty());
    } else if e.start.before(t.last().start) {
        let d = t.drop_last();
        lemma_insert_stable(d, e, x);
        let u = insert_by_start(d, e);
        let l = t.last();
        assert(u.push(l).drop_last() =~= u);
        assert(u.push(l).last() == l);
        assert(insert_by_start(t, e) == u.push(l));
        assert(same_instant(e.start, x) ==> !same_instant(l.start, x));
        if same_instant(e.start, x) {
            assert(starting_at(t, x) == starting_at(d, x));
            assert(starting_at(u.push(l), x) == starting_at(u, x));
        } else if same_instant(l.start, x) {
            assert(starting_at(t, x) == starting_at(d, x).push(l));
            assert(starting_at(u.push(l), x) == starting_at(u, x).push(l));
        } else {
            assert(starting_at(t, x) == starting_at(d, x));
            assert(starting_at(u.push(l), x) == starting_at(u, x));
        }
    } else {
        assert(t.push(e).drop_last() =~= t);
        assert(t.push(e).last() == e);
    }
}

/// Sorting by start is stable: the events that start at one same instant
/// come out in the order in which they came in.
pub proof fn law_sort_is_stable(s: Seq<Event>, x: Moment)
    ensures
        starting_at(sorted_by_start(s), x) == starting_at(s, x),
    decreases s.len(),
{
    if s.len() > 0 {
        law_sort_is_stable(s.drop_last(), x);
        lemma_insert_stable(sorted_by_start(s.drop_last()), s.last(), x);
    }
}

proof fn lemma_future_events(events: Seq<Event>, now: Moment)
    ensures
        forall|k: int| 0 <= k < future_events(events, now).len() ==> is_future(
            #[trigger] future_events(events, now)[k],
            now,
        ),
        future_events(events, now).len() <= events.len(),
    decreases events.len(),
{
    if events.len() > 0 {
        lemma_future_events(events.drop_last(), now);
        let p = future_events(events.drop_last(), now);
        if is_future(events.last(), now) {
            assert forall|k: int| 0 <= k < p.push(events.last()).len() implies is_future(
                #[trigger] p.push(events.last())[k],
                now,
            ) by {
                if k < p.len() {
                    assert(p.push(events.last())[k] == p[k]);
                }
            }
        }
    }
}

/// The upcoming list holds only events that start after `now`, sorted by
/// start, as many as there are such events but no more than `n`; each of
/// them is one of the given events.
pub proof fn law_upcoming(events: Seq<Event>, now: Moment, n: nat)
    ensures
        is_sorted_by_start(upcoming_events(events, now, n)),
        forall|k: int| 0 <= k < upcoming_events(events, now, n).len() ==> is_future(
            #[trigger] upcoming_events(events, now, n)[k],
            now,
        ),
        forall|k: int| 0 <= k < upcoming_events(events, now, n).len() ==> events.contains(
            #[trigger] upcoming_events(events, now, n)[k],
        ),
        upcoming_events(events, now, n).len() == if n < future_events(events, now).len() {
            n as int
        } else {
            future_events(events, now).len() as int
        },
{
    broadcast use vstd::seq_lib::group_to_multiset_ensures;

    let f = future_events(events, now);
    let s = sorted_by_start(f);
    law_sorted_by_start_sorts(f);
    lemma_future_events(events, now);
    lemma_future_events_contained(events, now);
    let r = upcoming_events(events, now, n);
    vstd::seq_lib::to_multiset_len(s);
    vstd::seq_lib::to_multiset_len(f);
    assert forall|k: int| 0 <= k < r.len() implies is_future(#[trigger] r[k], now)
        && events.contains(r[k]) by {
        assert(r[k] == s[k]);
        assert(s.to_multiset().count(s[k]) > 0);
        assert(f.contains(s[k]));
        let j = choose|j: int| 0 <= j < f.len() && f[j] == s[k];
        assert(f[j] == s[k]);
    }
    assert forall|i: int, j: int| 0 <= i < j < r.len() implies !(#[trigger] r[j].start).before(
        #[trigger] r[i].start,
    ) by {
        assert(r[i] == s[i]);
        assert(r[j] == s[j]);
    }
}

proof fn lemma_future_events_contained(events: Seq<Event>, now: Moment)
    ensures
        forall|k: int| 0 <= k < future_events(events, now).len() ==> events.contains(
            #[trigger] future_events(events, now)[k],
        ),
    decreases events.len(),
{
    if events.len() > 0 {
        let d = events.drop_last();
        lemma_future_events_contained(d, now);
        let p = future_events(d, now);
        assert forall|k: int| 0 <= k < future_events(events, now).len() implies events.contains(
            #[trigger] future_events(events, now)[k],
        ) by {
            if k < p.len() {
                assert(future_events(events, now)[k] == p[k]);
                let j = choose|j: int| 0 <= j < d.len() && d[j] == p[k];
                assert(events[j] == d[j]);
            } else {
                assert(events[events.len() - 1] == events.last());
            }
        }
    }
}

/// No future event is lost: each event occurs among the future events as
/// often as among all events when it starts after `now`, and not at all
/// otherwise.
pub proof fn law_future_events_keep_every_future_event(events: Seq<Event>, now: Moment)
    ensures
        forall|e: Event|
            #[trigger] future_events(events, now).to_multiset().count(e) == if now.before(e.start) {
                events.to_multiset().count(e)
            } else {
                0
            },
    decreases events.len(),
{
    broadcast use vstd::seq_lib::group_to_multiset_ensures;
    broadcast use vstd::multiset::group_multiset_axioms;

    if events.len() == 0 {
        assert(future_events(events, now) =~= Seq::<Event>::empty());
        assert(events =~= Seq::<Event>::empty());
    } else {
        let d = events.drop_last();
        let l = events.last();
        law_future_events_keep_every_future_event(d, now);
        assert(d.push(l) =~= events);
        assert forall|e: Event|
            #[trigger] future_events(events, now).to_multiset().count(e) == if now.before(e.start) {
                events.to_multiset().count(e)
            } else {
                0
            } by {
            assert(events.to_multiset() == d.to_multiset().insert(l));
            if is_future(l, now) {
                assert(future_events(events, now) == future_events(d, now).push(l));
                assert(future_events(events, now).to_multiset() == future_events(
                    d,
                    now,
                ).to_multiset().insert(l));
            } else {
                assert(future_events(events, now) == future_events(d, now));
            }
        }
    }
}

/// When `n` is at least the number of events, the upcoming list holds every
/// event that starts after `now`, as often as it occurs, and nothing else.
pub proof fn law_upcoming_keeps_every_future_event(events: Seq<Event>, now: Moment, n: nat)
    requires
        n >= events.len(),
    ensures
        forall|e: Event|
            #[trigger] upcoming_events(events, now, n).to_multiset().count(e) == if now.before(
                e.start,
            ) {
                events.to_multiset().count(e)
            } else {
                0
            },
{
    let f = future_events(events, now);
    lemma_future_events(events, now);
    law_sorted_by_start_sorts(f);
    law_future_events_keep_every_future_event(events, now);
    vstd::seq_lib::to_multiset_len(sorted_by_start(f));
    vstd::seq_lib::to_multiset_len(f);
    assert(upcoming_events(events, now, n) == sorted_by_start(f));
}

/// The next meeting exists as soon as one event starts after `now`, and no
/// event that starts after `now` starts before it.
pub proof fn law_next_up_is_earliest_future(events: Seq<Event>, now: Moment)
    ensures
        (exists|i: int| 0 <= i < events.len() && is_future(#[trigger] events[i], now)) ==> {
            let u = upcoming_events(events, now, 1);
            &&& u.len() == 1
            &&& is_future(u[0], now)
            &&& forall|i: int|
                0 <= i < events.len() && is_future(#[trigger] events[i], now) ==> !events[i].start.before(
                    u[0].start,
                )
        },
{
    broadcast use vstd::seq_lib::group_to_multiset_ensures;

    if exists|i: int| 0 <= i < events.len() && is_future(#[trigger] events[i], now) {
        let f = future_events(events, now);
        let s = sorted_by_start(f);
        law_future_events_keep_every_future_event(events, now);
        law_sorted_by_start_sorts(f);
        law_upcoming(events, now, 1);
        vstd::seq_lib::to_multiset_len(s);
        vstd::seq_lib::to_multiset_len(f);
        let i0 = choose|i: int| 0 <= i < events.len() && is_future(#[trigger] events[i], now);
        assert(events.contains(events[i0]));
        assert(events.to_multiset().count(events[i0]) > 0);
        assert(f.to_multiset().count(events[i0]) > 0);
        assert(f.len() > 0);
        let u = upcoming_events(events, now, 1);
        assert(u[0] == s[0]);
        assert forall|i: int|
            0 <= i < events.len() && is_future(#[trigger] events[i], now) implies !events[i].start.before(
                u[0].start,
            ) by {
            assert(events.contains(events[i]));
            assert(events.to_multiset().count(events[i]) > 0);
            assert(s.to_multiset().count(events[i]) > 0);
            assert(s.contains(events[i]));
            let j = choose|j: int| 0 <= j < s.len() && s[j] == events[i];
            if j > 0 {
                assert(!(s[j].start).before(s[0].start));
            }
        }
    }
}

} // verus!
