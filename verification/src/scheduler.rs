//! When the plane flies on its own: the meeting that is due, the gates that
//! hold automatic flights back, and the memory of the meetings already
//! announced.

use vstd::prelude::*;

use crate::calendar::Event;
use crate::text::{
    chars_of, lemma_first_index_found, lemma_push_contains, lemma_push_no_duplicates, split_once,
};
use crate::time::{
    format_rfc3339, minutes_before, parse_rfc3339, rfc3339_instant, rfc3339_round_trips,
    rfc3339_text, Moment, MIN_SECS,
};

verus! {

broadcast use vstd::string::group_string_axioms;

// ---------------------------------------------------------------------------
// Announced meetings
// ---------------------------------------------------------------------------

/// The texts of a sequence of strings.
pub open spec fn texts(v: Seq<String>) -> Seq<Seq<char>> {
    v.map_values(|k: String| k@)
}

/// The keys of the meetings already announced; no key occurs twice.
pub struct FiredSet {
    keys: Vec<String>,
}

impl FiredSet {
    /// The texts of the keys, in the order in which they are held.
    pub closed spec fn key_texts(self) -> Seq<Seq<char>> {
        texts(self.keys@)
    }

    #[verifier::type_invariant]
    spec fn no_repeats(self) -> bool {
        self.key_texts().no_duplicates()
    }

    /// No meeting announced yet.
    pub fn new() -> (s: FiredSet)
        ensures
            s@ == Set::<Seq<char>>::empty(),
    {
        let s = FiredSet { keys: Vec::new() };
        assert(s.key_texts() =~= Seq::<Seq<char>>::empty());
        assert(s@ =~= Set::<Seq<char>>::empty());
        s
    }

    /// Whether `key` is held.
    pub fn contains(&self, key: &str) -> (r: bool)
        ensures
            r == self@.contains(key@),
    {
        let mut i: usize = 0;
        while i < self.keys.len()
            invariant
                i <= self.keys@.len(),
                forall|j: int| 0 <= j < i ==> self.keys@[j]@ != key@,
            decreases self.keys@.len() - i,
        {
            if crate::text::str_equal(self.keys[i].as_str(), key) {
                assert(self.key_texts()[i as int] == key@);
                return true;
            }
            i = i + 1;
        }
        assert forall|j: int| 0 <= j < self.key_texts().len() implies self.key_texts()[j] != key@ by {
            assert(self.key_texts()[j] == self.keys@[j]@);
        }
        false
    }

    /// Adds `key`; tells whether it was new.
    pub fn insert(&mut self, key: String) -> (fresh: bool)
        ensures
            final(self)@ == old(self)@.insert(key@),
            fresh == !old(self)@.contains(key@),
    {
        if self.contains(key.as_str()) {
            assert(self@.insert(key@) =~= self@);
            return false;
        }
        proof {
            use_type_invariant(&*self);
        }
        let mut keys: Vec<String> = Vec::new();
        std::mem::swap(&mut keys, &mut self.keys);
        let ghost before = texts(keys@);
        keys.push(key);
        assert(texts(keys@) =~= before.push(key@));
        proof {
            assert(before.to_set().contains(key@) == before.contains(key@));
            lemma_push_no_duplicates(before, key@);
        }
        self.keys = keys;
        assert(self@ =~= old(self)@.insert(key@)) by {
            before.lemma_push_to_set_commute(key@);
        }
        true
    }

    /// Keeps exactly the keys that are still worth holding at `now`.
    fn retain_relevant(&mut self, now: Moment)
        ensures
            final(self)@ == old(self)@.filter(|k: Seq<char>| key_kept(k, now)),
    {
        proof {
            use_type_invariant(&*self);
        }
        let mut old_keys: Vec<String> = Vec::new();
        std::mem::swap(&mut old_keys, &mut self.keys);
        let ghost all = texts(old_keys@);
        let mut kept: Vec<String> = Vec::new();
        let mut i: usize = 0;
        assert(all.take(0) =~= Seq::<Seq<char>>::empty());
        assert(texts(kept@) =~= Seq::<Seq<char>>::empty());
        while i < old_keys.len()
            invariant
                i <= old_keys@.len(),
                all == texts(old_keys@),
                all.no_duplicates(),
                texts(kept@).no_duplicates(),
                forall|t: Seq<char>|
                    #[trigger] texts(kept@).contains(t) <==> (all.take(i as int).contains(t)
                        && key_kept(t, now)),
            decreases old_keys@.len() - i,
        {
            let ghost kept_before = texts(kept@);
            let k = old_keys[i].clone();
            assert(k@ == all[i as int]);
            assert(all.take(i + 1) =~= all.take(i as int).push(all[i as int]));
            assert(!all.take(i as int).contains(all[i as int])) by {
                if all.take(i as int).contains(all[i as int]) {
                    let j = choose|j: int| 0 <= j < i && all.take(i as int)[j] == all[i as int];
                    assert(all[j] == all[i as int]);
                }
            }
            if keep_key(k.as_str(), now) {
                kept.push(k);
                let ghost ks = kept_before.push(all[i as int]);
                assert(texts(kept@) =~= ks);
                proof {
                    lemma_push_no_duplicates(kept_before, all[i as int]);
                }
                assert forall|t: Seq<char>|
                    ks.contains(t) <==> (all.take(i + 1).contains(t) && key_kept(t, now)) by {
                    lemma_push_contains(kept_before, all[i as int], t);
                    lemma_push_contains(all.take(i as int), all[i as int], t);
                    assert(kept_before.contains(t) <==> (all.take(i as int).contains(t) && key_kept(
                        t,
                        now,
                    )));
                }
            } else {
                assert forall|t: Seq<char>|
                    kept_before.contains(t) <==> (all.take(i + 1).contains(t) && key_kept(t, now)) by {
                    lemma_push_contains(all.take(i as int), all[i as int], t);
                }
            }
            i = i + 1;
        }
        assert(all.take(i as int) =~= all);
        self.keys = kept;
        assert(old(self).key_texts() == all);
        assert forall|t: Seq<char>| self@.contains(t) <==> (old(self)@.contains(t) && key_kept(t, now)) by {
            assert(self@.contains(t) == self.key_texts().contains(t));
            assert(old(self)@.contains(t) == all.contains(t));
        }
        assert(self@ =~= old(self)@.filter(|k: Seq<char>| key_kept(k, now)));
    }
}

impl View for FiredSet {
    type V = Set<Seq<char>>;

    closed spec fn view(&self) -> Set<Seq<char>> {
        self.key_texts().to_set()
    }
}

// ---------------------------------------------------------------------------
// Keys of announced meetings
// ---------------------------------------------------------------------------

/// The key of a meeting: the RFC 3339 text of its start, `|`, its title.
pub open spec fn event_key_text(e: Event) -> Seq<char> {
    rfc3339_text(e.start.secs, e.start.nanos, e.start.offset) + "|"@ + e.summary@
}

/// The start instant that a key announces: its text up to the first `|`,
/// read as RFC 3339.
pub open spec fn key_start(key: Seq<char>) -> Option<(i64, u32)> {
    match split_once(key, '|') {
        Some((start, _)) => rfc3339_instant(start),
        None => None,
    }
}

/// A key is still worth holding at `now` when its meeting has not started
/// yet, or when its start cannot be read.
pub open spec fn key_kept(key: Seq<char>, now: Moment) -> bool {
    match key_start(key) {
        Some((secs, nanos)) => !(secs < now.secs || (secs == now.secs && nanos < now.nanos)),
        None => true,
    }
}

/// A key from the RFC 3339 text of a start and a title: the text, `|`, the
/// title.
pub fn join_key(start_text: &str, summary: &str) -> (k: String)
    ensures
        k@ == start_text@ + "|"@ + summary@,
{
    let mut k = String::new();
    k.append(start_text);
    k.append("|");
    k.append(summary);
    k
}

/// The key under which a meeting is remembered once announced. When chrono
/// reads its start text back unchanged, the key announces the meeting's start.
pub fn event_key(e: &Event) -> (k: String)
    requires
        e.start.wf(),
    ensures
        k@ == event_key_text(*e),
        rfc3339_round_trips(e.start.secs, e.start.offset) ==> key_start(k@) == Some(
            (e.start.secs, e.start.nanos),
        ),
{
    let start_text = format_rfc3339(e.start.secs, e.start.nanos, e.start.offset);
    let k = join_key(start_text.as_str(), e.summary.as_str());
    proof {
        reveal_strlit("|");
        let n = start_text@.len() as int;
        assert(k@[n] == '|');
        assert forall|j: int| 0 <= j < n implies k@[j] != '|' by {
            assert(k@[j] == start_text@[j]);
        }
        lemma_first_index_found(k@, '|', n);
        assert(k@.take(n) =~= start_text@);
    }
    k
}

/// Whether a key whose start reads as `start` is still worth holding at
/// `now`: the start is not before `now`, or could not be read.
pub fn kept_for_start(start: Option<(i64, u32)>, now: &Moment) -> (r: bool)
    ensures
        r == match start {
            Some((secs, nanos)) => !(secs < now.secs || (secs == now.secs && nanos < now.nanos)),
            None => true,
        },
{
    match start {
        Some((secs, nanos)) => !(secs < now.secs || (secs == now.secs && nanos < now.nanos)),
        None => true,
    }
}

/// Whether a key is still worth holding at `now`.
fn keep_key(key: &str, now: Moment) -> (r: bool)
    ensures
        r == key_kept(key@, now),
{
    let cs = chars_of(key);
    match crate::text::find_char(cs.as_slice(), '|') {
        Some(i) => {
            proof {
                crate::text::lemma_first_index_bounds(cs@, '|');
            }
            let start = crate::text::string_from_chars(
                crate::text::sub_chars(cs.as_slice(), 0, i).as_slice(),
            );
            kept_for_start(parse_rfc3339(start.as_str()), &now)
        },
        None => kept_for_start(None, &now),
    }
}

/// Forgets the keys of the meetings that have started before `now`; keys
/// whose start cannot be read are kept.
pub fn prune_fired(fired: &mut FiredSet, now: Moment)
    ensures
        final(fired)@ == old(fired)@.filter(|k: Seq<char>| key_kept(k, now)),
{
    fired.retain_relevant(now);
}

// ---------------------------------------------------------------------------
// Due meetings
// ---------------------------------------------------------------------------

/// The moment `lead_minutes` minutes before `start`.
pub open spec fn trigger_at(start: Moment, lead_minutes: u32) -> Moment {
    Moment { secs: (start.secs - 60 * lead_minutes) as i64, nanos: start.nanos, offset: start.offset }
}

/// Subtracting the lead time stays within chrono's range.
pub open spec fn lead_fits(start: Moment, lead_minutes: u32) -> bool {
    start.wf() && MIN_SECS <= start.secs - 60 * lead_minutes
}

/// When the plane should fly for a meeting that starts at `start`: the
/// same instant minus the lead time, shown at the same offset.
pub fn trigger_time(start: Moment, lead_minutes: u32) -> (t: Moment)
    requires
        lead_fits(start, lead_minutes),
    ensures
        t == trigger_at(start, lead_minutes),
        t.wf(),
        t.instant() == start.instant() - 60_000_000_000 * lead_minutes,
{
    minutes_before(start, lead_minutes)
}

/// The meeting is in its announcement window at `now` (the trigger instant
/// included, the start excluded) and has not been announced.
pub open spec fn is_due(e: Event, now: Moment, lead_minutes: u32, fired: Set<Seq<char>>) -> bool {
    &&& !now.before(trigger_at(e.start, lead_minutes))
    &&& now.before(e.start)
    &&& !fired.contains(event_key_text(e))
}

/// The due meeting that starts first (the first of those that start
/// together), if any meeting is due.
pub fn due<'a>(events: &'a [Event], now: Moment, lead_minutes: u32, fired: &FiredSet) -> (r:
    Option<&'a Event>)
    requires
        forall|i: int| 0 <= i < events@.len() ==> lead_fits(#[trigger] events@[i].start, lead_minutes),
    ensures
        r is None ==> forall|i: int|
            0 <= i < events@.len() ==> !is_due(#[trigger] events@[i], now, lead_minutes, fired@),
        r matches Some(ev) ==> exists|i: int|
            0 <= i < events@.len() && *ev == events@[i] && is_due(events@[i], now, lead_minutes, fired@)
                && (forall|j: int|
                0 <= j < events@.len() && is_due(#[trigger] events@[j], now, lead_minutes, fired@)
                    ==> (j < i ==> events@[i].start.before(events@[j].start)) && !events@[j].start.before(
                    events@[i].start,
                )),
{
    let mut best: Option<usize> = None;
    let mut i: usize = 0;
    while i < events.len()
        invariant
            i <= events@.len(),
            forall|k: int| 0 <= k < events@.len() ==> lead_fits(#[trigger] events@[k].start, lead_minutes),
            match best {
                None => forall|j: int|
                    0 <= j < i ==> !is_due(#[trigger] events@[j], now, lead_minutes, fired@),
                Some(b) => b < i && is_due(events@[b as int], now, lead_minutes, fired@) && forall|j: int|
                    0 <= j < i && is_due(#[trigger] events@[j], now, lead_minutes, fired@) ==> (j
                        < b ==> events@[b as int].start.before(events@[j].start))
                        && !events@[j].start.before(events@[b as int].start),
            },
        decreases events@.len() - i,
    {
        let e = &events[i];
        let t = trigger_time(e.start, lead_minutes);
        if !now.is_before(&t) && now.is_before(&e.start) {
            let key = event_key(e);
            if !fired.contains(key.as_str()) {
                match best {
                    None => {
                        best = Some(i);
                    },
                    Some(b) => {
                        if e.start.is_before(&events[b].start) {
                            best = Some(i);
                        }
                    },
                }
            }
        }
        i = i + 1;
    }
    match best {
        None => None,
        Some(b) => Some(&events[b]),
    }
}

// ---------------------------------------------------------------------------
// Gates
// ---------------------------------------------------------------------------

/// Automatic flights are held back while paused, or during a meeting when
/// the user asked for quiet meetings.
pub fn gates_blocked(paused: bool, suppress_during_meeting: bool, in_meeting: bool) -> (blocked:
    bool)
    ensures
        blocked == (paused || (suppress_during_meeting && in_meeting)),
{
    paused || (suppress_during_meeting && in_meeting)
}

// ---------------------------------------------------------------------------
// Laws
// ---------------------------------------------------------------------------

/// A meeting is announced once: once its key is remembered, it is never due
/// again, whatever the time and the lead.
pub proof fn law_announced_meeting_is_not_due_again(
    e: Event,
    now: Moment,
    lead_minutes: u32,
    fired: Set<Seq<char>>,
)
    ensures
        !is_due(e, now, lead_minutes, fired.insert(event_key_text(e))),
{
}

/// A due meeting is in its window: the trigger instant has come and the
/// meeting has not started.
pub proof fn law_due_lies_in_window(e: Event, now: Moment, lead_minutes: u32, fired: Set<Seq<char>>)
    requires
        lead_fits(e.start, lead_minutes),
        now.wf(),
        is_due(e, now, lead_minutes, fired),
    ensures
        e.start.instant() - 60_000_000_000 * lead_minutes <= now.instant() < e.start.instant(),
{
    crate::time::lemma_before_is_instant_order(now, trigger_at(e.start, lead_minutes));
    crate::time::lemma_before_is_instant_order(now, e.start);
}

/// Every meeting in its window is due: whatever the lead, a meeting whose
/// start minus the lead has come, that has not started, and whose key has not
/// been announced is due; so `due` answers `Some` whenever such a meeting is
/// among the events.
pub proof fn law_meeting_in_window_is_due(
    e: Event,
    now: Moment,
    lead_minutes: u32,
    fired: Set<Seq<char>>,
)
    requires
        lead_fits(e.start, lead_minutes),
        now.wf(),
        e.start.instant() - 60_000_000_000 * lead_minutes <= now.instant(),
        now.instant() < e.start.instant(),
        !fired.contains(event_key_text(e)),
    ensures
        is_due(e, now, lead_minutes, fired),
{
    let t = trigger_at(e.start, lead_minutes);
    assert(t.wf());
    assert(t.instant() == e.start.instant() - 60_000_000_000 * lead_minutes);
    crate::time::lemma_before_is_instant_order(now, t);
    crate::time::lemma_before_is_instant_order(now, e.start);
}

/// Pruning at `now` forgets exactly the held keys whose meeting started
/// before `now`: a key whose start reads as an instant is kept if and only if
/// that instant is not before `now`, and a key whose start cannot be read is
/// kept.
pub proof fn law_prune_forgets_started_meetings(key: Seq<char>, fired: Set<Seq<char>>, now: Moment)
    ensures
        key_start(key) matches Some((secs, nanos)) ==> (fired.filter(
            |k: Seq<char>| key_kept(k, now),
        ).contains(key) <==> fired.contains(key) && !(secs < now.secs || (secs == now.secs
            && nanos < now.nanos))),
        key_start(key) is None ==> (fired.filter(|k: Seq<char>| key_kept(k, now)).contains(key)
            <==> fired.contains(key)),
{
}

} // verus!
